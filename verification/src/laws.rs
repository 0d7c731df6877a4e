//! Laws of the parser, stated over the grammar and proved once for all
//! manifests.

use vstd::prelude::*;

use crate::grammar::FoldState;
use crate::grammar::LineShape;
use crate::grammar::PkgSeq;
use crate::grammar::has_pkg;
use crate::grammar::init_state;
use crate::grammar::ins_pos;
use crate::grammar::lemma_ins_pos;
use crate::grammar::lemma_parse_spec_wf;
use crate::grammar::next_state;
use crate::grammar::parse_spec;
use crate::grammar::pkg_at;
use crate::grammar::pkgs_wf;
use crate::grammar::run_from;
use crate::grammar::shape_of;
use crate::grammar::shape_step;
use crate::grammar::split_lines;
use crate::emit::emit_spec;
use crate::emit::lemma_run_append;
use crate::emit::lemma_run_pkgs;
use crate::emit::lemma_split_emit;
use crate::emit::pkgs_lines;
use crate::text::lemma_lex_irrefl;

verus! {

/// The names under which a package list holds its packages.
pub open spec fn names_of(pkgs: PkgSeq) -> Set<Seq<char>> {
    Set::new(|n: Seq<char>| has_pkg(pkgs, n))
}

/// The names that `[package.NAME]` headers among the lines define.
pub open spec fn header_names(lines: Seq<Seq<char>>) -> Set<Seq<char>>
    decreases lines.len(),
{
    if lines.len() == 0 {
        Set::empty()
    } else {
        let rest = header_names(lines.drop_first());
        match shape_of(lines[0]) {
            LineShape::Header(parts) => if parts.len() == 2 && parts[0] == "package"@ {
                rest.insert(parts[1])
            } else {
                rest
            },
            _ => rest,
        }
    }
}

/// The names that the `[package.NAME]` headers of a manifest define.
pub open spec fn manifest_names(s: Seq<char>) -> Set<Seq<char>> {
    header_names(split_lines(s))
}

proof fn lemma_names_insert(pkgs: PkgSeq, n: Seq<char>)
    ensures
        names_of(pkgs.insert(ins_pos(pkgs, n, 0), (n, Seq::<(Seq<char>, Seq<char>)>::empty())))
            =~= names_of(pkgs).insert(n),
{
    let p = ins_pos(pkgs, n, 0);
    lemma_ins_pos(pkgs, n, 0);
    let x = (n, Seq::<(Seq<char>, Seq<char>)>::empty());
    let r = pkgs.insert(p, x);
    pkgs.insert_ensures(p, x);
    assert forall|m: Seq<char>| names_of(r).contains(m) implies names_of(pkgs).insert(n).contains(
        m,
    ) by {
        let i = choose|i: int| 0 <= i < r.len() && r[i].0 == m;
        if i < p {
            assert(pkgs[i].0 == m);
        } else if i == p {
        } else {
            assert(pkgs[i - 1].0 == m);
        }
    }
    assert forall|m: Seq<char>| names_of(pkgs).insert(n).contains(m) implies names_of(r).contains(
        m,
    ) by {
        if m == n {
            assert(r[p].0 == n);
        } else {
            let i = choose|i: int| 0 <= i < pkgs.len() && pkgs[i].0 == m;
            if i < p {
                assert(r[i].0 == m);
            } else {
                assert(r[i + 1].0 == m);
            }
        }
    }
}

proof fn lemma_names_update(pkgs: PkgSeq, i: int, e: (Seq<char>, Seq<(Seq<char>, Seq<char>)>))
    requires
        0 <= i < pkgs.len(),
        e.0 == pkgs[i].0,
    ensures
        names_of(pkgs.update(i, e)) =~= names_of(pkgs),
{
    let r = pkgs.update(i, e);
    assert forall|m: Seq<char>| names_of(r).contains(m) implies names_of(pkgs).contains(m) by {
        let k = choose|k: int| 0 <= k < r.len() && r[k].0 == m;
        assert(pkgs[k].0 == m);
    }
    assert forall|m: Seq<char>| names_of(pkgs).contains(m) implies names_of(r).contains(m) by {
        let k = choose|k: int| 0 <= k < pkgs.len() && pkgs[k].0 == m;
        assert(r[k].0 == m);
    }
}

/// Folding lines over a state adds exactly the names of the
/// `[package.NAME]` headers among them.
proof fn lemma_run_names(st: FoldState, lines: Seq<Seq<char>>)
    requires
        run_from(st, lines) is Some,
    ensures
        names_of(run_from(st, lines)->Some_0.pkgs) =~= names_of(st.pkgs).union(
            header_names(lines),
        ),
    decreases lines.len(),
{
    if lines.len() == 0 {
        assert(names_of(st.pkgs).union(Set::empty()) =~= names_of(st.pkgs));
    } else {
        let st2 = next_state(st, lines[0])->Some_0;
        lemma_run_names(st2, lines.drop_first());
        let rest = header_names(lines.drop_first());
        match shape_of(lines[0]) {
            LineShape::Header(parts) => {
                if parts.len() == 2 && parts[0] == "package"@ {
                    let n = parts[1];
                    lemma_names_insert(st.pkgs, n);
                    assert(names_of(st2.pkgs) =~= names_of(st.pkgs).insert(n));
                    assert(names_of(st.pkgs).insert(n).union(rest) =~= names_of(st.pkgs).union(
                        rest.insert(n),
                    ));
                } else {
                    assert(st2.pkgs == st.pkgs);
                }
            },
            LineShape::Entry(k, v) => {
                match st.region {
                    crate::grammar::Region::InPkg(n) => {
                        let i = pkg_at(st.pkgs, n, 0);
                        crate::grammar::lemma_pkg_at(st.pkgs, n, 0);
                        assert(shape_step(st, shape_of(lines[0])) is Some);
                        assert(i < st.pkgs.len());
                        let e = (st.pkgs[i].0, st.pkgs[i].1.push((k, v)));
                        lemma_names_update(st.pkgs, i, e);
                        assert(names_of(st2.pkgs) =~= names_of(st.pkgs));
                    },
                    _ => {
                        assert(st2.pkgs == st.pkgs);
                    },
                }
            },
            _ => {
                assert(st2.pkgs == st.pkgs);
            },
        }
    }
}

/// A configuration parsed from a manifest holds exactly one package per
/// `[package.NAME]` header of the manifest, under exactly those names, each
/// name once.
pub proof fn lemma_parse_names(s: Seq<char>, pkgs: PkgSeq)
    requires
        parse_spec(s) == Some(pkgs),
    ensures
        names_of(pkgs) =~= manifest_names(s),
        pkgs_wf(pkgs),
        forall|i: int, j: int|
            0 <= i < j < pkgs.len() ==> (#[trigger] pkgs[i]).0 != (#[trigger] pkgs[j]).0,
{
    lemma_run_names(init_state(), split_lines(s));
    assert(names_of(Seq::<(Seq<char>, Seq<(Seq<char>, Seq<char>)>)>::empty()).union(
        manifest_names(s),
    ) =~= manifest_names(s));
    lemma_parse_spec_wf(s);
    assert forall|i: int, j: int| 0 <= i < j < pkgs.len() implies (#[trigger] pkgs[i]).0 != (
    #[trigger] pkgs[j]).0 by {
        if pkgs[i].0 == pkgs[j].0 {
            lemma_lex_irrefl(pkgs[i].0);
        }
    }
}

/// A manifest that defines no package parses to the empty configuration.
pub proof fn lemma_no_packages_empty(s: Seq<char>, pkgs: PkgSeq)
    requires
        parse_spec(s) == Some(pkgs),
        manifest_names(s) =~= Set::<Seq<char>>::empty(),
    ensures
        pkgs.len() == 0,
{
    lemma_parse_names(s, pkgs);
    if pkgs.len() > 0 {
        assert(names_of(pkgs).contains(pkgs[0].0));
    }
}

/// Round trip: writing a well-formed configuration back out as manifest
/// text and parsing that text yields the configuration again, package for
/// package and field for field (so in particular the same set of package
/// names).
pub proof fn lemma_round_trip(pkgs: PkgSeq)
    requires
        pkgs_wf(pkgs),
    ensures
        parse_spec(emit_spec(pkgs)) == Some(pkgs),
{
    lemma_split_emit(pkgs);
    assert(init_state().pkgs + pkgs =~= pkgs);
    lemma_run_pkgs(init_state(), pkgs);
    let stf = run_from(init_state(), pkgs_lines(pkgs))->Some_0;
    assert(stf.pkgs =~= pkgs);
    // the final empty line of the emitted text is blank
    assert(shape_of(Seq::<char>::empty()) == LineShape::Blank) by {
        assert(crate::grammar::skip_ws(Seq::<char>::empty(), 0) == 0);
    }
    assert(next_state(stf, Seq::<char>::empty()) == Some(stf));
    assert(run_from(stf, seq![Seq::<char>::empty()]) == Some(stf)) by {
        assert(seq![Seq::<char>::empty()].len() == 1);
        assert(seq![Seq::<char>::empty()][0] =~= Seq::<char>::empty());
        assert(seq![Seq::<char>::empty()].drop_first() =~= Seq::<Seq<char>>::empty());
        assert(run_from(stf, Seq::<Seq<char>>::empty()) == Some(stf));
    }
    lemma_run_append(init_state(), pkgs_lines(pkgs), seq![Seq::<char>::empty()]);
    assert(run_from(init_state(), split_lines(emit_spec(pkgs))) == Some(stf));
}

} // verus!
