//! The configuration for a set of packages, and the manifest parser.

use vstd::prelude::*;
use vstd::string::StringExecFns;

use crate::grammar::EntrySeq;
use crate::grammar::FoldState;
use crate::grammar::PkgSeq;
use crate::grammar::Region;
use crate::grammar::has_pkg;
use crate::grammar::init_state;
use crate::grammar::ins_pos;
use crate::grammar::lemma_first_nl;
use crate::grammar::lemma_insert_wf;
use crate::grammar::lemma_pkg_at_has;
use crate::grammar::lemma_pkg_at_sorted;
use crate::grammar::lemma_shape_of_wf;
use crate::grammar::lemma_shape_step_wf;
use crate::grammar::lemma_split_step;
use crate::grammar::parse_spec;
use crate::grammar::pkg_at;
use crate::grammar::pkgs_wf;
use crate::grammar::run_from;
use crate::grammar::shape_step;
use crate::grammar::shape_wf;
use crate::grammar::split_lines;
use crate::grammar::split_rec;
use crate::grammar::state_wf;
use crate::package::Package;
use crate::scan::LineTok;
use crate::scan::classify;
use crate::scan::find_nl;
use crate::scan::parts_view;
use crate::scan::tok_view;
use crate::text::chars_of;
use crate::text::decimal_string;
use crate::text::str_eq;
use crate::text::str_lt;

verus! {

/// The configuration for a set of packages: each package under its name,
/// sorted by name, each name at most once.
#[derive(Debug)]
pub struct Config {
    pub packages: Vec<(String, Package)>,
}

/// The name-to-fields view of a list of named packages.
pub open spec fn pkgs_view(ps: Seq<(String, Package)>) -> PkgSeq {
    Seq::new(ps.len(), |i: int| (ps[i].0@, ps[i].1@))
}

impl View for Config {
    type V = PkgSeq;

    open spec fn view(&self) -> PkgSeq {
        pkgs_view(self.packages@)
    }
}

impl Config {
    /// Valid names and fields, strictly sorted by name.
    pub open spec fn wf(&self) -> bool {
        pkgs_wf(self@)
    }

    /// The number of packages.
    pub fn len(&self) -> (n: usize)
        ensures
            n == self@.len(),
    {
        self.packages.len()
    }

    /// The package named `name`, if the configuration has one.
    pub fn get<'a>(&'a self, name: &str) -> (r: Option<&'a Package>)
        ensures
            match r {
                Some(p) => has_pkg(self@, name@) && pkg_at(self@, name@, 0) < self@.len() && p@
                    == self@[pkg_at(self@, name@, 0)].1,
                None => !has_pkg(self@, name@),
            },
    {
        let n = self.packages.len();
        let mut i: usize = 0;
        while i < n
            invariant
                n == self@.len(),
                i <= n,
                pkg_at(self@, name@, 0) == pkg_at(self@, name@, i as int),
            decreases n - i,
        {
            if str_eq(self.packages[i].0.as_str(), name) {
                proof {
                    assert(self@[i as int].0 == self.packages@[i as int].0@);
                    assert(pkg_at(self@, name@, i as int) == i as int);
                    assert(has_pkg(self@, name@));
                }
                return Some(&self.packages[i].1);
            }
            proof {
                assert(self@[i as int].0 == self.packages@[i as int].0@);
                assert(pkg_at(self@, name@, i as int) == pkg_at(self@, name@, i as int + 1));
            }
            i = i + 1;
        }
        proof {
            lemma_pkg_at_has(self@, name@);
        }
        None
    }
}

/// Why a manifest could not be parsed.
#[derive(Debug)]
pub enum ParseError {
    /// The text is not valid manifest syntax, or its tables do not have
    /// the expected shape.  Holds a diagnostic.
    Toml(String),
    /// The file could not be read.  Holds the operating system's detail.
    Io(String),
}

impl ParseError {
    /// The full diagnostic message.
    pub fn message(&self) -> (r: String)
        ensures
            match self {
                ParseError::Toml(d) => r@ == "Cannot parse toml: "@ + d@,
                ParseError::Io(d) => r@ == "IO error: "@ + d@,
            },
    {
        match self {
            ParseError::Toml(d) => {
                let mut s = String::from_str("Cannot parse toml: ");
                s.append(d.as_str());
                s
            },
            ParseError::Io(d) => {
                let mut s = String::from_str("IO error: ");
                s.append(d.as_str());
                s
            },
        }
    }
}

/// Which table the lines read so far have opened (executable side).
#[derive(Clone, Copy)]
enum Opened {
    Root,
    PkgRoot,
    InPkg(usize),
    Other,
}

spec fn opened_view(o: Opened, ps: Seq<(String, Package)>) -> Region {
    match o {
        Opened::Root => Region::Root,
        Opened::PkgRoot => Region::PkgRoot,
        Opened::Other => Region::Other,
        Opened::InPkg(i) => Region::InPkg(pkgs_view(ps)[i as int].0),
    }
}

spec fn m_view(ps: Seq<(String, Package)>, o: Opened, rs: bool) -> FoldState {
    FoldState { region: opened_view(o, ps), pkgs: pkgs_view(ps), root_seen: rs }
}

spec fn m_wf(ps: Seq<(String, Package)>, o: Opened) -> bool {
    match o {
        Opened::InPkg(i) => (i as int) < ps.len(),
        _ => true,
    }
}

/// The index of the package named `name`, if there is one.
fn find_pkg_idx(ps: &Vec<(String, Package)>, name: &str) -> (r: Option<usize>)
    ensures
        match r {
            Some(i) => i as int == pkg_at(pkgs_view(ps@), name@, 0) && (i as int) < ps@.len()
                && has_pkg(pkgs_view(ps@), name@),
            None => !has_pkg(pkgs_view(ps@), name@),
        },
{
    let ghost v = pkgs_view(ps@);
    let n = ps.len();
    let mut i: usize = 0;
    while i < n
        invariant
            n == ps@.len(),
            v == pkgs_view(ps@),
            i <= n,
            pkg_at(v, name@, 0) == pkg_at(v, name@, i as int),
        decreases n - i,
    {
        if str_eq(ps[i].0.as_str(), name) {
            proof {
                assert(v[i as int].0 == ps@[i as int].0@);
                assert(pkg_at(v, name@, i as int) == i as int);
                assert(has_pkg(v, name@));
            }
            return Some(i);
        }
        proof {
            assert(v[i as int].0 == ps@[i as int].0@);
            assert(pkg_at(v, name@, i as int) == pkg_at(v, name@, i as int + 1));
        }
        i = i + 1;
    }
    proof {
        lemma_pkg_at_has(v, name@);
    }
    None
}

/// Where the package named `name` belongs in the sorted list.
fn find_ins(ps: &Vec<(String, Package)>, name: &str) -> (r: usize)
    ensures
        r as int == ins_pos(pkgs_view(ps@), name@, 0),
        r <= ps@.len(),
{
    let ghost v = pkgs_view(ps@);
    let n = ps.len();
    let mut i: usize = 0;
    while i < n
        invariant
            n == ps@.len(),
            v == pkgs_view(ps@),
            i <= n,
            ins_pos(v, name@, 0) == ins_pos(v, name@, i as int),
        decreases n - i,
    {
        if str_lt(name, ps[i].0.as_str()) {
            proof {
                assert(v[i as int].0 == ps@[i as int].0@);
                assert(ins_pos(v, name@, i as int) == i as int);
            }
            return i;
        }
        proof {
            assert(v[i as int].0 == ps@[i as int].0@);
            assert(ins_pos(v, name@, i as int) == ins_pos(v, name@, i as int + 1));
        }
        i = i + 1;
    }
    n
}

/// Applies one classified line to the fold state; `false` is an error.
fn apply(ps: &mut Vec<(String, Package)>, opened: &mut Opened, root_seen: &mut bool, tok: LineTok) -> (ok:
    bool)
    requires
        m_wf(old(ps)@, *old(opened)),
        state_wf(m_view(old(ps)@, *old(opened), *old(root_seen))),
        shape_wf(tok_view(tok)),
    ensures
        m_wf(final(ps)@, *final(opened)),
        ok ==> shape_step(m_view(old(ps)@, *old(opened), *old(root_seen)), tok_view(tok)) == Some(
            m_view(final(ps)@, *final(opened), *final(root_seen)),
        ) && state_wf(m_view(final(ps)@, *final(opened), *final(root_seen))),
        !ok ==> shape_step(m_view(old(ps)@, *old(opened), *old(root_seen)), tok_view(tok)) is None,
{
    let ghost st0 = m_view(ps@, *opened, *root_seen);
    match tok {
        LineTok::Blank => true,
        LineTok::Bad => false,
        LineTok::Header(parts) => {
            let np = parts.len();
            let is_pkg = np > 0 && str_eq(parts[0].as_str(), "package");
            proof {
                assert(parts_view(parts@).len() == np);
                if np > 0 {
                    assert(parts_view(parts@)[0] == parts@[0]@);
                }
            }
            if !is_pkg {
                *opened = Opened::Other;
                proof {
                    assert(m_view(ps@, *opened, *root_seen) == FoldState {
                        region: Region::Other,
                        pkgs: st0.pkgs,
                        root_seen: st0.root_seen,
                    });
                }
                true
            } else if np == 1 {
                if *root_seen {
                    false
                } else {
                    *opened = Opened::PkgRoot;
                    *root_seen = true;
                    true
                }
            } else if np == 2 {
                let name = parts[1].clone();
                proof {
                    assert(parts_view(parts@)[1] == parts@[1]@);
                }
                match find_pkg_idx(ps, name.as_str()) {
                    Some(_) => false,
                    None => {
                        let pos = find_ins(ps, name.as_str());
                        let ghost v0 = pkgs_view(ps@);
                        let ghost n = name@;
                        let ghost x = (n, Seq::<(Seq<char>, Seq<char>)>::empty());
                        ps.insert(pos, (name, Package { entries: Vec::new() }));
                        *opened = Opened::InPkg(pos);
                        proof {
                            v0.insert_ensures(pos as int, x);
                            assert forall|m: int| 0 <= m < pkgs_view(ps@).len() implies (
                            #[trigger] pkgs_view(ps@)[m]) == v0.insert(pos as int, x)[m] by {
                                if m < pos {
                                    assert(ps@[m] == old(ps)@[m]);
                                } else if m == pos {
                                    assert(ps@[m].0@ == n);
                                    assert(ps@[m].1@ =~= Seq::<(Seq<char>, Seq<char>)>::empty());
                                } else {
                                    assert(ps@[m] == old(ps)@[m - 1]);
                                }
                            }
                            assert(pkgs_view(ps@) =~= v0.insert(pos as int, x));
                            lemma_insert_wf(v0, n);
                            assert(pkgs_view(ps@)[pos as int].0 == n);
                            assert(m_view(ps@, *opened, *root_seen) == FoldState {
                                region: Region::InPkg(n),
                                pkgs: v0.insert(ins_pos(v0, n, 0), x),
                                root_seen: st0.root_seen,
                            });
                        }
                        true
                    },
                }
            } else {
                false
            }
        },
        LineTok::Entry(k, v) => {
            match *opened {
                Opened::Root => {
                    if str_eq(k.as_str(), "package") {
                        false
                    } else {
                        true
                    }
                },
                Opened::PkgRoot => false,
                Opened::Other => true,
                Opened::InPkg(idx) => {
                    let ghost v0 = pkgs_view(ps@);
                    let ghost n = v0[idx as int].0;
                    proof {
                        lemma_pkg_at_sorted(v0, n, idx as int);
                    }
                    let dup = match ps[idx].1.get(k.as_str()) {
                        Some(_) => true,
                        None => false,
                    };
                    if dup {
                        false
                    } else {
                        let mut rec = ps.remove(idx);
                        rec.1.entries.push((k, v));
                        ps.insert(idx, rec);
                        proof {
                            let ghost upd = (v0[idx as int].0, v0[idx as int].1.push((k@, v@)));
                            assert forall|m: int| 0 <= m < pkgs_view(ps@).len() implies (
                            #[trigger] pkgs_view(ps@)[m]) == v0.update(idx as int, upd)[m] by {
                                if m < idx {
                                    assert(ps@[m] == old(ps)@[m]);
                                } else if m == idx {
                                    assert(ps@[m].0 == old(ps)@[m].0);
                                    assert(ps@[m].1.entries@ == old(ps)@[m].1.entries@.push(
                                        (k, v),
                                    ));
                                    assert(ps@[m].1@ =~= v0[idx as int].1.push((k@, v@)));
                                } else {
                                    assert(ps@[m] == old(ps)@[m]);
                                }
                            }
                            assert(pkgs_view(ps@) =~= v0.update(idx as int, upd));
                            lemma_shape_step_wf(st0, tok_view(tok));
                            assert(pkgs_view(ps@)[idx as int].0 == n);
                        }
                        true
                    }
                },
            }
        },
    }
}

/// Parses a manifest into a package [`Config`].
///
/// On success the configuration holds exactly the packages the manifest
/// defines, sorted by name; on failure the manifest has a syntax or
/// structure error and a [`ParseError::Toml`] says so.  Defining the same
/// package twice, or the same field twice within one package, is such an
/// error: the parser does not pick a winner among duplicates.
pub fn parse_manifest(manifest: &str) -> (r: Result<Config, ParseError>)
    ensures
        match r {
            Ok(c) => parse_spec(manifest@) == Some(c@) && c.wf(),
            Err(e) => parse_spec(manifest@) is None && e is Toml,
        },
{
    let cs = chars_of(manifest);
    let mut ps: Vec<(String, Package)> = Vec::new();
    let mut opened = Opened::Root;
    let mut root_seen = false;
    let mut i: usize = 0;
    let mut ln: usize = 1;
    proof {
        assert(pkgs_view(ps@) =~= Seq::<(Seq<char>, EntrySeq)>::empty());
        assert(m_view(ps@, opened, root_seen) == init_state());
    }
    loop
        invariant_except_break
            i as int <= cs@.len(),
            cs@ == manifest@,
            m_wf(ps@, opened),
            state_wf(m_view(ps@, opened, root_seen)),
            run_from(init_state(), split_lines(manifest@)) == run_from(
                m_view(ps@, opened, root_seen),
                split_rec(cs@, i as int, Seq::empty()),
            ),
        invariant
            cs@ == manifest@,
        ensures
            run_from(init_state(), split_lines(manifest@)) == Some(
                m_view(ps@, opened, root_seen),
            ),
            state_wf(m_view(ps@, opened, root_seen)),
        decreases cs@.len() - i,
    {
        let j = find_nl(&cs, i);
        let mut hi = j;
        if hi > i && cs[hi - 1] == '\r' {
            hi = hi - 1;
        }
        let line = sub_chars(&cs, i, hi);
        let ghost lines_here = split_rec(cs@, i as int, Seq::empty());
        proof {
            lemma_first_nl(cs@, i as int);
            lemma_split_step(cs@, i as int, Seq::empty());
            assert(Seq::empty() + cs@.subrange(i as int, j as int) =~= cs@.subrange(
                i as int,
                j as int,
            ));
            if j > i && cs@[j as int - 1] == '\r' {
                assert(cs@.subrange(i as int, j as int).drop_last() =~= cs@.subrange(
                    i as int,
                    j as int - 1,
                ));
            }
            assert(lines_here[0] == line@);
        }
        let tok = classify(&line);
        let ghost st0 = m_view(ps@, opened, root_seen);
        proof {
            lemma_shape_of_wf(line@);
        }
        let ok = apply(&mut ps, &mut opened, &mut root_seen, tok);
        if !ok {
            proof {
                assert(run_from(st0, lines_here) is None);
            }
            let mut msg = String::from_str(
                "not valid manifest syntax, or an unexpected table shape, at line ",
            );
            let num = decimal_string(ln);
            msg.append(num.as_str());
            return Err(ParseError::Toml(msg));
        }
        let ghost st1 = m_view(ps@, opened, root_seen);
        proof {
            assert(lines_here.len() > 0);
            assert(run_from(st0, lines_here) == run_from(st1, lines_here.drop_first()));
        }
        if j < cs.len() {
            proof {
                assert(lines_here.drop_first() =~= split_rec(cs@, j as int + 1, Seq::empty()));
            }
            i = j + 1;
            if ln < usize::MAX {
                ln = ln + 1;
            }
        } else {
            proof {
                assert(lines_here =~= seq![line@]);
                assert(lines_here.drop_first() =~= Seq::<Seq<char>>::empty());
            }
            break ;
        }
    }
    proof {
        assert(parse_spec(manifest@) == Some(pkgs_view(ps@)));
    }
    let c = Config { packages: ps };
    Ok(c)
}

/// Copies the characters `cs[lo..hi]` into a fresh vector.
fn sub_chars(cs: &Vec<char>, lo: usize, hi: usize) -> (r: Vec<char>)
    requires
        lo <= hi <= cs@.len(),
    ensures
        r@ == cs@.subrange(lo as int, hi as int),
{
    let mut buf: Vec<char> = Vec::new();
    let mut i: usize = lo;
    while i < hi
        invariant
            lo <= i <= hi <= cs@.len(),
            buf@ == cs@.subrange(lo as int, i as int),
        decreases hi - i,
    {
        buf.push(cs[i]);
        i = i + 1;
        proof {
            assert(buf@ =~= cs@.subrange(lo as int, i as int));
        }
    }
    buf
}

} // verus!
