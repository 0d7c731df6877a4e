//! Writing a configuration back out as manifest text.

use vstd::prelude::*;
use vstd::string::StringExecFns;

use crate::config::Config;
use crate::grammar::EntrySeq;
use crate::grammar::PkgSeq;
use crate::grammar::LineShape;
use crate::grammar::bare_seq;
use crate::grammar::drop_cr;
use crate::grammar::entries_wf;
use crate::grammar::entry_of;
use crate::grammar::has_key;
use crate::grammar::has_pkg;
use crate::grammar::ins_pos;
use crate::grammar::lemma_ins_pos;
use crate::grammar::lemma_pkg_at_sorted;
use crate::grammar::lemma_shape_of_wf;
use crate::grammar::lemma_shape_step_wf;
use crate::grammar::next_state;
use crate::grammar::pkgs_wf;
use crate::grammar::run_from;
use crate::grammar::state_wf;
use crate::grammar::FoldState;
use crate::grammar::Region;
use crate::grammar::first_nl;
use crate::grammar::lemma_first_nl;
use crate::grammar::lemma_split_step;
use crate::grammar::split_lines;
use crate::grammar::path_rec;
use crate::grammar::rest_blank;
use crate::grammar::shape_of;
use crate::grammar::skip_bare;
use crate::grammar::skip_ws;
use crate::grammar::split_rec;
use crate::grammar::str_end;
use crate::grammar::value_seq;
use crate::text::is_bare_char;
use crate::text::lemma_lex_asym;
use crate::text::lemma_lex_irrefl;
use crate::text::lex_lt;
use crate::text::is_value_char;
use crate::text::is_ws_char;

verus! {

/// The text of one header line, without its line feed.
pub open spec fn header_text(n: Seq<char>) -> Seq<char> {
    "[package."@ + n + "]"@
}

/// The text of one field line, without its line feed.
pub open spec fn entry_text(k: Seq<char>, v: Seq<char>) -> Seq<char> {
    k + " = \""@ + v + "\""@
}

/// The text of a package's field lines, one per field.
pub open spec fn entry_block(es: EntrySeq) -> Seq<char>
    decreases es.len(),
{
    if es.len() == 0 {
        Seq::empty()
    } else {
        entry_text(es[0].0, es[0].1) + seq!['\n'] + entry_block(es.drop_first())
    }
}

/// The text of one package: its header line, then its field lines.
pub open spec fn pkg_block(p: (Seq<char>, EntrySeq)) -> Seq<char> {
    header_text(p.0) + seq!['\n'] + entry_block(p.1)
}

/// The manifest text of a package list.
pub open spec fn emit_spec(pkgs: PkgSeq) -> Seq<char>
    decreases pkgs.len(),
{
    if pkgs.len() == 0 {
        Seq::empty()
    } else {
        pkg_block(pkgs[0]) + emit_spec(pkgs.drop_first())
    }
}

proof fn lemma_entry_block_snoc(es: EntrySeq, i: int)
    requires
        0 <= i < es.len(),
    ensures
        entry_block(es.take(i + 1)) == entry_block(es.take(i)) + (entry_text(es[i].0, es[i].1)
            + seq!['\n']),
    decreases i,
{
    let a = es.take(i + 1);
    let b = es.take(i);
    if i == 0 {
        assert(b.len() == 0);
        assert(a.drop_first() =~= Seq::<(Seq<char>, Seq<char>)>::empty());
        assert(entry_block(Seq::<(Seq<char>, Seq<char>)>::empty()) == Seq::<char>::empty());
        assert(a[0] == es[0]);
        assert(entry_block(a) == entry_text(a[0].0, a[0].1) + seq!['\n'] + entry_block(
            a.drop_first(),
        ));
        assert(entry_block(a) =~= entry_text(es[0].0, es[0].1) + seq!['\n']);
        assert(entry_block(b) + (entry_text(es[0].0, es[0].1) + seq!['\n']) =~= entry_text(
            es[0].0,
            es[0].1,
        ) + seq!['\n']);
    } else {
        lemma_entry_block_snoc(es.drop_first(), i - 1);
        assert(a.drop_first() =~= es.drop_first().take(i));
        assert(b.drop_first() =~= es.drop_first().take(i - 1));
        assert(a[0] == es[0] && b[0] == es[0]);
        assert(es.drop_first()[i - 1] == es[i]);
        assert(entry_block(a) == entry_text(es[0].0, es[0].1) + seq!['\n'] + entry_block(
            es.drop_first().take(i),
        ));
        assert(entry_block(b) == entry_text(es[0].0, es[0].1) + seq!['\n'] + entry_block(
            es.drop_first().take(i - 1),
        ));
        assert(entry_block(a) =~= entry_block(b) + (entry_text(es[i].0, es[i].1) + seq!['\n']));
    }
}

proof fn lemma_emit_snoc(pkgs: PkgSeq, i: int)
    requires
        0 <= i < pkgs.len(),
    ensures
        emit_spec(pkgs.take(i + 1)) == emit_spec(pkgs.take(i)) + pkg_block(pkgs[i]),
    decreases i,
{
    let a = pkgs.take(i + 1);
    let b = pkgs.take(i);
    if i == 0 {
        assert(b.len() == 0);
        assert(a.drop_first() =~= Seq::<(Seq<char>, EntrySeq)>::empty());
        assert(emit_spec(Seq::<(Seq<char>, EntrySeq)>::empty()) == Seq::<char>::empty());
        assert(a[0] == pkgs[0]);
        assert(emit_spec(a) == pkg_block(a[0]) + emit_spec(a.drop_first()));
        assert(emit_spec(a) =~= pkg_block(pkgs[0]));
        assert(emit_spec(b) + pkg_block(pkgs[0]) =~= pkg_block(pkgs[0]));
    } else {
        lemma_emit_snoc(pkgs.drop_first(), i - 1);
        assert(a.drop_first() =~= pkgs.drop_first().take(i));
        assert(b.drop_first() =~= pkgs.drop_first().take(i - 1));
        assert(a[0] == pkgs[0] && b[0] == pkgs[0]);
        assert(pkgs.drop_first()[i - 1] == pkgs[i]);
        assert(emit_spec(a) == pkg_block(pkgs[0]) + emit_spec(pkgs.drop_first().take(i)));
        assert(emit_spec(b) == pkg_block(pkgs[0]) + emit_spec(pkgs.drop_first().take(i - 1)));
        assert(emit_spec(a) =~= emit_spec(b) + pkg_block(pkgs[i]));
    }
}

// ---------------------------------------------------------------------------
// The emitted text, line by line
// ---------------------------------------------------------------------------
/// The field lines of one package, without their line feeds.
pub open spec fn entry_lines(es: EntrySeq) -> Seq<Seq<char>>
    decreases es.len(),
{
    if es.len() == 0 {
        Seq::empty()
    } else {
        seq![entry_text(es[0].0, es[0].1)] + entry_lines(es.drop_first())
    }
}

/// The lines of one package: its header, then its fields.
pub open spec fn pkg_lines(p: (Seq<char>, EntrySeq)) -> Seq<Seq<char>> {
    seq![header_text(p.0)] + entry_lines(p.1)
}

/// The lines of the whole emitted manifest, without the final empty line.
pub open spec fn pkgs_lines(pkgs: PkgSeq) -> Seq<Seq<char>>
    decreases pkgs.len(),
{
    if pkgs.len() == 0 {
        Seq::empty()
    } else {
        pkg_lines(pkgs[0]) + pkgs_lines(pkgs.drop_first())
    }
}

/// Splitting lines does not depend on what comes before the position.
proof fn lemma_split_suffix(s: Seq<char>, i: int, cur: Seq<char>)
    requires
        0 <= i <= s.len(),
    ensures
        split_rec(s, i, cur) == split_rec(s.subrange(i, s.len() as int), 0, cur),
    decreases s.len() - i,
{
    let t = s.subrange(i, s.len() as int);
    if i >= s.len() {
        assert(t.len() == 0);
    } else {
        assert(t[0] == s[i]);
        if s[i] == '\n' {
            lemma_split_suffix(s, i + 1, Seq::empty());
            lemma_split_suffix(t, 1, Seq::empty());
            assert(t.subrange(1, t.len() as int) =~= s.subrange(i + 1, s.len() as int));
        } else {
            lemma_split_suffix(s, i + 1, cur.push(s[i]));
            lemma_split_suffix(t, 1, cur.push(t[0]));
            assert(t.subrange(1, t.len() as int) =~= s.subrange(i + 1, s.len() as int));
        }
    }
}

/// Where the first line feed is, computed from the characters.
proof fn lemma_first_nl_at(s: Seq<char>, m: int)
    requires
        0 <= m <= s.len(),
        forall|k: int| 0 <= k < m ==> s[k] != '\n',
        m < s.len() ==> s[m] == '\n',
    ensures
        first_nl(s, 0) == m,
{
    lemma_first_nl(s, 0);
    let f = first_nl(s, 0);
    if f < m {
        assert(s[f] == '\n');
    }
    if m < f {
        assert(s[m] != '\n');
    }
}

/// One line that holds no line feed, closed by a line feed, splits off the
/// front of the text.
proof fn lemma_split_line(line: Seq<char>, rest: Seq<char>)
    requires
        forall|k: int| 0 <= k < line.len() ==> line[k] != '\n',
        line.len() > 0 ==> line[line.len() - 1] != '\r',
    ensures
        split_lines(line + seq!['\n'] + rest) == seq![line] + split_lines(rest),
{
    let s = line + seq!['\n'] + rest;
    let m = line.len() as int;
    assert(s.len() == line.len() + 1 + rest.len());
    assert forall|k: int| 0 <= k < m implies s[k] != '\n' by {
        assert(s[k] == line[k]);
    }
    assert(s[m] == '\n');
    lemma_first_nl_at(s, m);
    lemma_split_step(s, 0, Seq::empty());
    assert(Seq::empty() + s.subrange(0, m) =~= line);
    assert(drop_cr(line) == line);
    lemma_split_suffix(s, m + 1, Seq::empty());
    assert(s.subrange(m + 1, s.len() as int) =~= rest);
    assert(seq![line] + split_lines(rest) =~= split_rec(s, 0, Seq::empty()));
}

// ---------------------------------------------------------------------------
// How the grammar reads the emitted lines back
// ---------------------------------------------------------------------------
proof fn lemma_skip_bare_run(l: Seq<char>, i: int, m: int)
    requires
        0 <= i <= m <= l.len(),
        forall|k: int| i <= k < m ==> is_bare_char(#[trigger] l[k]),
        m < l.len() ==> !is_bare_char(l[m]),
    ensures
        skip_bare(l, i) == m,
    decreases m - i,
{
    if i < m {
        lemma_skip_bare_run(l, i + 1, m);
    }
}

proof fn lemma_str_end_run(l: Seq<char>, i: int, m: int)
    requires
        0 <= i <= m < l.len(),
        forall|k: int| i <= k < m ==> is_value_char(#[trigger] l[k]) && l[k] != '"',
        l[m] == '"',
    ensures
        str_end(l, i) == m,
    decreases m - i,
{
    if i < m {
        lemma_str_end_run(l, i + 1, m);
    }
}

proof fn lemma_path_run(l: Seq<char>, i: int, m: int, cur: Seq<char>, parts: Seq<Seq<char>>)
    requires
        0 <= i <= m <= l.len(),
        forall|k: int| i <= k < m ==> is_bare_char(#[trigger] l[k]),
    ensures
        path_rec(l, i, cur, parts) == path_rec(l, m, cur + l.subrange(i, m), parts),
    decreases m - i,
{
    if i == m {
        assert(cur + l.subrange(i, m) =~= cur);
    } else {
        lemma_path_run(l, i + 1, m, cur.push(l[i]), parts);
        assert(cur.push(l[i]) + l.subrange(i + 1, m) =~= cur + l.subrange(i, m));
    }
}

/// A bare-key character is not whitespace, a line feed, or any of the
/// grammar's marks.
proof fn lemma_bare_char_facts(c: char)
    requires
        is_bare_char(c),
    ensures
        !is_ws_char(c),
        c != '\n',
        c != '\r',
        c != '#',
        c != '[',
        c != ']',
        c != '.',
        c != '=',
        c != '"',
{
}

/// A value character is not a line feed, a quote, or a carriage return.
proof fn lemma_value_char_facts(c: char)
    requires
        is_value_char(c),
    ensures
        c != '\n',
        c != '\r',
        c != '"',
{
}

/// An emitted header line reads back as the header of `[package.NAME]`.
proof fn lemma_header_shape(n: Seq<char>)
    requires
        bare_seq(n),
    ensures
        shape_of(header_text(n)) == LineShape::Header(seq!["package"@, n]),
        forall|k: int| 0 <= k < header_text(n).len() ==> #[trigger] header_text(n)[k] != '\n',
        header_text(n).len() > 0,
        header_text(n)[header_text(n).len() - 1] != '\r',
{
    let l = header_text(n);
    reveal_strlit("[package.");
    reveal_strlit("]");
    reveal_strlit("package");
    assert("[package."@.len() == 9);
    assert("]"@.len() == 1);
    assert("package"@.len() == 7);
    let nn = n.len() as int;
    assert(l.len() == 10 + nn);
    assert forall|k: int| 0 <= k < 9 implies l[k] == "[package."@[k] by {}
    assert forall|k: int| 0 <= k < nn implies l[9 + k] == n[k] by {}
    assert(l[9 + nn] == "]"@[0]);
    assert(l[9 + nn] == ']');
    assert(l[0] == '[');
    assert(l[8] == '.');
    assert(l.subrange(1, 8) =~= "package"@);
    assert(l.subrange(9, 9 + nn) =~= n);
    // the line starts at position 0
    assert(!is_ws_char('['));
    assert(skip_ws(l, 0) == 0);
    // the path: "package", a dot, the name, the closing bracket
    assert forall|k: int| 1 <= k < 8 implies is_bare_char(#[trigger] l[k]) by {
        assert(l[k] == "[package."@[k]);
    }
    lemma_path_run(l, 1, 8, Seq::empty(), Seq::empty());
    assert(Seq::empty() + l.subrange(1, 8) =~= "package"@);
    assert(!is_bare_char('.'));
    assert(path_rec(l, 8, "package"@, Seq::empty()) == path_rec(
        l,
        9,
        Seq::empty(),
        Seq::<Seq<char>>::empty().push("package"@),
    ));
    assert forall|k: int| 9 <= k < 9 + nn implies is_bare_char(#[trigger] l[k]) by {
        assert(l[k] == n[k - 9]);
    }
    lemma_path_run(l, 9, 9 + nn, Seq::empty(), Seq::<Seq<char>>::empty().push("package"@));
    assert(Seq::empty() + l.subrange(9, 9 + nn) =~= n);
    assert(!is_bare_char(']') && ']' != '.');
    assert(path_rec(l, 9 + nn, n, Seq::<Seq<char>>::empty().push("package"@)) == Some(
        (Seq::<Seq<char>>::empty().push("package"@).push(n), 10 + nn),
    ));
    assert(Seq::<Seq<char>>::empty().push("package"@).push(n) =~= seq!["package"@, n]);
    // nothing after the closing bracket
    assert(skip_ws(l, 10 + nn) == 10 + nn);
    assert(rest_blank(l, 10 + nn));
    assert(path_rec(l, 1, Seq::empty(), Seq::empty()) == Some((seq!["package"@, n], 10 + nn)));
    assert(shape_of(l) == LineShape::Header(seq!["package"@, n]));
    // character facts for line splitting
    assert forall|k: int| 0 <= k < l.len() implies #[trigger] l[k] != '\n' by {
        if k < 9 {
            assert(l[k] == "[package."@[k]);
        } else if k < 9 + nn {
            assert(l[k] == n[k - 9]);
            lemma_bare_char_facts(n[k - 9]);
        }
    }
}

/// An emitted field line reads back as the entry `key = "value"`.
proof fn lemma_entry_shape(k: Seq<char>, v: Seq<char>)
    requires
        bare_seq(k),
        value_seq(v),
    ensures
        shape_of(entry_text(k, v)) == LineShape::Entry(k, v),
        forall|x: int| 0 <= x < entry_text(k, v).len() ==> #[trigger] entry_text(k, v)[x] != '\n',
        entry_text(k, v).len() > 0,
        entry_text(k, v)[entry_text(k, v).len() - 1] != '\r',
{
    let l = entry_text(k, v);
    reveal_strlit(" = \"");
    reveal_strlit("\"");
    assert(" = \""@.len() == 4);
    assert("\""@.len() == 1);
    let kn = k.len() as int;
    let vn = v.len() as int;
    assert(l.len() == kn + 5 + vn);
    assert forall|x: int| 0 <= x < kn implies l[x] == k[x] by {}
    assert forall|x: int| 0 <= x < 4 implies l[kn + x] == " = \""@[x] by {}
    assert forall|x: int| 0 <= x < vn implies l[kn + 4 + x] == v[x] by {}
    assert(l[kn + 4 + vn] == "\""@[0]);
    assert(l[kn] == ' ');
    assert(l[kn + 1] == '=');
    assert(l[kn + 2] == ' ');
    assert(l[kn + 3] == '"');
    assert(l[kn + 4 + vn] == '"');
    assert(l.subrange(0, kn) =~= k);
    assert(l.subrange(kn + 4, kn + 4 + vn) =~= v);
    // the line starts at position 0 with a bare character
    lemma_bare_char_facts(k[0]);
    assert(skip_ws(l, 0) == 0);
    assert(l[0] != '#' && l[0] != '[');
    // the key
    assert forall|x: int| 0 <= x < kn implies is_bare_char(#[trigger] l[x]) by {
        assert(l[x] == k[x]);
    }
    assert(!is_bare_char(' '));
    lemma_skip_bare_run(l, 0, kn);
    // the equals sign between single spaces
    assert(is_ws_char(' ') && !is_ws_char('='));
    assert(skip_ws(l, kn + 1) == kn + 1);
    assert(skip_ws(l, kn) == skip_ws(l, kn + 1));
    assert(!is_ws_char('"'));
    assert(skip_ws(l, kn + 3) == kn + 3);
    assert(skip_ws(l, kn + 2) == skip_ws(l, kn + 3));
    // the value, closed by its quote
    assert forall|x: int| kn + 4 <= x < kn + 4 + vn implies is_value_char(#[trigger] l[x]) && l[x]
        != '"' by {
        assert(l[x] == v[x - (kn + 4)]);
        lemma_value_char_facts(v[x - (kn + 4)]);
    }
    lemma_str_end_run(l, kn + 4, kn + 4 + vn);
    // nothing after the closing quote
    assert(skip_ws(l, kn + 5 + vn) == kn + 5 + vn);
    assert(rest_blank(l, kn + 5 + vn));
    assert(entry_of(l, 0) == Some((k, v)));
    assert(shape_of(l) == LineShape::Entry(k, v));
    // character facts for line splitting
    assert forall|x: int| 0 <= x < l.len() implies #[trigger] l[x] != '\n' by {
        if x < kn {
            assert(l[x] == k[x]);
            lemma_bare_char_facts(k[x]);
        } else if x < kn + 4 {
            assert(l[x] == " = \""@[x - kn]);
        } else if x < kn + 4 + vn {
            assert(l[x] == v[x - (kn + 4)]);
            lemma_value_char_facts(v[x - (kn + 4)]);
        }
    }
}

// ---------------------------------------------------------------------------
// Folding the emitted lines back into the packages
// ---------------------------------------------------------------------------
pub(crate) proof fn lemma_run_append(st: FoldState, la: Seq<Seq<char>>, lb: Seq<Seq<char>>)
    ensures
        run_from(st, la + lb) == (match run_from(st, la) {
            Some(m) => run_from(m, lb),
            None => None,
        }),
    decreases la.len(),
{
    if la.len() == 0 {
        assert(la + lb =~= lb);
    } else {
        assert((la + lb)[0] == la[0]);
        assert((la + lb).len() > 0);
        match next_state(st, la[0]) {
            Some(st2) => {
                lemma_run_append(st2, la.drop_first(), lb);
                assert((la + lb).drop_first() =~= la.drop_first() + lb);
            },
            None => {},
        }
    }
}

/// A name that orders after every present name is inserted at the end.
proof fn lemma_ins_end(pkgs: PkgSeq, n: Seq<char>)
    requires
        forall|i: int| 0 <= i < pkgs.len() ==> lex_lt((#[trigger] pkgs[i]).0, n),
    ensures
        ins_pos(pkgs, n, 0) == pkgs.len(),
{
    lemma_ins_pos(pkgs, n, 0);
    let p = ins_pos(pkgs, n, 0);
    if p < pkgs.len() {
        lemma_lex_asym(pkgs[p].0, n);
    }
}

/// Folding the field lines of one package appends its fields to the last
/// package of the state.
proof fn lemma_run_entries(st: FoldState, es: EntrySeq)
    requires
        st.pkgs.len() > 0,
        st.region == Region::InPkg(st.pkgs.last().0),
        pkgs_wf(st.pkgs),
        entries_wf(st.pkgs.last().1 + es),
    ensures
        run_from(st, entry_lines(es)) is Some,
        run_from(st, entry_lines(es))->Some_0.region == st.region,
        run_from(st, entry_lines(es))->Some_0.root_seen == st.root_seen,
        run_from(st, entry_lines(es))->Some_0.pkgs == st.pkgs.update(
            st.pkgs.len() - 1,
            (st.pkgs.last().0, st.pkgs.last().1 + es),
        ),
    decreases es.len(),
{
    let last = st.pkgs.len() - 1;
    let n = st.pkgs.last().0;
    let done = st.pkgs.last().1;
    if es.len() == 0 {
        assert(entry_lines(es) =~= Seq::<Seq<char>>::empty());
        assert(done + es =~= done);
        assert(st.pkgs.update(last, (n, done)) =~= st.pkgs);
    } else {
        let k = es[0].0;
        let v = es[0].1;
        assert((done + es)[done.len() as int] == es[0]);
        assert(bare_seq(k) && value_seq(v));
        lemma_entry_shape(k, v);
        let line = entry_text(k, v);
        assert(entry_lines(es)[0] == line);
        // the step goes to the last package and adds the field
        lemma_pkg_at_sorted(st.pkgs, n, last);
        assert(!has_key(done, k)) by {
            if has_key(done, k) {
                let w = choose|w: int| 0 <= w < done.len() && done[w].0 == k;
                assert((done + es)[w] == done[w]);
            }
        }
        let st2 = next_state(st, line)->Some_0;
        assert(st2.pkgs == st.pkgs.update(last, (n, done.push(es[0]))));
        assert(st2.pkgs.last().0 == n && st2.pkgs.last().1 == done.push(es[0]));
        assert(st2.region == st.region);
        // the new state is still well formed and fit for the rest
        assert(pkgs_wf(st2.pkgs)) by {
            assert(has_pkg(st.pkgs, n)) by {
                assert(st.pkgs[last].0 == n);
            }
            assert(state_wf(st));
            lemma_shape_of_wf(line);
            lemma_shape_step_wf(st, shape_of(line));
        }
        assert(done.push(es[0]) + es.drop_first() =~= done + es);
        assert(st2.region == Region::InPkg(st2.pkgs.last().0));
        lemma_run_entries(st2, es.drop_first());
        assert(entry_lines(es).drop_first() =~= entry_lines(es.drop_first()));
        assert(run_from(st, entry_lines(es)) == run_from(st2, entry_lines(es.drop_first())));
        // the two updates collapse into one
        let fin = run_from(st2, entry_lines(es.drop_first()))->Some_0;
        assert(fin.pkgs == st2.pkgs.update(last, (n, done.push(es[0]) + es.drop_first())));
        assert(fin.pkgs =~= st.pkgs.update(last, (n, done + es)));
    }
}

/// Folding the lines of emitted packages appends those packages, provided
/// their names come after every name already present.
pub(crate) proof fn lemma_run_pkgs(st: FoldState, rest: PkgSeq)
    requires
        pkgs_wf(st.pkgs + rest),
    ensures
        run_from(st, pkgs_lines(rest)) is Some,
        run_from(st, pkgs_lines(rest))->Some_0.root_seen == st.root_seen,
        run_from(st, pkgs_lines(rest))->Some_0.pkgs == st.pkgs + rest,
    decreases rest.len(),
{
    if rest.len() == 0 {
        assert(pkgs_lines(rest) =~= Seq::<Seq<char>>::empty());
        assert(st.pkgs + rest =~= st.pkgs);
    } else {
        let n = rest[0].0;
        let es = rest[0].1;
        let all = st.pkgs + rest;
        let sl = st.pkgs.len() as int;
        assert(all[sl] == rest[0]);
        assert(bare_seq(n) && entries_wf(es));
        lemma_header_shape(n);
        let hline = header_text(n);
        // the header inserts the fresh name at the end
        assert(forall|i: int|
            0 <= i < st.pkgs.len() ==> (#[trigger] st.pkgs[i]) == all[i]);
        assert forall|i: int| 0 <= i < st.pkgs.len() implies lex_lt(
            (#[trigger] st.pkgs[i]).0,
            n,
        ) by {
            assert(all[i] == st.pkgs[i]);
        }
        lemma_ins_end(st.pkgs, n);
        assert(!has_pkg(st.pkgs, n)) by {
            if has_pkg(st.pkgs, n) {
                let w = choose|w: int| 0 <= w < st.pkgs.len() && st.pkgs[w].0 == n;
                lemma_lex_irrefl(n);
            }
        }
        reveal_strlit("package");
        assert(seq!["package"@, n].len() == 2);
        assert(seq!["package"@, n][0] == "package"@ && seq!["package"@, n][1] == n);
        let st2 = next_state(st, hline)->Some_0;
        assert(st2.pkgs == st.pkgs.insert(sl, (n, Seq::<(Seq<char>, Seq<char>)>::empty())));
        st.pkgs.insert_ensures(sl, (n, Seq::<(Seq<char>, Seq<char>)>::empty()));
        assert(st2.pkgs =~= st.pkgs.push((n, Seq::<(Seq<char>, Seq<char>)>::empty())));
        assert(st2.region == Region::InPkg(n));
        assert(st2.root_seen == st.root_seen);
        assert(st2.pkgs.last().0 == n && st2.pkgs.last().1 =~= Seq::<(
            Seq<char>,
            Seq<char>,
        )>::empty());
        // the fields of the first package
        assert(pkgs_wf(st2.pkgs)) by {
            assert forall|i: int| 0 <= i < st2.pkgs.len() implies bare_seq(
                (#[trigger] st2.pkgs[i]).0,
            ) && entries_wf(st2.pkgs[i].1) by {
                if i < sl {
                    assert(st2.pkgs[i] == all[i]);
                } else {
                    assert(entries_wf(Seq::<(Seq<char>, Seq<char>)>::empty()));
                }
            }
            assert forall|i: int, j: int| 0 <= i < j < st2.pkgs.len() implies lex_lt(
                (#[trigger] st2.pkgs[i]).0,
                (#[trigger] st2.pkgs[j]).0,
            ) by {
                if j < sl {
                    assert(st2.pkgs[i] == all[i] && st2.pkgs[j] == all[j]);
                    assert(lex_lt(all[i].0, all[j].0));
                } else {
                    assert(st2.pkgs[i] == all[i]);
                    assert(lex_lt(all[i].0, n));
                }
            }
        }
        assert(Seq::<(Seq<char>, Seq<char>)>::empty() + es =~= es);
        lemma_run_entries(st2, es);
        let st3 = run_from(st2, entry_lines(es))->Some_0;
        assert(st3.pkgs == st2.pkgs.update(sl, (n, Seq::<(Seq<char>, Seq<char>)>::empty() + es)));
        assert(st3.pkgs =~= st.pkgs + seq![rest[0]]);
        assert(st3.root_seen == st.root_seen);
        // the rest of the packages
        assert(st3.pkgs + rest.drop_first() =~= st.pkgs + rest);
        lemma_run_pkgs(st3, rest.drop_first());
        // stitch the runs together
        assert(pkg_lines(rest[0]) =~= seq![hline] + entry_lines(es));
        assert(pkgs_lines(rest) == pkg_lines(rest[0]) + pkgs_lines(rest.drop_first()));
        lemma_run_append(st, pkg_lines(rest[0]), pkgs_lines(rest.drop_first()));
        assert(run_from(st, pkg_lines(rest[0])) == run_from(st2, entry_lines(es))) by {
            lemma_run_append(st, seq![hline], entry_lines(es));
            assert(seq![hline] + entry_lines(es) =~= pkg_lines(rest[0]));
            assert(run_from(st, seq![hline]) == Some(st2)) by {
                assert(seq![hline].len() == 1);
                assert(seq![hline][0] == hline);
                assert(next_state(st, hline) == Some(st2));
                assert(seq![hline].drop_first() =~= Seq::<Seq<char>>::empty());
                assert(run_from(st2, Seq::<Seq<char>>::empty()) == Some(st2));
            }
        }
        assert(run_from(st, pkgs_lines(rest))->Some_0.pkgs == st.pkgs + rest);
    }
}

/// The emitted text splits back into exactly the emitted lines, plus one
/// final empty line.
pub(crate) proof fn lemma_split_emit(pkgs: PkgSeq)
    requires
        pkgs_wf(pkgs),
    ensures
        split_lines(emit_spec(pkgs)) == pkgs_lines(pkgs) + seq![Seq::<char>::empty()],
    decreases pkgs.len(),
{
    if pkgs.len() == 0 {
        assert(emit_spec(pkgs) == Seq::<char>::empty());
        assert(split_lines(Seq::<char>::empty()) =~= seq![Seq::<char>::empty()]) by {
            assert(drop_cr(Seq::<char>::empty()) =~= Seq::<char>::empty());
        }
        assert(pkgs_lines(pkgs) + seq![Seq::<char>::empty()] =~= seq![Seq::<char>::empty()]);
    } else {
        let n = pkgs[0].0;
        let es = pkgs[0].1;
        assert(bare_seq(n) && entries_wf(es));
        lemma_header_shape(n);
        assert forall|i: int, j: int| 0 <= i < j < pkgs.drop_first().len() implies lex_lt(
            (#[trigger] pkgs.drop_first()[i]).0,
            (#[trigger] pkgs.drop_first()[j]).0,
        ) by {
            assert(pkgs.drop_first()[i] == pkgs[i + 1]);
            assert(pkgs.drop_first()[j] == pkgs[j + 1]);
        }
        assert(pkgs_wf(pkgs.drop_first())) by {
            assert forall|i: int| 0 <= i < pkgs.drop_first().len() implies bare_seq(
                (#[trigger] pkgs.drop_first()[i]).0,
            ) && entries_wf(pkgs.drop_first()[i].1) by {
                assert(pkgs.drop_first()[i] == pkgs[i + 1]);
            }
        }
        lemma_split_emit(pkgs.drop_first());
        lemma_split_entry_block(
            es,
            emit_spec(pkgs.drop_first()),
            pkgs_lines(pkgs.drop_first()) + seq![Seq::<char>::empty()],
        );
        assert(emit_spec(pkgs) =~= header_text(n) + seq!['\n'] + (entry_block(es) + emit_spec(
            pkgs.drop_first(),
        )));
        lemma_split_line(header_text(n), entry_block(es) + emit_spec(pkgs.drop_first()));
        assert(split_lines(emit_spec(pkgs)) =~= pkgs_lines(pkgs) + seq![Seq::<char>::empty()]);
    }
}

/// The field lines of a block split off the front of whatever follows.
proof fn lemma_split_entry_block(es: EntrySeq, tail: Seq<char>, tail_lines: Seq<Seq<char>>)
    requires
        entries_wf(es),
        split_lines(tail) == tail_lines,
    ensures
        split_lines(entry_block(es) + tail) == entry_lines(es) + tail_lines,
    decreases es.len(),
{
    if es.len() == 0 {
        assert(entry_block(es) + tail =~= tail);
        assert(entry_lines(es) + tail_lines =~= tail_lines);
    } else {
        let k = es[0].0;
        let v = es[0].1;
        assert(bare_seq(k) && value_seq(v));
        lemma_entry_shape(k, v);
        assert(entries_wf(es.drop_first())) by {
            assert forall|i: int| 0 <= i < es.drop_first().len() implies bare_seq(
                (#[trigger] es.drop_first()[i]).0,
            ) && value_seq(es.drop_first()[i].1) by {
                assert(es.drop_first()[i] == es[i + 1]);
            }
            assert forall|i: int, j: int| 0 <= i < j < es.drop_first().len() implies (
            #[trigger] es.drop_first()[i]).0 != (#[trigger] es.drop_first()[j]).0 by {
                assert(es.drop_first()[i] == es[i + 1]);
                assert(es.drop_first()[j] == es[j + 1]);
            }
        }
        lemma_split_entry_block(es.drop_first(), tail, tail_lines);
        assert(entry_block(es) + tail =~= entry_text(k, v) + seq!['\n'] + (entry_block(
            es.drop_first(),
        ) + tail));
        lemma_split_line(entry_text(k, v), entry_block(es.drop_first()) + tail);
        assert(split_lines(entry_block(es) + tail) =~= entry_lines(es) + tail_lines);
    }
}

impl Config {
    /// Writes the configuration back out as manifest text: one
    /// `[package.NAME]` header per package, then one `key = "value"` line
    /// per field, every line closed by a line feed.
    pub fn to_manifest(&self) -> (r: String)
        ensures
            r@ == emit_spec(self@),
    {
        let mut out = String::new();
        let n = self.packages.len();
        let mut i: usize = 0;
        proof {
            assert(self@.take(0) =~= Seq::<(Seq<char>, EntrySeq)>::empty());
        }
        while i < n
            invariant
                i <= n,
                n == self@.len(),
                n == self.packages@.len(),
                out@ == emit_spec(self@.take(i as int)),
            decreases n - i,
        {
            let ghost before = out@;
            out.append("[package.");
            out.append(self.packages[i].0.as_str());
            out.append("]");
            proof {
                assert(self@[i as int].0 == self.packages@[i as int].0@);
                assert(out@ =~= before + header_text(self@[i as int].0));
            }
            out.append("\n");
            proof {
                reveal_strlit("\n");
                assert("\n"@ =~= seq!['\n']);
                assert(out@ =~= before + header_text(self@[i as int].0) + seq!['\n']);
            }
            let m = self.packages[i].1.entries.len();
            let mut j: usize = 0;
            proof {
                assert(self@[i as int].1.take(0) =~= Seq::<(Seq<char>, Seq<char>)>::empty());
                assert(out@ =~= before + header_text(self@[i as int].0) + seq!['\n'] + entry_block(
                    self@[i as int].1.take(0),
                ));
            }
            while j < m
                invariant
                    j <= m,
                    i < n,
                    n == self@.len(),
                    n == self.packages@.len(),
                    m == self@[i as int].1.len(),
                    m == self.packages@[i as int].1.entries@.len(),
                    before == emit_spec(self@.take(i as int)),
                    out@ == before + header_text(self@[i as int].0) + seq!['\n'] + entry_block(
                        self@[i as int].1.take(j as int),
                    ),
                decreases m - j,
            {
                let ghost line_start = out@;
                let p = &self.packages[i].1.entries[j];
                out.append(p.0.as_str());
                out.append(" = \"");
                out.append(p.1.as_str());
                out.append("\"");
                proof {
                    assert(self@[i as int].1[j as int] == (
                        self.packages@[i as int].1.entries@[j as int].0@,
                        self.packages@[i as int].1.entries@[j as int].1@,
                    ));
                    assert(out@ =~= line_start + entry_text(
                        self@[i as int].1[j as int].0,
                        self@[i as int].1[j as int].1,
                    ));
                }
                out.append("\n");
                proof {
                    reveal_strlit("\n");
                    assert("\n"@ =~= seq!['\n']);
                    lemma_entry_block_snoc(self@[i as int].1, j as int);
                    assert(out@ =~= before + header_text(self@[i as int].0) + seq!['\n']
                        + entry_block(self@[i as int].1.take(j as int + 1)));
                }
                j = j + 1;
            }
            proof {
                assert(self@[i as int].1.take(m as int) =~= self@[i as int].1);
                assert(out@ =~= before + pkg_block(self@[i as int]));
                lemma_emit_snoc(self@, i as int);
            }
            i = i + 1;
        }
        proof {
            assert(self@.take(n as int) =~= self@);
        }
        out
    }
}

} // verus!
