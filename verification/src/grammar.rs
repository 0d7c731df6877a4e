//! The manifest grammar, as specification functions.
//!
//! A manifest is processed line by line.  Each line is blank, a comment, a
//! table header `[part.part]`, or an entry `key = "value"`; anything else is
//! a syntax error.  A fold over the classified lines builds the list of
//! packages: `[package.NAME]` opens a package, and each entry line inside it
//! adds one field.  Headers of tables other than `package` are accepted and
//! their contents ignored.  Packages are kept sorted by name, so iteration
//! order over the result is deterministic (lexicographic by code point).
//!
//! Rejected with a structure error: a second definition of the same package
//! or of the same field, a `package` table nested deeper than one level, an
//! entry directly inside `[package]`, and a top-level `package` key.

use vstd::prelude::*;

use crate::text::is_bare_char;
use crate::text::is_value_char;
use crate::text::is_ws_char;
use crate::text::lemma_lex_irrefl;
use crate::text::lemma_lex_total;
use crate::text::lemma_lex_trans;
use crate::text::lex_lt;

verus! {

/// The fields of one package: key-value pairs in manifest order.
pub type EntrySeq = Seq<(Seq<char>, Seq<char>)>;

/// Packages by name, sorted by name.
pub type PkgSeq = Seq<(Seq<char>, EntrySeq)>;

// ---------------------------------------------------------------------------
// Splitting the input into lines
// ---------------------------------------------------------------------------
/// The index of the first line feed at or after `i`, or the length.
pub open spec fn first_nl(s: Seq<char>, i: int) -> int
    decreases s.len() - i,
{
    if !(0 <= i < s.len()) {
        s.len() as int
    } else if s[i] == '\n' {
        i
    } else {
        first_nl(s, i + 1)
    }
}

/// Drops one carriage return at the end of a line, so that manifests with
/// `\r\n` line ends parse as those with `\n` alone.
pub open spec fn drop_cr(line: Seq<char>) -> Seq<char> {
    if line.len() > 0 && line[line.len() - 1] == '\r' {
        line.drop_last()
    } else {
        line
    }
}

/// The lines of `s` from position `i` on, `cur` being the partial line
/// read so far.
pub open spec fn split_rec(s: Seq<char>, i: int, cur: Seq<char>) -> Seq<Seq<char>>
    decreases s.len() - i,
{
    if !(0 <= i < s.len()) {
        seq![drop_cr(cur)]
    } else if s[i] == '\n' {
        seq![drop_cr(cur)] + split_rec(s, i + 1, Seq::empty())
    } else {
        split_rec(s, i + 1, cur.push(s[i]))
    }
}

/// The lines of a manifest.  The text after the last line feed is a line
/// too, so every text has at least one line.
pub open spec fn split_lines(s: Seq<char>) -> Seq<Seq<char>> {
    split_rec(s, 0, Seq::empty())
}

pub proof fn lemma_first_nl(s: Seq<char>, i: int)
    requires
        0 <= i <= s.len(),
    ensures
        i <= first_nl(s, i) <= s.len(),
        forall|k: int| i <= k < first_nl(s, i) ==> s[k] != '\n',
        first_nl(s, i) < s.len() ==> s[first_nl(s, i)] == '\n',
    decreases s.len() - i,
{
    if i < s.len() && s[i] != '\n' {
        lemma_first_nl(s, i + 1);
    }
}

/// One step of line splitting: the lines from `i` are the line that runs to
/// the next line feed, followed by the lines after it.
pub proof fn lemma_split_step(s: Seq<char>, i: int, cur: Seq<char>)
    requires
        0 <= i <= s.len(),
    ensures
        first_nl(s, i) >= s.len() ==> split_rec(s, i, cur) == seq![
            drop_cr(cur + s.subrange(i, s.len() as int)),
        ],
        first_nl(s, i) < s.len() ==> split_rec(s, i, cur) == seq![
            drop_cr(cur + s.subrange(i, first_nl(s, i))),
        ] + split_rec(s, first_nl(s, i) + 1, Seq::empty()),
    decreases s.len() - i,
{
    lemma_first_nl(s, i);
    if i >= s.len() {
        assert(cur + s.subrange(i, s.len() as int) =~= cur);
    } else if s[i] == '\n' {
        assert(cur + s.subrange(i, i) =~= cur);
    } else {
        lemma_split_step(s, i + 1, cur.push(s[i]));
        if first_nl(s, i) >= s.len() {
            assert(cur.push(s[i]) + s.subrange(i + 1, s.len() as int) =~= cur + s.subrange(
                i,
                s.len() as int,
            ));
        } else {
            assert(first_nl(s, i + 1) == first_nl(s, i));
            assert(cur.push(s[i]) + s.subrange(i + 1, first_nl(s, i)) =~= cur + s.subrange(
                i,
                first_nl(s, i),
            ));
        }
    }
}

// ---------------------------------------------------------------------------
// Classifying one line
// ---------------------------------------------------------------------------
/// The first position at or after `i` that does not hold whitespace.
pub open spec fn skip_ws(l: Seq<char>, i: int) -> int
    decreases l.len() - i,
{
    if 0 <= i < l.len() && is_ws_char(l[i]) {
        skip_ws(l, i + 1)
    } else {
        i
    }
}

/// The first position at or after `i` that does not hold a bare-key
/// character.
pub open spec fn skip_bare(l: Seq<char>, i: int) -> int
    decreases l.len() - i,
{
    if 0 <= i < l.len() && is_bare_char(l[i]) {
        skip_bare(l, i + 1)
    } else {
        i
    }
}

/// The position of the closing quote of a value that starts at `i`, or -1
/// if a forbidden character or the end of the line comes first.
pub open spec fn str_end(l: Seq<char>, i: int) -> int
    decreases l.len() - i,
{
    if !(0 <= i < l.len()) {
        -1
    } else if l[i] == '"' {
        i
    } else if is_value_char(l[i]) {
        str_end(l, i + 1)
    } else {
        -1
    }
}

/// From `i` on the line holds only whitespace, or whitespace and a comment.
pub open spec fn rest_blank(l: Seq<char>, i: int) -> bool {
    let j = skip_ws(l, i);
    j >= l.len() || l[j] == '#'
}

/// Reads the dotted path of a table header, `cur` being the part read so
/// far and `parts` the parts before it.  Yields the parts and the position
/// after the closing bracket.
pub open spec fn path_rec(l: Seq<char>, i: int, cur: Seq<char>, parts: Seq<Seq<char>>) -> Option<
    (Seq<Seq<char>>, int),
>
    decreases l.len() - i,
{
    if !(0 <= i < l.len()) {
        None
    } else if is_bare_char(l[i]) {
        path_rec(l, i + 1, cur.push(l[i]), parts)
    } else if l[i] == '.' {
        if cur.len() == 0 {
            None
        } else {
            path_rec(l, i + 1, Seq::empty(), parts.push(cur))
        }
    } else if l[i] == ']' {
        if cur.len() == 0 {
            None
        } else {
            Some((parts.push(cur), i + 1))
        }
    } else {
        None
    }
}

/// Reads `key = "value"` starting at the non-blank position `i`.
pub open spec fn entry_of(l: Seq<char>, i: int) -> Option<(Seq<char>, Seq<char>)> {
    let j = skip_bare(l, i);
    if j == i {
        None
    } else {
        let key = l.subrange(i, j);
        let k = skip_ws(l, j);
        if k < l.len() && l[k] == '=' {
            let m = skip_ws(l, k + 1);
            if m < l.len() && l[m] == '"' {
                let e = str_end(l, m + 1);
                if e >= 0 && rest_blank(l, e + 1) {
                    Some((key, l.subrange(m + 1, e)))
                } else {
                    None
                }
            } else {
                None
            }
        } else {
            None
        }
    }
}

/// What one line of a manifest is.
pub enum LineShape {
    /// Nothing but whitespace, or a comment.
    Blank,
    /// A table header `[a.b]`, with its path parts.
    Header(Seq<Seq<char>>),
    /// A line `key = "value"`.
    Entry(Seq<char>, Seq<char>),
    /// A syntax error.
    Bad,
}

/// Classifies one line (without its line feed).
pub open spec fn shape_of(l: Seq<char>) -> LineShape {
    let i = skip_ws(l, 0);
    if i >= l.len() {
        LineShape::Blank
    } else if l[i] == '#' {
        LineShape::Blank
    } else if l[i] == '[' {
        match path_rec(l, i + 1, Seq::empty(), Seq::empty()) {
            Some(r) => if rest_blank(l, r.1) {
                LineShape::Header(r.0)
            } else {
                LineShape::Bad
            },
            None => LineShape::Bad,
        }
    } else {
        match entry_of(l, i) {
            Some(kv) => LineShape::Entry(kv.0, kv.1),
            None => LineShape::Bad,
        }
    }
}

// ---------------------------------------------------------------------------
// The fold over classified lines
// ---------------------------------------------------------------------------
/// Which table the lines read so far have opened.
pub enum Region {
    /// Before any header.
    Root,
    /// After `[package]` itself.
    PkgRoot,
    /// After `[package.NAME]`, holding NAME.
    InPkg(Seq<char>),
    /// After the header of an unrelated table.
    Other,
}

/// The state of the fold: the open table, the packages read so far (sorted
/// by name), and whether `[package]` itself was seen.
pub struct FoldState {
    pub region: Region,
    pub pkgs: PkgSeq,
    pub root_seen: bool,
}

pub open spec fn init_state() -> FoldState {
    FoldState { region: Region::Root, pkgs: Seq::empty(), root_seen: false }
}

/// Some package is named `n`.
pub open spec fn has_pkg(pkgs: PkgSeq, n: Seq<char>) -> bool {
    exists|i: int| 0 <= i < pkgs.len() && pkgs[i].0 == n
}

/// The first index at or after `i` of the package named `n`, or the length.
pub open spec fn pkg_at(pkgs: PkgSeq, n: Seq<char>, i: int) -> int
    decreases pkgs.len() - i,
{
    if 0 <= i < pkgs.len() {
        if pkgs[i].0 == n {
            i
        } else {
            pkg_at(pkgs, n, i + 1)
        }
    } else {
        pkgs.len() as int
    }
}

/// Where a package named `n` belongs in the sorted list: the first index at
/// or after `i` whose name orders after `n`.
pub open spec fn ins_pos(pkgs: PkgSeq, n: Seq<char>, i: int) -> int
    decreases pkgs.len() - i,
{
    if 0 <= i < pkgs.len() {
        if lex_lt(n, pkgs[i].0) {
            i
        } else {
            ins_pos(pkgs, n, i + 1)
        }
    } else {
        pkgs.len() as int
    }
}

/// Some field of `es` is keyed `k`.
pub open spec fn has_key(es: EntrySeq, k: Seq<char>) -> bool {
    exists|i: int| 0 <= i < es.len() && es[i].0 == k
}

/// The first index at or after `i` of the field keyed `k`, or the length.
pub open spec fn key_at(es: EntrySeq, k: Seq<char>, i: int) -> int
    decreases es.len() - i,
{
    if 0 <= i < es.len() {
        if es[i].0 == k {
            i
        } else {
            key_at(es, k, i + 1)
        }
    } else {
        es.len() as int
    }
}

/// How one classified line changes the fold state; `None` is an error.
pub open spec fn shape_step(st: FoldState, shape: LineShape) -> Option<FoldState> {
    match shape {
        LineShape::Blank => Some(st),
        LineShape::Bad => None,
        LineShape::Header(parts) => {
            if parts.len() > 0 && parts[0] == "package"@ {
                if parts.len() == 1 {
                    if st.root_seen {
                        None
                    } else {
                        Some(
                            FoldState {
                                region: Region::PkgRoot,
                                pkgs: st.pkgs,
                                root_seen: true,
                            },
                        )
                    }
                } else if parts.len() == 2 {
                    let n = parts[1];
                    if has_pkg(st.pkgs, n) {
                        None
                    } else {
                        Some(
                            FoldState {
                                region: Region::InPkg(n),
                                pkgs: st.pkgs.insert(
                                    ins_pos(st.pkgs, n, 0),
                                    (n, Seq::empty()),
                                ),
                                root_seen: st.root_seen,
                            },
                        )
                    }
                } else {
                    None
                }
            } else {
                Some(FoldState { region: Region::Other, pkgs: st.pkgs, root_seen: st.root_seen })
            }
        },
        LineShape::Entry(k, v) => {
            match st.region {
                Region::Root => if k == "package"@ {
                    None
                } else {
                    Some(st)
                },
                Region::PkgRoot => None,
                Region::Other => Some(st),
                Region::InPkg(n) => {
                    let i = pkg_at(st.pkgs, n, 0);
                    if i >= st.pkgs.len() {
                        None
                    } else if has_key(st.pkgs[i].1, k) {
                        None
                    } else {
                        Some(
                            FoldState {
                                region: st.region,
                                pkgs: st.pkgs.update(i, (st.pkgs[i].0, st.pkgs[i].1.push((k, v)))),
                                root_seen: st.root_seen,
                            },
                        )
                    }
                },
            }
        },
    }
}

/// How one line of text changes the fold state.
pub open spec fn next_state(st: FoldState, l: Seq<char>) -> Option<FoldState> {
    shape_step(st, shape_of(l))
}

/// Folds the remaining lines over the state; `None` is an error.
pub open spec fn run_from(st: FoldState, lines: Seq<Seq<char>>) -> Option<FoldState>
    decreases lines.len(),
{
    if lines.len() == 0 {
        Some(st)
    } else {
        match next_state(st, lines[0]) {
            Some(st2) => run_from(st2, lines.drop_first()),
            None => None,
        }
    }
}

/// What a manifest text means: its packages, or `None` on a syntax or
/// structure error.
pub open spec fn parse_spec(s: Seq<char>) -> Option<PkgSeq> {
    match run_from(init_state(), split_lines(s)) {
        Some(st) => Some(st.pkgs),
        None => None,
    }
}

// ---------------------------------------------------------------------------
// Well-formedness of fold states
// ---------------------------------------------------------------------------
/// A nonempty run of bare-key characters: a valid name or field key.
pub open spec fn bare_seq(s: Seq<char>) -> bool {
    s.len() > 0 && forall|i: int| 0 <= i < s.len() ==> is_bare_char(#[trigger] s[i])
}

/// Only characters a quoted value may hold.
pub open spec fn value_seq(s: Seq<char>) -> bool {
    forall|i: int| 0 <= i < s.len() ==> is_value_char(#[trigger] s[i])
}

/// Fields of one package: valid keys and values, keys unique.
pub open spec fn entries_wf(es: EntrySeq) -> bool {
    &&& forall|i: int|
        0 <= i < es.len() ==> bare_seq(#[trigger] es[i].0) && value_seq(es[i].1)
    &&& forall|i: int, j: int|
        0 <= i < j < es.len() ==> (#[trigger] es[i]).0 != (#[trigger] es[j]).0
}

/// Packages: valid names and fields, strictly sorted by name (so names are
/// unique and iteration order is deterministic).
pub open spec fn pkgs_wf(pkgs: PkgSeq) -> bool {
    &&& forall|i: int|
        0 <= i < pkgs.len() ==> bare_seq(#[trigger] pkgs[i].0) && entries_wf(pkgs[i].1)
    &&& forall|i: int, j: int|
        0 <= i < j < pkgs.len() ==> lex_lt((#[trigger] pkgs[i]).0, (#[trigger] pkgs[j]).0)
}

/// The invariant the fold keeps: sorted well-formed packages, and an open
/// package that really is in the list.
pub open spec fn state_wf(st: FoldState) -> bool {
    &&& pkgs_wf(st.pkgs)
    &&& match st.region {
        Region::InPkg(n) => has_pkg(st.pkgs, n),
        _ => true,
    }
}

// ---------------------------------------------------------------------------
// Properties of the scanning functions
// ---------------------------------------------------------------------------
pub proof fn lemma_skip_ws(l: Seq<char>, i: int)
    requires
        0 <= i <= l.len(),
    ensures
        i <= skip_ws(l, i) <= l.len(),
        forall|k: int| i <= k < skip_ws(l, i) ==> is_ws_char(#[trigger] l[k]),
        skip_ws(l, i) < l.len() ==> !is_ws_char(l[skip_ws(l, i)]),
    decreases l.len() - i,
{
    if i < l.len() && is_ws_char(l[i]) {
        lemma_skip_ws(l, i + 1);
    }
}

pub proof fn lemma_skip_bare(l: Seq<char>, i: int)
    requires
        0 <= i <= l.len(),
    ensures
        i <= skip_bare(l, i) <= l.len(),
        forall|k: int| i <= k < skip_bare(l, i) ==> is_bare_char(#[trigger] l[k]),
        skip_bare(l, i) < l.len() ==> !is_bare_char(l[skip_bare(l, i)]),
    decreases l.len() - i,
{
    if i < l.len() && is_bare_char(l[i]) {
        lemma_skip_bare(l, i + 1);
    }
}

pub proof fn lemma_str_end(l: Seq<char>, i: int)
    requires
        0 <= i <= l.len(),
    ensures
        str_end(l, i) == -1 || i <= str_end(l, i) < l.len(),
        str_end(l, i) >= 0 ==> l[str_end(l, i)] == '"',
        str_end(l, i) >= 0 ==> forall|k: int|
            i <= k < str_end(l, i) ==> is_value_char(#[trigger] l[k]),
    decreases l.len() - i,
{
    if i < l.len() && l[i] != '"' && is_value_char(l[i]) {
        lemma_str_end(l, i + 1);
    }
}

/// Header parts are valid names, provided the part read so far is one run
/// of bare characters and the earlier parts are valid.
pub proof fn lemma_path_rec_wf(l: Seq<char>, i: int, cur: Seq<char>, parts: Seq<Seq<char>>)
    requires
        forall|k: int| 0 <= k < cur.len() ==> is_bare_char(#[trigger] cur[k]),
        forall|p: int| 0 <= p < parts.len() ==> bare_seq(#[trigger] parts[p]),
        path_rec(l, i, cur, parts) is Some,
    ensures
        forall|p: int|
            0 <= p < path_rec(l, i, cur, parts)->Some_0.0.len() ==> bare_seq(
                #[trigger] path_rec(l, i, cur, parts)->Some_0.0[p],
            ),
        path_rec(l, i, cur, parts)->Some_0.0.len() > parts.len(),
    decreases l.len() - i,
{
    if 0 <= i < l.len() {
        if is_bare_char(l[i]) {
            lemma_path_rec_wf(l, i + 1, cur.push(l[i]), parts);
        } else if l[i] == '.' && cur.len() > 0 {
            lemma_path_rec_wf(l, i + 1, Seq::empty(), parts.push(cur));
        } else if l[i] == ']' && cur.len() > 0 {
            let r = parts.push(cur);
            assert(forall|p: int| 0 <= p < r.len() ==> bare_seq(#[trigger] r[p]));
        }
    }
}

/// Keys and values of entry lines are well formed.
pub proof fn lemma_entry_of_wf(l: Seq<char>, i: int)
    requires
        0 <= i <= l.len(),
        entry_of(l, i) is Some,
    ensures
        bare_seq(entry_of(l, i)->Some_0.0),
        value_seq(entry_of(l, i)->Some_0.1),
{
    let j = skip_bare(l, i);
    lemma_skip_bare(l, i);
    let k = skip_ws(l, j);
    lemma_skip_ws(l, j);
    let m = skip_ws(l, k + 1);
    lemma_skip_ws(l, k + 1);
    let e = str_end(l, m + 1);
    lemma_str_end(l, m + 1);
}

/// A line shape whose parts are valid names, keys and values.
pub open spec fn shape_wf(shape: LineShape) -> bool {
    match shape {
        LineShape::Header(parts) => forall|p: int|
            0 <= p < parts.len() ==> bare_seq(#[trigger] parts[p]),
        LineShape::Entry(k, v) => bare_seq(k) && value_seq(v),
        _ => true,
    }
}

/// Whatever `shape_of` yields is well formed.
pub proof fn lemma_shape_of_wf(l: Seq<char>)
    ensures
        shape_wf(shape_of(l)),
{
    let i = skip_ws(l, 0);
    lemma_skip_ws(l, 0);
    if i < l.len() && l[i] != '#' {
        if l[i] == '[' {
            if path_rec(l, i + 1, Seq::empty(), Seq::empty()) is Some {
                lemma_path_rec_wf(l, i + 1, Seq::empty(), Seq::empty());
            }
        } else {
            if entry_of(l, i) is Some {
                lemma_entry_of_wf(l, i);
            }
        }
    }
}

// ---------------------------------------------------------------------------
// Properties of lookup and insertion position
// ---------------------------------------------------------------------------
pub proof fn lemma_pkg_at(pkgs: PkgSeq, n: Seq<char>, i: int)
    requires
        0 <= i <= pkgs.len(),
    ensures
        i <= pkg_at(pkgs, n, i) <= pkgs.len(),
        pkg_at(pkgs, n, i) < pkgs.len() ==> pkgs[pkg_at(pkgs, n, i)].0 == n,
        forall|k: int| i <= k < pkg_at(pkgs, n, i) ==> (#[trigger] pkgs[k]).0 != n,
        pkg_at(pkgs, n, i) == pkgs.len() ==> forall|k: int|
            i <= k < pkgs.len() ==> (#[trigger] pkgs[k]).0 != n,
    decreases pkgs.len() - i,
{
    if i < pkgs.len() && pkgs[i].0 != n {
        lemma_pkg_at(pkgs, n, i + 1);
    }
}

pub proof fn lemma_key_at(es: EntrySeq, k: Seq<char>, i: int)
    requires
        0 <= i <= es.len(),
    ensures
        i <= key_at(es, k, i) <= es.len(),
        key_at(es, k, i) < es.len() ==> es[key_at(es, k, i)].0 == k,
        forall|m: int| i <= m < key_at(es, k, i) ==> (#[trigger] es[m]).0 != k,
        key_at(es, k, i) == es.len() ==> forall|m: int|
            i <= m < es.len() ==> (#[trigger] es[m]).0 != k,
    decreases es.len() - i,
{
    if i < es.len() && es[i].0 != k {
        lemma_key_at(es, k, i + 1);
    }
}

/// `has_key` is decided by `key_at` from 0.
pub proof fn lemma_key_at_has(es: EntrySeq, k: Seq<char>)
    ensures
        has_key(es, k) <==> key_at(es, k, 0) < es.len(),
{
    lemma_key_at(es, k, 0);
    if key_at(es, k, 0) < es.len() {
        assert(es[key_at(es, k, 0)].0 == k);
    }
}

/// In a sorted list names are unique, so any index that holds the name `n`
/// is the one `pkg_at` finds.
pub proof fn lemma_pkg_at_sorted(pkgs: PkgSeq, n: Seq<char>, i: int)
    requires
        pkgs_wf(pkgs),
        0 <= i < pkgs.len(),
        pkgs[i].0 == n,
    ensures
        pkg_at(pkgs, n, 0) == i,
{
    lemma_pkg_at(pkgs, n, 0);
    let f = pkg_at(pkgs, n, 0);
    assert(f <= i);
    if f < i {
        assert(lex_lt(pkgs[f].0, pkgs[i].0));
        lemma_lex_irrefl(n);
    }
}

/// `has_pkg` is decided by `pkg_at` from 0.
pub proof fn lemma_pkg_at_has(pkgs: PkgSeq, n: Seq<char>)
    ensures
        has_pkg(pkgs, n) <==> pkg_at(pkgs, n, 0) < pkgs.len(),
{
    lemma_pkg_at(pkgs, n, 0);
    if pkg_at(pkgs, n, 0) < pkgs.len() {
        assert(pkgs[pkg_at(pkgs, n, 0)].0 == n);
    }
}

pub proof fn lemma_ins_pos(pkgs: PkgSeq, n: Seq<char>, i: int)
    requires
        0 <= i <= pkgs.len(),
    ensures
        i <= ins_pos(pkgs, n, i) <= pkgs.len(),
        forall|k: int| i <= k < ins_pos(pkgs, n, i) ==> !lex_lt(n, (#[trigger] pkgs[k]).0),
        ins_pos(pkgs, n, i) < pkgs.len() ==> lex_lt(n, pkgs[ins_pos(pkgs, n, i)].0),
    decreases pkgs.len() - i,
{
    if i < pkgs.len() && !lex_lt(n, pkgs[i].0) {
        lemma_ins_pos(pkgs, n, i + 1);
    }
}

/// Inserting a fresh name at its insertion position keeps the list sorted
/// and well formed.
pub proof fn lemma_insert_wf(pkgs: PkgSeq, n: Seq<char>)
    requires
        pkgs_wf(pkgs),
        bare_seq(n),
        !has_pkg(pkgs, n),
    ensures
        pkgs_wf(pkgs.insert(ins_pos(pkgs, n, 0), (n, Seq::<(Seq<char>, Seq<char>)>::empty()))),
        has_pkg(pkgs.insert(ins_pos(pkgs, n, 0), (n, Seq::<(Seq<char>, Seq<char>)>::empty())), n),
{
    let p = ins_pos(pkgs, n, 0);
    lemma_ins_pos(pkgs, n, 0);
    let x = (n, Seq::<(Seq<char>, Seq<char>)>::empty());
    let r = pkgs.insert(p, x);
    pkgs.insert_ensures(p, x);
    assert forall|k: int| 0 <= k < p implies lex_lt((#[trigger] pkgs[k]).0, n) by {
        assert(!lex_lt(n, pkgs[k].0));
        assert(pkgs[k].0 != n);
        lemma_lex_total(n, pkgs[k].0);
    }
    assert forall|i: int, j: int| 0 <= i < j < r.len() implies lex_lt(
        (#[trigger] r[i]).0,
        (#[trigger] r[j]).0,
    ) by {
        if i < p && j < p {
            assert(r[i] == pkgs[i] && r[j] == pkgs[j]);
        } else if i < p && j == p {
            assert(r[i] == pkgs[i]);
        } else if i < p && j > p {
            assert(r[i] == pkgs[i] && r[j] == pkgs[j - 1]);
            if j - 1 == i {
                assert(i < p <= j - 1);
            } else {
                assert(lex_lt(pkgs[i].0, pkgs[j - 1].0));
            }
        } else if i == p && j > p {
            assert(r[j] == pkgs[j - 1]);
            if j - 1 >= p {
                if p < pkgs.len() {
                    if j - 1 == p {
                        assert(lex_lt(n, pkgs[p].0));
                    } else {
                        lemma_lex_trans(n, pkgs[p].0, pkgs[j - 1].0);
                    }
                }
            }
        } else {
            assert(r[i] == pkgs[i - 1] && r[j] == pkgs[j - 1]);
            assert(lex_lt(pkgs[i - 1].0, pkgs[j - 1].0));
        }
    }
    assert(entries_wf(Seq::<(Seq<char>, Seq<char>)>::empty()));
    assert forall|i: int| 0 <= i < r.len() implies bare_seq(#[trigger] r[i].0) && entries_wf(
        r[i].1,
    ) by {
        if i < p {
            assert(r[i] == pkgs[i]);
        } else if i == p {
        } else {
            assert(r[i] == pkgs[i - 1]);
        }
    }
    assert(r[p] == x);
    assert(has_pkg(r, n));
}

/// One fold step on a well-formed shape preserves well-formedness.
pub proof fn lemma_shape_step_wf(st: FoldState, shape: LineShape)
    requires
        state_wf(st),
        shape_wf(shape),
        shape_step(st, shape) is Some,
    ensures
        state_wf(shape_step(st, shape)->Some_0),
{
    match shape {
        LineShape::Header(parts) => {
            if parts.len() == 2 && parts[0] == "package"@ {
                let n = parts[1];
                if !has_pkg(st.pkgs, n) {
                    lemma_insert_wf(st.pkgs, n);
                }
            }
        },
        LineShape::Entry(k, v) => {
            match st.region {
                Region::InPkg(n) => {
                    let i = pkg_at(st.pkgs, n, 0);
                    lemma_pkg_at(st.pkgs, n, 0);
                    if i < st.pkgs.len() && !has_key(st.pkgs[i].1, k) {
                        let es = st.pkgs[i].1.push((k, v));
                        assert forall|a: int, b: int| 0 <= a < b < es.len() implies (
                        #[trigger] es[a]).0 != (#[trigger] es[b]).0 by {
                            if b == es.len() - 1 {
                                assert(!has_key(st.pkgs[i].1, k));
                                assert(es[a] == st.pkgs[i].1[a]);
                                if es[a].0 == k {
                                    assert(0 <= a < st.pkgs[i].1.len() && st.pkgs[i].1[a].0 == k);
                                }
                            } else {
                                assert(es[a] == st.pkgs[i].1[a] && es[b] == st.pkgs[i].1[b]);
                            }
                        }
                        let r = st.pkgs.update(i, (st.pkgs[i].0, es));
                        assert forall|a: int| 0 <= a < r.len() implies bare_seq(
                            #[trigger] r[a].0,
                        ) && entries_wf(r[a].1) by {
                            if a != i {
                                assert(r[a] == st.pkgs[a]);
                            }
                        }
                        assert forall|a: int, b: int| 0 <= a < b < r.len() implies lex_lt(
                            (#[trigger] r[a]).0,
                            (#[trigger] r[b]).0,
                        ) by {
                            assert(r[a].0 == st.pkgs[a].0 && r[b].0 == st.pkgs[b].0);
                        }
                        assert(r[i].0 == n);
                        assert(has_pkg(r, n));
                    }
                },
                _ => {},
            }
        },
        _ => {},
    }
}

/// One fold step preserves well-formedness.
pub proof fn lemma_step_wf(st: FoldState, l: Seq<char>)
    requires
        state_wf(st),
        next_state(st, l) is Some,
    ensures
        state_wf(next_state(st, l)->Some_0),
{
    lemma_shape_of_wf(l);
    lemma_shape_step_wf(st, shape_of(l));
}

/// The whole fold preserves well-formedness.
pub proof fn lemma_run_wf(st: FoldState, lines: Seq<Seq<char>>)
    requires
        state_wf(st),
        run_from(st, lines) is Some,
    ensures
        state_wf(run_from(st, lines)->Some_0),
    decreases lines.len(),
{
    if lines.len() > 0 {
        lemma_step_wf(st, lines[0]);
        lemma_run_wf(next_state(st, lines[0])->Some_0, lines.drop_first());
    }
}

/// A successful parse yields a well-formed package list.
pub proof fn lemma_parse_spec_wf(s: Seq<char>)
    requires
        parse_spec(s) is Some,
    ensures
        pkgs_wf(parse_spec(s)->Some_0),
{
    lemma_run_wf(init_state(), split_lines(s));
}

} // verus!
