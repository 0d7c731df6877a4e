//! Executable scanning of one manifest line, proved against the grammar.

use vstd::prelude::*;

use crate::grammar::LineShape;
use crate::grammar::first_nl;
use crate::grammar::path_rec;
use crate::grammar::rest_blank;
use crate::grammar::shape_of;
use crate::grammar::skip_bare;
use crate::grammar::skip_ws;
use crate::grammar::str_end;
use crate::text::bare_char;
use crate::text::string_of;
use crate::text::string_range;
use crate::text::value_char;
use crate::text::ws_char;

verus! {

/// The classification of one line, as executable data.
pub(crate) enum LineTok {
    Blank,
    Header(Vec<String>),
    Entry(String, String),
    Bad,
}

/// The character sequences of a vector of strings.
pub(crate) open spec fn parts_view(ps: Seq<String>) -> Seq<Seq<char>> {
    Seq::new(ps.len(), |i: int| ps[i]@)
}

/// What a token stands for in the grammar.
pub(crate) open spec fn tok_view(t: LineTok) -> LineShape {
    match t {
        LineTok::Blank => LineShape::Blank,
        LineTok::Header(ps) => LineShape::Header(parts_view(ps@)),
        LineTok::Entry(k, v) => LineShape::Entry(k@, v@),
        LineTok::Bad => LineShape::Bad,
    }
}

/// Finds the first line feed at or after `i`.
pub(crate) fn find_nl(l: &Vec<char>, i: usize) -> (r: usize)
    requires
        i as int <= l@.len(),
    ensures
        r as int == first_nl(l@, i as int),
        i <= r,
        r as int <= l@.len(),
{
    let n = l.len();
    let mut j = i;
    loop
        invariant_except_break
            i <= j <= n,
            n == l@.len(),
            first_nl(l@, i as int) == first_nl(l@, j as int),
        invariant
            n == l@.len(),
        ensures
            i <= j <= n,
            j as int == first_nl(l@, i as int),
        decreases n - j,
    {
        if j >= n {
            proof {
                assert(first_nl(l@, j as int) == j as int);
            }
            break ;
        }
        if l[j] == '\n' {
            proof {
                assert(first_nl(l@, j as int) == j as int);
            }
            break ;
        }
        proof {
            assert(first_nl(l@, j as int) == first_nl(l@, j as int + 1));
        }
        j = j + 1;
    }
    j
}

/// Finds the first non-whitespace position at or after `i`.
fn skip_ws_at(l: &Vec<char>, i: usize) -> (r: usize)
    requires
        i as int <= l@.len(),
    ensures
        r as int == skip_ws(l@, i as int),
        i <= r,
        r as int <= l@.len(),
{
    let n = l.len();
    let mut j = i;
    loop
        invariant_except_break
            i <= j <= n,
            n == l@.len(),
            skip_ws(l@, i as int) == skip_ws(l@, j as int),
        invariant
            n == l@.len(),
        ensures
            i <= j <= n,
            j as int == skip_ws(l@, i as int),
        decreases n - j,
    {
        if j >= n {
            break ;
        }
        if !ws_char(l[j]) {
            break ;
        }
        proof {
            assert(skip_ws(l@, j as int) == skip_ws(l@, j as int + 1));
        }
        j = j + 1;
    }
    j
}

/// Finds the first non-bare-key position at or after `i`.
fn skip_bare_at(l: &Vec<char>, i: usize) -> (r: usize)
    requires
        i as int <= l@.len(),
    ensures
        r as int == skip_bare(l@, i as int),
        i <= r,
        r as int <= l@.len(),
{
    let n = l.len();
    let mut j = i;
    loop
        invariant_except_break
            i <= j <= n,
            n == l@.len(),
            skip_bare(l@, i as int) == skip_bare(l@, j as int),
        invariant
            n == l@.len(),
        ensures
            i <= j <= n,
            j as int == skip_bare(l@, i as int),
        decreases n - j,
    {
        if j >= n {
            break ;
        }
        if !bare_char(l[j]) {
            break ;
        }
        proof {
            assert(skip_bare(l@, j as int) == skip_bare(l@, j as int + 1));
        }
        j = j + 1;
    }
    j
}

/// Finds the closing quote of a value that starts at `i`.
fn str_end_at(l: &Vec<char>, i: usize) -> (r: Option<usize>)
    requires
        i as int <= l@.len(),
    ensures
        match r {
            Some(e) => e as int == str_end(l@, i as int) && i <= e && (e as int) < l@.len(),
            None => str_end(l@, i as int) == -1,
        },
{
    let n = l.len();
    let mut j = i;
    loop
        invariant
            i <= j <= n,
            n == l@.len(),
            str_end(l@, i as int) == str_end(l@, j as int),
        decreases n - j,
    {
        if j >= n {
            return None;
        }
        let c = l[j];
        if c == '"' {
            proof {
                assert(str_end(l@, j as int) == j as int);
            }
            return Some(j);
        }
        if !value_char(c) {
            return None;
        }
        proof {
            assert(str_end(l@, j as int) == str_end(l@, j as int + 1));
        }
        j = j + 1;
    }
}

/// True when the rest of the line is whitespace or a comment.
fn rest_blank_at(l: &Vec<char>, i: usize) -> (r: bool)
    requires
        i as int <= l@.len(),
    ensures
        r == rest_blank(l@, i as int),
{
    let n = l.len();
    let e = skip_ws_at(l, i);
    e >= n || l[e] == '#'
}

/// Classifies one line, yielding exactly what [`shape_of`] says of it.
pub(crate) fn classify(l: &Vec<char>) -> (r: LineTok)
    ensures
        tok_view(r) == shape_of(l@),
{
    let n = l.len();
    let i = skip_ws_at(l, 0);
    if i >= n {
        return LineTok::Blank;
    }
    let c0 = l[i];
    if c0 == '#' {
        return LineTok::Blank;
    }
    if c0 == '[' {
        let mut parts: Vec<String> = Vec::new();
        let mut cur: Vec<char> = Vec::new();
        let mut j = i + 1;
        proof {
            assert(parts_view(parts@) =~= Seq::<Seq<char>>::empty());
        }
        loop
            invariant
                i + 1 <= j <= n,
                n == l@.len(),
                i as int == skip_ws(l@, 0),
                (i as int) < l@.len(),
                l@[i as int] == '[',
                path_rec(l@, i as int + 1, Seq::empty(), Seq::empty()) == path_rec(
                    l@,
                    j as int,
                    cur@,
                    parts_view(parts@),
                ),
            decreases n - j,
        {
            if j >= n {
                return LineTok::Bad;
            }
            let c = l[j];
            let ghost cur0 = cur@;
            let ghost parts0 = parts@;
            if bare_char(c) {
                proof {
                    assert(path_rec(l@, j as int, cur0, parts_view(parts0)) == path_rec(
                        l@,
                        j as int + 1,
                        cur0.push(l@[j as int]),
                        parts_view(parts0),
                    ));
                }
                cur.push(c);
                j = j + 1;
            } else if c == '.' {
                if cur.len() == 0 {
                    return LineTok::Bad;
                }
                proof {
                    assert(path_rec(l@, j as int, cur0, parts_view(parts0)) == path_rec(
                        l@,
                        j as int + 1,
                        Seq::empty(),
                        parts_view(parts0).push(cur0),
                    ));
                }
                let part = string_of(&cur);
                parts.push(part);
                proof {
                    assert(parts_view(parts@) =~= parts_view(parts0).push(cur0));
                }
                cur = Vec::new();
                j = j + 1;
            } else if c == ']' {
                if cur.len() == 0 {
                    return LineTok::Bad;
                }
                proof {
                    assert(path_rec(l@, j as int, cur0, parts_view(parts0)) == Some(
                        (parts_view(parts0).push(cur0), j as int + 1),
                    ));
                }
                let part = string_of(&cur);
                parts.push(part);
                proof {
                    assert(parts_view(parts@) =~= parts_view(parts0).push(cur0));
                    assert(path_rec(l@, i as int + 1, Seq::empty(), Seq::empty()) == Some(
                        (parts_view(parts@), j as int + 1),
                    ));
                }
                if !rest_blank_at(l, j + 1) {
                    return LineTok::Bad;
                }
                return LineTok::Header(parts);
            } else {
                return LineTok::Bad;
            }
        }
    }
    // an entry line: key = "value"
    let j = skip_bare_at(l, i);
    if j == i {
        return LineTok::Bad;
    }
    let key = string_range(l, i, j);
    let k = skip_ws_at(l, j);
    if k >= n || l[k] != '=' {
        return LineTok::Bad;
    }
    let m = skip_ws_at(l, k + 1);
    if m >= n || l[m] != '"' {
        return LineTok::Bad;
    }
    match str_end_at(l, m + 1) {
        None => LineTok::Bad,
        Some(e) => {
            let val = string_range(l, m + 1, e);
            if !rest_blank_at(l, e + 1) {
                return LineTok::Bad;
            }
            LineTok::Entry(key, val)
        },
    }
}

} // verus!
