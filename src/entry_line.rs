//! The `"<name> (<version>)"` lines of a lock file.
//!
//! A line is read with the semantics of the pattern
//! `(?:\s?[^\s(])+(?: \((.+)\))?`, searched for anywhere in the line: the
//! name is the leftmost, longest run of units, where a unit is one character
//! that is neither white space nor `(`, optionally preceded by one white
//! space character; the version is what stands between `" ("` right after
//! the name and the last `)` before the end of the line.

use vstd::prelude::*;
use vstd::string::*;

verus! {

/// White space as Unicode's `White_Space` property defines it.
pub open spec fn is_space(c: char) -> bool {
    ('\u{9}' <= c && c <= '\u{d}') || c == ' ' || c == '\u{85}' || c == '\u{a0}'
        || c == '\u{1680}' || ('\u{2000}' <= c && c <= '\u{200a}') || c == '\u{2028}'
        || c == '\u{2029}' || c == '\u{202f}' || c == '\u{205f}' || c == '\u{3000}'
}

pub open spec fn is_name_char(c: char) -> bool {
    !is_space(c) && c != '('
}

/// Length of the name unit that starts at `p`, or 0 where none does.
pub open spec fn unit_len(s: Seq<char>, p: int) -> int {
    if 0 <= p < s.len() && is_name_char(s[p]) {
        1
    } else if 0 <= p && p + 1 < s.len() && is_space(s[p]) && is_name_char(s[p + 1]) {
        2
    } else {
        0
    }
}

/// Where a run of units that starts at `p` ends.
pub open spec fn name_end(s: Seq<char>, p: int) -> int
    decreases s.len() - p,
{
    if p < 0 || p >= s.len() || unit_len(s, p) == 0 {
        p
    } else {
        name_end(s, p + unit_len(s, p))
    }
}

/// The first position at or after `p` where a unit starts, or `s.len()`.
pub open spec fn first_start(s: Seq<char>, p: int) -> int
    decreases s.len() - p,
{
    if p < 0 || p >= s.len() {
        s.len() as int
    } else if unit_len(s, p) > 0 {
        p
    } else {
        first_start(s, p + 1)
    }
}

/// The first newline at or after `p`, or `s.len()`.
pub open spec fn line_end(s: Seq<char>, p: int) -> int
    decreases s.len() - p,
{
    if p < 0 || p >= s.len() {
        s.len() as int
    } else if s[p] == '\n' {
        p
    } else {
        line_end(s, p + 1)
    }
}

/// The last `)` in `[lo, hi)`, or -1.
pub open spec fn last_close(s: Seq<char>, lo: int, hi: int) -> int
    decreases hi - lo,
{
    if hi <= lo || hi > s.len() || lo < 0 {
        -1
    } else if s[hi - 1] == ')' {
        hi - 1
    } else {
        last_close(s, lo, hi - 1)
    }
}

/// The version group that follows a name ending at `q`.
pub open spec fn version_after(s: Seq<char>, q: int) -> Option<Seq<char>> {
    if 0 <= q && q + 1 < s.len() && s[q] == ' ' && s[q + 1] == '(' {
        let j = last_close(s, q + 3, line_end(s, q + 2));
        if j >= 0 {
            Some(s.subrange(q + 2, j))
        } else {
            None
        }
    } else {
        None
    }
}

/// The name and the optional version of a line, or `None` where no name
/// can be found in it.
pub open spec fn split_line(s: Seq<char>) -> Option<(Seq<char>, Option<Seq<char>>)> {
    let i = first_start(s, 0);
    if i >= s.len() {
        None
    } else {
        let q = name_end(s, i);
        Some((s.subrange(i, q), version_after(s, q)))
    }
}

fn is_space_char(c: char) -> (r: bool)
    ensures
        r == is_space(c),
{
    ('\u{9}' <= c && c <= '\u{d}') || c == ' ' || c == '\u{85}' || c == '\u{a0}'
        || c == '\u{1680}' || ('\u{2000}' <= c && c <= '\u{200a}') || c == '\u{2028}'
        || c == '\u{2029}' || c == '\u{202f}' || c == '\u{205f}' || c == '\u{3000}'
}

fn unit_at(s: &Vec<char>, p: usize) -> (r: usize)
    requires
        p <= s@.len(),
    ensures
        r as int == unit_len(s@, p as int),
{
    if p < s.len() && !is_space_char(s[p]) && s[p] != '(' {
        1
    } else if p < s.len() && s.len() - p > 1 && is_space_char(s[p]) && !is_space_char(s[p + 1]) && s[p + 1]
        != '(' {
        2
    } else {
        0
    }
}

fn chars_of(s: &str) -> (r: Vec<char>)
    ensures
        r@ == s@,
{
    let n = s.unicode_len();
    let mut r: Vec<char> = Vec::new();
    let mut i: usize = 0;
    while i < n
        invariant
            n == s@.len(),
            i <= n,
            r@ == s@.subrange(0, i as int),
        decreases n - i,
    {
        r.push(s.get_char(i));
        i = i + 1;
    }
    r
}

/// Splits a lock-file line into its name and its optional version.
pub fn name_and_version(line: &str) -> (r: Option<(String, Option<String>)>)
    ensures
        match r {
            Some((name, vers)) => split_line(line@) == Some(
                (name@, match vers {
                    Some(v) => Some(v@),
                    None => None::<Seq<char>>,
                }),
            ),
            None => split_line(line@) is None,
        },
{
    let s = chars_of(line);
    let n = s.len();
    let ghost sv = s@;
    let mut i: usize = 0;
    while i < n && unit_at(&s, i) == 0
        invariant
            s@ == sv,
            n == sv.len(),
            i <= n,
            first_start(sv, i as int) == first_start(sv, 0),
        decreases n - i,
    {
        i = i + 1;
    }
    if i >= n {
        return None;
    }
    assert(first_start(sv, 0) == i);
    let mut q: usize = i;
    while q < n && unit_at(&s, q) != 0
        invariant
            s@ == sv,
            n == sv.len(),
            i <= q <= n,
            name_end(sv, q as int) == name_end(sv, i as int),
        decreases n - q,
    {
        q = q + unit_at(&s, q);
    }
    assert(name_end(sv, i as int) == q);
    let name = line.substring_char(i, q).to_owned();
    let mut vers: Option<String> = None;
    if q < n && n - q > 1 && s[q] == ' ' && s[q + 1] == '(' {
        let mut e: usize = q + 2;
        while e < n && s[e] != '\n'
            invariant
                s@ == sv,
                n == sv.len(),
                q + 2 <= e <= n,
                line_end(sv, e as int) == line_end(sv, q + 2),
            decreases n - e,
        {
            e = e + 1;
        }
        let mut h: usize = e;
        while h - q > 3 && s[h - 1] != ')'
            invariant
                s@ == sv,
                n == sv.len(),
                q + 3 <= h + 1,
                h <= e <= n,
                last_close(sv, q + 3, h as int) == last_close(sv, q + 3, e as int),
            decreases h,
        {
            h = h - 1;
        }
        assert(line_end(sv, q + 2) == e);
        if h - q > 3 {
            assert(last_close(sv, q + 3, e as int) == h - 1);
            vers = Some(line.substring_char(q + 2, h - 1).to_owned());
        } else {
            assert(last_close(sv, q + 3, e as int) == -1);
        }
    } else {
        assert(version_after(sv, q as int) is None);
    }
    Some((name, vers))
}

} // verus!
