//! Turning the chains of a walk into the lines of an indented, coloured
//! tree, and the whole way from a lock file's text to those lines.

use vstd::prelude::*;
use vstd::string::*;

use crate::doc::yaml_documents;
use crate::graph::Entry;
use crate::lockfile::{FormatError, LoadError, Lockfile, pods_of};
use crate::style::{Colour, Style, join, paint, painted};
use crate::travel::{Chain, LookupError, Travel, TravelMode, chains_model, shortest_chains};

verus! {

/// `a` comes before `b`, or equals it, in the order of code points.
pub open spec fn lex_le(a: Seq<char>, b: Seq<char>) -> bool
    decreases a.len(),
{
    if a.len() == 0 {
        true
    } else if b.len() == 0 {
        false
    } else if a[0] != b[0] {
        (a[0] as u32) < (b[0] as u32)
    } else {
        lex_le(a.drop_first(), b.drop_first())
    }
}

pub open spec fn sorted(s: Seq<Seq<char>>) -> bool {
    forall|i: int, j: int| 0 <= i < j < s.len() ==> lex_le(#[trigger] s[i], #[trigger] s[j])
}

pub open spec fn views(v: Seq<String>) -> Seq<Seq<char>> {
    v.map_values(|s: String| s@)
}

/// The text of a chain: its names joined by `:`.
pub open spec fn chain_text(path: Seq<Seq<char>>) -> Seq<char> {
    join(path, ':')
}

pub open spec fn colon_count(s: Seq<char>) -> nat
    decreases s.len(),
{
    if s.len() == 0 {
        0
    } else {
        colon_count(s.drop_last()) + if s.last() == ':' {
            1nat
        } else {
            0
        }
    }
}

/// The number of `:`-separated parts of a chain text.
pub open spec fn depth_of(s: Seq<char>) -> nat {
    colon_count(s) + 1
}

/// What follows the last `:` of a chain text, or all of it.
pub open spec fn last_part(s: Seq<char>) -> Seq<char>
    decreases s.len(),
{
    if s.len() == 0 {
        s
    } else if s.last() == ':' {
        Seq::empty()
    } else {
        last_part(s.drop_last()).push(s.last())
    }
}

/// The colour of the lines at `depth`: six colours, in turn.
pub open spec fn level_colour(depth: nat) -> Colour {
    let i = (depth - 1) % 6;
    if i == 0 {
        Colour::Red
    } else if i == 1 {
        Colour::Green
    } else if i == 2 {
        Colour::Yellow
    } else if i == 3 {
        Colour::Blue
    } else if i == 4 {
        Colour::Purple
    } else {
        Colour::Cyan
    }
}

pub open spec fn spaces(n: nat) -> Seq<char> {
    Seq::new(n, |i: int| ' ')
}

/// The line that shows `text` at `depth`: four spaces for each level below
/// the first, then the bullet in bold and the text, both in the level's
/// colour.
pub open spec fn depth_line(text: Seq<char>, depth: nat) -> Seq<char> {
    let c = level_colour(depth);
    spaces((4 * (depth - 1)) as nat) + seq![' '] + painted(seq!['\u{2022}'], Style { fg: Some(c), bg: None, bold: true })
        + seq![' '] + painted(text, Style { fg: Some(c), bg: None, bold: false })
}

/// The lines of `chains`, in their order, leaving out those of more than
/// `max_depth` parts.
pub open spec fn rendered(chains: Seq<Seq<char>>, max_depth: int) -> Seq<Seq<char>>
    decreases chains.len(),
{
    if chains.len() == 0 {
        Seq::empty()
    } else {
        let r = rendered(chains.drop_last(), max_depth);
        let s = chains.last();
        if depth_of(s) <= max_depth {
            r.push(depth_line(last_part(s), depth_of(s)))
        } else {
            r
        }
    }
}

/// The lines a walk prints: those of the texts of some shortest chains from
/// `target`, sorted.
pub open spec fn printed_for(
    m: Map<Seq<char>, Entry>,
    mode: TravelMode,
    target: Seq<char>,
    max_depth: int,
    lines: Seq<Seq<char>>,
) -> bool {
    exists|cs: Seq<(Seq<char>, Seq<Seq<char>>)>, texts: Seq<Seq<char>>|
        {
            &&& shortest_chains(m, mode, target, cs)
            &&& sorted(texts)
            &&& texts.to_multiset() == cs.map_values(|c: (Seq<char>, Seq<Seq<char>>)| chain_text(c.1)).to_multiset()
            &&& lines == rendered(texts, max_depth)
        }
}

/// How reading a lock file and walking it from a target fails.
#[derive(Debug, PartialEq, Eq)]
pub enum ResolveError {
    /// The text is not well-formed YAML; the parser's message.
    Syntax(String),
    /// The text holds no document.
    Empty,
    /// The document is not a lock file.
    Format(FormatError),
    /// The target is not a package of the lock file.
    Lookup,
}

/// Relies on `slice::sort` over `String`: the strings end up in ascending
/// order, and strings are ordered by their UTF-8 bytes, which is the order
/// of their code points.
#[verifier::external_body]
fn sort_texts(v: &mut Vec<String>)
    ensures
        views(final(v)@).to_multiset() == views(old(v)@).to_multiset(),
        sorted(views(final(v)@)),
{
    v.sort();
}

impl Chain {
    /// The chain's names joined by `:`.
    pub fn text(&self) -> (r: String)
        ensures
            r@ == chain_text(self.model().1),
    {
        let ghost parts = self.model().1;
        let mut r = String::new();
        let mut i: usize = 0;
        proof {
            reveal_strlit(":");
        }
        while i < self.path.len()
            invariant
                i <= self.path@.len(),
                parts == self.path@.map_values(|s: String| s@),
                r@ == join(parts.subrange(0, i as int), ':'),
                ":"@ == seq![':'],
            decreases self.path@.len() - i,
        {
            let ghost pre = parts.subrange(0, i as int);
            assert(parts.subrange(0, i + 1).drop_last() =~= pre);
            if i > 0 {
                r.append(":");
            } else {
                assert(pre.len() == 0);
            }
            r.append(self.path[i].as_str());
            i = i + 1;
        }
        assert(parts.subrange(0, self.path@.len() as int) =~= parts);
        r
    }
}

fn level_colour_of(depth: usize) -> (c: Colour)
    requires
        depth >= 1,
    ensures
        c == level_colour(depth as nat),
{
    let i = (depth - 1) % 6;
    if i == 0 {
        Colour::Red
    } else if i == 1 {
        Colour::Green
    } else if i == 2 {
        Colour::Yellow
    } else if i == 3 {
        Colour::Blue
    } else if i == 4 {
        Colour::Purple
    } else {
        Colour::Cyan
    }
}

/// The line that shows `text` at `depth`.
pub fn print_depth_text(text: &str, depth: usize) -> (r: String)
    requires
        depth >= 1,
    ensures
        r@ == depth_line(text@, depth as nat),
{
    proof {
        reveal_strlit("    ");
        reveal_strlit(" ");
        reveal_strlit("\u{2022}");
    }
    let c = level_colour_of(depth);
    let mut r = String::new();
    let mut k: usize = 1;
    while k < depth
        invariant
            1 <= k <= depth,
            r@ == spaces((4 * (k - 1)) as nat),
            "    "@ == seq![' ', ' ', ' ', ' '],
        decreases depth - k,
    {
        r.append("    ");
        assert(r@ =~= spaces((4 * k) as nat));
        k = k + 1;
    }
    r.append(" ");
    r.append(paint("\u{2022}", Style { fg: Some(c), bg: None, bold: true }).as_str());
    r.append(" ");
    r.append(paint(text, Style { fg: Some(c), bg: None, bold: false }).as_str());
    r
}

/// The number of `:` in a chain text and what follows the last of them.
fn colons_and_label(s: &str) -> (r: (usize, String))
    ensures
        r.0 == colon_count(s@),
        r.1@ == last_part(s@),
{
    let n = s.unicode_len();
    let mut count: usize = 0;
    let mut start: usize = 0;
    let mut i: usize = 0;
    while i < n
        invariant
            n == s@.len(),
            i <= n,
            start <= i,
            count <= i,
            count == colon_count(s@.subrange(0, i as int)),
            last_part(s@.subrange(0, i as int)) == s@.subrange(start as int, i as int),
        decreases n - i,
    {
        let ghost pre = s@.subrange(0, i as int);
        assert(s@.subrange(0, i + 1).drop_last() =~= pre);
        if s.get_char(i) == ':' {
            count = count + 1;
            start = i + 1;
        } else {
            assert(s@.subrange(start as int, i + 1) =~= s@.subrange(start as int, i as int).push(s@[i as int]));
        }
        i = i + 1;
    }
    assert(s@.subrange(0, n as int) =~= s@);
    (count, s.substring_char(start, n).to_owned())
}

/// The lines of `chains`, in their order, leaving out those of more than
/// `max_depth` parts.
pub fn print_pretty_chains(chains: &Vec<String>, max_depth: usize) -> (r: Vec<String>)
    ensures
        views(r@) == rendered(views(chains@), max_depth as int),
{
    let ghost cv = views(chains@);
    let mut r: Vec<String> = Vec::new();
    let mut i: usize = 0;
    while i < chains.len()
        invariant
            i <= chains@.len(),
            cv == views(chains@),
            views(r@) == rendered(cv.subrange(0, i as int), max_depth as int),
        decreases chains@.len() - i,
    {
        let ghost pre = cv.subrange(0, i as int);
        assert(cv.subrange(0, i + 1).drop_last() =~= pre);
        assert(cv.subrange(0, i + 1).last() == chains@[i as int]@);
        let (colons, label) = colons_and_label(chains[i].as_str());
        if colons < max_depth {
            let line = print_depth_text(label.as_str(), colons + 1);
            let ghost rv = r@;
            r.push(line);
            assert(views(r@) =~= views(rv).push(line@));
        }
        i = i + 1;
    }
    assert(cv.subrange(0, chains@.len() as int) =~= cv);
    r
}

/// The sorted texts of `chains`.
pub fn sorted_chain_texts(chains: &Vec<Chain>) -> (r: Vec<String>)
    ensures
        sorted(views(r@)),
        views(r@).to_multiset() == chains_model(chains@).map_values(
            |c: (Seq<char>, Seq<Seq<char>>)| chain_text(c.1),
        ).to_multiset(),
{
    let ghost want = chains_model(chains@).map_values(|c: (Seq<char>, Seq<Seq<char>>)| chain_text(c.1));
    let mut texts: Vec<String> = Vec::new();
    let mut i: usize = 0;
    while i < chains.len()
        invariant
            i <= chains@.len(),
            want == chains_model(chains@).map_values(|c: (Seq<char>, Seq<Seq<char>>)| chain_text(c.1)),
            views(texts@) == want.subrange(0, i as int),
        decreases chains@.len() - i,
    {
        let t = chains[i].text();
        let ghost tv = texts@;
        texts.push(t);
        assert(views(texts@) =~= want.subrange(0, i + 1)) by {
            assert(views(texts@) =~= views(tv).push(t@));
        }
        i = i + 1;
    }
    assert(want.subrange(0, chains@.len() as int) =~= want);
    sort_texts(&mut texts);
    texts
}

/// What reading the lock file `text` and walking it from `target` in the
/// direction `mode` gives: the first failure on the way, or the lines.
pub open spec fn resolves_to(
    text: Seq<char>,
    target: Seq<char>,
    max_depth: int,
    mode: TravelMode,
    r: Result<Vec<String>, ResolveError>,
) -> bool {
    match yaml_documents(text) {
        None => r matches Err(ResolveError::Syntax(_)),
        Some(docs) => if docs.len() == 0 {
            r == Err::<Vec<String>, _>(ResolveError::Empty)
        } else {
            match pods_of(docs[0]) {
                Err(k) => r == Err::<Vec<String>, _>(ResolveError::Format(k)),
                Ok(m) => if !m.contains_key(target) {
                    r == Err::<Vec<String>, _>(ResolveError::Lookup)
                } else {
                    r matches Ok(lines) && printed_for(m, mode, target, max_depth, views(lines@))
                },
            }
        },
    }
}

/// Reads the text of a lock file and renders the chains from `target` in
/// the direction `mode`, leaving out those of more than `max_depth` parts.
pub fn travel_and_print(text: &str, target: &str, max_depth: usize, mode: TravelMode) -> (r: Result<
    Vec<String>,
    ResolveError,
>)
    ensures
        resolves_to(text@, target@, max_depth as int, mode, r),
{
    let lockfile = match Lockfile::from_text(text) {
        Ok(l) => l,
        Err(LoadError::Syntax(msg)) => return Err(ResolveError::Syntax(msg)),
        Err(LoadError::Empty) => return Err(ResolveError::Empty),
    };
    let pods = match lockfile.pods() {
        Ok(p) => p,
        Err(k) => return Err(ResolveError::Format(k)),
    };
    let travel = Travel::new(mode, &pods);
    let chains = match travel.collect(target) {
        Ok(cs) => cs,
        Err(LookupError) => return Err(ResolveError::Lookup),
    };
    let texts = sorted_chain_texts(&chains);
    let lines = print_pretty_chains(&texts, max_depth);
    proof {
        assert(shortest_chains(pods@, mode, target@, chains_model(chains@)));
    }
    Ok(lines)
}

/// The packages `target` depends on, directly or not, as rendered lines.
pub fn print_deps(text: &str, target: &str, max_depth: usize) -> (r: Result<Vec<String>, ResolveError>)
    ensures
        resolves_to(text@, target@, max_depth as int, TravelMode::Children, r),
{
    travel_and_print(text, target, max_depth, TravelMode::Children)
}

/// The packages that depend on `target`, directly or not, as rendered
/// lines.
pub fn print_reserve_deps(text: &str, target: &str, max_depth: usize) -> (r: Result<Vec<String>, ResolveError>)
    ensures
        resolves_to(text@, target@, max_depth as int, TravelMode::Parents, r),
{
    travel_and_print(text, target, max_depth, TravelMode::Parents)
}

/// No rendered line stands for a chain of more than `max_depth` parts:
/// each line is that of a chain among `chains` with at most that many.
pub proof fn lemma_rendered_depth(chains: Seq<Seq<char>>, max_depth: int, i: int)
    requires
        0 <= i < rendered(chains, max_depth).len(),
    ensures
        exists|s: Seq<char>|
            chains.contains(s) && depth_of(s) <= max_depth && rendered(chains, max_depth)[i] == depth_line(
                last_part(s),
                depth_of(s),
            ),
    decreases chains.len(),
{
    assert(chains.len() > 0);
    let init = chains.drop_last();
    let r = rendered(init, max_depth);
    let s = chains.last();
    if i < r.len() {
        assert(rendered(chains, max_depth)[i] == r[i]);
        lemma_rendered_depth(init, max_depth, i);
        let w = choose|w: Seq<char>|
            init.contains(w) && depth_of(w) <= max_depth && r[i] == depth_line(last_part(w), depth_of(w));
        let k = choose|k: int| 0 <= k < init.len() && init[k] == w;
        assert(chains[k] == w);
        assert(chains.contains(w));
    } else {
        assert(depth_of(s) <= max_depth);
        assert(chains[chains.len() - 1] == s);
        assert(chains.contains(s));
        assert(rendered(chains, max_depth)[i] == depth_line(last_part(s), depth_of(s)));
    }
}

} // verus!
