//! Walking the package graph from a target: for each package the walk
//! reaches, one chain of dependency steps of the least length there is.

use vstd::prelude::*;

use crate::doc::Doc;
use crate::graph::{Entry, PodItem, Pods, well_linked, with_edge, with_edges, with_entry};
use crate::lockfile::{FormatError, entry_of, graph_of};

verus! {

/// Which edges the walk follows.
#[derive(Debug, Clone, Copy, PartialEq, Eq, Structural)]
pub enum TravelMode {
    /// From a package to those that depend on it.
    Parents,
    /// From a package to those it depends on.
    Children,
}

/// A target that is not a package of the graph.
#[derive(Debug, Clone, Copy, PartialEq, Eq, Structural)]
pub struct LookupError;

pub open spec fn next_of(e: Entry, mode: TravelMode) -> Set<Seq<char>> {
    match mode {
        TravelMode::Parents => e.parents,
        TravelMode::Children => e.children,
    }
}

/// `b` is one step from `a`.
pub open spec fn step(m: Map<Seq<char>, Entry>, mode: TravelMode, a: Seq<char>, b: Seq<char>) -> bool {
    m.contains_key(a) && next_of(m[a], mode).contains(b)
}

/// `path` leads from `target` one step per name; its last name is where it
/// ends, its length is that package's depth.
pub open spec fn is_chain(m: Map<Seq<char>, Entry>, mode: TravelMode, target: Seq<char>, path: Seq<Seq<char>>) -> bool {
    &&& path.len() >= 1
    &&& step(m, mode, target, path[0])
    &&& forall|i: int| 0 <= i < path.len() - 1 ==> step(m, mode, #[trigger] path[i], path[i + 1])
}

pub open spec fn reaches(m: Map<Seq<char>, Entry>, mode: TravelMode, target: Seq<char>, v: Seq<char>) -> bool {
    exists|p: Seq<Seq<char>>| is_chain(m, mode, target, p) && p.last() == v
}

/// `cs` pairs each package reachable from `target`, but `target` itself,
/// with a chain of least length that leads to it, and holds nothing else.
pub open spec fn shortest_chains(
    m: Map<Seq<char>, Entry>,
    mode: TravelMode,
    target: Seq<char>,
    cs: Seq<(Seq<char>, Seq<Seq<char>>)>,
) -> bool {
    &&& forall|i: int|
        0 <= i < cs.len() ==> {
            &&& (#[trigger] cs[i]).0 != target
            &&& is_chain(m, mode, target, cs[i].1)
            &&& cs[i].1.last() == cs[i].0
        }
    &&& forall|i: int, p: Seq<Seq<char>>|
        #![trigger cs[i], is_chain(m, mode, target, p)]
        0 <= i < cs.len() && is_chain(m, mode, target, p) && p.last() == cs[i].0 ==> cs[i].1.len() <= p.len()
    &&& forall|v: Seq<char>|
        v != target && #[trigger] reaches(m, mode, target, v) ==> exists|i: int| 0 <= i < cs.len() && (#[trigger] cs[i]).0 == v
    &&& forall|i: int, j: int| 0 <= i < cs.len() && 0 <= j < cs.len() && i != j ==> (#[trigger] cs[i]).0 != (#[trigger] cs[j]).0
}

/// A package and the chain that leads to it from the target.
pub struct Chain {
    pub name: String,
    pub path: Vec<String>,
}

impl Chain {
    pub open spec fn model(self) -> (Seq<char>, Seq<Seq<char>>) {
        (self.name@, self.path@.map_values(|s: String| s@))
    }
}

pub open spec fn chains_model(v: Seq<Chain>) -> Seq<(Seq<char>, Seq<Seq<char>>)> {
    v.map_values(|c: Chain| c.model())
}

/// The walk over one graph in one direction.
pub struct Travel<'a> {
    mode: TravelMode,
    source: &'a Pods,
}

pub open spec fn count_none(s: Seq<Option<Vec<usize>>>) -> int
    decreases s.len(),
{
    if s.len() == 0 {
        0
    } else {
        count_none(s.drop_last()) + if s.last() is None {
            1int
        } else {
            0
        }
    }
}

proof fn lemma_count_none_bounds(s: Seq<Option<Vec<usize>>>)
    ensures
        0 <= count_none(s) <= s.len(),
    decreases s.len(),
{
    if s.len() > 0 {
        lemma_count_none_bounds(s.drop_last());
    }
}

proof fn lemma_count_none_fill(s: Seq<Option<Vec<usize>>>, j: int, x: Option<Vec<usize>>)
    requires
        0 <= j < s.len(),
        s[j] is None,
        x is Some,
    ensures
        count_none(s.update(j, x)) == count_none(s) - 1,
    decreases s.len(),
{
    if j < s.len() - 1 {
        assert(s.update(j, x).drop_last() =~= s.drop_last().update(j, x));
        lemma_count_none_fill(s.drop_last(), j, x);
    } else {
        assert(s.update(j, x).drop_last() =~= s.drop_last());
    }
}

/// The names of the neighbours of `p` that `mode` follows.
fn next_names(p: &PodItem, mode: TravelMode) -> (r: &Vec<String>)
    ensures
        crate::graph::names_of(r@) == next_of(p.model(), mode),
{
    match mode {
        TravelMode::Parents => &p.parents,
        TravelMode::Children => &p.children,
    }
}

fn copy_path(v: &Vec<usize>) -> (r: Vec<usize>)
    ensures
        r@ == v@,
{
    let mut r: Vec<usize> = Vec::new();
    let mut i: usize = 0;
    while i < v.len()
        invariant
            i <= v@.len(),
            r@ == v@.subrange(0, i as int),
        decreases v@.len() - i,
    {
        r.push(v[i]);
        i = i + 1;
    }
    r
}

impl<'a> Travel<'a> {
    pub closed spec fn mode(self) -> TravelMode {
        self.mode
    }

    pub closed spec fn source(self) -> Pods {
        *self.source
    }

    /// A walk over `source` that follows `mode`.
    pub fn new(mode: TravelMode, source: &'a Pods) -> (r: Self)
        ensures
            r.mode() == mode,
            r.source() == *source,
    {
        Travel { mode, source }
    }

    pub open spec fn name_at(self, i: int) -> Seq<char> {
        self.source().items@[i].name@
    }

    pub open spec fn names_along(self, p: Seq<usize>) -> Seq<Seq<char>> {
        p.map_values(|k: usize| self.name_at(k as int))
    }

    pub open spec fn edge(self, u: int, j: int) -> bool {
        step(self.source()@, self.mode(), self.name_at(u), self.name_at(j))
    }

    /// `best[v]`, where it is set, is the path of indices by which the walk
    /// reached `v` from `t`.
    pub open spec fn path_ok(self, t: int, best: Seq<Option<Vec<usize>>>, v: int) -> bool {
        let p = best[v]->Some_0@;
        &&& p.len() == 0 ==> v == t
        &&& p.len() > 0 ==> p.last() == v && is_chain(
            self.source()@,
            self.mode(),
            self.name_at(t),
            self.names_along(p),
        )
        &&& forall|k: int| 0 <= k < p.len() ==> p[k] < self.source().items@.len()
    }

    pub open spec fn seen(best: Seq<Option<Vec<usize>>>, v: int) -> bool {
        best[v] is Some
    }

    pub open spec fn dist(best: Seq<Option<Vec<usize>>>, v: int) -> int {
        best[v]->Some_0@.len() as int
    }

    /// Every package reached at less than `level` has all its neighbours
    /// reached, at most one step deeper.
    pub open spec fn closed_below(self, best: Seq<Option<Vec<usize>>>, level: int) -> bool {
        forall|u: int, j: int|
            0 <= u < best.len() && 0 <= j < best.len() && Self::seen(best, u) && Self::dist(best, u) < level
                && #[trigger] self.edge(u, j) ==> Self::seen(best, j) && Self::dist(best, j) <= Self::dist(
                best,
                u,
            ) + 1
    }

    proof fn lemma_has_slot(self, n: Seq<char>)
        requires
            self.source().wf(),
            self.source()@.contains_key(n),
        ensures
            0 <= self.source().slot(n) < self.source().items@.len(),
            self.name_at(self.source().slot(n)) == n,
    {
    }

    /// A chain from the target reaches every package on it no deeper than
    /// its place in the chain.
    proof fn lemma_chain_bound(self, t: int, best: Seq<Option<Vec<usize>>>, level: int, q: Seq<Seq<char>>, k: int)
        requires
            self.source().wf(),
            well_linked(self.source()@),
            best.len() == self.source().items@.len(),
            0 <= t < best.len(),
            Self::seen(best, t),
            Self::dist(best, t) == 0,
            forall|v: int| 0 <= v < best.len() && Self::seen(best, v) ==> Self::dist(best, v) < level,
            self.closed_below(best, level),
            is_chain(self.source()@, self.mode(), self.name_at(t), q),
            0 <= k < q.len(),
        ensures
            self.source()@.contains_key(q[k]),
            Self::seen(best, self.source().slot(q[k])),
            Self::dist(best, self.source().slot(q[k])) <= k + 1,
        decreases k,
    {
        let m = self.source()@;
        let (a, u) = if k == 0 {
            (self.name_at(t), t)
        } else {
            self.lemma_chain_bound(t, best, level, q, k - 1);
            assert(step(m, self.mode(), q[k - 1], q[k]));
            (q[k - 1], self.source().slot(q[k - 1]))
        };
        assert(step(m, self.mode(), a, q[k]));
        assert(m.contains_key(q[k])) by {
            assert(m.contains_key(a));
        }
        self.lemma_has_slot(q[k]);
        if k > 0 {
            self.lemma_has_slot(q[k - 1]);
        }
        assert(self.edge(u, self.source().slot(q[k])));
    }
    /// The state of the walk once every package at depth below `level` has
    /// been expanded: `frontier` holds the packages at depth `level`.
    pub open spec fn level_ok(self, t: int, best: Seq<Option<Vec<usize>>>, frontier: Seq<usize>, level: int) -> bool {
        let n = self.source().items@.len() as int;
        &&& best.len() == n
        &&& n <= usize::MAX
        &&& 0 <= t < n
        &&& Self::seen(best, t)
        &&& Self::dist(best, t) == 0
        &&& level >= 0
        &&& forall|v: int| 0 <= v < n && Self::seen(best, v) ==> Self::dist(best, v) <= level && self.path_ok(t, best, v)
        &&& forall|v: int| 0 <= v < n ==> (Self::seen(best, v) && Self::dist(best, v) == level <==> frontier.contains(v as usize))
        &&& forall|k: int| 0 <= k < frontier.len() ==> frontier[k] < n
        &&& self.closed_below(best, level)
    }

    /// The state of the walk part way through expanding depth `level`:
    /// `b0` is how it stood when the expansion began.
    pub open spec fn round_ok(
        self,
        t: int,
        b0: Seq<Option<Vec<usize>>>,
        best: Seq<Option<Vec<usize>>>,
        next: Seq<usize>,
        level: int,
    ) -> bool {
        let n = self.source().items@.len() as int;
        &&& best.len() == n
        &&& forall|v: int| 0 <= v < n && Self::seen(b0, v) ==> best[v] == b0[v]
        &&& forall|v: int|
            0 <= v < n && Self::seen(best, v) && !Self::seen(b0, v) ==> Self::dist(best, v) == level + 1 && self.path_ok(
                t,
                best,
                v,
            ) && next.contains(v as usize)
        &&& forall|k: int|
            0 <= k < next.len() ==> next[k] < n && Self::seen(best, next[k] as int) && !Self::seen(b0, next[k] as int)
        &&& count_none(best) + next.len() == count_none(b0)
    }

    /// Reaches each neighbour of `u`, a package at depth `level`, that the
    /// walk has not reached yet.
    fn expand(
        &self,
        t: usize,
        best: &mut Vec<Option<Vec<usize>>>,
        next: &mut Vec<usize>,
        u: usize,
        b0: Ghost<Seq<Option<Vec<usize>>>>,
        level: Ghost<int>,
    )
        requires
            self.source().wf(),
            well_linked(self.source()@),
            0 <= t < b0@.len(),
            b0@.len() == self.source().items@.len(),
            forall|v: int| 0 <= v < b0@.len() && Self::seen(b0@, v) ==> Self::dist(b0@, v) <= level@ && self.path_ok(t as int, b0@, v),
            self.round_ok(t as int, b0@, old(best)@, old(next)@, level@),
            u < b0@.len(),
            Self::seen(b0@, u as int),
            Self::dist(b0@, u as int) == level@,
        ensures
            self.round_ok(t as int, b0@, final(best)@, final(next)@, level@),
            forall|v: int|
                #![trigger final(best)@[v]]
                0 <= v < old(best)@.len() && Self::seen(old(best)@, v) ==> final(best)@[v] == old(best)@[v],
            forall|j: int|
                0 <= j < b0@.len() && #[trigger] self.edge(u as int, j) ==> Self::seen(final(best)@, j) && Self::dist(
                    final(best)@,
                    j,
                ) <= level@ + 1,
    {
        let n = best.len();
        let g = self.source;
        proof {
            g.lemma_slot(u as int);
        }
        let path = match &best[u] {
            Some(p) => copy_path(p),
            None => Vec::new(),
        };
        let nbrs = next_names(g.item(u), self.mode);
        let mut k: usize = 0;
        while k < nbrs.len()
            invariant
                n == best@.len(),
                n == b0@.len(),
                n == g.items@.len(),
                *g == self.source(),
                g.wf(),
                well_linked(g@),
                0 <= t < n,
                u < n,
                path@ == b0@[u as int]->Some_0@,
                path@.len() == level@,
                self.path_ok(t as int, b0@, u as int),
                Self::seen(b0@, u as int),
                crate::graph::names_of(nbrs@) == next_of(g.items@[u as int].model(), self.mode()),
                g@[self.name_at(u as int)] == g.items@[u as int].model(),
                g@.contains_key(self.name_at(u as int)),
                forall|v: int| 0 <= v < n && Self::seen(b0@, v) ==> Self::dist(b0@, v) <= level@,
                self.round_ok(t as int, b0@, best@, next@, level@),
                forall|v: int| 0 <= v < n && Self::seen(old(best)@, v) ==> best@[v] == old(best)@[v],
                forall|i: int, j: int|
                    #![trigger nbrs@[i], self.name_at(j)]
                    0 <= i < k && 0 <= j < n && self.name_at(j) == nbrs@[i]@ ==> Self::seen(best@, j)
                        && Self::dist(best@, j) <= level@ + 1,
            decreases nbrs@.len() - k,
        {
            match g.find(&nbrs[k]) {
                Some(j) => {
                    proof {
                        g.lemma_slot(j as int);
                    }
                    if best[j].is_none() {
                        let mut q = copy_path(&path);
                        q.push(j);
                        let ghost pre = best@;
                        let ghost next_pre = next@;
                        let ghost qv = q@;
                        proof {
                            lemma_count_none_fill(best@, j as int, Some(q));
                            assert(self.name_at(j as int) == nbrs@[k as int]@);
                            assert(next_of(g@[self.name_at(u as int)], self.mode()).contains(self.name_at(j as int)));
                            assert(self.edge(u as int, j as int));
                            let pn = self.names_along(path@);
                            assert(self.names_along(qv) =~= pn.push(self.name_at(j as int)));
                            if path@.len() > 0 {
                                assert(path@.last() == u);
                            } else {
                                assert(u == t);
                            }
                        }
                        best.set(j, Some(q));
                        next.push(j);
                        proof {
                            assert forall|v: int| 0 <= v < n && Self::seen(best@, v) && !Self::seen(b0@, v) implies next@.contains(v as usize) by {
                                if v != j {
                                    assert(pre[v] == best@[v]);
                                    let w = choose|w: int| 0 <= w < next_pre.len() && next_pre[w] == v as usize;
                                    assert(next@[w] == v as usize);
                                } else {
                                    assert(next@[next@.len() - 1] == j);
                                }
                            }
                        }
                    }
                },
                None => {
                    proof {
                        assert forall|j: int| 0 <= j < n && self.name_at(j) == nbrs@[k as int]@ implies false by {
                            g.lemma_slot(j);
                        }
                    }
                },
            }
            k = k + 1;
        }
        proof {
            assert forall|j: int| 0 <= j < n && #[trigger] self.edge(u as int, j) implies Self::seen(best@, j) && Self::dist(best@, j) <= level@ + 1 by {
                let c = self.name_at(j);
                assert(crate::graph::names_of(nbrs@).contains(c));
                let i = choose|i: int| 0 <= i < nbrs@.len() && nbrs@[i]@ == c;
                assert(self.name_at(j) == nbrs@[i]@);
            }
        }
    }
    /// Expands every package at depth `level`; returns those it reached at
    /// depth `level + 1`.
    fn expand_level(
        &self,
        t: usize,
        best: &mut Vec<Option<Vec<usize>>>,
        frontier: &Vec<usize>,
        level: Ghost<int>,
    ) -> (next: Vec<usize>)
        requires
            self.source().wf(),
            well_linked(self.source()@),
            self.level_ok(t as int, old(best)@, frontier@, level@),
        ensures
            self.level_ok(t as int, final(best)@, next@, level@ + 1),
            count_none(final(best)@) + next@.len() == count_none(old(best)@),
    {
        let ghost b0 = best@;
        let ghost n = b0.len() as int;
        let mut next: Vec<usize> = Vec::new();
        let mut i: usize = 0;
        while i < frontier.len()
            invariant
                n == b0.len(),
                self.source().wf(),
                well_linked(self.source()@),
                self.level_ok(t as int, b0, frontier@, level@),
                self.round_ok(t as int, b0, best@, next@, level@),
                forall|a: int, j: int|
                    0 <= a < i && 0 <= j < n && #[trigger] self.edge(frontier@[a] as int, j) ==> Self::seen(best@, j)
                        && Self::dist(best@, j) <= level@ + 1,
            decreases frontier@.len() - i,
        {
            let u = frontier[i];
            assert(frontier@.contains(u));
            let ghost pre = best@;
            self.expand(t, best, &mut next, u, Ghost(b0), level);
            proof {
                assert forall|a: int, j: int|
                    0 <= a < i + 1 && 0 <= j < n && #[trigger] self.edge(frontier@[a] as int, j) implies Self::seen(best@, j)
                        && Self::dist(best@, j) <= level@ + 1 by {
                    if a < i {
                        assert(Self::seen(pre, j));
                        assert(best@[j] == pre[j]);
                    }
                }
            }
            i = i + 1;
        }
        proof {
            let b = best@;
            assert forall|v: int| 0 <= v < n && Self::seen(b, v) implies Self::dist(b, v) <= level@ + 1 && self.path_ok(t as int, b, v) by {
                if Self::seen(b0, v) {
                    assert(b[v] == b0[v]);
                }
            }
            assert forall|v: int| 0 <= v < n implies (Self::seen(b, v) && Self::dist(b, v) == level@ + 1 <==> next@.contains(v as usize)) by {
                if Self::seen(b0, v) {
                    assert(b[v] == b0[v]);
                }
                if next@.contains(v as usize) {
                    let k = choose|k: int| 0 <= k < next@.len() && next@[k] == v as usize;
                    assert(next@[k] as int == v);
                    assert(Self::seen(b, v) && !Self::seen(b0, v));
                }
                if Self::seen(b, v) && Self::dist(b, v) == level@ + 1 {
                    assert(!Self::seen(b0, v));
                }
            }
            assert forall|u: int, j: int|
                0 <= u < n && 0 <= j < n && Self::seen(b, u) && Self::dist(b, u) < level@ + 1 && #[trigger] self.edge(u, j)
                implies Self::seen(b, j) && Self::dist(b, j) <= Self::dist(b, u) + 1 by {
                if Self::seen(b0, u) {
                    assert(b[u] == b0[u]);
                    if Self::dist(b0, u) < level@ {
                        assert(b[j] == b0[j]);
                    } else {
                        assert(frontier@.contains(u as usize));
                        let a = choose|a: int| 0 <= a < frontier@.len() && frontier@[a] == u as usize;
                        assert(self.edge(frontier@[a] as int, j));
                    }
                }
            }
            assert(b[t as int] == b0[t as int]);
        }
        next
    }

    /// The chains of least length from `target` to each package the walk
    /// reaches from it, `target` left out; fails where `target` is not a
    /// package of the graph.
    pub fn collect(&self, target: &str) -> (r: Result<Vec<Chain>, LookupError>)
        requires
            self.source().wf(),
            well_linked(self.source()@),
        ensures
            match r {
                Ok(cs) => self.source()@.contains_key(target@) && shortest_chains(
                    self.source()@,
                    self.mode(),
                    target@,
                    chains_model(cs@),
                ),
                Err(_) => !self.source()@.contains_key(target@),
            },
    {
        let g = self.source;
        let n = g.len();
        let tname = target.to_owned();
        let t = match g.find(&tname) {
            Some(t) => t,
            None => return Err(LookupError),
        };
        proof {
            g.lemma_slot(t as int);
        }
        let mut best: Vec<Option<Vec<usize>>> = Vec::new();
        let mut i: usize = 0;
        while i < n
            invariant
                i <= n,
                best@.len() == i,
                forall|v: int| 0 <= v < i ==> best@[v] is None,
            decreases n - i,
        {
            best.push(None);
            i = i + 1;
        }
        best.set(t, Some(Vec::new()));
        let mut frontier: Vec<usize> = Vec::new();
        frontier.push(t);
        let ghost mut level: int = 0;
        proof {
            lemma_count_none_bounds(best@);
            assert forall|v: int| 0 <= v < n implies (Self::seen(best@, v) && Self::dist(best@, v) == 0 <==> frontier@.contains(v as usize)) by {
                if v == t {
                    assert(frontier@[0] == t);
                }
            }
        }
        while frontier.len() > 0
            invariant
                n == g.items@.len(),
                *g == self.source(),
                g.wf(),
                well_linked(g@),
                self.level_ok(t as int, best@, frontier@, level),
                g.items@[t as int].name@ == target@,
            decreases count_none(best@) + if frontier@.len() > 0 {
                1int
            } else {
                0
            },
        {
            let next = self.expand_level(t, &mut best, &frontier, Ghost(level));
            proof {
                lemma_count_none_bounds(best@);
            }
            frontier = next;
            proof {
                level = level + 1;
            }
        }
        proof {
            assert forall|v: int| 0 <= v < n && Self::seen(best@, v) implies Self::dist(best@, v) < level by {
                if Self::dist(best@, v) == level {
                    assert(frontier@.contains(v as usize));
                }
            }
        }
        let mut out: Vec<Chain> = Vec::new();
        let ghost mut idx: Seq<int> = Seq::empty();
        let mut v: usize = 0;
        while v < n
            invariant
                n == g.items@.len(),
                *g == self.source(),
                g.wf(),
                0 <= t < n,
                v <= n,
                self.level_ok(t as int, best@, frontier@, level),
                out@.len() == idx.len(),
                forall|i: int| 0 <= i < idx.len() ==> {
                    &&& 0 <= #[trigger] idx[i] < v
                    &&& idx[i] != t
                    &&& Self::seen(best@, idx[i])
                    &&& out@[i].model() == (self.name_at(idx[i]), self.names_along(best@[idx[i]]->Some_0@))
                },
                forall|i: int, j: int| 0 <= i < j < idx.len() ==> #[trigger] idx[i] < #[trigger] idx[j],
                forall|u: int| 0 <= u < v && u != t && Self::seen(best@, u) ==> exists|i: int| 0 <= i < idx.len() && #[trigger] idx[i] == u,
            decreases n - v,
        {
            if v != t {
                if let Some(p) = &best[v] {
                    assert(Self::seen(best@, v as int));
                    assert(self.path_ok(t as int, best@, v as int));
                    let mut names: Vec<String> = Vec::new();
                    assert(p@.subrange(0, 0) =~= Seq::<usize>::empty());
                    assert(names@.map_values(|s: String| s@) =~= Seq::<Seq<char>>::empty());
                    let mut k: usize = 0;
                    while k < p.len()
                        invariant
                            n == g.items@.len(),
                            *g == self.source(),
                            k <= p@.len(),
                            forall|a: int| 0 <= a < p@.len() ==> p@[a] < n,
                            names@.map_values(|s: String| s@) == self.names_along(p@.subrange(0, k as int)),
                        decreases p@.len() - k,
                    {
                        let ghost before = names@;
                        let nm = g.item(p[k]).name.clone();
                        names.push(nm);
                        proof {
                            assert(nm@ == self.name_at(p@[k as int] as int));
                            assert(names@ == before.push(nm));
                            assert(p@.subrange(0, k as int + 1) =~= p@.subrange(0, k as int).push(p@[k as int]));
                            assert(names@.map_values(|s: String| s@) =~= before.map_values(|s: String| s@).push(nm@));
                            assert(self.names_along(p@.subrange(0, k as int + 1)) =~= self.names_along(p@.subrange(0, k as int)).push(nm@));
                        }
                        k = k + 1;
                    }
                    assert(p@.subrange(0, p@.len() as int) =~= p@);
                    let c = Chain { name: g.item(v).name.clone(), path: names };
                    let ghost o = out@;
                    out.push(c);
                    proof {
                        let old_idx = idx;
                        idx = idx.push(v as int);
                        assert forall|u: int| 0 <= u < v + 1 && u != t && Self::seen(best@, u) implies exists|i: int| 0 <= i < idx.len() && #[trigger] idx[i] == u by {
                            if u == v {
                                assert(idx[idx.len() - 1] == u);
                            } else {
                                let i = choose|i: int| 0 <= i < old_idx.len() && #[trigger] old_idx[i] == u;
                                assert(idx[i] == u);
                            }
                        }
                        assert forall|i: int| 0 <= i < idx.len() - 1 implies out@[i] == o[i] by {}
                    }
                }
            }
            v = v + 1;
        }
        proof {
            let m = g@;
            let cs = chains_model(out@);
            let tn = target@;
            assert forall|i: int| 0 <= i < cs.len() implies {
                &&& (#[trigger] cs[i]).0 != tn
                &&& is_chain(m, self.mode(), tn, cs[i].1)
                &&& cs[i].1.last() == cs[i].0
            } by {
                let u = idx[i];
                assert(self.path_ok(t as int, best@, u));
                g.lemma_slot(u);
                g.lemma_slot(t as int);
                let p = best@[u]->Some_0@;
                assert(p.len() > 0);
                assert(cs[i] == out@[i].model());
            }
            assert forall|i: int, p: Seq<Seq<char>>|
                #![trigger cs[i], is_chain(m, self.mode(), tn, p)]
                0 <= i < cs.len() && is_chain(m, self.mode(), tn, p) && p.last() == cs[i].0 implies cs[i].1.len() <= p.len() by {
                let u = idx[i];
                assert(cs[i] == out@[i].model());
                self.lemma_chain_bound(t as int, best@, level, p, p.len() - 1);
                g.lemma_slot(u);
            }
            assert forall|w: Seq<char>| w != tn && #[trigger] reaches(m, self.mode(), tn, w) implies exists|i: int| 0 <= i < cs.len() && (#[trigger] cs[i]).0 == w by {
                let p = choose|p: Seq<Seq<char>>| is_chain(m, self.mode(), tn, p) && p.last() == w;
                self.lemma_chain_bound(t as int, best@, level, p, p.len() - 1);
                let u = g.slot(w);
                self.lemma_has_slot(w);
                assert(u != t);
                let i = choose|i: int| 0 <= i < idx.len() && #[trigger] idx[i] == u;
                assert(cs[i] == out@[i].model());
            }
            assert forall|i: int, j: int| 0 <= i < cs.len() && 0 <= j < cs.len() && i != j implies (#[trigger] cs[i]).0 != (#[trigger] cs[j]).0 by {
                assert(cs[i] == out@[i].model());
                assert(cs[j] == out@[j].model());
                if i < j {
                    assert(idx[i] < idx[j]);
                } else {
                    assert(idx[j] < idx[i]);
                }
            }
        }
        Ok(out)
    }
}

/// On a graph of two packages that depend on each other, the chains from
/// either one, in either direction, are exactly one: the other package,
/// one step away.
pub proof fn lemma_two_cycle(
    m: Map<Seq<char>, Entry>,
    mode: TravelMode,
    a: Seq<char>,
    b: Seq<char>,
    cs: Seq<(Seq<char>, Seq<Seq<char>>)>,
)
    requires
        a != b,
        m.dom() == set![a, b],
        m[a].children == set![b],
        m[a].parents == set![b],
        m[b].children == set![a],
        m[b].parents == set![a],
        shortest_chains(m, mode, a, cs),
    ensures
        cs == seq![(b, seq![b])],
{
    let one = seq![b];
    assert(is_chain(m, mode, a, one));
    assert(one.last() == b);
    assert(reaches(m, mode, a, b));
    let k = choose|k: int| 0 <= k < cs.len() && (#[trigger] cs[k]).0 == b;
    assert forall|i: int| 0 <= i < cs.len() implies (#[trigger] cs[i]).0 == b by {
        let p = cs[i].1;
        assert(is_chain(m, mode, a, p));
        if p.len() == 1 {
            assert(step(m, mode, a, p[0]));
        } else {
            assert(step(m, mode, p[p.len() - 2], p[p.len() - 1]));
        }
        assert(m.dom().contains(cs[i].0));
    }
    if cs.len() > 1 {
        let other = if k == 0 {
            1int
        } else {
            0
        };
        assert(cs[other].0 == b);
    }
    assert(cs.len() == 1);
    assert(cs[0].1.len() <= one.len());
    assert(cs[0].1.len() == 1);
    assert(cs[0].1 =~= one);
}

/// A `PODS` list of two packages that depend on each other gives the graph
/// of a two-package cycle: walked from the first, in either direction, the
/// only chain is the second package, one step away.
pub proof fn lemma_two_cycle_file(
    e1: Doc,
    e2: Doc,
    a: Seq<char>,
    b: Seq<char>,
    v1: Option<Seq<char>>,
    v2: Option<Seq<char>>,
    mode: TravelMode,
    cs: Seq<(Seq<char>, Seq<Seq<char>>)>,
)
    requires
        a != b,
        entry_of(e1) == Ok::<_, FormatError>((a, v1, seq![b])),
        entry_of(e2) == Ok::<_, FormatError>((b, v2, seq![a])),
        graph_of(seq![e1, e2]) is Ok ==> shortest_chains(graph_of(seq![e1, e2])->Ok_0, mode, a, cs),
    ensures
        graph_of(seq![e1, e2]) is Ok,
        cs == seq![(b, seq![b])],
{
    let elems = seq![e1, e2];
    assert(elems.drop_last() =~= seq![e1]);
    assert(seq![e1].drop_last() =~= Seq::<Doc>::empty());
    assert(seq![e1].last() == e1);
    assert(elems.last() == e2);
    let m0 = Map::<Seq<char>, Entry>::empty();
    assert(graph_of(Seq::<Doc>::empty()) == Ok::<_, FormatError>(m0));
    let m1 = with_entry(m0, a, v1);
    assert(seq![b].drop_last() =~= Seq::<Seq<char>>::empty());
    assert(seq![b].last() == b);
    assert(with_edges(m1, a, Seq::<Seq<char>>::empty()) == m1);
    assert(with_edges(m1, a, seq![b]) == with_edge(m1, a, b));
    let m2 = with_edge(m1, a, b);
    assert(graph_of(seq![e1]) == Ok::<_, FormatError>(m2));
    let m3 = with_entry(m2, b, v2);
    assert(seq![a].drop_last() =~= Seq::<Seq<char>>::empty());
    assert(seq![a].last() == a);
    assert(with_edges(m3, b, Seq::<Seq<char>>::empty()) == m3);
    assert(with_edges(m3, b, seq![a]) == with_edge(m3, b, a));
    let m = with_edge(m3, b, a);
    assert(graph_of(elems) == Ok::<_, FormatError>(m));
    assert(m.dom() =~= set![a, b]);
    assert(m[a].children =~= set![b]);
    assert(m[a].parents =~= set![b]);
    assert(m[b].children =~= set![a]);
    assert(m[b].parents =~= set![a]);
    lemma_two_cycle(m, mode, a, b, cs);
}

} // verus!
