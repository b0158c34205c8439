//! The package graph: each package name maps to an entry holding its
//! version and its two neighbour sets.

use vstd::prelude::*;

verus! {

/// What a package is, as the lock file states it.
pub struct Entry {
    pub vers: Option<Seq<char>>,
    /// The packages that depend on this one.
    pub parents: Set<Seq<char>>,
    /// The packages this one depends on.
    pub children: Set<Seq<char>>,
}

pub open spec fn empty_entry(vers: Option<Seq<char>>) -> Entry {
    Entry { vers, parents: Set::empty(), children: Set::empty() }
}

pub open spec fn opt_view(o: Option<String>) -> Option<Seq<char>> {
    match o {
        Some(s) => Some(s@),
        None => None,
    }
}

/// The names a list of strings holds.
pub open spec fn names_of(v: Seq<String>) -> Set<Seq<char>> {
    Set::new(|n: Seq<char>| exists|k: int| 0 <= k < v.len() && v[k]@ == n)
}

/// Records a package: a new one gets an entry without neighbours, a known
/// one keeps its neighbours and takes the version where one is given.
pub open spec fn with_entry(m: Map<Seq<char>, Entry>, name: Seq<char>, vers: Option<Seq<char>>) -> Map<
    Seq<char>,
    Entry,
> {
    if m.contains_key(name) {
        if vers is Some {
            m.insert(name, Entry { vers, ..m[name] })
        } else {
            m
        }
    } else {
        m.insert(name, empty_entry(vers))
    }
}

/// Records that `from` depends on `to`, in both directions; a package that
/// lists itself adds nothing.  `to` gets an entry without a version where it
/// has none yet.
pub open spec fn with_edge(m: Map<Seq<char>, Entry>, from: Seq<char>, to: Seq<char>) -> Map<
    Seq<char>,
    Entry,
> {
    if from == to {
        m
    } else {
        let m1 = m.insert(from, Entry { children: m[from].children.insert(to), ..m[from] });
        let t = if m1.contains_key(to) {
            m1[to]
        } else {
            empty_entry(None)
        };
        m1.insert(to, Entry { parents: t.parents.insert(from), ..t })
    }
}

/// Records that `from` depends on each of `deps`, in order.
pub open spec fn with_edges(m: Map<Seq<char>, Entry>, from: Seq<char>, deps: Seq<Seq<char>>) -> Map<
    Seq<char>,
    Entry,
>
    decreases deps.len(),
{
    if deps.len() == 0 {
        m
    } else {
        with_edge(with_edges(m, from, deps.drop_last()), from, deps.last())
    }
}

/// Every neighbour is a package of the graph, each edge is seen from both
/// ends, and no package is its own neighbour.
pub open spec fn well_linked(m: Map<Seq<char>, Entry>) -> bool {
    forall|a: Seq<char>|
        #![trigger m[a]]
        m.contains_key(a) ==> {
            &&& !m[a].children.contains(a)
            &&& !m[a].parents.contains(a)
            &&& forall|b: Seq<char>|
                #![trigger m[a].children.contains(b)]
                m[a].children.contains(b) ==> m.contains_key(b) && m[b].parents.contains(a)
            &&& forall|b: Seq<char>|
                #![trigger m[a].parents.contains(b)]
                m[a].parents.contains(b) ==> m.contains_key(b) && m[b].children.contains(a)
        }
}

pub proof fn lemma_with_entry_linked(m: Map<Seq<char>, Entry>, name: Seq<char>, vers: Option<Seq<char>>)
    requires
        well_linked(m),
    ensures
        well_linked(with_entry(m, name, vers)),
        with_entry(m, name, vers).contains_key(name),
{
    let r = with_entry(m, name, vers);
    assert forall|a: Seq<char>| #[trigger] r.contains_key(a) implies m.contains_key(a) || a == name by {}
}

pub proof fn lemma_with_edge_linked(m: Map<Seq<char>, Entry>, from: Seq<char>, to: Seq<char>)
    requires
        well_linked(m),
        m.contains_key(from),
    ensures
        well_linked(with_edge(m, from, to)),
        with_edge(m, from, to).contains_key(from),
        forall|a: Seq<char>| m.contains_key(a) ==> #[trigger] with_edge(m, from, to).contains_key(a),
{
}

pub proof fn lemma_with_edges_linked(m: Map<Seq<char>, Entry>, from: Seq<char>, deps: Seq<Seq<char>>)
    requires
        well_linked(m),
        m.contains_key(from),
    ensures
        well_linked(with_edges(m, from, deps)),
        with_edges(m, from, deps).contains_key(from),
    decreases deps.len(),
{
    if deps.len() > 0 {
        lemma_with_edges_linked(m, from, deps.drop_last());
        lemma_with_edge_linked(with_edges(m, from, deps.drop_last()), from, deps.last());
    }
}

/// One package of the graph.
pub struct PodItem {
    pub name: String,
    pub vers: Option<String>,
    pub parents: Vec<String>,
    pub children: Vec<String>,
}

impl PodItem {
    pub open spec fn model(self) -> Entry {
        Entry { vers: opt_view(self.vers), parents: names_of(self.parents@), children: names_of(self.children@) }
    }

    /// A package without neighbours.
    pub fn new(name: String, vers: Option<String>) -> (r: Self)
        ensures
            r.name == name,
            r.model() == empty_entry(opt_view(vers)),
    {
        let r = PodItem { name, vers, parents: Vec::new(), children: Vec::new() };
        assert(names_of(r.parents@) =~= Set::empty());
        assert(names_of(r.children@) =~= Set::empty());
        r
    }
}

/// Whether `v` holds a string equal to `s`.
fn holds_name(v: &Vec<String>, s: &String) -> (r: bool)
    ensures
        r == names_of(v@).contains(s@),
{
    let mut i: usize = 0;
    while i < v.len()
        invariant
            i <= v@.len(),
            forall|k: int| 0 <= k < i ==> v@[k]@ != s@,
        decreases v@.len() - i,
    {
        if v[i] == *s {
            return true;
        }
        i = i + 1;
    }
    false
}

/// Adds `s` to the names of `v`.
fn add_name(v: &mut Vec<String>, s: String)
    ensures
        names_of(final(v)@) == names_of(old(v)@).insert(s@),
{
    if !holds_name(v, &s) {
        let ghost sv = s@;
        v.push(s);
        assert(names_of(v@) =~= names_of(old(v)@).insert(sv)) by {
            assert(v@[v@.len() - 1]@ == sv);
            assert forall|n: Seq<char>| names_of(old(v)@).contains(n) implies #[trigger] names_of(v@).contains(n) by {
                let k = choose|k: int| 0 <= k < old(v)@.len() && old(v)@[k]@ == n;
                assert(v@[k] == old(v)@[k]);
            }
        }
    } else {
        assert(names_of(v@) =~= names_of(old(v)@).insert(s@));
    }
}

/// A copy of a list of strings.
fn copy_names(v: &Vec<String>) -> (r: Vec<String>)
    ensures
        r@ == v@,
{
    let mut r: Vec<String> = Vec::new();
    let mut i: usize = 0;
    while i < v.len()
        invariant
            i <= v@.len(),
            r@ == v@.subrange(0, i as int),
        decreases v@.len() - i,
    {
        r.push(v[i].clone());
        i = i + 1;
    }
    r
}

fn copy_opt(o: &Option<String>) -> (r: Option<String>)
    ensures
        r == *o,
{
    match o {
        Some(s) => Some(s.clone()),
        None => None,
    }
}

/// The package graph of a lock file.
pub struct Pods {
    pub items: Vec<PodItem>,
}

impl Pods {
    pub open spec fn has(self, n: Seq<char>) -> bool {
        exists|i: int| 0 <= i < self.items@.len() && self.items@[i].name@ == n
    }

    pub open spec fn slot(self, n: Seq<char>) -> int {
        choose|i: int| 0 <= i < self.items@.len() && self.items@[i].name@ == n
    }

    pub open spec fn items(self) -> Seq<PodItem> {
        self.items@
    }

    /// Package names are unique.
    pub open spec fn wf(self) -> bool {
        forall|i: int, j: int|
            0 <= i < self.items@.len() && 0 <= j < self.items@.len() && i != j
                ==> #[trigger] self.items@[i].name@ != #[trigger] self.items@[j].name@
    }

    pub open spec fn view(self) -> Map<Seq<char>, Entry> {
        Map::new(|n: Seq<char>| self.has(n), |n: Seq<char>| self.items@[self.slot(n)].model())
    }

    pub proof fn lemma_slot(self, i: int)
        requires
            self.wf(),
            0 <= i < self.items@.len(),
        ensures
            self.has(self.items@[i].name@),
            self.slot(self.items@[i].name@) == i,
            self@.contains_key(self.items@[i].name@),
            self@[self.items@[i].name@] == self.items@[i].model(),
    {
        assert(self.has(self.items@[i].name@));
    }

    /// The graph without packages.
    pub fn new() -> (r: Self)
        ensures
            r.wf(),
            r@ == Map::<Seq<char>, Entry>::empty(),
            well_linked(r@),
    {
        let r = Pods { items: Vec::new() };
        assert(r@ =~= Map::empty());
        r
    }

    /// The number of packages.
    pub fn len(&self) -> (r: usize)
        requires
            self.wf(),
        ensures
            r == self.items@.len(),
            r == self@.dom().len(),
    {
        proof {
            self.lemma_dom_len();
        }
        self.items.len()
    }

    proof fn lemma_dom_len(self)
        requires
            self.wf(),
        ensures
            self@.dom() == self.items@.map_values(|p: PodItem| p.name@).to_set(),
            self@.dom().len() == self.items@.len(),
    {
        let names = self.items@.map_values(|p: PodItem| p.name@);
        assert(self@.dom() =~= names.to_set()) by {
            assert forall|n: Seq<char>| self@.dom().contains(n) implies names.to_set().contains(n) by {
                let i = self.slot(n);
                assert(names[i] == n);
            }
            assert forall|n: Seq<char>| names.to_set().contains(n) implies self@.dom().contains(n) by {
                let i = choose|i: int| 0 <= i < names.len() && names[i] == n;
                self.lemma_slot(i);
            }
        }
        assert(names.no_duplicates()) by {
            assert forall|i: int, j: int| 0 <= i < names.len() && 0 <= j < names.len() && i != j implies names[i] != names[j] by {
                assert(self.items@[i].name@ != self.items@[j].name@);
            }
        }
        names.unique_seq_to_set();
    }

    /// The index of the package called `name`.
    pub fn find(&self, name: &String) -> (r: Option<usize>)
        requires
            self.wf(),
        ensures
            match r {
                Some(i) => i < self.items@.len() && self.items@[i as int].name@ == name@,
                None => !self@.contains_key(name@),
            },
    {
        let mut i: usize = 0;
        while i < self.items.len()
            invariant
                i <= self.items@.len(),
                forall|k: int| 0 <= k < i ==> self.items@[k].name@ != name@,
            decreases self.items@.len() - i,
        {
            if self.items[i].name == *name {
                return Some(i);
            }
            i = i + 1;
        }
        None
    }

    /// The package at `i`.
    pub fn item(&self, i: usize) -> (r: &PodItem)
        requires
            i < self.items@.len(),
        ensures
            *r == self.items@[i as int],
    {
        &self.items[i]
    }

    /// Replaces the package at `i` by one of the same name.
    fn replace(&mut self, i: usize, p: PodItem)
        requires
            old(self).wf(),
            i < old(self).items@.len(),
            p.name@ == old(self).items@[i as int].name@,
        ensures
            final(self).wf(),
            final(self).items@ == old(self).items@.update(i as int, p),
            final(self)@ == old(self)@.insert(p.name@, p.model()),
    {
        let ghost pre = *self;
        self.items.set(i, p);
        proof {
            let post = *self;
            assert(post.wf()) by {
                assert forall|a: int, b: int|
                    0 <= a < post.items@.len() && 0 <= b < post.items@.len() && a != b
                    implies #[trigger] post.items@[a].name@ != #[trigger] post.items@[b].name@ by {
                    assert(pre.items@[a].name@ != pre.items@[b].name@);
                }
            }
            assert forall|n: Seq<char>| #[trigger] post.has(n) == pre.has(n) by {
                if post.has(n) {
                    let k = choose|k: int| 0 <= k < post.items@.len() && post.items@[k].name@ == n;
                    assert(pre.items@[k].name@ == n);
                }
                if pre.has(n) {
                    let k = choose|k: int| 0 <= k < pre.items@.len() && pre.items@[k].name@ == n;
                    assert(post.items@[k].name@ == n);
                }
            }
            assert forall|n: Seq<char>| #[trigger] post.has(n) implies post.slot(n) == pre.slot(n) by {
                let k = post.slot(n);
                post.lemma_slot(k);
                pre.lemma_slot(k);
            }
            pre.lemma_slot(i as int);
            post.lemma_slot(i as int);
            assert(post@ =~= pre@.insert(p.name@, p.model()));
        }
    }

    /// Adds a package whose name is new to the graph.
    fn push(&mut self, p: PodItem)
        requires
            old(self).wf(),
            !old(self)@.contains_key(p.name@),
        ensures
            final(self).wf(),
            final(self).items@ == old(self).items@.push(p),
            final(self)@ == old(self)@.insert(p.name@, p.model()),
    {
        let ghost pre = *self;
        let ghost pn = p.name@;
        let ghost pm = p.model();
        self.items.push(p);
        proof {
            let post = *self;
            let last = pre.items@.len() as int;
            assert forall|k: int| 0 <= k < last implies pre.items@[k].name@ != pn by {
                pre.lemma_slot(k);
            }
            assert(post.wf()) by {
                assert forall|a: int, b: int|
                    0 <= a < post.items@.len() && 0 <= b < post.items@.len() && a != b
                    implies #[trigger] post.items@[a].name@ != #[trigger] post.items@[b].name@ by {
                    if a < last && b < last {
                        assert(pre.items@[a].name@ != pre.items@[b].name@);
                    }
                }
            }
            assert forall|n: Seq<char>| #[trigger] post.has(n) == (pre.has(n) || n == pn) by {
                if post.has(n) {
                    let k = choose|k: int| 0 <= k < post.items@.len() && post.items@[k].name@ == n;
                    if k < last {
                        assert(pre.items@[k].name@ == n);
                    }
                }
                if pre.has(n) {
                    let k = choose|k: int| 0 <= k < pre.items@.len() && pre.items@[k].name@ == n;
                    assert(post.items@[k].name@ == n);
                }
                if n == pn {
                    assert(post.items@[last].name@ == n);
                }
            }
            assert forall|n: Seq<char>| #[trigger] pre.has(n) implies post.slot(n) == pre.slot(n) by {
                let k = pre.slot(n);
                pre.lemma_slot(k);
                post.lemma_slot(k);
            }
            post.lemma_slot(last);
            assert(post@ =~= pre@.insert(pn, pm));
        }
    }
    /// Records the package `name` (see `with_entry`) and returns its index.
    pub fn record(&mut self, name: String, vers: Option<String>) -> (r: usize)
        requires
            old(self).wf(),
        ensures
            final(self).wf(),
            r < final(self).items@.len(),
            final(self).items@[r as int].name@ == name@,
            final(self)@ == with_entry(old(self)@, name@, opt_view(vers)),
            well_linked(old(self)@) ==> well_linked(final(self)@),
    {
        proof {
            if well_linked(self@) {
                lemma_with_entry_linked(self@, name@, opt_view(vers));
            }
        }
        match self.find(&name) {
            Some(i) => {
                proof {
                    self.lemma_slot(i as int);
                }
                if vers.is_some() {
                    let q = &self.items[i];
                    let p = PodItem {
                        name: q.name.clone(),
                        vers,
                        parents: copy_names(&q.parents),
                        children: copy_names(&q.children),
                    };
                    self.replace(i, p);
                } else {
                    assert(self@ == with_entry(old(self)@, name@, opt_view(vers)));
                }
                i
            },
            None => {
                let n = self.items.len();
                let p = PodItem::new(name, vers);
                self.push(p);
                proof {
                    assert(self.items@[n as int] == p);
                }
                n
            },
        }
    }

    /// Records that the package at `from` depends on `to` (see `with_edge`).
    pub fn link(&mut self, from: usize, to: String)
        requires
            old(self).wf(),
            from < old(self).items@.len(),
        ensures
            final(self).wf(),
            final(self).items@.len() >= old(self).items@.len(),
            final(self).items@[from as int].name@ == old(self).items@[from as int].name@,
            final(self)@ == with_edge(old(self)@, old(self).items@[from as int].name@, to@),
            well_linked(old(self)@) ==> well_linked(final(self)@),
    {
        proof {
            self.lemma_slot(from as int);
            if well_linked(self@) {
                lemma_with_edge_linked(self@, self.items@[from as int].name@, to@);
            }
        }
        let from_name = self.items[from].name.clone();
        if from_name == to {
            return;
        }
        let p = &self.items[from];
        let mut children = copy_names(&p.children);
        add_name(&mut children, to.clone());
        let np = PodItem {
            name: from_name.clone(),
            vers: copy_opt(&p.vers),
            parents: copy_names(&p.parents),
            children,
        };
        self.replace(from, np);
        match self.find(&to) {
            Some(j) => {
                proof {
                    self.lemma_slot(j as int);
                }
                let q = &self.items[j];
                let mut parents = copy_names(&q.parents);
                add_name(&mut parents, from_name);
                let nq = PodItem {
                    name: q.name.clone(),
                    vers: copy_opt(&q.vers),
                    parents,
                    children: copy_names(&q.children),
                };
                self.replace(j, nq);
            },
            None => {
                let mut q = PodItem::new(to, None);
                add_name(&mut q.parents, from_name);
                self.push(q);
            },
        }
    }
}

} // verus!
