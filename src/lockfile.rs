//! Reading a lock file's document into the package graph.

use vstd::prelude::*;

use crate::doc::{Doc, field, load_yaml, text_of, yaml_documents};
use crate::entry_line::{name_and_version, split_line};
use crate::graph::{Entry, Pods, opt_view, well_linked, with_edges, with_entry, lemma_with_edges_linked, lemma_with_entry_linked};

verus! {

/// How a document fails to have the shape of a lock file.
#[derive(Debug, Clone, Copy, PartialEq, Eq, Structural)]
pub enum FormatError {
    /// A node is not of the kind its place asks for.
    UnexpectedType,
    /// A package line holds no name.
    UnexpectedText,
    /// A package mapping has other than one key.
    UnexpectedLength,
}

/// How a text fails to be read as a document.
#[derive(Debug, PartialEq, Eq)]
pub enum LoadError {
    /// The text is not well-formed YAML; the parser's message.
    Syntax(String),
    /// The text holds no document.
    Empty,
}

/// The package line of a `PODS` element and its dependency lines.
pub open spec fn line_parts(e: Doc) -> Result<(Seq<char>, Seq<Seq<char>>), FormatError> {
    match e {
        Doc::Text(s) => Ok((s@, Seq::empty())),
        Doc::Pairs(ps) => {
            if ps@.len() != 1 {
                Err(FormatError::UnexpectedLength)
            } else {
                match (ps@[0].0, ps@[0].1) {
                    (Doc::Text(k), Doc::List(ds)) => {
                        if forall|i: int| 0 <= i < ds@.len() ==> (#[trigger] ds@[i]) is Text {
                            Ok((k@, ds@.map_values(|d: Doc| d->Text_0@)))
                        } else {
                            Err(FormatError::UnexpectedType)
                        }
                    },
                    _ => Err(FormatError::UnexpectedType),
                }
            }
        },
        _ => Err(FormatError::UnexpectedType),
    }
}

/// The name, the version and the dependency names of a `PODS` element.
pub open spec fn entry_of(e: Doc) -> Result<(Seq<char>, Option<Seq<char>>, Seq<Seq<char>>), FormatError> {
    match line_parts(e) {
        Err(k) => Err(k),
        Ok((line, deps)) => match split_line(line) {
            None => Err(FormatError::UnexpectedText),
            Some((name, vers)) => {
                if forall|i: int| 0 <= i < deps.len() ==> (#[trigger] split_line(deps[i])) is Some {
                    Ok((name, vers, deps.map_values(|d: Seq<char>| split_line(d)->Some_0.0)))
                } else {
                    Err(FormatError::UnexpectedText)
                }
            },
        },
    }
}

/// The graph that the elements of a `PODS` list describe, read in order; the
/// first element that is not a package fails the whole list.
pub open spec fn graph_of(elems: Seq<Doc>) -> Result<Map<Seq<char>, Entry>, FormatError>
    decreases elems.len(),
{
    if elems.len() == 0 {
        Ok(Map::empty())
    } else {
        match graph_of(elems.drop_last()) {
            Err(k) => Err(k),
            Ok(m) => match entry_of(elems.last()) {
                Err(k) => Err(k),
                Ok((name, vers, deps)) => Ok(with_edges(with_entry(m, name, vers), name, deps)),
            },
        }
    }
}

/// The graph of a lock file whose top-level node is `root`.
pub open spec fn pods_of(root: Doc) -> Result<Map<Seq<char>, Entry>, FormatError> {
    match field(root, "PODS"@) {
        Some(Doc::List(elems)) => graph_of(elems@),
        _ => Err(FormatError::UnexpectedType),
    }
}

/// The packages that `EXTERNAL SOURCES` lists, each with its `:path`.
pub open spec fn sources_of(root: Doc) -> Result<Seq<(Seq<char>, Option<Seq<char>>)>, FormatError> {
    match field(root, "EXTERNAL SOURCES"@) {
        Some(Doc::Pairs(ps)) => {
            if forall|i: int| 0 <= i < ps@.len() ==> (#[trigger] ps@[i]).0 is Text {
                Ok(
                    ps@.map_values(
                        |p: (Doc, Doc)|
                            (
                                p.0->Text_0@,
                                match field(p.1, ":path"@) {
                                    Some(d) => text_of(d),
                                    None => None,
                                },
                            ),
                    ),
                )
            } else {
                Err(FormatError::UnexpectedType)
            }
        },
        _ => Err(FormatError::UnexpectedType),
    }
}

pub proof fn lemma_graph_of_linked(elems: Seq<Doc>)
    ensures
        graph_of(elems) is Ok ==> well_linked(graph_of(elems)->Ok_0),
    decreases elems.len(),
{
    if elems.len() > 0 {
        lemma_graph_of_linked(elems.drop_last());
        if let Ok(m) = graph_of(elems.drop_last()) {
            if let Ok((name, vers, deps)) = entry_of(elems.last()) {
                lemma_with_entry_linked(m, name, vers);
                lemma_with_edges_linked(with_entry(m, name, vers), name, deps);
            }
        }
    } else {
        assert(well_linked(Map::<Seq<char>, Entry>::empty()));
    }
}

/// A package that `EXTERNAL SOURCES` lists.
pub struct ExternalSource {
    pub name: String,
    pub path: Option<String>,
}

/// A lock file, as the document it holds.
pub struct Lockfile {
    root: Doc,
}

/// The package line and the dependency lines of a `PODS` element.
fn element_lines(e: &Doc) -> (r: Result<(&str, Vec<&str>), FormatError>)
    ensures
        match r {
            Ok((line, deps)) => line_parts(*e) == Ok::<_, FormatError>(
                (line@, deps@.map_values(|d: &str| d@)),
            ),
            Err(k) => line_parts(*e) == Err::<(Seq<char>, Seq<Seq<char>>), _>(k),
        },
{
    match e {
        Doc::Text(s) => {
            let deps: Vec<&str> = Vec::new();
            assert(deps@.map_values(|d: &str| d@) =~= Seq::<Seq<char>>::empty());
            Ok((s.as_str(), deps))
        },
        Doc::Pairs(ps) => {
            if ps.len() != 1 {
                return Err(FormatError::UnexpectedLength);
            }
            let line = match ps[0].0.as_str() {
                Some(l) => l,
                None => return Err(FormatError::UnexpectedType),
            };
            let ds = match &ps[0].1 {
                Doc::List(ds) => ds,
                _ => return Err(FormatError::UnexpectedType),
            };
            let mut deps: Vec<&str> = Vec::new();
            let mut i: usize = 0;
            while i < ds.len()
                invariant
                    i <= ds@.len(),
                    *e == Doc::Pairs(*ps),
                    ps@.len() == 1,
                    ps@[0].1 == Doc::List(*ds),
                    ps@[0].0 is Text && ps@[0].0->Text_0@ == line@,
                    deps@.len() == i,
                    forall|k: int| 0 <= k < i ==> (#[trigger] ds@[k]) is Text && ds@[k]->Text_0@ == deps@[k]@,
                decreases ds@.len() - i,
            {
                match ds[i].as_str() {
                    Some(d) => deps.push(d),
                    None => {
                        assert(!(ds@[i as int] is Text));
                        return Err(FormatError::UnexpectedType);
                    },
                }
                i = i + 1;
            }
            assert(deps@.map_values(|d: &str| d@) =~= ds@.map_values(|d: Doc| d->Text_0@));
            Ok((line, deps))
        },
        _ => Err(FormatError::UnexpectedType),
    }
}

/// The name, the version and the dependency names of a `PODS` element.
pub fn read_element(e: &Doc) -> (r: Result<(String, Option<String>, Vec<String>), FormatError>)
    ensures
        match r {
            Ok((name, vers, deps)) => entry_of(*e) == Ok::<_, FormatError>(
                (name@, opt_view(vers), deps@.map_values(|d: String| d@)),
            ),
            Err(k) => entry_of(*e) == Err::<(Seq<char>, Option<Seq<char>>, Seq<Seq<char>>), _>(k),
        },
{
    let (line, lines) = element_lines(e)?;
    let ghost dv = lines@.map_values(|d: &str| d@);
    let (name, vers) = match name_and_version(line) {
        Some(nv) => nv,
        None => return Err(FormatError::UnexpectedText),
    };
    let mut deps: Vec<String> = Vec::new();
    let mut i: usize = 0;
    while i < lines.len()
        invariant
            i <= lines@.len(),
            dv == lines@.map_values(|d: &str| d@),
            line_parts(*e) == Ok::<_, FormatError>((line@, dv)),
            split_line(line@) == Some((name@, opt_view(vers))),
            deps@.len() == i,
            forall|k: int| 0 <= k < i ==> (#[trigger] split_line(dv[k])) is Some && split_line(dv[k])->Some_0.0 == deps@[k]@,
        decreases lines@.len() - i,
    {
        match name_and_version(lines[i]) {
            Some((d, _)) => deps.push(d),
            None => {
                assert(split_line(dv[i as int]) is None);
                return Err(FormatError::UnexpectedText);
            },
        }
        i = i + 1;
    }
    assert(deps@.map_values(|d: String| d@) =~= dv.map_values(|d: Seq<char>| split_line(d)->Some_0.0));
    Ok((name, vers, deps))
}

impl Lockfile {
    pub closed spec fn root(self) -> Doc {
        self.root
    }

    /// A lock file whose top-level node is `root`.
    pub fn new(root: Doc) -> (r: Self)
        ensures
            r.root() == root,
    {
        Lockfile { root }
    }

    /// Reads the text of a lock file: its first document is the lock file.
    pub fn from_text(text: &str) -> (r: Result<Self, LoadError>)
        ensures
            match yaml_documents(text@) {
                None => r matches Err(LoadError::Syntax(_)),
                Some(docs) => if docs.len() == 0 {
                    r == Err::<Self, _>(LoadError::Empty)
                } else {
                    r matches Ok(l) && l.root() == docs[0]
                },
            },
    {
        match load_yaml(text) {
            Err(msg) => Err(LoadError::Syntax(msg)),
            Ok(mut docs) => {
                if docs.len() < 1 {
                    Err(LoadError::Empty)
                } else {
                    let root = docs.remove(0);
                    Ok(Lockfile { root })
                }
            },
        }
    }

    /// The package graph that `PODS` describes.
    pub fn pods(&self) -> (r: Result<Pods, FormatError>)
        ensures
            match r {
                Ok(g) => g.wf() && well_linked(g@) && pods_of(self.root()) == Ok::<_, FormatError>(g@),
                Err(k) => pods_of(self.root()) == Err::<Map<Seq<char>, Entry>, _>(k),
            },
    {
        let elems = match self.root.get("PODS") {
            Some(Doc::List(v)) => v,
            _ => return Err(FormatError::UnexpectedType),
        };
        let mut g = Pods::new();
        let mut i: usize = 0;
        assert(elems@.subrange(0, 0) =~= Seq::<Doc>::empty());
        while i < elems.len()
            invariant
                i <= elems@.len(),
                g.wf(),
                graph_of(elems@.subrange(0, i as int)) == Ok::<_, FormatError>(g@),
                pods_of(self.root()) == graph_of(elems@),
            decreases elems@.len() - i,
        {
            let ghost pre = elems@.subrange(0, i as int);
            assert(elems@.subrange(0, i + 1).drop_last() =~= pre);
            let (name, vers, deps) = match read_element(&elems[i]) {
                Ok(t) => t,
                Err(k) => {
                    assert(graph_of(elems@.subrange(0, i + 1)) == Err::<Map<Seq<char>, Entry>, _>(k));
                    proof {
                        lemma_prefix_error(elems@, i as int + 1);
                    }
                    return Err(k);
                },
            };
            let ghost dv = deps@.map_values(|d: String| d@);
            let ghost m0 = with_entry(g@, name@, opt_view(vers));
            let ghost nv = name@;
            let k = g.record(name, vers);
            let mut j: usize = 0;
            assert(dv.subrange(0, 0) =~= Seq::<Seq<char>>::empty());
            while j < deps.len()
                invariant
                    j <= deps@.len(),
                    dv == deps@.map_values(|d: String| d@),
                    g.wf(),
                    k < g.items@.len(),
                    g.items@[k as int].name@ == nv,
                    g@ == with_edges(m0, nv, dv.subrange(0, j as int)),
                decreases deps@.len() - j,
            {
                assert(dv.subrange(0, j + 1).drop_last() =~= dv.subrange(0, j as int));
                g.link(k, deps[j].clone());
                j = j + 1;
            }
            assert(dv.subrange(0, deps@.len() as int) =~= dv);
            i = i + 1;
        }
        assert(elems@.subrange(0, elems@.len() as int) =~= elems@);
        proof {
            lemma_graph_of_linked(elems@);
        }
        Ok(g)
    }

    /// The packages that `EXTERNAL SOURCES` lists, in the order it lists
    /// them.  This is read apart from the graph: it can fail where `pods`
    /// does not.
    pub fn external_sources(&self) -> (r: Result<Vec<ExternalSource>, FormatError>)
        ensures
            match r {
                Ok(v) => sources_of(self.root()) == Ok::<_, FormatError>(
                    v@.map_values(|s: ExternalSource| (s.name@, opt_view(s.path))),
                ),
                Err(k) => sources_of(self.root()) == Err::<Seq<(Seq<char>, Option<Seq<char>>)>, _>(k),
            },
    {
        let ps = match self.root.get("EXTERNAL SOURCES") {
            Some(Doc::Pairs(ps)) => ps,
            _ => return Err(FormatError::UnexpectedType),
        };
        let mut out: Vec<ExternalSource> = Vec::new();
        let mut i: usize = 0;
        while i < ps.len()
            invariant
                i <= ps@.len(),
                out@.len() == i,
                field(self.root(), "EXTERNAL SOURCES"@) == Some(Doc::Pairs(*ps)),
                forall|k: int| 0 <= k < i ==> {
                    &&& (#[trigger] ps@[k]).0 is Text
                    &&& out@[k].name@ == ps@[k].0->Text_0@
                    &&& opt_view(out@[k].path) == match field(ps@[k].1, ":path"@) {
                        Some(d) => text_of(d),
                        None => None,
                    }
                },
            decreases ps@.len() - i,
        {
            let name = match ps[i].0.as_str() {
                Some(n) => n.to_owned(),
                None => return Err(FormatError::UnexpectedType),
            };
            let path = match ps[i].1.get(":path") {
                Some(d) => match d.as_str() {
                    Some(p) => Some(p.to_owned()),
                    None => None,
                },
                None => None,
            };
            out.push(ExternalSource { name, path });
            i = i + 1;
        }
        assert(out@.map_values(|s: ExternalSource| (s.name@, opt_view(s.path))) =~= ps@.map_values(
            |p: (Doc, Doc)|
                (
                    p.0->Text_0@,
                    match field(p.1, ":path"@) {
                        Some(d) => text_of(d),
                        None => None,
                    },
                ),
        ));
        Ok(out)
    }
}

proof fn lemma_prefix_error(elems: Seq<Doc>, n: int)
    requires
        0 <= n <= elems.len(),
        graph_of(elems.subrange(0, n)) is Err,
    ensures
        graph_of(elems) == graph_of(elems.subrange(0, n)),
    decreases elems.len() - n,
{
    if n < elems.len() {
        assert(elems.subrange(0, n + 1).drop_last() =~= elems.subrange(0, n));
        lemma_prefix_error(elems, n + 1);
    } else {
        assert(elems.subrange(0, n) =~= elems);
    }
}

/// In every graph a lock file describes, `b` is among the children of `a`
/// exactly when `a` is among the parents of `b`.
pub proof fn lemma_pods_symmetric(root: Doc, a: Seq<char>, b: Seq<char>)
    requires
        pods_of(root) is Ok,
        pods_of(root)->Ok_0.contains_key(a),
        pods_of(root)->Ok_0.contains_key(b),
    ensures
        pods_of(root)->Ok_0[a].children.contains(b) <==> pods_of(root)->Ok_0[b].parents.contains(a),
{
    if let Some(Doc::List(elems)) = field(root, "PODS"@) {
        lemma_graph_of_linked(elems@);
    }
}

/// No package of a graph a lock file describes is its own child or its own
/// parent, even where the file lists a package among its own dependencies.
pub proof fn lemma_pods_no_self_loop(root: Doc, a: Seq<char>)
    requires
        pods_of(root) is Ok,
        pods_of(root)->Ok_0.contains_key(a),
    ensures
        !pods_of(root)->Ok_0[a].children.contains(a),
        !pods_of(root)->Ok_0[a].parents.contains(a),
{
    if let Some(Doc::List(elems)) = field(root, "PODS"@) {
        lemma_graph_of_linked(elems@);
    }
}

proof fn lemma_with_edges_from(m: Map<Seq<char>, Entry>, n: Seq<char>, deps: Seq<Seq<char>>)
    requires
        m.contains_key(n),
    ensures
        with_edges(m, n, deps).dom() == m.dom().union(deps.to_set()),
        with_edges(m, n, deps)[n] == (Entry {
            children: m[n].children.union(deps.to_set().remove(n)),
            ..m[n]
        }),
    decreases deps.len(),
{
    if deps.len() == 0 {
        assert(m.dom().union(deps.to_set()) =~= m.dom());
        assert(m[n].children.union(deps.to_set().remove(n)) =~= m[n].children);
    } else {
        let init = deps.drop_last();
        lemma_with_edges_from(m, n, init);
        assert(deps.to_set() =~= init.to_set().insert(deps.last())) by {
            assert(deps =~= init.push(deps.last()));
            init.lemma_push_to_set_commute(deps.last());
        }
        let m1 = with_edges(m, n, init);
        assert(with_edges(m, n, deps) == crate::graph::with_edge(m1, n, deps.last()));
        assert(with_edges(m, n, deps).dom() =~= m.dom().union(deps.to_set()));
        assert(m[n].children.union(deps.to_set().remove(n)) =~= if deps.last() == n {
            m1[n].children
        } else {
            m1[n].children.insert(deps.last())
        });
    }
}

/// A package named twice, first by a bare line and then as the key of a
/// mapping that carries a version, makes one entry: the version is the
/// mapping's, and its neighbours are those both occurrences give.
pub proof fn lemma_merge_bare_then_mapping(
    bare: Doc,
    mapping: Doc,
    name: Seq<char>,
    v1: Option<Seq<char>>,
    v2: Seq<char>,
    deps: Seq<Seq<char>>,
)
    requires
        entry_of(bare) == Ok::<_, FormatError>((name, v1, Seq::<Seq<char>>::empty())),
        entry_of(mapping) == Ok::<_, FormatError>((name, Some(v2), deps)),
    ensures
        graph_of(seq![bare, mapping]) is Ok,
        graph_of(seq![bare, mapping])->Ok_0.dom() == set![name].union(deps.to_set()),
        graph_of(seq![bare, mapping])->Ok_0[name] == (Entry {
            vers: Some(v2),
            parents: Set::empty(),
            children: deps.to_set().remove(name),
        }),
{
    let elems = seq![bare, mapping];
    assert(elems.drop_last() == seq![bare]);
    assert(seq![bare].drop_last() =~= Seq::<Doc>::empty());
    let m0 = Map::<Seq<char>, Entry>::empty();
    let e0 = Seq::<Seq<char>>::empty();
    assert(graph_of(Seq::<Doc>::empty()) == Ok::<_, FormatError>(m0));
    assert(seq![bare].last() == bare);
    assert(elems.last() == mapping);
    assert(graph_of(seq![bare]) == Ok::<_, FormatError>(with_edges(with_entry(m0, name, v1), name, e0)));
    let m1 = with_entry(m0, name, v1);
    assert(with_edges(m1, name, e0) == m1);
    let m2 = with_entry(m1, name, Some(v2));
    lemma_with_edges_from(m2, name, deps);
    assert(m2.dom() =~= set![name]);
    assert(Set::<Seq<char>>::empty().union(deps.to_set().remove(name)) =~= deps.to_set().remove(name));
}

} // verus!
