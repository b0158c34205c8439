//! The structured document a lock file is written in: strings, lists and
//! ordered mappings, as YAML's data model has them.

use vstd::prelude::*;

verus! {

/// One node of a structured document.
pub enum Doc {
    /// A string scalar.
    Text(String),
    /// An ordered list.
    List(Vec<Doc>),
    /// An ordered mapping, as its key / value pairs.
    Pairs(Vec<(Doc, Doc)>),
    /// Any other scalar: a number, a boolean, null, or an alias.
    Other,
}

/// What yaml-rust's loader makes of a text: its documents, or `None` where
/// the text is not well-formed YAML.
pub uninterp spec fn yaml_documents(text: Seq<char>) -> Option<Seq<Doc>>;

#[verifier::external_type_specification]
#[verifier::external_body]
pub struct ExYaml(yaml_rust::Yaml);

/// Carries a node of yaml-rust's tree over to a `Doc`, variant for variant.
#[verifier::external_body]
fn doc_from_yaml(y: &yaml_rust::Yaml) -> Doc {
    match y {
        yaml_rust::Yaml::String(s) => Doc::Text(s.clone()),
        yaml_rust::Yaml::Array(a) => Doc::List(a.iter().map(doc_from_yaml).collect()),
        yaml_rust::Yaml::Hash(h) => Doc::Pairs(
            h.iter().map(|(k, v)| (doc_from_yaml(k), doc_from_yaml(v))).collect(),
        ),
        _ => Doc::Other,
    }
}

/// Relies on `yaml_rust::YamlLoader::load_from_str`: it parses the text into
/// its documents, or fails with a scan error; the error's message is kept.
#[verifier::external_body]
pub(crate) fn load_yaml(text: &str) -> (r: Result<Vec<Doc>, String>)
    ensures
        match r {
            Ok(docs) => yaml_documents(text@) == Some(docs@),
            Err(_) => yaml_documents(text@) is None,
        },
{
    match yaml_rust::YamlLoader::load_from_str(text) {
        Ok(docs) => Ok(docs.iter().map(doc_from_yaml).collect()),
        Err(e) => Err(e.to_string()),
    }
}

/// The value under the first string key equal to `key`.
pub open spec fn lookup(pairs: Seq<(Doc, Doc)>, key: Seq<char>) -> Option<Doc>
    decreases pairs.len(),
{
    if pairs.len() == 0 {
        None
    } else if pairs[0].0 is Text && pairs[0].0->Text_0@ == key {
        Some(pairs[0].1)
    } else {
        lookup(pairs.drop_first(), key)
    }
}

/// The value under `key` where `d` is a mapping.
pub open spec fn field(d: Doc, key: Seq<char>) -> Option<Doc> {
    match d {
        Doc::Pairs(ps) => lookup(ps@, key),
        _ => None,
    }
}

/// The string a node holds, if it is a string scalar.
pub open spec fn text_of(d: Doc) -> Option<Seq<char>> {
    match d {
        Doc::Text(s) => Some(s@),
        _ => None,
    }
}

impl Doc {
    /// The value under the string key `key`, where this node is a mapping.
    pub fn get(&self, key: &str) -> (r: Option<&Doc>)
        ensures
            match r {
                Some(v) => field(*self, key@) == Some(*v),
                None => field(*self, key@) is None,
            },
    {
        match self {
            Doc::Pairs(ps) => {
                let want = key.to_owned();
                let mut i: usize = 0;
                assert(ps@.subrange(0, ps@.len() as int) =~= ps@);
                while i < ps.len()
                    invariant
                        i <= ps@.len(),
                        want@ == key@,
                        field(*self, key@) == lookup(ps@, key@),
                        lookup(ps@.subrange(i as int, ps@.len() as int), key@) == lookup(
                            ps@,
                            key@,
                        ),
                    decreases ps@.len() - i,
                {
                    assert(ps@.subrange(i as int, ps@.len() as int).drop_first() =~= ps@.subrange(
                        i + 1,
                        ps@.len() as int,
                    ));
                    if let Doc::Text(k) = &ps[i].0 {
                        if *k == want {
                            let ghost sub = ps@.subrange(i as int, ps@.len() as int);
                            assert(sub[0] == ps@[i as int]);
                            assert(lookup(sub, key@) == Some(ps@[i as int].1));
                            return Some(&ps[i].1);
                        }
                    }
                    i = i + 1;
                }
                None
            },
            _ => None,
        }
    }

    /// The string this node holds, if it is a string scalar.
    pub fn as_str(&self) -> (r: Option<&str>)
        ensures
            match r {
                Some(s) => text_of(*self) == Some(s@),
                None => text_of(*self) is None,
            },
    {
        match self {
            Doc::Text(s) => Some(s.as_str()),
            _ => None,
        }
    }
}

} // verus!
