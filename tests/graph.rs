use rubo::doc::Doc;
use rubo::graph::{PodItem, Pods};
use rubo::lockfile::{read_element, FormatError, Lockfile};
use rubo::travel::{Travel, TravelMode};

fn s(x: &str) -> String {
    x.to_string()
}

#[test]
fn hand_built_graph() {
    let mut g = Pods::new();
    let a = g.record(s("A"), Some(s("1")));
    g.link(a, s("B"));
    g.link(a, s("B"));
    g.link(a, s("A"));
    assert_eq!(g.len(), 2);
    assert_eq!(g.item(a).children, vec![s("B")]);
    let b = g.find(&s("B")).unwrap();
    assert_eq!(g.item(b).parents, vec![s("A")]);
    assert_eq!(g.item(b).vers, None);
    let b2 = g.record(s("B"), Some(s("2")));
    assert_eq!(b, b2);
    assert_eq!(g.item(b).vers, Some(s("2")));
    assert_eq!(g.item(b).parents, vec![s("A")]);
    let b3 = g.record(s("B"), None);
    assert_eq!(g.item(b3).vers, Some(s("2")));
    let t = Travel::new(TravelMode::Parents, &g);
    let cs = t.collect("B").unwrap();
    assert_eq!(cs.len(), 1);
    assert_eq!(cs[0].name, "A");
}

#[test]
fn new_item_has_no_neighbours() {
    let p = PodItem::new(s("X"), None);
    assert_eq!(p.name, "X");
    assert!(p.parents.is_empty() && p.children.is_empty());
}

#[test]
fn document_built_by_hand() {
    let pods_list = Doc::List(vec![
        Doc::Text(s("A (1.0)")),
        Doc::Pairs(vec![(Doc::Text(s("A (2.0)")), Doc::List(vec![Doc::Text(s("B (~> 1)"))]))]),
    ]);
    let root = Doc::Pairs(vec![(Doc::Text(s("PODS")), pods_list)]);
    assert_eq!(root.get("PODS").map(|d| d.as_str()), Some(None));
    let g = Lockfile::new(root).pods().unwrap();
    assert_eq!(g.len(), 2);
    let a = g.item(g.find(&s("A")).unwrap());
    assert_eq!(a.vers, Some(s("2.0")));
    assert_eq!(a.children, vec![s("B")]);
}

#[test]
fn element_reading() {
    let e = Doc::Pairs(vec![(
        Doc::Text(s("A (1)")),
        Doc::List(vec![Doc::Text(s("B (= 2)")), Doc::Text(s("C"))]),
    )]);
    assert_eq!(
        read_element(&e),
        Ok((s("A"), Some(s("1")), vec![s("B"), s("C")]))
    );
    assert_eq!(read_element(&Doc::Other), Err(FormatError::UnexpectedType));
    assert_eq!(read_element(&Doc::Pairs(vec![])), Err(FormatError::UnexpectedLength));
    let bad_key = Doc::Pairs(vec![(Doc::Other, Doc::List(vec![]))]);
    assert_eq!(read_element(&bad_key), Err(FormatError::UnexpectedType));
}

#[test]
fn lookup_takes_string_keys_only() {
    let d = Doc::Pairs(vec![(Doc::Other, Doc::Text(s("x"))), (Doc::Text(s("k")), Doc::Text(s("v")))]);
    assert_eq!(d.get("k").and_then(|v| v.as_str()), Some("v"));
    assert!(d.get("x").is_none());
    assert!(Doc::Text(s("k")).get("k").is_none());
}
