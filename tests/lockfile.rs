use rubo::lockfile::{FormatError, LoadError, Lockfile};

const SAMPLE: &str = "PODS:\n  - A (1.0)\n  - B (1.0):\n    - A\n    - C\n  - C (1.0):\n    - A\n";

fn names(v: &Vec<String>) -> Vec<String> {
    let mut v = v.clone();
    v.sort();
    v
}

#[test]
fn builds_the_graph() {
    let pods = Lockfile::from_text(SAMPLE).unwrap().pods().unwrap();
    assert_eq!(pods.len(), 3);
    let a = pods.item(pods.find(&"A".to_string()).unwrap());
    assert_eq!(a.vers, Some("1.0".to_string()));
    assert!(a.children.is_empty());
    assert_eq!(names(&a.parents), vec!["B".to_string(), "C".to_string()]);
    let b = pods.item(pods.find(&"B".to_string()).unwrap());
    assert_eq!(names(&b.children), vec!["A".to_string(), "C".to_string()]);
    assert!(b.parents.is_empty());
    let c = pods.item(pods.find(&"C".to_string()).unwrap());
    assert_eq!(names(&c.children), vec!["A".to_string()]);
    assert_eq!(names(&c.parents), vec!["B".to_string()]);
}

#[test]
fn graph_is_symmetric() {
    let text = "PODS:\n  - X (1):\n    - Y\n    - Z (~> 2)\n  - Y (2):\n    - Z\n  - Z (3):\n    - X\n";
    let pods = Lockfile::from_text(text).unwrap().pods().unwrap();
    for i in 0..pods.len() {
        let p = pods.item(i);
        for c in p.children.iter() {
            let q = pods.item(pods.find(c).unwrap());
            assert!(q.parents.contains(&p.name));
        }
        for c in p.parents.iter() {
            let q = pods.item(pods.find(c).unwrap());
            assert!(q.children.contains(&p.name));
        }
    }
}

#[test]
fn self_dependency_is_ignored() {
    let text = "PODS:\n  - A (1.0):\n    - A\n    - B\n";
    let pods = Lockfile::from_text(text).unwrap().pods().unwrap();
    let a = pods.item(pods.find(&"A".to_string()).unwrap());
    assert_eq!(a.children, vec!["B".to_string()]);
    assert!(a.parents.is_empty());
    let b = pods.item(pods.find(&"B".to_string()).unwrap());
    assert_eq!(b.vers, None);
    assert_eq!(b.parents, vec!["A".to_string()]);
}

#[test]
fn same_name_merges() {
    let text = "PODS:\n  - A\n  - B (2.0)\n  - A (1.0):\n    - B\n";
    let pods = Lockfile::from_text(text).unwrap().pods().unwrap();
    assert_eq!(pods.len(), 2);
    let a = pods.item(pods.find(&"A".to_string()).unwrap());
    assert_eq!(a.vers, Some("1.0".to_string()));
    assert_eq!(a.children, vec!["B".to_string()]);
}

#[test]
fn later_bare_line_keeps_version() {
    let text = "PODS:\n  - A (1.0):\n    - B\n  - A\n";
    let pods = Lockfile::from_text(text).unwrap().pods().unwrap();
    let a = pods.item(pods.find(&"A".to_string()).unwrap());
    assert_eq!(a.vers, Some("1.0".to_string()));
    assert_eq!(a.children, vec!["B".to_string()]);
}

#[test]
fn dependency_before_its_own_line() {
    let text = "PODS:\n  - A (1.0):\n    - B (>= 2)\n  - B (2.1)\n";
    let pods = Lockfile::from_text(text).unwrap().pods().unwrap();
    let b = pods.item(pods.find(&"B".to_string()).unwrap());
    assert_eq!(b.vers, Some("2.1".to_string()));
    assert_eq!(b.parents, vec!["A".to_string()]);
}

#[test]
fn pods_must_be_a_list() {
    let l = Lockfile::from_text("PODS: 3\n").unwrap();
    assert_eq!(l.pods().err(), Some(FormatError::UnexpectedType));
    let l = Lockfile::from_text("OTHER: []\n").unwrap();
    assert_eq!(l.pods().err(), Some(FormatError::UnexpectedType));
}

#[test]
fn mapping_with_two_keys() {
    let l = Lockfile::from_text("PODS:\n  - {A: [B], C: [D]}\n").unwrap();
    assert_eq!(l.pods().err(), Some(FormatError::UnexpectedLength));
}

#[test]
fn dependency_list_of_non_strings() {
    let l = Lockfile::from_text("PODS:\n  - A:\n    - 1.5\n").unwrap();
    assert_eq!(l.pods().err(), Some(FormatError::UnexpectedType));
    let l = Lockfile::from_text("PODS:\n  - A: B\n").unwrap();
    assert_eq!(l.pods().err(), Some(FormatError::UnexpectedType));
}

#[test]
fn element_of_wrong_kind() {
    let l = Lockfile::from_text("PODS:\n  - 12\n").unwrap();
    assert_eq!(l.pods().err(), Some(FormatError::UnexpectedType));
}

#[test]
fn line_without_name() {
    let l = Lockfile::from_text("PODS:\n  - \" \"\n").unwrap();
    assert_eq!(l.pods().err(), Some(FormatError::UnexpectedText));
    let l = Lockfile::from_text("PODS:\n  - A:\n    - \"((\"\n").unwrap();
    assert_eq!(l.pods().err(), Some(FormatError::UnexpectedText));
}

#[test]
fn first_error_wins() {
    let l = Lockfile::from_text("PODS:\n  - \" \"\n  - {A: [B], C: [D]}\n").unwrap();
    assert_eq!(l.pods().err(), Some(FormatError::UnexpectedText));
}

#[test]
fn bad_yaml_and_empty_text() {
    assert!(matches!(Lockfile::from_text("PODS: [A, B"), Err(LoadError::Syntax(_))));
    assert!(matches!(Lockfile::from_text(""), Err(LoadError::Empty)));
}

#[test]
fn reads_external_sources() {
    let text = "PODS:\n  - A (1.0)\nEXTERNAL SOURCES:\n  A:\n    :path: ../A\n  B:\n    :git: url\n";
    let l = Lockfile::from_text(text).unwrap();
    let s = l.external_sources().unwrap();
    assert_eq!(s.len(), 2);
    assert_eq!(s[0].name, "A");
    assert_eq!(s[0].path, Some("../A".to_string()));
    assert_eq!(s[1].name, "B");
    assert_eq!(s[1].path, None);
}

#[test]
fn missing_external_sources_leaves_pods_alone() {
    let l = Lockfile::from_text(SAMPLE).unwrap();
    assert_eq!(l.external_sources().err(), Some(FormatError::UnexpectedType));
    assert_eq!(l.pods().unwrap().len(), 3);
}
