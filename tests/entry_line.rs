use rubo::entry_line::name_and_version;

fn split(s: &str) -> Option<(String, Option<String>)> {
    name_and_version(s)
}

fn by_pattern(s: &str) -> Option<(String, Option<String>)> {
    let re = regex::Regex::new(r"(?P<name>(?:\s?[^\s(])+)(?: \((?P<vers>.+)\))?").unwrap();
    re.captures(s).map(|c| {
        (
            c.name("name").unwrap().as_str().to_string(),
            c.name("vers").map(|v| v.as_str().to_string()),
        )
    })
}

#[test]
fn name_with_version() {
    assert_eq!(split("A (1.0)"), Some(("A".to_string(), Some("1.0".to_string()))));
}

#[test]
fn name_without_version() {
    assert_eq!(split("AFNetworking"), Some(("AFNetworking".to_string(), None)));
}

#[test]
fn constraint_with_operator() {
    assert_eq!(
        split("AFNetworking/Reachability (= 2.3.1)"),
        Some(("AFNetworking/Reachability".to_string(), Some("= 2.3.1".to_string())))
    );
}

#[test]
fn name_with_inner_space() {
    assert_eq!(split("A B (2)"), Some(("A B".to_string(), Some("2".to_string()))));
}

#[test]
fn empty_line_has_no_name() {
    assert_eq!(split(""), None);
    assert_eq!(split("   "), None);
    assert_eq!(split("("), None);
}

#[test]
fn version_runs_to_last_paren() {
    assert_eq!(
        split("A (1.0) (2.0)"),
        Some(("A".to_string(), Some("1.0) (2.0".to_string())))
    );
}

#[test]
fn agrees_with_the_pattern() {
    let lines = [
        "A (1.0)",
        "A",
        "  A (1.0)",
        " A",
        "(A)",
        "A(1.0)",
        "A  (1.0)",
        "A ()",
        "A (1.0",
        "A (1.0)x",
        "A (1\n.0)",
        "A (x) y (z)",
        "\u{3000}A\u{a0}B (v)",
        "Firebase/Core (~> 6.0)",
        "",
        "((",
        "a b  c (d)",
    ];
    for l in lines.iter() {
        assert_eq!(split(l), by_pattern(l), "line {:?}", l);
    }
}
