use rubo::render::{
    ResolveError, print_deps, print_depth_text, print_pretty_chains, print_reserve_deps,
    sorted_chain_texts, travel_and_print,
};
use rubo::travel::TravelMode;

const SAMPLE: &str = "PODS:\n  - A (1.0)\n  - B (1.0):\n    - A\n    - C\n  - C (1.0):\n    - A\n";

fn line(depth: usize, code: &str, text: &str) -> String {
    format!(
        "{} \u{1b}[1;{}m\u{2022}\u{1b}[0m \u{1b}[{}m{}\u{1b}[0m",
        " ".repeat((depth - 1) * 4),
        code,
        code,
        text
    )
}

#[test]
fn depth_text_at_first_level() {
    assert_eq!(print_depth_text("B", 1), line(1, "31", "B"));
}

#[test]
fn depth_text_indents_and_cycles_colours() {
    assert_eq!(print_depth_text("X", 2), line(2, "32", "X"));
    assert_eq!(print_depth_text("X", 6), line(6, "36", "X"));
    assert_eq!(print_depth_text("X", 7), line(7, "31", "X"));
}

#[test]
fn pretty_chains_filter_by_depth() {
    let chains = vec!["B".to_string(), "B:C".to_string(), "B:C:D".to_string()];
    let out = print_pretty_chains(&chains, 2);
    assert_eq!(out, vec![line(1, "31", "B"), line(2, "32", "C")]);
    assert!(print_pretty_chains(&chains, 0).is_empty());
    assert_eq!(print_pretty_chains(&chains, 10).len(), 3);
}

#[test]
fn scenario_forward_from_leaf_is_empty() {
    assert_eq!(print_deps(SAMPLE, "A", 999_999_999), Ok(vec![]));
}

#[test]
fn scenario_reverse_from_leaf() {
    assert_eq!(
        print_reserve_deps(SAMPLE, "A", 1),
        Ok(vec![line(1, "31", "B"), line(1, "31", "C")])
    );
}

#[test]
fn scenario_forward_from_root() {
    let want = vec![line(1, "31", "A"), line(1, "31", "C")];
    assert_eq!(print_deps(SAMPLE, "B", 1), Ok(want.clone()));
    assert_eq!(print_deps(SAMPLE, "B", 5), Ok(want));
}

#[test]
fn scenario_missing_target() {
    assert_eq!(print_deps(SAMPLE, "Z", 3), Err(ResolveError::Lookup));
    assert_eq!(print_reserve_deps(SAMPLE, "Z", 3), Err(ResolveError::Lookup));
}

#[test]
fn errors_on_the_way() {
    assert!(matches!(print_deps("PODS: [", "A", 3), Err(ResolveError::Syntax(_))));
    assert_eq!(print_deps("", "A", 3), Err(ResolveError::Empty));
    assert_eq!(
        print_deps("PODS: x\n", "A", 3),
        Err(ResolveError::Format(rubo::lockfile::FormatError::UnexpectedType))
    );
}

#[test]
fn deeper_chains_sorted_and_cut() {
    let text = "PODS:\n  - A (1):\n    - C\n    - B\n  - B (1):\n    - D\n  - C (1)\n  - D (1):\n    - E\n  - E (1)\n";
    let all = travel_and_print(text, "A", 10, TravelMode::Children).unwrap();
    assert_eq!(
        all,
        vec![
            line(1, "31", "B"),
            line(2, "32", "D"),
            line(3, "33", "E"),
            line(1, "31", "C"),
        ]
    );
    let cut = travel_and_print(text, "A", 2, TravelMode::Children).unwrap();
    assert_eq!(cut, vec![line(1, "31", "B"), line(2, "32", "D"), line(1, "31", "C")]);
}

#[test]
fn texts_come_sorted() {
    let text = "PODS:\n  - A (1):\n    - C\n    - B\n  - B (1)\n  - C (1)\n";
    let pods = rubo::lockfile::Lockfile::from_text(text).unwrap().pods().unwrap();
    let travel = rubo::travel::Travel::new(TravelMode::Children, &pods);
    let cs = travel.collect("A").unwrap();
    assert_eq!(sorted_chain_texts(&cs), vec!["B".to_string(), "C".to_string()]);
}
