use rubo::lockfile::Lockfile;
use rubo::travel::{LookupError, Travel, TravelMode};

fn chains(text: &str, target: &str, mode: TravelMode) -> Result<Vec<(String, Vec<String>)>, LookupError> {
    let pods = Lockfile::from_text(text).unwrap().pods().unwrap();
    let travel = Travel::new(mode, &pods);
    travel.collect(target).map(|cs| {
        let mut v: Vec<(String, Vec<String>)> = cs.into_iter().map(|c| (c.name, c.path)).collect();
        v.sort();
        v
    })
}

fn s(x: &str) -> String {
    x.to_string()
}

#[test]
fn two_cycle_gives_the_other_node() {
    let text = "PODS:\n  - A (1):\n    - B\n  - B (1):\n    - A\n";
    for mode in [TravelMode::Children, TravelMode::Parents] {
        assert_eq!(chains(text, "A", mode).unwrap(), vec![(s("B"), vec![s("B")])]);
        assert_eq!(chains(text, "B", mode).unwrap(), vec![(s("A"), vec![s("A")])]);
    }
}

#[test]
fn target_is_left_out() {
    let text = "PODS:\n  - A (1):\n    - B\n  - B (1):\n    - C\n  - C (1):\n    - A\n";
    let cs = chains(text, "A", TravelMode::Children).unwrap();
    assert!(cs.iter().all(|c| c.0 != "A"));
    assert_eq!(cs, vec![(s("B"), vec![s("B")]), (s("C"), vec![s("B"), s("C")])]);
}

#[test]
fn shortest_chain_is_kept() {
    let text = "PODS:\n  - A (1):\n    - B\n    - D\n  - B (1):\n    - C\n  - C (1):\n    - D\n  - D (1)\n";
    let cs = chains(text, "A", TravelMode::Children).unwrap();
    assert_eq!(
        cs,
        vec![
            (s("B"), vec![s("B")]),
            (s("C"), vec![s("B"), s("C")]),
            (s("D"), vec![s("D")]),
        ]
    );
}

#[test]
fn reverse_walk_follows_parents() {
    let text = "PODS:\n  - A (1.0)\n  - B (1.0):\n    - A\n    - C\n  - C (1.0):\n    - A\n";
    let cs = chains(text, "A", TravelMode::Parents).unwrap();
    assert_eq!(cs.len(), 2);
    assert_eq!(cs[0], (s("B"), vec![s("B")]));
    assert_eq!(cs[1].0, "C");
    assert_eq!(cs[1].1, vec![s("C")]);
}

#[test]
fn leaf_has_no_chains() {
    let text = "PODS:\n  - A (1.0)\n  - B (1.0):\n    - A\n";
    assert!(chains(text, "A", TravelMode::Children).unwrap().is_empty());
}

#[test]
fn unknown_target_fails() {
    let text = "PODS:\n  - A (1.0)\n";
    assert_eq!(chains(text, "Z", TravelMode::Children), Err(LookupError));
}

#[test]
fn chain_text_joins_with_colons() {
    let text = "PODS:\n  - A (1):\n    - B\n  - B (1):\n    - C\n  - C (1)\n";
    let pods = Lockfile::from_text(text).unwrap().pods().unwrap();
    let travel = Travel::new(TravelMode::Children, &pods);
    let mut texts: Vec<String> = travel.collect("A").unwrap().iter().map(|c| c.text()).collect();
    texts.sort();
    assert_eq!(texts, vec![s("B"), s("B:C")]);
}
