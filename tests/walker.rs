use rubo::walker::{FileKind, Walker};

#[test]
fn walker_defaults() {
    let w = Walker::new("/tmp");
    assert_eq!(w.root(), "/tmp");
    assert!(w.hides_ignored());
    assert!(w.sorts_by_name());
    assert!(w.within_depth(1_000));
    assert!(!w.enters(FileKind::Symlink));
    assert!(w.enters(FileKind::Dir));
    assert!(!w.enters(FileKind::File));
}

#[test]
fn walker_builders_chain() {
    let mut w = Walker::new(".");
    w.max_depth(Some(2)).hide_ignore(false).follow_symbolic(true);
    assert!(w.within_depth(2));
    assert!(!w.within_depth(3));
    assert!(!w.hides_ignored());
    assert!(w.enters(FileKind::Symlink));
    assert!(w.shows_entry(".git", true));
}

#[test]
fn hidden_and_ignored_entries() {
    let w = Walker::new(".");
    assert!(!w.shows_entry(".hidden", false));
    assert!(!w.shows_entry("target", true));
    assert!(w.shows_entry("src", false));
    assert!(w.shows_entry("", false));
}
