use rubo::tree::{
    branch_prefix, color_chars_from, color_index, decimal_text, get_color_chars, record_level,
    size_label, size_label_of, to_ansi_string, Counts,
};
use rubo::walker::FileKind;

const DEFAULT_LSCOLORS: &str = "exfxcxdxbxegedabagacad";

#[test]
fn letters_paint_text() {
    assert_eq!(to_ansi_string("x", 'E', 'x'), "\u{1b}[1;34mx\u{1b}[0m");
    assert_eq!(to_ansi_string("x", 'a', 'b'), "\u{1b}[41;30mx\u{1b}[0m");
    assert_eq!(to_ansi_string("x", 'x', 'x'), "x");
    assert_eq!(to_ansi_string("dir", 'H', 'G'), "\u{1b}[1;46;37mdir\u{1b}[0m");
}

#[test]
fn colour_slots_by_kind() {
    assert_eq!(color_index(FileKind::Dir, 0o755), Some(1));
    assert_eq!(color_index(FileKind::Symlink, 0o777), Some(2));
    assert_eq!(color_index(FileKind::Fifo, 0), Some(3));
    assert_eq!(color_index(FileKind::Socket, 0), Some(4));
    assert_eq!(color_index(FileKind::File, 0o744), Some(5));
    assert_eq!(color_index(FileKind::File, 0o644), None);
    assert_eq!(color_index(FileKind::BlockDevice, 0), Some(6));
    assert_eq!(color_index(FileKind::CharDevice, 0), Some(7));
    assert_eq!(color_index(FileKind::Other, 0o777), None);
}

#[test]
fn lscolors_letters() {
    assert_eq!(color_chars_from("abc"), None);
    let chars = color_chars_from(DEFAULT_LSCOLORS).unwrap();
    assert_eq!(chars.iter().collect::<String>(), DEFAULT_LSCOLORS);
    assert_eq!(get_color_chars(FileKind::Dir, 0o755, &chars), Some(('e', 'x')));
    assert_eq!(get_color_chars(FileKind::Symlink, 0, &chars), Some(('f', 'x')));
    assert_eq!(get_color_chars(FileKind::File, 0o100, &chars), Some(('b', 'x')));
    assert_eq!(get_color_chars(FileKind::CharDevice, 0, &chars), Some(('e', 'd')));
    assert_eq!(get_color_chars(FileKind::File, 0o600, &chars), None);
}

#[test]
fn branches_before_entries() {
    assert_eq!(branch_prefix(&vec![], 1, true), "\u{251c}\u{2500}\u{2500} ");
    assert_eq!(branch_prefix(&vec![], 1, false), "\u{2514}\u{2500}\u{2500} ");
    assert_eq!(
        branch_prefix(&vec![false, true, false], 3, false),
        "\u{2502}\u{a0}\u{a0}     \u{2514}\u{2500}\u{2500} "
    );
    assert_eq!(branch_prefix(&vec![false, true], 4, true), "\u{2502}\u{a0}\u{a0}         \u{251c}\u{2500}\u{2500} ");
}

#[test]
fn levels_are_recorded() {
    let mut levels: Vec<bool> = Vec::new();
    record_level(&mut levels, 2, true);
    assert_eq!(levels, vec![false, false, true]);
    record_level(&mut levels, 1, true);
    record_level(&mut levels, 2, false);
    assert_eq!(levels, vec![false, true, false]);
}

#[test]
fn decimal_numbers() {
    assert_eq!(decimal_text(0), "0");
    assert_eq!(decimal_text(7), "7");
    assert_eq!(decimal_text(1234), "1234");
    assert_eq!(decimal_text(u64::MAX), u64::MAX.to_string());
}

#[test]
fn sizes_of_files_only() {
    assert_eq!(size_label(FileKind::File, Some(512)), " (512 B)");
    assert_eq!(size_label(FileKind::File, Some(2048)), " (2.0 KB)");
    assert_eq!(size_label(FileKind::File, None), "");
    assert_eq!(size_label(FileKind::Dir, Some(4096)), "");
    assert_eq!(size_label_of("1 MB"), " (1 MB)");
}

#[test]
fn closing_counts() {
    let mut c = Counts::new();
    assert_eq!(c.summary(), "\n0 directories, 0 files, 0 symbolic links");
    c.add(FileKind::Dir);
    c.add(FileKind::File);
    c.add(FileKind::File);
    c.add(FileKind::Symlink);
    c.add(FileKind::Fifo);
    assert_eq!((c.dirs, c.files, c.links), (1, 2, 1));
    assert_eq!(c.summary(), "\n1 directory, 2 files, 1 symbolic link");
}

#[test]
fn counts_stay_at_the_top() {
    let mut c = Counts { dirs: u64::MAX, files: 0, links: 0 };
    c.add(FileKind::Dir);
    assert_eq!(c.dirs, u64::MAX);
}
