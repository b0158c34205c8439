//! The pieces of a directory listing in tree form: the branch drawn before
//! each entry, its colour as `LSCOLORS` sets it, its size and the closing
//! count.

use vstd::prelude::*;
use vstd::string::*;

use crate::style::{Colour, Style, paint, painted};
use crate::walker::FileKind;

verus! {

/// The colour a letter of `LSCOLORS` stands for: `a` to `h`, either case.
pub open spec fn letter_colour(ch: char) -> Option<Colour> {
    if ch == 'a' || ch == 'A' {
        Some(Colour::Black)
    } else if ch == 'b' || ch == 'B' {
        Some(Colour::Red)
    } else if ch == 'c' || ch == 'C' {
        Some(Colour::Green)
    } else if ch == 'd' || ch == 'D' {
        Some(Colour::Yellow)
    } else if ch == 'e' || ch == 'E' {
        Some(Colour::Blue)
    } else if ch == 'f' || ch == 'F' {
        Some(Colour::Purple)
    } else if ch == 'g' || ch == 'G' {
        Some(Colour::Cyan)
    } else if ch == 'h' || ch == 'H' {
        Some(Colour::White)
    } else {
        None
    }
}

/// The style of a foreground and a background letter: an upper-case
/// foreground letter makes it bold.
pub open spec fn letter_style(fg: char, bg: char) -> Style {
    Style { fg: letter_colour(fg), bg: letter_colour(bg), bold: 'A' <= fg <= 'H' }
}

fn colour_of_letter(ch: char) -> (r: Option<Colour>)
    ensures
        r == letter_colour(ch),
{
    if ch == 'a' || ch == 'A' {
        Some(Colour::Black)
    } else if ch == 'b' || ch == 'B' {
        Some(Colour::Red)
    } else if ch == 'c' || ch == 'C' {
        Some(Colour::Green)
    } else if ch == 'd' || ch == 'D' {
        Some(Colour::Yellow)
    } else if ch == 'e' || ch == 'E' {
        Some(Colour::Blue)
    } else if ch == 'f' || ch == 'F' {
        Some(Colour::Purple)
    } else if ch == 'g' || ch == 'G' {
        Some(Colour::Cyan)
    } else if ch == 'h' || ch == 'H' {
        Some(Colour::White)
    } else {
        None
    }
}

/// `s` painted in the colours of the letters `fg` and `bg`.
pub fn to_ansi_string(s: &str, fg: char, bg: char) -> (r: String)
    ensures
        r@ == painted(s@, letter_style(fg, bg)),
{
    let style = Style { fg: colour_of_letter(fg), bg: colour_of_letter(bg), bold: 'A' <= fg && fg <= 'H' };
    paint(s, style)
}

/// Which pair of `LSCOLORS` letters colours an entry, counting from 1:
/// directories, symbolic links, fifos, sockets, executables, block and
/// character devices; other files get none.
pub open spec fn colour_slot(kind: FileKind, mode: u32) -> Option<usize> {
    match kind {
        FileKind::Symlink => Some(2),
        FileKind::Fifo => Some(3),
        FileKind::Socket => Some(4),
        FileKind::BlockDevice => Some(6),
        FileKind::CharDevice => Some(7),
        FileKind::File => if mode & 0o111 != 0 {
            Some(5)
        } else {
            None
        },
        FileKind::Dir => Some(1),
        FileKind::Other => None,
    }
}

/// Which pair of `LSCOLORS` letters colours an entry of kind `kind` whose
/// permission bits are `mode`.
pub fn color_index(kind: FileKind, mode: u32) -> (r: Option<usize>)
    ensures
        r == colour_slot(kind, mode),
{
    match kind {
        FileKind::Symlink => Some(2),
        FileKind::Fifo => Some(3),
        FileKind::Socket => Some(4),
        FileKind::BlockDevice => Some(6),
        FileKind::CharDevice => Some(7),
        FileKind::File => if mode & 0o111 != 0 {
            Some(5)
        } else {
            None
        },
        FileKind::Dir => Some(1),
        FileKind::Other => None,
    }
}

/// The foreground and background letters of an entry, out of the 22
/// letters of `LSCOLORS`.
pub fn get_color_chars(kind: FileKind, mode: u32, map: &[char; 22]) -> (r: Option<(char, char)>)
    ensures
        match colour_slot(kind, mode) {
            Some(i) => r == Some((map@[2 * (i - 1)], map@[2 * (i - 1) + 1])),
            None => r is None,
        },
{
    let index = match color_index(kind, mode) {
        Some(i) => i,
        None => return None,
    };
    let fg_i = (index - 1) * 2;
    let bg_i = fg_i + 1;
    Some((map[fg_i], map[bg_i]))
}

/// The letters of an `LSCOLORS` value, where it has exactly 22 of them.
pub fn color_chars_from(s: &str) -> (r: Option<[char; 22]>)
    ensures
        match r {
            Some(a) => s@.len() == 22 && a@ == s@,
            None => s@.len() != 22,
        },
{
    let n = s.unicode_len();
    if n != 22 {
        return None;
    }
    let mut ret: [char; 22] = ['\0'; 22];
    let mut i: usize = 0;
    while i < 22
        invariant
            n == 22,
            s@.len() == 22,
            i <= 22,
            forall|k: int| 0 <= k < i ==> ret@[k] == s@[k],
        decreases 22 - i,
    {
        ret[i] = s.get_char(i);
        i = i + 1;
    }
    assert(ret@ =~= s@);
    Some(ret)
}

/// Whether the line of level `i` goes on below the entry.
pub open spec fn level_open(levels: Seq<bool>, i: int) -> bool {
    0 <= i < levels.len() && levels[i]
}

/// The four characters drawn for one level above an entry.
pub open spec fn level_mark(open: bool) -> Seq<char> {
    if open {
        seq!['\u{2502}', '\u{a0}', '\u{a0}', ' ']
    } else {
        seq![' ', ' ', ' ', ' ']
    }
}

/// The marks of the levels from 1 up to, not including, `d`.
pub open spec fn level_marks(levels: Seq<bool>, d: int) -> Seq<char>
    decreases d,
{
    if d <= 1 {
        Seq::empty()
    } else {
        level_marks(levels, d - 1) + level_mark(level_open(levels, d - 1))
    }
}

/// The branch drawn before an entry at `depth`: a mark for each level above
/// it, then `├── ` where the entry has a next sibling, `└── ` where not.
pub open spec fn branch(levels: Seq<bool>, depth: int, has_next_sibling: bool) -> Seq<char> {
    level_marks(levels, depth) + seq![
        if has_next_sibling {
            '\u{251c}'
        } else {
            '\u{2514}'
        },
        '\u{2500}',
        '\u{2500}',
        ' ',
    ]
}

/// The branch drawn before an entry at `depth`; `levels[i]` says whether
/// the last entry met at depth `i` has a next sibling.
pub fn branch_prefix(levels: &Vec<bool>, depth: usize, has_next_sibling: bool) -> (r: String)
    ensures
        r@ == branch(levels@, depth as int, has_next_sibling),
{
    proof {
        reveal_strlit("\u{2502}\u{a0}\u{a0} ");
        reveal_strlit("    ");
        reveal_strlit("\u{251c}\u{2500}\u{2500} ");
        reveal_strlit("\u{2514}\u{2500}\u{2500} ");
    }
    let mut r = String::new();
    let mut i: usize = 1;
    while i < depth
        invariant
            1 <= i,
            i <= depth || i == 1,
            r@ == level_marks(levels@, i as int),
            "\u{2502}\u{a0}\u{a0} "@ == level_mark(true),
            "    "@ == level_mark(false),
        decreases depth - i,
    {
        let open = i < levels.len() && levels[i];
        if open {
            r.append("\u{2502}\u{a0}\u{a0} ");
        } else {
            r.append("    ");
        }
        i = i + 1;
    }
    assert(r@ == level_marks(levels@, i as int));
    if depth <= 1 {
        assert(level_marks(levels@, depth as int) == Seq::<char>::empty());
        assert(level_marks(levels@, i as int) == Seq::<char>::empty());
    } else {
        assert(i == depth);
    }
    let ghost marks = r@;
    proof {
        reveal_strlit("\u{251c}\u{2500}\u{2500} ");
        reveal_strlit("\u{2514}\u{2500}\u{2500} ");
    }
    assert(marks == level_marks(levels@, depth as int));
    if has_next_sibling {
        r.append("\u{251c}\u{2500}\u{2500} ");
        assert(r@ == marks + seq!['\u{251c}', '\u{2500}', '\u{2500}', ' ']);
    } else {
        r.append("\u{2514}\u{2500}\u{2500} ");
        assert(r@ == marks + seq!['\u{2514}', '\u{2500}', '\u{2500}', ' ']);
    }
    assert(r@ =~= branch(levels@, depth as int, has_next_sibling));
    r
}

/// Notes whether the entry just met at `depth` has a next sibling.
pub fn record_level(levels: &mut Vec<bool>, depth: usize, has_next_sibling: bool)
    ensures
        final(levels)@.len() == if depth < old(levels)@.len() {
            old(levels)@.len() as int
        } else {
            depth + 1
        },
        forall|i: int| 0 <= i < final(levels)@.len() ==> level_open(final(levels)@, i) == if i == depth {
            has_next_sibling
        } else {
            level_open(old(levels)@, i)
        },
{
    while levels.len() <= depth
        invariant
            levels@.len() >= old(levels)@.len(),
            levels@.len() <= if depth < old(levels)@.len() {
                old(levels)@.len() as int
            } else {
                depth + 1
            },
            forall|i: int| 0 <= i < levels@.len() ==> level_open(levels@, i) == level_open(old(levels)@, i),
        decreases depth + 1 - levels@.len(),
    {
        levels.push(false);
    }
    levels.set(depth, has_next_sibling);
}

/// The decimal digit `d`.
pub open spec fn digit_char(d: nat) -> char {
    if d == 0 {
        '0'
    } else if d == 1 {
        '1'
    } else if d == 2 {
        '2'
    } else if d == 3 {
        '3'
    } else if d == 4 {
        '4'
    } else if d == 5 {
        '5'
    } else if d == 6 {
        '6'
    } else if d == 7 {
        '7'
    } else if d == 8 {
        '8'
    } else {
        '9'
    }
}

/// `n` written in decimal.
pub open spec fn decimal(n: nat) -> Seq<char>
    decreases n,
{
    if n < 10 {
        seq![digit_char(n)]
    } else {
        decimal(n / 10).push(digit_char(n % 10))
    }
}

fn digit_text(d: u64) -> (r: &'static str)
    requires
        d < 10,
    ensures
        r@ == seq![digit_char(d as nat)],
{
    proof {
        reveal_strlit("0");
        reveal_strlit("1");
        reveal_strlit("2");
        reveal_strlit("3");
        reveal_strlit("4");
        reveal_strlit("5");
        reveal_strlit("6");
        reveal_strlit("7");
        reveal_strlit("8");
        reveal_strlit("9");
    }
    if d == 0 {
        "0"
    } else if d == 1 {
        "1"
    } else if d == 2 {
        "2"
    } else if d == 3 {
        "3"
    } else if d == 4 {
        "4"
    } else if d == 5 {
        "5"
    } else if d == 6 {
        "6"
    } else if d == 7 {
        "7"
    } else if d == 8 {
        "8"
    } else {
        "9"
    }
}

/// `n` written in decimal.
pub fn decimal_text(n: u64) -> (r: String)
    ensures
        r@ == decimal(n as nat),
    decreases n,
{
    if n < 10 {
        digit_text(n).to_owned()
    } else {
        let mut r = decimal_text(n / 10);
        r.append(digit_text(n % 10));
        r
    }
}

/// Relies on `bytesize::ByteSize`'s `Display`: below 1000 bytes it is the
/// number and ` B`.  Larger sizes pick their unit through a floating-point
/// logarithm, so nothing is claimed of them.
#[verifier::external_body]
fn human_size(n: u64) -> (r: String)
    ensures
        n < 1000 ==> r@ == decimal(n as nat) + seq![' ', 'B'],
{
    bytesize::ByteSize(n).to_string()
}

/// A size as it follows an entry's name: ` (` and `)` round it.
pub fn size_label_of(size: &str) -> (r: String)
    ensures
        r@ == seq![' ', '('] + size@ + seq![')'],
{
    proof {
        reveal_strlit(" (");
        reveal_strlit(")");
    }
    let mut r = " (".to_owned();
    r.append(size);
    r.append(")");
    r
}

/// The size shown after an entry: that of a regular file whose size is
/// known, none for other entries.  Below 1000 bytes the size is written
/// exactly; larger ones are written by bytesize in a unit of its choosing.
pub fn size_label(kind: FileKind, size: Option<u64>) -> (r: String)
    ensures
        match (kind, size) {
            (FileKind::File, Some(n)) => {
                &&& n < 1000 ==> r@ == seq![' ', '('] + decimal(n as nat) + seq![' ', 'B', ')']
                &&& exists|t: Seq<char>| r@ == seq![' ', '('] + t + seq![')']
            },
            _ => r@ == Seq::<char>::empty(),
        },
{
    match (kind, size) {
        (FileKind::File, Some(n)) => {
            let h = human_size(n);
            let r = size_label_of(h.as_str());
            assert(r@ == seq![' ', '('] + h@ + seq![')']);
            if n < 1000 {
                assert(r@ =~= seq![' ', '('] + decimal(n as nat) + seq![' ', 'B', ')']);
            }
            r
        },
        _ => String::new(),
    }
}

/// `n` and a noun, in the singular where `n` is 1.
pub open spec fn counted(n: nat, one: Seq<char>, many: Seq<char>) -> Seq<char> {
    decimal(n) + seq![' '] + if n == 1 {
        one
    } else {
        many
    }
}

fn counted_text(n: u64, one: &str, many: &str) -> (r: String)
    ensures
        r@ == counted(n as nat, one@, many@),
{
    proof {
        reveal_strlit(" ");
    }
    let mut r = decimal_text(n);
    r.append(" ");
    if n == 1 {
        r.append(one);
    } else {
        r.append(many);
    }
    r
}

/// The entries of each kind a listing has shown.
pub struct Counts {
    pub dirs: u64,
    pub files: u64,
    pub links: u64,
}

impl Counts {
    pub fn new() -> (r: Self)
        ensures
            r.dirs == 0 && r.files == 0 && r.links == 0,
    {
        Counts { dirs: 0, files: 0, links: 0 }
    }

    /// Counts one more entry of kind `kind`; a count stays at its largest
    /// value once there.
    pub fn add(&mut self, kind: FileKind)
        ensures
            final(self).dirs == if kind == FileKind::Dir && old(self).dirs < u64::MAX {
                (old(self).dirs + 1) as u64
            } else {
                old(self).dirs
            },
            final(self).files == if kind == FileKind::File && old(self).files < u64::MAX {
                (old(self).files + 1) as u64
            } else {
                old(self).files
            },
            final(self).links == if kind == FileKind::Symlink && old(self).links < u64::MAX {
                (old(self).links + 1) as u64
            } else {
                old(self).links
            },
    {
        match kind {
            FileKind::Dir => if self.dirs < u64::MAX {
                self.dirs = self.dirs + 1;
            },
            FileKind::File => if self.files < u64::MAX {
                self.files = self.files + 1;
            },
            FileKind::Symlink => if self.links < u64::MAX {
                self.links = self.links + 1;
            },
            _ => {},
        }
    }

    /// The closing line of a listing: a blank line, then the count of
    /// directories, files and symbolic links.
    pub fn summary(&self) -> (r: String)
        ensures
            r@ == seq!['\n'] + counted(self.dirs as nat, "directory"@, "directories"@) + seq![',', ' ']
                + counted(self.files as nat, "file"@, "files"@) + seq![',', ' '] + counted(
                self.links as nat,
                "symbolic link"@,
                "symbolic links"@,
            ),
    {
        proof {
            reveal_strlit("\n");
            reveal_strlit(", ");
        }
        let mut r = "\n".to_owned();
        r.append(counted_text(self.dirs, "directory", "directories").as_str());
        r.append(", ");
        r.append(counted_text(self.files, "file", "files").as_str());
        r.append(", ");
        r.append(counted_text(self.links, "symbolic link", "symbolic links").as_str());
        r
    }
}

} // verus!
