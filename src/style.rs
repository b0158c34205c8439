//! Terminal colours: styles and the escape sequences that paint text.

use ansi_term::Colour as Ansi;
use vstd::prelude::*;

verus! {

/// The eight basic terminal colours.
#[derive(Debug, Clone, Copy, PartialEq, Eq, Structural)]
pub enum Colour {
    Black,
    Red,
    Green,
    Yellow,
    Blue,
    Purple,
    Cyan,
    White,
}

/// How text is painted: a foreground, a background, and boldness.
#[derive(Debug, Clone, Copy, PartialEq, Eq, Structural)]
pub struct Style {
    pub fg: Option<Colour>,
    pub bg: Option<Colour>,
    pub bold: bool,
}

/// The digit that stands for a colour in a colour code.
pub open spec fn colour_digit(c: Colour) -> char {
    match c {
        Colour::Black => '0',
        Colour::Red => '1',
        Colour::Green => '2',
        Colour::Yellow => '3',
        Colour::Blue => '4',
        Colour::Purple => '5',
        Colour::Cyan => '6',
        Colour::White => '7',
    }
}

/// The codes a style sets, in the order they are written: boldness, then
/// the background, then the foreground.
pub open spec fn style_codes(st: Style) -> Seq<Seq<char>> {
    (if st.bold {
        seq![seq!['1']]
    } else {
        Seq::empty()
    }) + (match st.bg {
        Some(c) => seq![seq!['4', colour_digit(c)]],
        None => Seq::empty(),
    }) + (match st.fg {
        Some(c) => seq![seq!['3', colour_digit(c)]],
        None => Seq::empty(),
    })
}

/// `parts` written one after the other with `sep` between them.
pub open spec fn join(parts: Seq<Seq<char>>, sep: char) -> Seq<char>
    decreases parts.len(),
{
    if parts.len() == 0 {
        Seq::empty()
    } else if parts.len() == 1 {
        parts[0]
    } else {
        join(parts.drop_last(), sep).push(sep) + parts.last()
    }
}

/// `text` painted in `st`: where the style sets anything, the text stands
/// between the escape sequence that sets it and the one that resets all
/// styles; a plain style leaves the text as it is.
pub open spec fn painted(text: Seq<char>, st: Style) -> Seq<char> {
    let codes = style_codes(st);
    if codes.len() == 0 {
        text
    } else {
        seq!['\u{1b}', '['] + join(codes, ';') + seq!['m'] + text + seq!['\u{1b}', '[', '0', 'm']
    }
}

/// Relies on `ansi_term::Style::paint` and its `Display`: a style's prefix
/// is `ESC [`, its codes joined by `;` (bold `1`, then the background `4x`,
/// then the foreground `3x`) and `m`; its suffix is `ESC [0m`; a plain style
/// writes neither.
#[verifier::external_body]
pub(crate) fn paint(text: &str, st: Style) -> (r: String)
    ensures
        r@ == painted(text@, st),
{
    let ansi = [Ansi::Black, Ansi::Red, Ansi::Green, Ansi::Yellow, Ansi::Blue, Ansi::Purple, Ansi::Cyan, Ansi::White];
    let mut style = ansi_term::Style::default();
    style.foreground = st.fg.map(|c| ansi[c as usize]);
    style.background = st.bg.map(|c| ansi[c as usize]);
    style.is_bold = st.bold;
    style.paint(text).to_string()
}

} // verus!
