//! Table presentation helpers: display widths, padding and alignment, and
//! ANSI colouring of the report lines.

use vstd::prelude::*;

use crate::text::{push_char, push_decimal, spec_decimal};

verus! {

/// Text effect selector for ANSI escape sequences.
pub enum Effect {
    Default,
    Bold,
    Dark,
    Inverse,
    Underline,
    Blink,
    Hidden,
}

impl Effect {
    /// The ANSI code this effect is selected by.
    pub open spec fn spec_code(self) -> int {
        match self {
            Effect::Default => 0,
            Effect::Bold => 1,
            Effect::Dark => 2,
            Effect::Inverse => 3,
            Effect::Underline => 4,
            Effect::Blink => 5,
            Effect::Hidden => 8,
        }
    }

    /// The ANSI code this effect is selected by.
    pub fn code(&self) -> (r: u8)
        ensures
            r == self.spec_code(),
    {
        match self {
            Effect::Default => 0,
            Effect::Bold => 1,
            Effect::Dark => 2,
            Effect::Inverse => 3,
            Effect::Underline => 4,
            Effect::Blink => 5,
            Effect::Hidden => 8,
        }
    }
}

/// Foreground colour selector for ANSI escape sequences.
pub enum Color {
    Black,
    Red,
    Green,
    Yellow,
    Blue,
    Magenta,
    Cyan,
    White,
    Grey,
    BrightRed,
    BrightGreen,
    BrightYellow,
    BrightBlue,
    BrightMagenta,
    BrightCyan,
    BrightWhite,
    Default,
}

impl Color {
    /// The ANSI code this colour is selected by.
    pub open spec fn spec_code(self) -> int {
        match self {
            Color::Black => 30,
            Color::Red => 31,
            Color::Green => 32,
            Color::Yellow => 33,
            Color::Blue => 34,
            Color::Magenta => 35,
            Color::Cyan => 36,
            Color::White => 37,
            Color::Grey => 90,
            Color::BrightRed => 91,
            Color::BrightGreen => 92,
            Color::BrightYellow => 93,
            Color::BrightBlue => 94,
            Color::BrightMagenta => 95,
            Color::BrightCyan => 96,
            Color::BrightWhite => 97,
            Color::Default => 99,
        }
    }

    /// The ANSI code this colour is selected by.
    pub fn code(&self) -> (r: u8)
        ensures
            r == self.spec_code(),
    {
        match self {
            Color::Black => 30,
            Color::Red => 31,
            Color::Green => 32,
            Color::Yellow => 33,
            Color::Blue => 34,
            Color::Magenta => 35,
            Color::Cyan => 36,
            Color::White => 37,
            Color::Grey => 90,
            Color::BrightRed => 91,
            Color::BrightGreen => 92,
            Color::BrightYellow => 93,
            Color::BrightBlue => 94,
            Color::BrightMagenta => 95,
            Color::BrightCyan => 96,
            Color::BrightWhite => 97,
            Color::Default => 99,
        }
    }
}

/// `arg` wrapped in the ANSI escape sequence selecting `effect` and `color`,
/// followed by the reset sequence.
pub open spec fn spec_color_me(arg: Seq<char>, color: Color, effect: Effect) -> Seq<char> {
    seq!['\x1b', '['] + spec_decimal(effect.spec_code()) + seq![';'] + spec_decimal(
        color.spec_code(),
    ) + seq!['m'] + arg + seq!['\x1b', '[', '0', 'm']
}

/// Wraps `arg` in the ANSI escape sequence for `color` and `effect`.
pub fn color_me(arg: &str, color: Color, effect: Effect) -> (r: String)
    ensures
        r@ == spec_color_me(arg@, color, effect),
{
    let mut s = String::new();
    push_char(&mut s, '\x1b');
    push_char(&mut s, '[');
    push_decimal(&mut s, effect.code() as u64);
    push_char(&mut s, ';');
    push_decimal(&mut s, color.code() as u64);
    push_char(&mut s, 'm');
    s.append(arg);
    push_char(&mut s, '\x1b');
    push_char(&mut s, '[');
    push_char(&mut s, '0');
    push_char(&mut s, 'm');
    assert(s@ =~= spec_color_me(arg@, color, effect));
    s
}

/// Wraps `arg` in the title style: bright green, underlined.
pub fn title(arg: &str) -> (r: String)
    ensures
        r@ == spec_color_me(arg@, Color::BrightGreen, Effect::Underline),
{
    color_me(arg, Color::BrightGreen, Effect::Underline)
}

/// Wraps `arg` in the information style: bright cyan.
pub fn info(arg: &str) -> (r: String)
    ensures
        r@ == spec_color_me(arg@, Color::BrightCyan, Effect::Default),
{
    color_me(arg, Color::BrightCyan, Effect::Default)
}

/// Wraps `arg` in the note style: magenta.
pub fn note(arg: &str) -> (r: String)
    ensures
        r@ == spec_color_me(arg@, Color::Magenta, Effect::Default),
{
    color_me(arg, Color::Magenta, Effect::Default)
}

/// Wraps `arg` in the warning style: bold yellow.
pub fn warn(arg: &str) -> (r: String)
    ensures
        r@ == spec_color_me(arg@, Color::Yellow, Effect::Bold),
{
    color_me(arg, Color::Yellow, Effect::Bold)
}

/// Wraps `arg` in the error style: bold red.
pub fn error(arg: &str) -> (r: String)
    ensures
        r@ == spec_color_me(arg@, Color::Red, Effect::Bold),
{
    color_me(arg, Color::Red, Effect::Bold)
}

/// Wraps `arg` in the emphasis style: bold, default colour.
pub fn strong(arg: &str) -> (r: String)
    ensures
        r@ == spec_color_me(arg@, Color::Default, Effect::Bold),
{
    color_me(arg, Color::Default, Effect::Bold)
}

/// `width` copies of `chr`.
pub open spec fn spec_repeat(chr: char, width: int) -> Seq<char> {
    Seq::new(width as nat, |i: int| chr)
}

/// A string of `width` copies of `chr`.
pub fn fill_char(chr: char, width: usize) -> (r: String)
    ensures
        r@ == spec_repeat(chr, width as int),
{
    let mut s = String::new();
    let mut i: usize = 0;
    while i < width
        invariant
            i <= width,
            s@ =~= spec_repeat(chr, i as int),
        decreases width - i,
    {
        push_char(&mut s, chr);
        i = i + 1;
        assert(s@ =~= spec_repeat(chr, i as int));
    }
    s
}

/// A string of `width` spaces.
pub fn spaces(width: usize) -> (r: String)
    ensures
        r@ == spec_repeat(' ', width as int),
{
    fill_char(' ', width)
}

/// The number of terminal columns one character takes: two for the wide CJK
/// and related ranges, one otherwise.
pub open spec fn char_display_width(c: char) -> int {
    if c as u32 > 0x2e80 {
        2
    } else {
        1
    }
}

/// The number of terminal columns a string takes.
pub open spec fn spec_display_width(s: Seq<char>) -> int
    decreases s.len(),
{
    if s.len() == 0 {
        0
    } else {
        spec_display_width(s.drop_last()) + char_display_width(s.last())
    }
}

/// The display width never exceeds twice the character count.
pub proof fn lemma_display_width_bound(s: Seq<char>)
    ensures
        0 <= spec_display_width(s) <= 2 * s.len(),
    decreases s.len(),
{
    if s.len() > 0 {
        lemma_display_width_bound(s.drop_last());
    }
}

/// The number of terminal columns `s` takes.
pub fn display_width(s: &String) -> (r: usize)
    requires
        2 * s@.len() <= usize::MAX,
    ensures
        r == spec_display_width(s@),
{
    let st: &str = s.as_str();
    let n = st.unicode_len();
    let mut i: usize = 0;
    let mut w: usize = 0;
    proof {
        lemma_display_width_bound(s@);
    }
    while i < n
        invariant
            i <= n,
            n == s@.len(),
            st@ == s@,
            2 * s@.len() <= usize::MAX,
            w == spec_display_width(s@.take(i as int)),
        decreases n - i,
    {
        let c = st.get_char(i);
        proof {
            lemma_display_width_bound(s@.take(i as int + 1));
            assert(s@.take(i as int + 1).drop_last() =~= s@.take(i as int));
            assert(s@.take(i as int + 1).last() == s@[i as int]);
        }
        if c as u32 > 0x2e80 {
            w = w + 2;
        } else {
            w = w + 1;
        }
        i = i + 1;
    }
    proof {
        assert(s@.take(n as int) =~= s@);
    }
    w
}

/// `s` padded with trailing spaces up to display width `width`; unchanged if
/// it is already at least that wide.
pub open spec fn spec_left_justify(s: Seq<char>, width: int) -> Seq<char> {
    if spec_display_width(s) < width {
        s + spec_repeat(' ', width - spec_display_width(s))
    } else {
        s
    }
}

/// `s` padded with leading spaces up to display width `width`; unchanged if
/// it is already at least that wide.
pub open spec fn spec_right_justify(s: Seq<char>, width: int) -> Seq<char> {
    if spec_display_width(s) < width {
        spec_repeat(' ', width - spec_display_width(s)) + s
    } else {
        s
    }
}

/// `s` centred to display width `width`: half the padding before, half after,
/// the odd column going after.
pub open spec fn spec_center_justify(s: Seq<char>, width: int) -> Seq<char> {
    if spec_display_width(s) < width {
        let fill = width - spec_display_width(s);
        spec_repeat(' ', fill / 2) + s + spec_repeat(' ', fill - fill / 2)
    } else {
        s
    }
}

/// Pads `s` with trailing spaces to display width `width`.
pub fn left_justify(s: &str, width: usize) -> (r: String)
    requires
        2 * s@.len() <= usize::MAX,
    ensures
        r@ == spec_left_justify(s@, width as int),
{
    let mut string = s.to_owned();
    let d_width = display_width(&string);
    if d_width < width {
        let n_fill = width - d_width;
        let pad = spaces(n_fill);
        string.append(pad.as_str());
    }
    string
}

/// Pads `s` with leading spaces to display width `width`.
pub fn right_justify(s: &str, width: usize) -> (r: String)
    requires
        2 * s@.len() <= usize::MAX,
    ensures
        r@ == spec_right_justify(s@, width as int),
{
    let owned = s.to_owned();
    let d_width = display_width(&owned);
    if d_width < width {
        let n_fill = width - d_width;
        let mut string = spaces(n_fill);
        string.append(s);
        string
    } else {
        owned
    }
}

/// Centres `s` to display width `width`, the odd padding column trailing.
pub fn center_justify(s: &str, width: usize) -> (r: String)
    requires
        2 * s@.len() <= usize::MAX,
    ensures
        r@ == spec_center_justify(s@, width as int),
{
    let owned = s.to_owned();
    let d_width = display_width(&owned);
    if d_width < width {
        let n_fill = width - d_width;
        let mut string = spaces(n_fill / 2);
        string.append(s);
        let tail = spaces(n_fill - n_fill / 2);
        string.append(tail.as_str());
        string
    } else {
        owned
    }
}

} // verus!
