//! ANSI colouring helpers: effect and colour selectors with per-variant
//! convenience constructors.

use vstd::prelude::*;

use crate::text::{push_char, push_decimal, spec_decimal};

verus! {

/// Text effect selector for ANSI escape sequences.
pub enum Effect {
    Default,
    Bold,
    Dark,
    Inverse,
    Underline,
    Blink,
    Hidden,
}

/// Foreground colour selector for ANSI escape sequences.
pub enum Color {
    Black,
    Red,
    Green,
    Yellow,
    Blue,
    Magenta,
    Cyan,
    White,
    Grey,
    BrightRed,
    BrightGreen,
    BrightYellow,
    BrightBlue,
    BrightMagenta,
    BrightCyan,
    BrightWhite,
    Default,
}

impl Effect {
    /// The ANSI code this effect is selected by.
    pub open spec fn spec_code(self) -> int {
        match self {
            Effect::Default => 0,
            Effect::Bold => 1,
            Effect::Dark => 2,
            Effect::Inverse => 3,
            Effect::Underline => 4,
            Effect::Blink => 5,
            Effect::Hidden => 8,
        }
    }

    /// The ANSI code this effect is selected by.
    pub fn code(&self) -> (r: u8)
        ensures
            r == self.spec_code(),
    {
        match self {
            Effect::Default => 0,
            Effect::Bold => 1,
            Effect::Dark => 2,
            Effect::Inverse => 3,
            Effect::Underline => 4,
            Effect::Blink => 5,
            Effect::Hidden => 8,
        }
    }

    /// Wraps `arg` in bold of the given colour.
    pub fn bold(arg: &str, color: Color) -> (r: String)
        ensures
            r@ == spec_color_me(arg@, color, Effect::Bold),
    {
        color_me(arg, color, Effect::Bold)
    }

    /// Wraps `arg` in the dark effect of the given colour.
    pub fn dark(arg: &str, color: Color) -> (r: String)
        ensures
            r@ == spec_color_me(arg@, color, Effect::Dark),
    {
        color_me(arg, color, Effect::Dark)
    }

    /// Wraps `arg` in the inverse effect of the given colour.
    pub fn inverse(arg: &str, color: Color) -> (r: String)
        ensures
            r@ == spec_color_me(arg@, color, Effect::Inverse),
    {
        color_me(arg, color, Effect::Inverse)
    }

    /// Wraps `arg` underlined in the given colour.
    pub fn underline(arg: &str, color: Color) -> (r: String)
        ensures
            r@ == spec_color_me(arg@, color, Effect::Underline),
    {
        color_me(arg, color, Effect::Underline)
    }

    /// Wraps `arg` blinking in the given colour.
    pub fn blink(arg: &str, color: Color) -> (r: String)
        ensures
            r@ == spec_color_me(arg@, color, Effect::Blink),
    {
        color_me(arg, color, Effect::Blink)
    }

    /// Wraps `arg` hidden in the given colour.
    pub fn hidden(arg: &str, color: Color) -> (r: String)
        ensures
            r@ == spec_color_me(arg@, color, Effect::Hidden),
    {
        color_me(arg, color, Effect::Hidden)
    }
}

impl Color {
    /// The ANSI code this colour is selected by.
    pub open spec fn spec_code(self) -> int {
        match self {
            Color::Black => 30,
            Color::Red => 31,
            Color::Green => 32,
            Color::Yellow => 33,
            Color::Blue => 34,
            Color::Magenta => 35,
            Color::Cyan => 36,
            Color::White => 37,
            Color::Grey => 90,
            Color::BrightRed => 91,
            Color::BrightGreen => 92,
            Color::BrightYellow => 93,
            Color::BrightBlue => 94,
            Color::BrightMagenta => 95,
            Color::BrightCyan => 96,
            Color::BrightWhite => 97,
            Color::Default => 99,
        }
    }

    /// The ANSI code this colour is selected by.
    pub fn code(&self) -> (r: u8)
        ensures
            r == self.spec_code(),
    {
        match self {
            Color::Black => 30,
            Color::Red => 31,
            Color::Green => 32,
            Color::Yellow => 33,
            Color::Blue => 34,
            Color::Magenta => 35,
            Color::Cyan => 36,
            Color::White => 37,
            Color::Grey => 90,
            Color::BrightRed => 91,
            Color::BrightGreen => 92,
            Color::BrightYellow => 93,
            Color::BrightBlue => 94,
            Color::BrightMagenta => 95,
            Color::BrightCyan => 96,
            Color::BrightWhite => 97,
            Color::Default => 99,
        }
    }

    /// Wraps `arg` in black with the given effect.
    pub fn black(arg: &str, effect: Effect) -> (r: String)
        ensures
            r@ == spec_color_me(arg@, Color::Black, effect),
    {
        color_me(arg, Color::Black, effect)
    }

    /// Wraps `arg` in red with the given effect.
    pub fn red(arg: &str, effect: Effect) -> (r: String)
        ensures
            r@ == spec_color_me(arg@, Color::Red, effect),
    {
        color_me(arg, Color::Red, effect)
    }

    /// Wraps `arg` in green with the given effect.
    pub fn green(arg: &str, effect: Effect) -> (r: String)
        ensures
            r@ == spec_color_me(arg@, Color::Green, effect),
    {
        color_me(arg, Color::Green, effect)
    }

    /// Wraps `arg` in yellow with the given effect.
    pub fn yellow(arg: &str, effect: Effect) -> (r: String)
        ensures
            r@ == spec_color_me(arg@, Color::Yellow, effect),
    {
        color_me(arg, Color::Yellow, effect)
    }

    /// Wraps `arg` in blue with the given effect.
    pub fn blue(arg: &str, effect: Effect) -> (r: String)
        ensures
            r@ == spec_color_me(arg@, Color::Blue, effect),
    {
        color_me(arg, Color::Blue, effect)
    }

    /// Wraps `arg` in magenta with the given effect.
    pub fn magenta(arg: &str, effect: Effect) -> (r: String)
        ensures
            r@ == spec_color_me(arg@, Color::Magenta, effect),
    {
        color_me(arg, Color::Magenta, effect)
    }

    /// Wraps `arg` in cyan with the given effect.
    pub fn cyan(arg: &str, effect: Effect) -> (r: String)
        ensures
            r@ == spec_color_me(arg@, Color::Cyan, effect),
    {
        color_me(arg, Color::Cyan, effect)
    }

    /// Wraps `arg` in white with the given effect.
    pub fn white(arg: &str, effect: Effect) -> (r: String)
        ensures
            r@ == spec_color_me(arg@, Color::White, effect),
    {
        color_me(arg, Color::White, effect)
    }

    /// Wraps `arg` in grey with the given effect.
    pub fn grey(arg: &str, effect: Effect) -> (r: String)
        ensures
            r@ == spec_color_me(arg@, Color::Grey, effect),
    {
        color_me(arg, Color::Grey, effect)
    }

    /// Wraps `arg` in bright red with the given effect.
    pub fn bright_red(arg: &str, effect: Effect) -> (r: String)
        ensures
            r@ == spec_color_me(arg@, Color::BrightRed, effect),
    {
        color_me(arg, Color::BrightRed, effect)
    }

    /// Wraps `arg` in bright green with the given effect.
    pub fn bright_green(arg: &str, effect: Effect) -> (r: String)
        ensures
            r@ == spec_color_me(arg@, Color::BrightGreen, effect),
    {
        color_me(arg, Color::BrightGreen, effect)
    }

    /// Wraps `arg` in bright yellow with the given effect.
    pub fn bright_yellow(arg: &str, effect: Effect) -> (r: String)
        ensures
            r@ == spec_color_me(arg@, Color::BrightYellow, effect),
    {
        color_me(arg, Color::BrightYellow, effect)
    }

    /// Wraps `arg` in bright blue with the given effect.
    pub fn bright_blue(arg: &str, effect: Effect) -> (r: String)
        ensures
            r@ == spec_color_me(arg@, Color::BrightBlue, effect),
    {
        color_me(arg, Color::BrightBlue, effect)
    }

    /// Wraps `arg` in bright magenta with the given effect.
    pub fn bright_magenta(arg: &str, effect: Effect) -> (r: String)
        ensures
            r@ == spec_color_me(arg@, Color::BrightMagenta, effect),
    {
        color_me(arg, Color::BrightMagenta, effect)
    }

    /// Wraps `arg` in bright cyan with the given effect.
    pub fn bright_cyan(arg: &str, effect: Effect) -> (r: String)
        ensures
            r@ == spec_color_me(arg@, Color::BrightCyan, effect),
    {
        color_me(arg, Color::BrightCyan, effect)
    }

    /// Wraps `arg` in bright white with the given effect.
    pub fn bright_white(arg: &str, effect: Effect) -> (r: String)
        ensures
            r@ == spec_color_me(arg@, Color::BrightWhite, effect),
    {
        color_me(arg, Color::BrightWhite, effect)
    }
}

/// `arg` wrapped in the ANSI escape sequence selecting `effect` and `color`,
/// followed by the reset sequence.
pub open spec fn spec_color_me(arg: Seq<char>, color: Color, effect: Effect) -> Seq<char> {
    seq!['\x1b', '['] + spec_decimal(effect.spec_code()) + seq![';'] + spec_decimal(
        color.spec_code(),
    ) + seq!['m'] + arg + seq!['\x1b', '[', '0', 'm']
}

/// Wraps `arg` in the ANSI escape sequence for `color` and `effect`.
pub fn color_me(arg: &str, color: Color, effect: Effect) -> (r: String)
    ensures
        r@ == spec_color_me(arg@, color, effect),
{
    let mut s = String::new();
    push_char(&mut s, '\x1b');
    push_char(&mut s, '[');
    push_decimal(&mut s, effect.code() as u64);
    push_char(&mut s, ';');
    push_decimal(&mut s, color.code() as u64);
    push_char(&mut s, 'm');
    s.append(arg);
    push_char(&mut s, '\x1b');
    push_char(&mut s, '[');
    push_char(&mut s, '0');
    push_char(&mut s, 'm');
    assert(s@ =~= spec_color_me(arg@, color, effect));
    s
}

/// Wraps `arg` in the title style: default colour, underlined.
pub fn title(arg: &str) -> (r: String)
    ensures
        r@ == spec_color_me(arg@, Color::Default, Effect::Underline),
{
    color_me(arg, Color::Default, Effect::Underline)
}

/// Wraps `arg` in the information style: bright blue.
pub fn info(arg: &str) -> (r: String)
    ensures
        r@ == spec_color_me(arg@, Color::BrightBlue, Effect::Default),
{
    color_me(arg, Color::BrightBlue, Effect::Default)
}

/// Wraps `arg` in the warning style: yellow.
pub fn warn(arg: &str) -> (r: String)
    ensures
        r@ == spec_color_me(arg@, Color::Yellow, Effect::Default),
{
    color_me(arg, Color::Yellow, Effect::Default)
}

/// Wraps `arg` in the error style: red.
pub fn err(arg: &str) -> (r: String)
    ensures
        r@ == spec_color_me(arg@, Color::Red, Effect::Default),
{
    color_me(arg, Color::Red, Effect::Default)
}

} // verus!
