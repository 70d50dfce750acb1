//! Escape sequences for coloured terminal text.

use vstd::prelude::*;
use vstd::string::*;

use crate::decimal::{digit_char, digit_str};

verus! {

/// The eight standard terminal colours and the terminal's default colour.
#[derive(Debug, Clone, Copy, PartialEq, Eq, Structural)]
pub enum AnsiColor {
    Black,
    Red,
    Green,
    Yellow,
    Blue,
    Magenta,
    Cyan,
    White,
    Default,
}

/// Text attributes; each, but `Reset`, is the prefix of a colour sequence.
#[derive(Debug, Clone, Copy, PartialEq, Eq, Structural)]
pub enum AnsiStyle {
    Reset,
    RegText,
    BoldText,
    UnderlineText,
    HighIntensityText,
    BoldHighIntensityText,
    UnderlineHighIntensityText,
}

/// The SGR colour number of a colour (`Default` is 9).
pub open spec fn color_number(c: AnsiColor) -> nat {
    match c {
        AnsiColor::Black => 0,
        AnsiColor::Red => 1,
        AnsiColor::Green => 2,
        AnsiColor::Yellow => 3,
        AnsiColor::Blue => 4,
        AnsiColor::Magenta => 5,
        AnsiColor::Cyan => 6,
        AnsiColor::White => 7,
        AnsiColor::Default => 9,
    }
}

/// The escape text that a style stands for.
pub open spec fn style_code(s: AnsiStyle) -> Seq<char> {
    match s {
        AnsiStyle::Reset => seq!['\x1b', '[', '0', 'm'],
        AnsiStyle::RegText => seq!['\x1b', '[', '0', ';', '3'],
        AnsiStyle::BoldText => seq!['\x1b', '[', '1', ';', '3'],
        AnsiStyle::UnderlineText => seq!['\x1b', '[', '4', ';', '3'],
        AnsiStyle::HighIntensityText => seq!['\x1b', '[', '0', ';', '9'],
        AnsiStyle::BoldHighIntensityText => seq!['\x1b', '[', '1', ';', '9'],
        AnsiStyle::UnderlineHighIntensityText => seq!['\x1b', '[', '4', ';', '9'],
    }
}

/// The full sequence that `ansi` emits for a style and a colour.
pub open spec fn ansi_sequence(s: AnsiStyle, c: AnsiColor) -> Seq<char> {
    if s == AnsiStyle::Reset {
        style_code(s)
    } else {
        seq!['\x1b', '['] + style_code(s) + seq![digit_char(color_number(c))] + seq!['m']
    }
}

impl AnsiStyle {
    pub fn to_code(&self) -> (r: &'static str)
        ensures
            r@ == style_code(*self),
    {
        match self {
            AnsiStyle::Reset => {
                proof { reveal_strlit("\x1b[0m"); }
                "\x1b[0m"
            },
            AnsiStyle::RegText => {
                proof { reveal_strlit("\x1b[0;3"); }
                "\x1b[0;3"
            },
            AnsiStyle::BoldText => {
                proof { reveal_strlit("\x1b[1;3"); }
                "\x1b[1;3"
            },
            AnsiStyle::UnderlineText => {
                proof { reveal_strlit("\x1b[4;3"); }
                "\x1b[4;3"
            },
            AnsiStyle::HighIntensityText => {
                proof { reveal_strlit("\x1b[0;9"); }
                "\x1b[0;9"
            },
            AnsiStyle::BoldHighIntensityText => {
                proof { reveal_strlit("\x1b[1;9"); }
                "\x1b[1;9"
            },
            AnsiStyle::UnderlineHighIntensityText => {
                proof { reveal_strlit("\x1b[4;9"); }
                "\x1b[4;9"
            },
        }
    }
}

impl AnsiColor {
    /// The colour number in decimal.
    pub fn to_code(&self) -> (r: String)
        ensures
            r@ == seq![digit_char(color_number(*self))],
    {
        let n: u32 = match self {
            AnsiColor::Black => 0,
            AnsiColor::Red => 1,
            AnsiColor::Green => 2,
            AnsiColor::Yellow => 3,
            AnsiColor::Blue => 4,
            AnsiColor::Magenta => 5,
            AnsiColor::Cyan => 6,
            AnsiColor::White => 7,
            AnsiColor::Default => 9,
        };
        String::from_str(digit_str(n))
    }
}

/// The escape sequence that switches to `style` in `color`; for `Reset`, the
/// reset sequence alone.
pub fn ansi(style: AnsiStyle, color: AnsiColor) -> (r: String)
    ensures
        r@ == ansi_sequence(style, color),
{
    match style {
        AnsiStyle::Reset => String::from_str(style.to_code()),
        _ => {
            proof { reveal_strlit("\x1b["); reveal_strlit("m"); }
            let mut out = String::from_str("\x1b[");
            out.append(style.to_code());
            let digits = color.to_code();
            out.append(digits.as_str());
            out.append("m");
            out
        },
    }
}

/// `text` wrapped between the sequence for `text_style` and `color` and a reset.
pub fn style(text_style: AnsiStyle, color: AnsiColor, text: &str) -> (r: String)
    ensures
        r@ == ansi_sequence(text_style, color) + text@ + ansi_sequence(
            AnsiStyle::Reset,
            AnsiColor::Default,
        ),
{
    let mut out = ansi(text_style, color);
    out.append(text);
    let reset = ansi(AnsiStyle::Reset, AnsiColor::Default);
    out.append(reset.as_str());
    out
}

} // verus!
