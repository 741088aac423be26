//! Terminal colours for names.

use vstd::prelude::*;
use vstd::string::StringExecFns;

verus! {

/// The colours a name can be shown in.
#[derive(Clone, Copy, Debug, PartialEq, Eq, Structural)]
pub enum Color {
    Normal,
    BlackFg,
    RedFg,
    GreenFg,
    YellowFgBold,
    BlueFgBold,
    PurpleFg,
    CyanFgBold,
}

/// The escape sequence that ends a colour.
pub const RESET: &'static str = "\x1B[0m";

/// The escape sequence that starts `color`; nothing for `Normal`.
pub open spec fn color_start(color: Color) -> Seq<char> {
    match color {
        Color::Normal => Seq::empty(),
        Color::BlackFg => "\x1B[0;30m"@,
        Color::RedFg => "\x1B[0;31m"@,
        Color::GreenFg => "\x1B[0;32m"@,
        Color::YellowFgBold => "\x1B[1;33m"@,
        Color::BlueFgBold => "\x1B[1;34m"@,
        Color::PurpleFg => "\x1B[0;35m"@,
        Color::CyanFgBold => "\x1B[1;36m"@,
    }
}

/// `text` in `color`: between the colour's escape sequence and the reset
/// sequence, and bare for `Normal`.
pub open spec fn painted(text: Seq<char>, color: Color) -> Seq<char> {
    if color == Color::Normal {
        text
    } else {
        color_start(color) + text + RESET@
    }
}

/// Wraps `text` in the escape sequences for `color`. `Normal` text comes
/// back as it is.
pub fn paint(text: String, color: Color) -> (result: String)
    ensures
        result@ == painted(text@, color),
{
    let start = match color {
        Color::Normal => {
            return text;
        },
        Color::BlackFg => "\x1B[0;30m",
        Color::RedFg => "\x1B[0;31m",
        Color::GreenFg => "\x1B[0;32m",
        Color::YellowFgBold => "\x1B[1;33m",
        Color::BlueFgBold => "\x1B[1;34m",
        Color::PurpleFg => "\x1B[0;35m",
        Color::CyanFgBold => "\x1B[1;36m",
    };
    String::from_str(start).concat(text.as_str()).concat(RESET)
}

} // verus!
