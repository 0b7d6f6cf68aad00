use vstd::prelude::*;
use vstd::string::StringExecFns;

verus! {

/// The eight-colour terminal palette, without black.
#[derive(Clone, Copy, Debug, PartialEq, Eq, Structural)]
pub enum Color {
    Red,
    Green,
    Yellow,
    Blue,
    Magenta,
    Cyan,
    White,
}

impl Color {
    /// The second digit of the colour's SGR foreground code; the first is always `3`.
    pub open spec fn digit(self) -> char {
        match self {
            Color::Red => '1',
            Color::Green => '2',
            Color::Yellow => '3',
            Color::Blue => '4',
            Color::Magenta => '5',
            Color::Cyan => '6',
            Color::White => '7',
        }
    }
}

/// The escape sequence that switches the foreground to `color`: `ESC [ 3 d m`.
pub open spec fn sgr_prefix(color: Color) -> Seq<char> {
    seq!['\x1b', '[', '3', color.digit(), 'm']
}

/// The escape sequence that resets all attributes: `ESC [ 0 m`.
pub open spec fn sgr_reset() -> Seq<char> {
    seq!['\x1b', '[', '0', 'm']
}

/// Wraps `text` in the escape sequences that print it in `color` and then reset the terminal.
pub fn colorize(text: &str, color: Color) -> (painted: String)
    ensures
        painted@ == sgr_prefix(color) + text@ + sgr_reset(),
{
    let code = match color {
        Color::Red => "31",
        Color::Green => "32",
        Color::Yellow => "33",
        Color::Blue => "34",
        Color::Magenta => "35",
        Color::Cyan => "36",
        Color::White => "37",
    };
    proof {
        reveal_strlit("\x1b[");
        reveal_strlit("31");
        reveal_strlit("32");
        reveal_strlit("33");
        reveal_strlit("34");
        reveal_strlit("35");
        reveal_strlit("36");
        reveal_strlit("37");
        reveal_strlit("m");
        reveal_strlit("\x1b[0m");
    }
    let mut painted = String::from_str("\x1b[");
    painted.append(code);
    painted.append("m");
    painted.append(text);
    painted.append("\x1b[0m");
    assert(painted@ =~= sgr_prefix(color) + text@ + sgr_reset());
    painted
}

} // verus!
