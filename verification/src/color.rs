use vstd::prelude::*;

verus! {

/// One slot's worth of pigment. `Transparent` is the sentinel that marks an
/// unoccupied slot; it is never a unit of liquid in its own right.
#[derive(Copy, Clone, PartialEq, Eq, Structural, Debug)]
pub enum Color {
    Red,
    Green,
    Yellow,
    Blue,
    Pink,
    Cyan,
    White,
    Transparent,
}

/// The terminal escape sequence that paints a unit of pigment `c`;
/// `Transparent` paints nothing at all.
pub open spec fn color_code(c: Color) -> Seq<char> {
    match c {
        Color::Red => "\x1b[41m"@,
        Color::Green => "\x1b[42m"@,
        Color::Yellow => "\x1b[43m"@,
        Color::Blue => "\x1b[44m"@,
        Color::Pink => "\x1b[45m"@,
        Color::Cyan => "\x1b[46m"@,
        Color::White => "\x1b[47m"@,
        Color::Transparent => ""@,
    }
}

/// The escape sequence that restores the terminal's default attributes.
pub open spec fn reset_code() -> Seq<char> {
    "\x1b[0m"@
}

/// `n` blank spaces.
pub open spec fn spaces(n: int) -> Seq<char> {
    Seq::new(n as nat, |i: int| ' ')
}

impl Color {
    /// The escape sequence that switches the terminal background to this
    /// color, or the empty string for `Transparent`.
    pub fn value(&self) -> (r: &'static str)
        ensures
            r@ == color_code(*self),
    {
        match *self {
            Color::Red => "\x1b[41m",
            Color::Green => "\x1b[42m",
            Color::Yellow => "\x1b[43m",
            Color::Blue => "\x1b[44m",
            Color::Pink => "\x1b[45m",
            Color::Cyan => "\x1b[46m",
            Color::White => "\x1b[47m",
            Color::Transparent => "",
        }
    }
}

/// A run of `size` spaces painted on the background color `color`: the escape
/// sequence for `color`, the spaces, then the reset sequence. `Transparent`
/// yields the bare spaces with no escape sequences around them.
pub fn colored_space(color: Color, size: usize) -> (r: String)
    ensures
        color == Color::Transparent ==> r@ == spaces(size as int),
        color != Color::Transparent ==> r@ == color_code(color) + spaces(size as int) + reset_code(),
{
    let mut space = String::new();
    let mut i: usize = 0;
    while i < size
        invariant
            i <= size,
            space@ == spaces(i as int),
        decreases size - i,
    {
        space.append(" ");
        proof {
            reveal_strlit(" ");
            assert(space@ =~= spaces(i + 1 as int));
        }
        i = i + 1;
    }
    if matches!(color, Color::Transparent) {
        return space;
    }
    let mut color_string = String::new();
    color_string.append(color.value());
    color_string.append(space.as_str());
    color_string.append("\x1b[0m");
    proof {
        assert(color_string@ =~= color_code(color) + spaces(size as int) + reset_code());
    }
    color_string
}

} // verus!
