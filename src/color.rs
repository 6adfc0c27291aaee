use vstd::prelude::*;
use vstd::string::StringExecFns;

verus! {

/// The closed set of colors a unit of liquid can have.
#[derive(Debug, Clone, Copy, PartialEq, Eq, Structural, Hash)]
pub enum Color {
    Red,
    Green,
    Blue,
    LightBlue,
    LightGreen,
    Purple,
    Fusia,
    Grey,
    Orange,
    Yellow,
    Pink,
    Teal,
}

/// The two-letter display code of a color.
pub open spec fn code_of(c: Color) -> Seq<char> {
    match c {
        Color::Red => "RE"@,
        Color::Green => "GR"@,
        Color::Blue => "BL"@,
        Color::LightBlue => "LB"@,
        Color::LightGreen => "LG"@,
        Color::Purple => "PU"@,
        Color::Fusia => "FU"@,
        Color::Grey => "GY"@,
        Color::Orange => "OR"@,
        Color::Yellow => "YE"@,
        Color::Pink => "PI"@,
        Color::Teal => "TE"@,
    }
}

/// The position of a color in the fixed order of the twelve colors.
pub open spec fn color_index(c: Color) -> int {
    match c {
        Color::Red => 0,
        Color::Green => 1,
        Color::Blue => 2,
        Color::LightBlue => 3,
        Color::LightGreen => 4,
        Color::Purple => 5,
        Color::Fusia => 6,
        Color::Grey => 7,
        Color::Orange => 8,
        Color::Yellow => 9,
        Color::Pink => 10,
        Color::Teal => 11,
    }
}

/// How many colors there are.
pub const NUM_COLORS: usize = 12;

impl Color {
    /// The position of this color in the fixed order of colors.
    pub fn index(&self) -> (r: usize)
        ensures
            r == color_index(*self),
            r < NUM_COLORS,
    {
        match self {
            Color::Red => 0,
            Color::Green => 1,
            Color::Blue => 2,
            Color::LightBlue => 3,
            Color::LightGreen => 4,
            Color::Purple => 5,
            Color::Fusia => 6,
            Color::Grey => 7,
            Color::Orange => 8,
            Color::Yellow => 9,
            Color::Pink => 10,
            Color::Teal => 11,
        }
    }

    /// The color at position `k` of the fixed order of colors.
    pub fn from_index(k: usize) -> (r: Color)
        requires
            k < NUM_COLORS,
        ensures
            color_index(r) == k,
    {
        match k {
            0 => Color::Red,
            1 => Color::Green,
            2 => Color::Blue,
            3 => Color::LightBlue,
            4 => Color::LightGreen,
            5 => Color::Purple,
            6 => Color::Fusia,
            7 => Color::Grey,
            8 => Color::Orange,
            9 => Color::Yellow,
            10 => Color::Pink,
            _ => Color::Teal,
        }
    }

    /// The two-letter display code of this color.
    pub fn code(&self) -> (r: &'static str)
        ensures
            r@ == code_of(*self),
    {
        match self {
            Color::Red => "RE",
            Color::Green => "GR",
            Color::Blue => "BL",
            Color::LightBlue => "LB",
            Color::LightGreen => "LG",
            Color::Purple => "PU",
            Color::Fusia => "FU",
            Color::Grey => "GY",
            Color::Orange => "OR",
            Color::Yellow => "YE",
            Color::Pink => "PI",
            Color::Teal => "TE",
        }
    }
}

/// A maximal run of units of one color: the atom moved by a pour.
#[derive(Debug, Clone, Copy, PartialEq, Eq, Structural)]
pub struct ColorBox {
    pub color: Color,
    pub count: u32,
}

/// One line of a dumped segment: the color code between bars.
pub open spec fn dump_line(c: Color) -> Seq<char> {
    "|"@ + code_of(c) + "|\n"@
}

/// `n` dumped lines of color `c`, one per unit.
pub open spec fn dump_of(c: Color, n: nat) -> Seq<char>
    decreases n,
{
    if n == 0 {
        Seq::empty()
    } else {
        dump_of(c, (n - 1) as nat) + dump_line(c)
    }
}

impl ColorBox {
    pub fn new(c: Color, i: u32) -> (r: ColorBox)
        ensures
            r == (ColorBox { color: c, count: i }),
    {
        ColorBox { color: c, count: i }
    }

    /// Renders the segment one unit per line, as `|XX|` with the color code.
    pub fn dump(&self) -> (r: String)
        ensures
            r@ == dump_of(self.color, self.count as nat),
    {
        let code = self.color.code();
        let mut s = String::new();
        let mut i: u32 = 0;
        while i < self.count
            invariant
                i <= self.count,
                code@ == code_of(self.color),
                s@ == dump_of(self.color, i as nat),
            decreases self.count - i,
        {
            s.append("|");
            s.append(code);
            s.append("|\n");
            proof {
                assert(s@ =~= dump_of(self.color, (i + 1) as nat));
            }
            i = i + 1;
        }
        s
    }
}

} // verus!
