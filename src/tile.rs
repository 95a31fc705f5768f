//! The tile domain: four colors, ranks 1 to 13, and jokers.

use vstd::prelude::*;

verus! {

/// The color of a tile.
#[derive(PartialEq, Eq, Structural, Hash, Clone, Copy, Debug)]
pub enum TileColor {
    Black,
    Blue,
    Red,
    Yellow,
}

/// The small integer code of each color, from 1 to 4.
pub open spec fn color_code(c: TileColor) -> int {
    match c {
        TileColor::Black => 1,
        TileColor::Blue => 2,
        TileColor::Red => 3,
        TileColor::Yellow => 4,
    }
}

impl TileColor {
    /// The color with the code `value`; a code outside 1 to 4 is a caller's
    /// mistake and is excluded by the precondition.
    pub fn from_u8(value: u8) -> (r: TileColor)
        requires
            1 <= value <= 4,
        ensures
            color_code(r) == value,
    {
        match value {
            1 => TileColor::Black,
            2 => TileColor::Blue,
            3 => TileColor::Red,
            _ => TileColor::Yellow,
        }
    }
}


impl TileColor {
    /// The display name of the color, as in `"Red"`.
    pub fn name(&self) -> (r: String)
        ensures
            r@ == color_name(*self),
    {
        match self {
            TileColor::Black => String::from_str("Black"),
            TileColor::Blue => String::from_str("Blue"),
            TileColor::Red => String::from_str("Red"),
            TileColor::Yellow => String::from_str("Yellow"),
        }
    }
}

/// The display name of a color.
pub open spec fn color_name(c: TileColor) -> Seq<char> {
    match c {
        TileColor::Black => "Black"@,
        TileColor::Blue => "Blue"@,
        TileColor::Red => "Red"@,
        TileColor::Yellow => "Yellow"@,
    }
}

/// The lowest rank of a numbered tile.
pub const MIN_RANK: u8 = 1;

/// The highest rank of a numbered tile.
pub const MAX_RANK: u8 = 13;

/// One tile. A numbered tile has a color and a rank from 1 to 13; a joker
/// carries a color for its look only, and its `number` is 0.
#[derive(PartialEq, Eq, Structural, Hash, Clone, Copy, Debug)]
pub struct Tile {
    pub color: TileColor,
    pub number: u8,
    pub joker: bool,
}

impl Tile {
    /// A tile is well formed when it is a joker with number 0 or a numbered
    /// tile with a rank from 1 to 13.
    pub open spec fn wf(&self) -> bool {
        if self.joker {
            self.number == 0
        } else {
            MIN_RANK <= self.number <= MAX_RANK
        }
    }

    /// The numbered tile of this color and rank.
    pub fn new(color: TileColor, number: u8) -> (r: Tile)
        requires
            MIN_RANK <= number <= MAX_RANK,
        ensures
            r == (Tile { color, number, joker: false }),
            r.wf(),
    {
        Tile { color, number, joker: false }
    }

    /// The joker with this color skin.
    pub fn new_joker(color: TileColor) -> (r: Tile)
        ensures
            r == (Tile { color, number: 0, joker: true }),
            r.wf(),
    {
        Tile { color, number: 0, joker: true }
    }

    /// The text of the tile: `"<Color> <Rank>"`, or `"Joker"`.
    pub fn text(&self) -> (r: String)
        ensures
            r@ == tile_text(*self),
    {
        if self.joker {
            String::from_str("Joker")
        } else {
            let mut r = self.color.name();
            r.append(" ");
            append_decimal(&mut r, self.number);
            r
        }
    }
}

/// The character of a decimal digit.
pub open spec fn digit_char(d: int) -> char {
    if d == 0 { '0' }
    else if d == 1 { '1' }
    else if d == 2 { '2' }
    else if d == 3 { '3' }
    else if d == 4 { '4' }
    else if d == 5 { '5' }
    else if d == 6 { '6' }
    else if d == 7 { '7' }
    else if d == 8 { '8' }
    else { '9' }
}

/// The decimal digits of `n`, most significant first, without leading zeros.
pub open spec fn decimal(n: nat) -> Seq<char>
    decreases n,
{
    if n < 10 {
        seq![digit_char(n as int)]
    } else {
        decimal(n / 10) + seq![digit_char((n % 10) as int)]
    }
}

/// The text of one tile.
pub open spec fn tile_text(t: Tile) -> Seq<char> {
    if t.joker {
        "Joker"@
    } else {
        color_name(t.color) + " "@ + decimal(t.number as nat)
    }
}

/// The one-character text of the digit `d`.
fn digit_str(d: u8) -> (r: &'static str)
    requires
        d < 10,
    ensures
        r@ == seq![digit_char(d as int)],
{
    proof {
        reveal_strlit("0");
        reveal_strlit("1");
        reveal_strlit("2");
        reveal_strlit("3");
        reveal_strlit("4");
        reveal_strlit("5");
        reveal_strlit("6");
        reveal_strlit("7");
        reveal_strlit("8");
        reveal_strlit("9");
    }
    let r = match d {
        0 => "0",
        1 => "1",
        2 => "2",
        3 => "3",
        4 => "4",
        5 => "5",
        6 => "6",
        7 => "7",
        8 => "8",
        _ => "9",
    };
    assert(r@ =~= seq![digit_char(d as int)]);
    r
}

/// Appends the decimal digits of `n` to `s`.
pub fn append_decimal(s: &mut String, n: u8)
    ensures
        final(s)@ == old(s)@ + decimal(n as nat),
{
    if n < 10 {
        s.append(digit_str(n));
        assert(decimal(n as nat) == seq![digit_char(n as int)]);
    } else if n < 100 {
        s.append(digit_str(n / 10));
        s.append(digit_str(n % 10));
        assert(decimal((n / 10) as nat) == seq![digit_char((n / 10) as int)]);
        assert(s@ =~= old(s)@ + decimal(n as nat));
    } else {
        s.append(digit_str(n / 100));
        s.append(digit_str((n / 10) % 10));
        s.append(digit_str(n % 10));
        assert(decimal((n / 100) as nat) == seq![digit_char((n / 100) as int)]);
        assert(((n / 10) / 10) == n / 100);
        assert(decimal((n / 10) as nat) == decimal((n / 100) as nat) + seq![digit_char(((n / 10) % 10) as int)]);
        assert(s@ =~= old(s)@ + decimal(n as nat));
    }
}

} // verus!
