use vstd::prelude::*;
use vstd::string::StringSliceAdditionalSpecFns;
use crate::outside::{ascii_chars, string_from_ascii};

verus! {

/// The two players. Black joins the top and bottom rows, White the left and
/// right columns.
#[derive(Copy, Clone, Debug, PartialEq, Eq, Structural, Hash)]
pub enum Color {
    Black,
    White,
}

pub open spec fn inverted(c: Color) -> Color {
    match c {
        Color::Black => Color::White,
        Color::White => Color::Black,
    }
}

impl Color {
    pub fn invert(&self) -> (r: Color)
        ensures
            r == inverted(*self),
            r != *self,
    {
        match self {
            Color::Black => Color::White,
            Color::White => Color::Black,
        }
    }

    /// Reads a colour token: its first character, in either case, is `b` or `w`.
    pub fn parse(s: &str) -> (r: Option<Color>)
        ensures
            r == color_of_bytes(s.spec_bytes()),
    {
        Color::parse_bytes(s.as_bytes())
    }

    /// Reads a colour token from its bytes.
    pub fn parse_bytes(b: &[u8]) -> (r: Option<Color>)
        ensures
            r == color_of_bytes(b@),
    {
        if b.len() == 0 {
            return None;
        }
        let c = b[0];
        if c == 98u8 || c == 66u8 {
            Some(Color::Black)
        } else if c == 119u8 || c == 87u8 {
            Some(Color::White)
        } else {
            None
        }
    }

    /// The one-letter token of the colour: `B` or `W`.
    pub fn to_text(&self) -> (r: &'static str)
        ensures
            r@ == color_text(*self),
    {
        proof {
            reveal_strlit("B");
            reveal_strlit("W");
        }
        match self {
            Color::Black => "B",
            Color::White => "W",
        }
    }
}

/// The colour a flag stands for: set means White.
pub open spec fn color_of_flag(v: bool) -> Color {
    if v {
        Color::White
    } else {
        Color::Black
    }
}

impl From<bool> for Color {
    fn from(v: bool) -> (r: Color)
        ensures
            r == color_of_flag(v),
    {
        if v {
            Color::White
        } else {
            Color::Black
        }
    }
}

impl vstd::std_specs::convert::FromSpecImpl<bool> for Color {
    open spec fn obeys_from_spec() -> bool {
        true
    }

    open spec fn from_spec(v: bool) -> Color {
        color_of_flag(v)
    }
}

impl From<Color> for bool {
    fn from(c: Color) -> (r: bool)
        ensures
            r == (c == Color::White),
    {
        match c {
            Color::White => true,
            Color::Black => false,
        }
    }
}

impl vstd::std_specs::convert::FromSpecImpl<Color> for bool {
    open spec fn obeys_from_spec() -> bool {
        true
    }

    open spec fn from_spec(c: Color) -> bool {
        c == Color::White
    }
}

pub open spec fn color_text(c: Color) -> Seq<char> {
    match c {
        Color::Black => seq!['B'],
        Color::White => seq!['W'],
    }
}

/// The colour named by a token's UTF-8 bytes: `b`/`B` or `w`/`W` first.
pub open spec fn color_of_bytes(s: Seq<u8>) -> Option<Color> {
    if s.len() == 0 {
        None
    } else if s[0] == 98 || s[0] == 66 {
        Some(Color::Black)
    } else if s[0] == 119 || s[0] == 87 {
        Some(Color::White)
    } else {
        None
    }
}

/// A coordinate on the board, or one step off it.
pub type Coord = i8;

/// A cell in axial coordinates: column `x`, row `y`.
#[derive(Copy, Clone, Debug, PartialEq, Eq, Structural, Hash)]
pub struct Pos {
    pub x: Coord,
    pub y: Coord,
}

/// A move: a stone of a colour at a cell, a pass, or a resignation.
#[derive(Copy, Clone, Debug, PartialEq, Eq, Structural, Hash)]
pub enum Move {
    Resign,
    Pass,
    Play { color: Color, pos: Pos },
}

/// The value of a column letter: `a`..`z` or `A`..`Z` give 0..25.
pub open spec fn letter_value(c: u8) -> Option<int> {
    if 97 <= c <= 122 {
        Some(c - 97)
    } else if 65 <= c <= 90 {
        Some(c - 65)
    } else {
        None
    }
}

pub open spec fn all_digits(s: Seq<u8>) -> bool {
    forall|i: int| 0 <= i < s.len() ==> 48 <= #[trigger] s[i] <= 57
}

/// The number written by a run of decimal digits.
pub open spec fn digits_value(s: Seq<u8>) -> int
    decreases s.len(),
{
    if s.len() == 0 {
        0
    } else {
        10 * digits_value(s.drop_last()) + (s.last() - 48)
    }
}

/// A signed 8-bit integer as `str::parse` reads it: an optional `+` or `-`,
/// then one or more digits, with a value in range.
pub open spec fn i8_of_bytes(s: Seq<u8>) -> Option<int> {
    let neg = s.len() > 0 && s[0] == 45;
    let ds = if s.len() > 0 && (s[0] == 45 || s[0] == 43) {
        s.drop_first()
    } else {
        s
    };
    if ds.len() == 0 || !all_digits(ds) {
        None
    } else {
        let v = if neg {
            -digits_value(ds)
        } else {
            digits_value(ds)
        };
        if -128 <= v <= 127 {
            Some(v)
        } else {
            None
        }
    }
}

/// The cell named by a position token: a column letter, then the row
/// counted from 1.
pub open spec fn pos_of_bytes(s: Seq<u8>) -> Option<Pos> {
    if s.len() == 0 {
        None
    } else {
        match (letter_value(s[0]), i8_of_bytes(s.drop_first())) {
            (Some(x), Some(r)) => if r - 1 >= -128 {
                Some(Pos { x: x as i8, y: (r - 1) as i8 })
            } else {
                None
            },
            _ => None,
        }
    }
}

/// The decimal digits of a natural number, most significant first.
pub open spec fn decimal_bytes(n: nat) -> Seq<u8>
    decreases n,
{
    if n < 10 {
        seq![(48 + n) as u8]
    } else {
        decimal_bytes(n / 10) + seq![(48 + n % 10) as u8]
    }
}

/// The column letter of a token: `A` onwards, and `?` past `Z`.
pub open spec fn column_token(x: int) -> u8 {
    if 0 <= x < 26 {
        (65 + x) as u8
    } else {
        63
    }
}

/// The token of a cell: `'A' + x`, then `y + 1` in decimal.
pub open spec fn pos_bytes(p: Pos) -> Seq<u8> {
    seq![column_token(p.x as int)] + decimal_bytes((p.y + 1) as nat)
}

/// A cell that has a token: a column and a row number from 1 to 127.
pub open spec fn nameable(p: Pos) -> bool {
    0 <= p.x && 0 <= p.y < 127
}

/// A cell whose token reads back: its column is a letter.
pub open spec fn printable(p: Pos) -> bool {
    0 <= p.x < 26 && 0 <= p.y < 127
}

pub open spec fn pos_text(p: Pos) -> Seq<char> {
    ascii_chars(pos_bytes(p))
}

pub open spec fn move_text(m: Move) -> Seq<char> {
    match m {
        Move::Resign => seq!['r', 'e', 's', 'i', 'g', 'n'],
        Move::Pass => seq!['p', 'a', 's', 's'],
        Move::Play { pos, .. } => pos_text(pos),
    }
}

impl Pos {
    pub fn new(x: Coord, y: Coord) -> (r: Pos)
        ensures
            r == (Pos { x, y }),
    {
        Pos { x, y }
    }

    /// The position moved by `d`.
    pub fn offset(&self, d: Pos) -> (r: Pos)
        requires
            i8::MIN <= self.x + d.x <= i8::MAX,
            i8::MIN <= self.y + d.y <= i8::MAX,
        ensures
            r.x == self.x + d.x,
            r.y == self.y + d.y,
    {
        Pos { x: self.x + d.x, y: self.y + d.y }
    }

    /// The number of cells of a board with these dimensions.
    pub fn area(&self) -> (r: usize)
        requires
            self.x >= 0,
            self.y >= 0,
        ensures
            r == self.x * self.y,
            r <= 127 * 127,
    {
        assert(0 <= self.x * self.y <= 127 * 127) by (nonlinear_arith)
            requires
                0 <= self.x <= 127,
                0 <= self.y <= 127,
        ;
        (self.x as usize) * (self.y as usize)
    }

    /// Reads a position token such as `c4` or `C4`.
    pub fn parse(s: &str) -> (r: Option<Pos>)
        ensures
            r == pos_of_bytes(s.spec_bytes()),
    {
        Pos::parse_bytes(s.as_bytes())
    }

    /// Reads a position token from its bytes.
    pub fn parse_bytes(b: &[u8]) -> (r: Option<Pos>)
        ensures
            r == pos_of_bytes(b@),
    {
        if b.len() == 0 {
            return None;
        }
        let c = b[0];
        let x: u8 = if 97u8 <= c && c <= 122u8 {
            c - 97u8
        } else if 65u8 <= c && c <= 90u8 {
            c - 65u8
        } else {
            return None;
        };
        let r = parse_i8_from(b, 1);
        assert(b@.subrange(1, b@.len() as int) =~= b@.drop_first());
        match r {
            Some(v) => {
                if v == -128i8 {
                    None
                } else {
                    Some(Pos { x: x as i8, y: v - 1 })
                }
            },
            None => None,
        }
    }

    /// The token of the cell, such as `C4`.
    pub fn to_text(&self) -> (r: String)
        requires
            nameable(*self),
        ensures
            r@ == pos_text(*self),
    {
        let mut b: Vec<u8> = Vec::new();
        b.push(if self.x < 26 {
            (65 + self.x) as u8
        } else {
            63u8
        });
        let n: u8 = (self.y + 1) as u8;
        proof {
            reveal_with_fuel(decimal_bytes, 3);
        }
        if n >= 100 {
            b.push(48 + n / 100);
            b.push(48 + (n / 10) % 10);
            b.push(48 + n % 10);
            assert(decimal_bytes(n as nat) =~= seq![(48 + n / 100) as u8, (48 + (n / 10) % 10) as u8, (48 + n % 10) as u8]);
        } else if n >= 10 {
            b.push(48 + n / 10);
            b.push(48 + n % 10);
            assert(decimal_bytes(n as nat) =~= seq![(48 + n / 10) as u8, (48 + n % 10) as u8]);
        } else {
            b.push(48 + n);
        }
        assert(b@ =~= pos_bytes(*self));
        string_from_ascii(b)
    }
}

/// Reads a signed 8-bit integer as `str::parse` does, such as a board size.
pub fn parse_coord(s: &str) -> (r: Option<Coord>)
    ensures
        r.is_some() == i8_of_bytes(s.spec_bytes()).is_some(),
        r.is_some() ==> i8_of_bytes(s.spec_bytes()) == Some(r.unwrap() as int),
{
    let b = s.as_bytes();
    assert(b@.subrange(0, b@.len() as int) =~= b@);
    parse_i8_from(b, 0)
}

/// Reads the signed 8-bit integer written in `b` from index `start` on.
pub(crate) fn parse_i8_from(b: &[u8], start: usize) -> (r: Option<i8>)
    requires
        start <= b@.len(),
    ensures
        r.is_some() == i8_of_bytes(b@.subrange(start as int, b@.len() as int)).is_some(),
        r.is_some() ==> i8_of_bytes(b@.subrange(start as int, b@.len() as int)) == Some(r.unwrap() as int),
{
    let ghost s = b@.subrange(start as int, b@.len() as int);
    let mut i: usize = start;
    let mut neg = false;
    if i < b.len() && (b[i] == 45u8 || b[i] == 43u8) {
        neg = b[i] == 45u8;
        i = i + 1;
    }
    assert(neg == (s.len() > 0 && s[0] == 45));
    let first: usize = i;
    let ghost ds = b@.subrange(first as int, b@.len() as int);
    assert(ds =~= if s.len() > 0 && (s[0] == 45 || s[0] == 43) { s.drop_first() } else { s });
    if first == b.len() {
        return None;
    }
    let mut acc: u32 = 0;
    while i < b.len()
        invariant
            first <= i <= b@.len(),
            first < b@.len(),
            ds == b@.subrange(first as int, b@.len() as int),
            ds == (if s.len() > 0 && (s[0] == 45 || s[0] == 43) { s.drop_first() } else { s }),
            neg == (s.len() > 0 && s[0] == 45),
            s == b@.subrange(start as int, b@.len() as int),
            all_digits(b@.subrange(first as int, i as int)),
            acc == digits_value(b@.subrange(first as int, i as int)),
            acc <= 128,
        decreases b@.len() - i,
    {
        let d = b[i];
        if d < 48u8 || d > 57u8 {
            assert(ds[i - first] == d);
            assert(!all_digits(ds));
            assert(i8_of_bytes(s).is_none());
            return None;
        }
        let ghost pre = b@.subrange(first as int, i as int);
        let ghost post = b@.subrange(first as int, i + 1);
        assert(post.drop_last() =~= pre);
        assert(post.last() == d);
        assert(digits_value(post) == 10 * digits_value(pre) + (d - 48));
        acc = acc * 10 + (d - 48u8) as u32;
        i = i + 1;
        assert(all_digits(post)) by {
            assert forall|j: int| 0 <= j < post.len() implies 48 <= #[trigger] post[j] <= 57 by {
                if j < pre.len() {
                    assert(post[j] == pre[j]);
                }
            }
        }
        if acc > 128 {
            proof {
                if all_digits(ds) {
                    lemma_digits_prefix(ds, (i - first) as int);
                    assert(ds.subrange(0, (i - first) as int) =~= post);
                    assert(ds.subrange(0, ds.len() as int) =~= ds);
                }
            }
            assert(i8_of_bytes(s).is_none());
            return None;
        }
    }
    assert(b@.subrange(first as int, i as int) =~= ds);
    if neg {
        Some((0 - (acc as i32)) as i8)
    } else if acc > 127 {
        None
    } else {
        Some(acc as i8)
    }
}

proof fn lemma_digits_prefix(s: Seq<u8>, k: int)
    requires
        0 <= k <= s.len(),
        all_digits(s),
    ensures
        0 <= digits_value(s.subrange(0, k)) <= digits_value(s.subrange(0, s.len() as int)),
    decreases s.len() - k,
{
    lemma_digits_nonneg(s.subrange(0, k));
    if k < s.len() {
        lemma_digits_prefix(s, k + 1);
        assert(s.subrange(0, k + 1).drop_last() =~= s.subrange(0, k));
        assert(s.subrange(0, k + 1).last() == s[k]);
    }
}

proof fn lemma_digits_nonneg(s: Seq<u8>)
    requires
        all_digits(s),
    ensures
        digits_value(s) >= 0,
    decreases s.len(),
{
    if s.len() > 0 {
        assert(s.last() == s[s.len() - 1]);
        lemma_digits_nonneg(s.drop_last());
    }
}

impl Move {
    pub fn new(color: Color, pos: Pos) -> (r: Move)
        ensures
            r == (Move::Play { color, pos }),
    {
        Move::Play { color, pos }
    }

    /// The cell of a stone move.
    pub fn pos(&self) -> (r: Option<Pos>)
        ensures
            r == (match *self {
                Move::Play { pos, .. } => Some(pos),
                _ => None,
            }),
    {
        match self {
            Move::Play { pos, .. } => Some(*pos),
            _ => None,
        }
    }

    /// The colour of a stone move.
    pub fn color(&self) -> (r: Option<Color>)
        ensures
            r == (match *self {
                Move::Play { color, .. } => Some(color),
                _ => None,
            }),
    {
        match self {
            Move::Play { color, .. } => Some(*color),
            _ => None,
        }
    }

    /// The protocol token of the move: the cell, `pass` or `resign`.
    pub fn to_text(&self) -> (r: String)
        requires
            *self matches Move::Play { pos, .. } ==> nameable(pos),
        ensures
            r@ == move_text(*self),
    {
        match self {
            Move::Play { pos, .. } => pos.to_text(),
            Move::Pass => {
                let b: Vec<u8> = vec![112u8, 97u8, 115u8, 115u8];
                let r = string_from_ascii(b);
                assert(r@ =~= move_text(*self));
                r
            },
            Move::Resign => {
                let b: Vec<u8> = vec![114u8, 101u8, 115u8, 105u8, 103u8, 110u8];
                let r = string_from_ascii(b);
                assert(r@ =~= move_text(*self));
                r
            },
        }
    }
}

/// Writing a cell as its token and reading the token back gives the cell.
pub proof fn lemma_pos_round_trip(p: Pos)
    requires
        printable(p),
    ensures
        pos_of_bytes(vstd::utf8::encode_utf8(pos_text(p))) == Some(p),
{
    let b = pos_bytes(p);
    let t = pos_text(p);
    let n = (p.y + 1) as nat;
    lemma_decimal(n);
    let d = decimal_bytes(n);
    assert(b.drop_first() =~= d);
    assert forall|i: int| 0 <= i < t.len() implies '\0' <= #[trigger] t[i] <= '\u{7f}' by {
        if i > 0 {
            assert(b[i] == d[i - 1]);
        }
        assert(b[i] < 128);
    }
    vstd::utf8::is_ascii_chars_encode_utf8(t);
    assert(vstd::utf8::encode_utf8(t) =~= b);
    assert(i8_of_bytes(d) == Some(n as int));
}

proof fn lemma_decimal(n: nat)
    ensures
        decimal_bytes(n).len() >= 1,
        all_digits(decimal_bytes(n)),
        digits_value(decimal_bytes(n)) == n,
    decreases n,
{
    let d = decimal_bytes(n);
    if n >= 10 {
        lemma_decimal(n / 10);
        let h = decimal_bytes(n / 10);
        assert(d.drop_last() =~= h);
        assert(d.last() == (48 + n % 10) as u8);
        assert(((48 + n % 10) as u8) as int == 48 + n % 10);
        assert forall|i: int| 0 <= i < d.len() implies 48 <= #[trigger] d[i] <= 57 by {
            if i < h.len() {
                assert(d[i] == h[i]);
            }
        }
    } else {
        assert(d.drop_last() =~= Seq::<u8>::empty());
        assert(digits_value(d.drop_last()) == 0);
        assert(((48 + n) as u8) as int == 48 + n);
    }
}

} // verus!
