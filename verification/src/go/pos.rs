//! Points of the 19x19 board.
//!
//! A point is stored as `column + 19 * row`, both counted from zero; it is shown
//! as a column letter `a`..`s` and a row number from 1, e.g. `m 14`.

use vstd::prelude::*;
use crate::text::{decimal, signed_text, push_char, push_decimal, push_signed, signed_decimal, i8_from_decimal};

verus! {

/// The pattern that finds a point in free text: a column letter, optional white
/// space, and a row number.
pub open spec fn point_pattern() -> Seq<char> {
    seq!['(', '[', 'a', '-', 's', ']', ')', '\\', 's', '*', '(', '\\', 'd', '+', ')']
}

/// What `regex` returns for `pattern` on `text`: `None` when the pattern does not
/// compile; otherwise the groups of the leftmost match (`None` if nothing matches),
/// group 0 first, `None` for a group that took no part in the match.
pub uninterp spec fn regex_captures(pattern: Seq<char>, text: Seq<char>) -> Option<Option<Seq<Option<Seq<char>>>>>;

/// `regex::Regex::new(pattern)` followed by `captures(text)`; a pattern that does not
/// compile gives `Err(())`.  Each group is handed out as an owned string.
#[verifier::external_body]
fn regex_first_captures(pattern: &str, text: &str) -> (r: Result<Option<Vec<Option<String>>>, ()>)
    ensures
        match (r, regex_captures(pattern@, text@)) {
            (Err(_), None) => true,
            (Ok(None), Some(None)) => true,
            (Ok(Some(v)), Some(Some(g))) => v@.len() == g.len() && forall|i: int| 0 <= i < g.len() ==>
                match (#[trigger] v@[i], g[i]) {
                    (Some(a), Some(b)) => a@ == b,
                    (None, None) => true,
                    _ => false,
                },
            _ => false,
        },
{
    match regex::Regex::new(pattern) {
        Err(_) => Err(()),
        Ok(re) => Ok(re.captures(text).map(|c| c.iter().map(|m| m.map(|m| m.as_str().to_string())).collect())),
    }
}

/// The column letters, `a` for column 0 up to `s` for column 18.
pub open spec fn column_letter(c: int) -> char {
    (('a' as u32) + c) as char
}

/// The column of a letter `a`..`s`.
pub open spec fn letter_column(c: char) -> int {
    (c as u32) - ('a' as u32)
}

/// The letter is one of the nineteen column letters.
pub open spec fn is_column_letter(c: char) -> bool {
    'a' <= c <= 's'
}

/// The column and the row number (counted from 1) that the text names, if the
/// point pattern finds them and they make a point without overflow.
pub open spec fn named_point(s: Seq<char>) -> Option<(int, int)> {
    match regex_captures(point_pattern(), s) {
        Some(Some(g)) => if g.len() >= 3 && g[1] is Some && g[2] is Some {
            let col = g[1]->0;
            let row = signed_decimal(g[2]->0);
            if col.len() > 0 && is_column_letter(col[0]) && row is Some && 1 <= row->0 <= 127 {
                Some((letter_column(col[0]), row->0))
            } else {
                None
            }
        } else {
            None
        },
        _ => None,
    }
}

/// A point of the board: column plus 19 times row.
#[derive(Clone, Copy, PartialEq, Eq, Hash, Debug, Structural)]
pub struct Pos19(pub usize);

/// The point index of a column and row.
pub open spec fn point_index(c: int, r: int) -> int {
    c + r * 19
}

/// The cardinal neighbours of the point at column `c`, row `r` that lie on the
/// board, in the order: below, left, above, right.
pub open spec fn neighbor_seq(c: int, r: int) -> Seq<Pos19> {
    let a = if r - 1 >= 0 && r - 1 < 19 { seq![Pos19(point_index(c, r - 1) as usize)] } else { Seq::empty() };
    let b = if c - 1 >= 0 && c - 1 < 19 { seq![Pos19(point_index(c - 1, r) as usize)] } else { Seq::empty() };
    let d = if r + 1 >= 0 && r + 1 < 19 { seq![Pos19(point_index(c, r + 1) as usize)] } else { Seq::empty() };
    let e = if c + 1 >= 0 && c + 1 < 19 { seq![Pos19(point_index(c + 1, r) as usize)] } else { Seq::empty() };
    a + b + d + e
}

/// How a point is shown: column letter, a space, row number from 1.
pub open spec fn point_text(p: Pos19) -> Seq<char> {
    seq![column_letter((p.0 % 19) as int), ' '] + decimal((p.0 / 19 + 1) as nat)
}

impl Pos19 {
    /// The point at column `c`, row `r`.
    pub fn from_coords(c: usize, r: usize) -> (p: Self)
        requires
            c + r * 19 <= usize::MAX,
        ensures
            p.0 == c + r * 19,
    {
        Pos19(c + r * 19)
    }

    /// The point named by two SGF coordinate letters, column first.
    pub fn from_sgf_coords(c: char, r: char) -> (p: Self)
        requires
            is_column_letter(c),
            is_column_letter(r),
        ensures
            p.0 == point_index(letter_column(c), letter_column(r)),
    {
        let cc = (c as u32 - 'a' as u32) as usize;
        let rr = (r as u32 - 'a' as u32) as usize;
        Pos19::from_coords(cc, rr)
    }

    /// Column and row.
    pub fn to_coords(&self) -> (cr: (usize, usize))
        ensures
            cr.0 == self.0 % 19,
            cr.1 == self.0 / 19,
    {
        let i = self.0;
        let r = i / 19;
        let c = i - r * 19;
        (c, r)
    }

    /// The point that the text names, as `parse` reads it, or `None` where
    /// `parse` would fail.
    pub fn try_parse(s: &str) -> (r: Option<Self>)
        ensures
            match named_point(s@) {
                Some((c, row)) => r == Some(Pos19(point_index(c, row - 1) as usize)),
                None => r is None,
            },
    {
        let pattern = "([a-s])\\s*(\\d+)";
        proof { reveal_strlit("([a-s])\\s*(\\d+)"); assert(pattern@ == point_pattern()); }
        let caps = match regex_first_captures(pattern, s) {
            Ok(Some(v)) => v,
            _ => return None,
        };
        if caps.len() < 3 {
            return None;
        }
        let col_text = match &caps[1] {
            Some(t) => t,
            None => return None,
        };
        let row_text = match &caps[2] {
            Some(t) => t,
            None => return None,
        };
        let col_chars = crate::text::str_chars(col_text.as_str());
        if col_chars.len() == 0 {
            return None;
        }
        let colchar = col_chars[0];
        if !('a' <= colchar && colchar <= 's') {
            return None;
        }
        let row = match i8_from_decimal(row_text.as_str()) {
            Some(v) => v,
            None => return None,
        };
        if row < 1 {
            return None;
        }
        let rowidx = row - 1;
        let colidx = (colchar as u32 - 'a' as u32) as usize;
        Some(Pos19::from_coords(colidx, rowidx as usize))
    }

    /// The point that the text names: a column letter, optional white space and a
    /// row number from 1, found anywhere in the text (e.g. `"e 9"`, `"a2"`).
    pub fn parse(s: &str) -> (p: Self)
        requires
            named_point(s@) is Some,
        ensures
            ({
                let (c, row) = named_point(s@)->0;
                p.0 == point_index(c, row - 1)
            }),
    {
        match Self::try_parse(s) {
            Some(p) => p,
            None => Pos19(0),
        }
    }

    /// The on-board cardinal neighbours.
    pub fn neighbors(&self) -> (v: Vec<Pos19>)
        requires
            self.0 < usize::MAX,
        ensures
            v@ == neighbor_seq((self.0 % 19) as int, (self.0 / 19) as int),
    {
        let (j, i) = self.to_coords();
        assert(j + i * 19 == self.0);
        let mut v: Vec<Pos19> = Vec::new();
        if i >= 1 && i - 1 < 19 {
            v.push(Pos19::from_coords(j, i - 1));
        }
        if j >= 1 && j - 1 < 19 {
            v.push(Pos19::from_coords(j - 1, i));
        }
        if i + 1 < 19 {
            v.push(Pos19::from_coords(j, i + 1));
        }
        if j + 1 < 19 {
            v.push(Pos19::from_coords(j + 1, i));
        }
        assert(v@ =~= neighbor_seq(j as int, i as int));
        v
    }

    /// How the point is shown, e.g. `m 14`.
    pub fn pretty(&self) -> (s: String)
        ensures
            s@ == point_text(*self),
    {
        let (col, row) = self.to_coords();
        let mut s = String::new();
        push_char(&mut s, char_of_column(col));
        push_char(&mut s, ' ');
        push_decimal(&mut s, row + 1);
        assert(s@ =~= point_text(*self));
        s
    }

    /// The same as `pretty`.
    pub fn to_string(&self) -> (s: String)
        ensures
            s@ == point_text(*self),
    {
        self.pretty()
    }
}

/// The letter of a column below 19.
pub(crate) fn char_of_column(c: usize) -> (l: char)
    requires
        c < 19,
    ensures
        l == column_letter(c as int),
{
    let v: u8 = 97u8 + c as u8;
    v as char
}

/// A point given as row and column, each counted from zero.
#[derive(Clone, Copy, PartialEq, Eq, Hash, Debug, Structural)]
pub struct Pos(pub i8, pub i8);

/// The on-board cardinal neighbours of row `i`, column `j`, in the order:
/// previous row, previous column, next row, next column.
pub open spec fn pos_neighbor_seq(i: int, j: int) -> Seq<Pos> {
    let a = if i - 1 >= 0 && i - 1 < 19 { seq![Pos((i - 1) as i8, j as i8)] } else { Seq::empty() };
    let b = if j - 1 >= 0 && j - 1 < 19 { seq![Pos(i as i8, (j - 1) as i8)] } else { Seq::empty() };
    let d = if i + 1 >= 0 && i + 1 < 19 { seq![Pos((i + 1) as i8, j as i8)] } else { Seq::empty() };
    let e = if j + 1 >= 0 && j + 1 < 19 { seq![Pos(i as i8, (j + 1) as i8)] } else { Seq::empty() };
    a + b + d + e
}

impl Pos {
    /// The on-board cardinal neighbours.
    pub fn neighbors(&self) -> (v: Vec<Pos>)
        requires
            -128 < self.0 < 127,
            -128 < self.1 < 127,
        ensures
            v@ == pos_neighbor_seq(self.0 as int, self.1 as int),
    {
        let i = self.0;
        let j = self.1;
        let mut v: Vec<Pos> = Vec::new();
        if i - 1 >= 0 && i - 1 < 19 {
            v.push(Pos(i - 1, j));
        }
        if j - 1 >= 0 && j - 1 < 19 {
            v.push(Pos(i, j - 1));
        }
        if i + 1 >= 0 && i + 1 < 19 {
            v.push(Pos(i + 1, j));
        }
        if j + 1 >= 0 && j + 1 < 19 {
            v.push(Pos(i, j + 1));
        }
        assert(v@ =~= pos_neighbor_seq(i as int, j as int));
        v
    }

    /// The point that the text names: a column letter and a row number from 1.
    pub fn try_parse(s: &str) -> (r: Option<Self>)
        ensures
            match named_point(s@) {
                Some((c, row)) => r == Some(Pos((row - 1) as i8, c as i8)),
                None => r is None,
            },
    {
        match Pos19::try_parse(s) {
            None => None,
            Some(p) => {
                let (c, r) = p.to_coords();
                proof {
                    let (c0, row) = named_point(s@)->0;
                    assert(p.0 == c0 + (row - 1) * 19);
                    assert(0 <= c0 < 19);
                    assert((c0 + (row - 1) * 19) % 19 == c0 && (c0 + (row - 1) * 19) / 19 == row - 1) by (nonlinear_arith)
                        requires 0 <= c0 < 19, 0 <= row - 1;
                }
                Some(Pos(r as i8, c as i8))
            }
        }
    }

    /// The point that the text names: a column letter and a row number from 1,
    /// found anywhere in the text (e.g. `"e 9"`).
    pub fn parse(s: &str) -> (p: Self)
        requires
            named_point(s@) is Some,
        ensures
            ({
                let (c, row) = named_point(s@)->0;
                p == Pos((row - 1) as i8, c as i8)
            }),
    {
        match Self::try_parse(s) {
            Some(p) => p,
            None => Pos(0, 0),
        }
    }

    /// How the point is shown: column letter, a space, row number from 1.
    pub fn to_string(&self) -> (s: String)
        requires
            0 <= self.1 < 19,
            self.0 < 127,
        ensures
            s@ == seq![column_letter(self.1 as int), ' '] + signed_text(self.0 + 1),
    {
        let mut s = String::new();
        push_char(&mut s, char_of_column(self.1 as usize));
        push_char(&mut s, ' ');
        push_signed(&mut s, (self.0 + 1) as i64);
        assert(s@ =~= seq![column_letter(self.1 as int), ' '] + signed_text(self.0 + 1));
        s
    }
}

} // verus!
