//! The Sudoku grid and its text form.

use vstd::prelude::*;
use vstd::string::{StrSliceExecFns, StringExecFns};

verus! {

/// The character that stands for digit `d`.
pub open spec fn digit_char(d: int) -> char {
    if d == 0 {
        '0'
    } else if d == 1 {
        '1'
    } else if d == 2 {
        '2'
    } else if d == 3 {
        '3'
    } else if d == 4 {
        '4'
    } else if d == 5 {
        '5'
    } else if d == 6 {
        '6'
    } else if d == 7 {
        '7'
    } else if d == 8 {
        '8'
    } else {
        '9'
    }
}

/// `c` is one of the ten digit characters.
pub open spec fn is_digit(c: char) -> bool {
    c == '0' || c == '1' || c == '2' || c == '3' || c == '4' || c == '5' || c == '6' || c == '7'
        || c == '8' || c == '9'
}

/// The digit that character `c` stands for.
pub open spec fn char_digit(c: char) -> int {
    if c == '0' {
        0
    } else if c == '1' {
        1
    } else if c == '2' {
        2
    } else if c == '3' {
        3
    } else if c == '4' {
        4
    } else if c == '5' {
        5
    } else if c == '6' {
        6
    } else if c == '7' {
        7
    } else if c == '8' {
        8
    } else {
        9
    }
}

/// Reads a digit character.
pub fn digit_of(c: char) -> (d: Option<u8>)
    ensures
        d is Some <==> is_digit(c),
        d matches Some(v) ==> v == char_digit(c) && v <= 9,
{
    match c {
        '0' => Some(0),
        '1' => Some(1),
        '2' => Some(2),
        '3' => Some(3),
        '4' => Some(4),
        '5' => Some(5),
        '6' => Some(6),
        '7' => Some(7),
        '8' => Some(8),
        '9' => Some(9),
        _ => None,
    }
}

/// The one-character text of a digit.
pub fn digit_str(d: u8) -> (s: &'static str)
    requires
        d <= 9,
    ensures
        s@ == seq![digit_char(d as int)],
{
    proof {
        reveal_strlit("0");
        reveal_strlit("1");
        reveal_strlit("2");
        reveal_strlit("3");
        reveal_strlit("4");
        reveal_strlit("5");
        reveal_strlit("6");
        reveal_strlit("7");
        reveal_strlit("8");
        reveal_strlit("9");
    }
    let s = match d {
        0 => "0",
        1 => "1",
        2 => "2",
        3 => "3",
        4 => "4",
        5 => "5",
        6 => "6",
        7 => "7",
        8 => "8",
        _ => "9",
    };
    assert(s@ =~= seq![digit_char(d as int)]);
    s
}

/// Reads one row of a grid from a line of digit characters; nothing if the
/// line holds anything else.
pub fn parse_row(line: &str) -> (res: Option<Vec<u8>>)
    ensures
        res is Some <==> forall|t: int| 0 <= t < line@.len() ==> is_digit(#[trigger] line@[t]),
        res matches Some(row) ==> row@.len() == line@.len() && forall|t: int|
            0 <= t < line@.len() ==> #[trigger] row@[t] == char_digit(line@[t]),
{
    let len = line.unicode_len();
    let mut row: Vec<u8> = Vec::new();
    let mut t: usize = 0;
    while t < len
        invariant
            t <= len,
            len == line@.len(),
            row@.len() == t,
            forall|u: int| 0 <= u < t ==> is_digit(#[trigger] line@[u]),
            forall|u: int| 0 <= u < t ==> #[trigger] row@[u] == char_digit(line@[u]),
        decreases len - t,
    {
        match digit_of(line.get_char(t)) {
            Some(d) => {
                row.push(d);
            },
            None => {
                return None;
            },
        }
        t = t + 1;
    }
    Some(row)
}

/// The text is the text form of a grid: 81 digit characters.
pub open spec fn puzzle_text(text: Seq<char>) -> bool {
    text.len() == 81 && forall|t: int| 0 <= t < 81 ==> is_digit(#[trigger] text[t])
}

/// Decides whether a text is the text form of a grid.
pub fn is_puzzle_text(text: &str) -> (b: bool)
    ensures
        b == puzzle_text(text@),
{
    if text.unicode_len() != 81 {
        return false;
    }
    let mut t: usize = 0;
    while t < 81
        invariant
            t <= 81,
            text@.len() == 81,
            forall|u: int| 0 <= u < t ==> is_digit(#[trigger] text@[u]),
        decreases 81 - t,
    {
        if digit_of(text.get_char(t)).is_none() {
            return false;
        }
        t = t + 1;
    }
    true
}

/// A Sudoku grid: nine rows of nine cells, each a digit, 0 for a blank.
pub struct Sudoku {
    pub grid: Vec<Vec<u8>>,
}

impl Sudoku {
    /// Nine rows of nine digits.
    pub open spec fn wf(&self) -> bool {
        &&& self.grid@.len() == 9
        &&& forall|r: int| 0 <= r < 9 ==> (#[trigger] self.grid@[r])@.len() == 9
        &&& forall|r: int, c: int| 0 <= r < 9 && 0 <= c < 9 ==> #[trigger] self.grid@[r]@[c] <= 9
    }

    /// The digit in row `r`, column `c`.
    pub open spec fn cell(&self, r: int, c: int) -> int {
        self.grid@[r]@[c] as int
    }

    /// The cells row by row, as the 81 digits of the text form.
    pub open spec fn cells(&self) -> Seq<int> {
        Seq::new(81, |t: int| self.cell(t / 9, t % 9))
    }

    /// Decides whether the grid has nine rows of nine digits.
    pub fn is_well_formed(&self) -> (b: bool)
        ensures
            b == self.wf(),
    {
        if self.grid.len() != 9 {
            return false;
        }
        let mut r: usize = 0;
        while r < 9
            invariant
                r <= 9,
                self.grid@.len() == 9,
                forall|a: int| 0 <= a < r ==> (#[trigger] self.grid@[a])@.len() == 9,
                forall|a: int, c: int| 0 <= a < r && 0 <= c < 9 ==> #[trigger] self.grid@[a]@[c] <= 9,
            decreases 9 - r,
        {
            if self.grid[r].len() != 9 {
                return false;
            }
            let mut c: usize = 0;
            while c < 9
                invariant
                    r < 9,
                    c <= 9,
                    self.grid@.len() == 9,
                    self.grid@[r as int]@.len() == 9,
                    forall|b: int| 0 <= b < c ==> #[trigger] self.grid@[r as int]@[b] <= 9,
                decreases 9 - c,
            {
                if self.grid[r][c] > 9 {
                    return false;
                }
                c = c + 1;
            }
            r = r + 1;
        }
        true
    }

    /// Reads a grid from its text form: 81 digit characters, row by row.
    pub fn from_string(s: &String) -> (res: Sudoku)
        requires
            puzzle_text(s@),
        ensures
            res.wf(),
            forall|t: int| 0 <= t < 81 ==> #[trigger] res.cells()[t] == char_digit(s@[t]),
    {
        let text = s.as_str();
        let mut grid: Vec<Vec<u8>> = Vec::new();
        let mut r: usize = 0;
        while r < 9
            invariant
                r <= 9,
                text@ == s@,
                puzzle_text(s@),
                grid@.len() == r,
                forall|a: int| 0 <= a < r ==> (#[trigger] grid@[a])@.len() == 9,
                forall|a: int, c: int|
                    0 <= a < r && 0 <= c < 9 ==> #[trigger] grid@[a]@[c] == char_digit(s@[a * 9 + c])
                        && grid@[a]@[c] <= 9,
            decreases 9 - r,
        {
            let mut row: Vec<u8> = Vec::new();
            let mut c: usize = 0;
            while c < 9
                invariant
                    r < 9,
                    c <= 9,
                    text@ == s@,
                    puzzle_text(s@),
                    row@.len() == c,
                    forall|b: int|
                        0 <= b < c ==> #[trigger] row@[b] == char_digit(s@[r * 9 + b]) && row@[b] <= 9,
                decreases 9 - c,
            {
                let ch = text.get_char(r * 9 + c);
                let d = match digit_of(ch) {
                    Some(v) => v,
                    None => 0,
                };
                row.push(d);
                c = c + 1;
            }
            grid.push(row);
            r = r + 1;
        }
        let res = Sudoku { grid };
        proof {
            assert forall|t: int| 0 <= t < 81 implies #[trigger] res.cells()[t] == char_digit(
                s@[t],
            ) by {
                let a = t / 9;
                let c = t % 9;
                assert(res.grid@[a]@[c] == char_digit(s@[a * 9 + c]));
            }
        }
        res
    }

    /// Writes the grid in its text form: 81 digit characters, row by row.
    pub fn to_string(&self) -> (res: String)
        requires
            self.wf(),
        ensures
            res@.len() == 81,
            forall|t: int| 0 <= t < 81 ==> #[trigger] res@[t] == digit_char(self.cells()[t]),
    {
        let mut out = String::new();
        let mut r: usize = 0;
        while r < 9
            invariant
                r <= 9,
                self.wf(),
                out@.len() == r * 9,
                forall|t: int| 0 <= t < r * 9 ==> #[trigger] out@[t] == digit_char(self.cells()[t]),
            decreases 9 - r,
        {
            let mut c: usize = 0;
            while c < 9
                invariant
                    r < 9,
                    c <= 9,
                    self.wf(),
                    out@.len() == r * 9 + c,
                    forall|t: int|
                        0 <= t < r * 9 + c ==> #[trigger] out@[t] == digit_char(self.cells()[t]),
                decreases 9 - c,
            {
                let d = self.grid[r][c];
                let ghost before = out@;
                out.append(digit_str(d));
                proof {
                    let t = r * 9 + c;
                    assert(out@[t] == digit_char(d as int));
                    assert(t / 9 == r && t % 9 == c);
                    assert forall|u: int| 0 <= u < t + 1 implies #[trigger] out@[u] == digit_char(
                        self.cells()[u],
                    ) by {
                        if u < t {
                            assert(out@[u] == before[u]);
                        }
                    }
                }
                c = c + 1;
            }
            r = r + 1;
        }
        out
    }

    /// The character at place `t` of the picture of the grid: ten characters
    /// per row, nine cells and a line break, a blank cell shown as a space.
    pub open spec fn picture_char(&self, t: int) -> char {
        if t % 10 == 9 {
            '\n'
        } else if self.cell(t / 10, t % 10) == 0 {
            ' '
        } else {
            digit_char(self.cell(t / 10, t % 10))
        }
    }

    /// Draws the grid, one row per line, with a space for each blank cell.
    pub fn picture(&self) -> (res: String)
        requires
            self.wf(),
        ensures
            res@.len() == 90,
            forall|t: int| 0 <= t < 90 ==> #[trigger] res@[t] == self.picture_char(t),
    {
        let mut out = String::new();
        let mut r: usize = 0;
        while r < 9
            invariant
                r <= 9,
                self.wf(),
                out@.len() == r * 10,
                forall|t: int| 0 <= t < r * 10 ==> #[trigger] out@[t] == self.picture_char(t),
            decreases 9 - r,
        {
            let mut c: usize = 0;
            while c < 9
                invariant
                    r < 9,
                    c <= 9,
                    self.wf(),
                    out@.len() == r * 10 + c,
                    forall|t: int|
                        0 <= t < r * 10 + c ==> #[trigger] out@[t] == self.picture_char(t),
                decreases 9 - c,
            {
                let d = self.grid[r][c];
                let ghost before = out@;
                proof {
                    reveal_strlit(" ");
                }
                if d == 0 {
                    out.append(" ");
                } else {
                    out.append(digit_str(d));
                }
                proof {
                    let t = r * 10 + c;
                    assert(t / 10 == r && t % 10 == c);
                    assert(out@[t] == self.picture_char(t));
                    assert forall|u: int| 0 <= u < t + 1 implies #[trigger] out@[u]
                        == self.picture_char(u) by {
                        if u < t {
                            assert(out@[u] == before[u]);
                        }
                    }
                }
                c = c + 1;
            }
            let ghost before = out@;
            proof {
                reveal_strlit("\n");
            }
            out.append("\n");
            proof {
                let t = r * 10 + 9;
                assert(t % 10 == 9);
                assert forall|u: int| 0 <= u < t + 1 implies #[trigger] out@[u] == self.picture_char(
                    u,
                ) by {
                    if u < t {
                        assert(out@[u] == before[u]);
                    }
                }
            }
            r = r + 1;
        }
        out
    }
}

} // verus!
