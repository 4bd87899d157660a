//! Reading a solved grid off an exact cover.

use vstd::prelude::*;
use vstd::string::StrSliceExecFns;
use vstd::utf8::is_ascii_chars;
use crate::grid::{Sudoku, is_digit, char_digit, digit_of};
use crate::problem::ExactCover;

verus! {

/// The pattern that finds the two digits in the name of an item: a word
/// character followed by two digits, each digit captured.
pub const ITEM_PATTERN: &'static str = r"\w(\d)(\d)";

/// `c` is an ASCII letter, digit or underscore.
pub open spec fn is_word(c: char) -> bool {
    is_digit(c) || ('a' <= c && c <= 'z') || ('A' <= c && c <= 'Z') || c == '_'
}

/// The pattern matches the text at position `a`.
pub open spec fn match_at(text: Seq<char>, a: int) -> bool {
    0 <= a && a + 3 <= text.len() && is_word(text[a]) && is_digit(text[a + 1]) && is_digit(text[a + 2])
}

/// Position `a` is the first at which the pattern matches the text.
pub open spec fn first_match(text: Seq<char>, a: int) -> bool {
    match_at(text, a) && forall|b: int| 0 <= b < a ==> !match_at(text, b)
}

/// The two digits that the pattern captures in the text, if it matches.
pub open spec fn parsed(text: Seq<char>) -> Option<(int, int)> {
    if exists|a: int| first_match(text, a) {
        let a = choose|a: int| first_match(text, a);
        Some((char_digit(text[a + 1]), char_digit(text[a + 2])))
    } else {
        None
    }
}

/// Runs the pattern on an ASCII text with `regex::Regex::captures`, after
/// compiling it with `regex::Regex::new`, and hands back the two captured
/// groups. Trusted: that the search reports the leftmost match, that on ASCII
/// text `\w` matches exactly letters, digits and the underscore and `\d`
/// exactly the ten digits, and that group 1 and group 2 are the second and
/// third character of the match.
#[verifier::external_body]
fn capture_pair(pattern: &str, text: &str) -> (res: Option<(String, String)>)
    requires
        pattern@ == ITEM_PATTERN@,
        is_ascii_chars(text@),
    ensures
        res is None <==> forall|a: int| !match_at(text@, a),
        res matches Some((x, y)) ==> exists|a: int|
            first_match(text@, a) && x@ == seq![text@[a + 1]] && y@ == seq![text@[a + 2]],
{
    let re = regex::Regex::new(pattern).unwrap();
    match re.captures(text) {
        Some(caps) => Some(
            (caps.get(1).unwrap().as_str().to_string(), caps.get(2).unwrap().as_str().to_string()),
        ),
        None => None,
    }
}

/// Reads the two digits that the pattern finds in an ASCII text.
pub fn parse_digits(text: &str) -> (res: Option<(u8, u8)>)
    requires
        is_ascii_chars(text@),
    ensures
        res is Some <==> parsed(text@) is Some,
        res matches Some((a, b)) ==> parsed(text@) == Some((a as int, b as int)) && a <= 9 && b <= 9,
{
    match capture_pair(ITEM_PATTERN, text) {
        Some((x, y)) => {
            let ghost a = choose|a: int|
                first_match(text@, a) && x@ == seq![text@[a + 1]] && y@ == seq![text@[a + 2]];
            proof {
                let a2 = choose|a2: int| first_match(text@, a2);
                if a2 < a {
                    assert(!match_at(text@, a2));
                } else if a < a2 {
                    assert(!match_at(text@, a));
                }
            }
            let cx = x.as_str().get_char(0);
            let cy = y.as_str().get_char(0);
            match (digit_of(cx), digit_of(cy)) {
                (Some(dx), Some(dy)) => Some((dx, dy)),
                _ => None,
            }
        },
        None => {
            proof {
                if exists|a: int| first_match(text@, a) {
                    let a = choose|a: int| first_match(text@, a);
                    assert(match_at(text@, a));
                }
            }
            None
        },
    }
}

/// Option `idx` of the problem, numbered from 1, can be read as a placement:
/// it has four items, the name of the first holds the row and column of a
/// cell, and the name of the second holds a digit.
pub open spec fn readable(ec: &ExactCover, idx: int) -> bool {
    &&& 1 <= idx <= ec.choices@.len()
    &&& ec.choices@[idx - 1]@.len() == 4
    &&& ec.choices@[idx - 1]@[0] < ec.items@.len()
    &&& ec.choices@[idx - 1]@[1] < ec.items@.len()
    &&& is_ascii_chars(ec.items@[ec.choices@[idx - 1]@[0] as int]@)
    &&& is_ascii_chars(ec.items@[ec.choices@[idx - 1]@[1] as int]@)
    &&& parsed(ec.items@[ec.choices@[idx - 1]@[0] as int]@) matches Some((i, j)) && i < 9 && j < 9
    &&& parsed(ec.items@[ec.choices@[idx - 1]@[1] as int]@) is Some
}

/// The cell that option `idx` fills, as its place among the 81 cells.
pub open spec fn placed_cell(ec: &ExactCover, idx: int) -> int {
    let at = parsed(ec.items@[ec.choices@[idx - 1]@[0] as int]@)->0;
    at.0 * 9 + at.1
}

/// The digit that option `idx` places.
pub open spec fn placed_digit(ec: &ExactCover, idx: int) -> int {
    (parsed(ec.items@[ec.choices@[idx - 1]@[1] as int]@)->0).1
}

/// The cells of the grid after the first `t` options of `sol` were written
/// into `cells`.
pub open spec fn decode_upto(cells: Seq<int>, ec: &ExactCover, sol: Seq<usize>, t: int) -> Seq<int>
    decreases t,
{
    if t <= 0 {
        cells
    } else {
        decode_upto(cells, ec, sol, t - 1).update(
            placed_cell(ec, sol[t - 1] as int),
            placed_digit(ec, sol[t - 1] as int),
        )
    }
}

/// Decides whether option `idx` of the problem can be read as a placement.
pub fn is_readable(ec: &ExactCover, idx: usize) -> (b: bool)
    ensures
        b == readable(ec, idx as int),
{
    if idx < 1 || idx > ec.choices.len() {
        return false;
    }
    let choice = &ec.choices[idx - 1];
    if choice.len() != 4 {
        return false;
    }
    if choice[0] >= ec.items.len() || choice[1] >= ec.items.len() {
        return false;
    }
    let first = ec.items[choice[0]].as_str();
    let second = ec.items[choice[1]].as_str();
    if !first.is_ascii() || !second.is_ascii() {
        return false;
    }
    match (parse_digits(first), parse_digits(second)) {
        (Some((i, j)), Some(_)) => i < 9 && j < 9,
        _ => false,
    }
}

/// Decides whether every option of `s` can be read as a placement.
pub fn all_readable(ec: &ExactCover, s: &Vec<usize>) -> (b: bool)
    ensures
        b == forall|t: int| 0 <= t < s@.len() ==> readable(ec, #[trigger] s@[t] as int),
{
    let mut t: usize = 0;
    while t < s.len()
        invariant
            t <= s.len(),
            forall|u: int| 0 <= u < t ==> readable(ec, #[trigger] s@[u] as int),
        decreases s.len() - t,
    {
        if !is_readable(ec, s[t]) {
            return false;
        }
        t = t + 1;
    }
    true
}

impl Sudoku {
    /// Writes digit `k` into row `i`, column `j`.
    pub fn put(&mut self, i: usize, j: usize, k: u8)
        requires
            old(self).wf(),
            i < 9,
            j < 9,
            k <= 9,
        ensures
            final(self).wf(),
            final(self).cells() == old(self).cells().update(i * 9 + j, k as int),
    {
        let mut row: Vec<u8> = Vec::new();
        let mut c: usize = 0;
        while c < 9
            invariant
                c <= 9,
                i < 9,
                j < 9,
                k <= 9,
                self.wf(),
                row@.len() == c,
                forall|b: int|
                    0 <= b < c ==> #[trigger] row@[b] == (if b == j {
                        k
                    } else {
                        self.grid@[i as int]@[b]
                    }),
            decreases 9 - c,
        {
            if c == j {
                row.push(k);
            } else {
                row.push(self.grid[i][c]);
            }
            c = c + 1;
        }
        let ghost before = self.cells();
        let ghost g0 = self.grid@;
        self.grid.set(i, row);
        proof {
            assert forall|t: int| 0 <= t < 81 implies #[trigger] self.cells()[t] == before.update(
                i * 9 + j,
                k as int,
            )[t] by {
                let r = t / 9;
                let c = t % 9;
                if r != i {
                    assert(self.grid@[r] == g0[r]);
                }
            }
            assert(self.cells() =~= before.update(i * 9 + j, k as int));
        }
    }

    /// Fills the grid from an exact cover: each chosen option is read as a
    /// placement, by the names of its first two items, and written into its
    /// cell.
    pub fn read_exact_cover(self, ec: ExactCover, s: Vec<usize>) -> (res: Sudoku)
        requires
            self.wf(),
            forall|t: int| 0 <= t < s@.len() ==> readable(&ec, #[trigger] s@[t] as int),
        ensures
            res.wf(),
            res.cells() == decode_upto(self.cells(), &ec, s@, s@.len() as int),
    {
        let mut out = self;
        let mut t: usize = 0;
        while t < s.len()
            invariant
                t <= s.len(),
                out.wf(),
                forall|u: int| 0 <= u < s@.len() ==> readable(&ec, #[trigger] s@[u] as int),
                out.cells() == decode_upto(self.cells(), &ec, s@, t as int),
            decreases s.len() - t,
        {
            let idx: usize = s[t];
            assert(readable(&ec, s@[t as int] as int));
            let choice = &ec.choices[idx - 1];
            let first = &ec.items[choice[0]];
            let second = &ec.items[choice[1]];
            let at = parse_digits(first.as_str());
            let digit = parse_digits(second.as_str());
            match (at, digit) {
                (Some((i, j)), Some((_, k))) => {
                    out.put(i as usize, j as usize, k);
                },
                _ => {},
            }
            t = t + 1;
        }
        out
    }
}

} // verus!
