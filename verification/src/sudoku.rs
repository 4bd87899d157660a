//! Solving a Sudoku through its exact-cover problem.

use vstd::prelude::*;
use vstd::utf8::is_ascii_chars;
use crate::grid::{Sudoku, is_digit, digit_char, char_digit, puzzle_text};
use crate::problem::{ExactCover, Problem, as_ints};
use crate::layout::spacer;
use crate::builder::init_solver;
use crate::encode::{
    sudoku_to_exact_cover, options, item_names, name, rank, lemma_option, lemma_raw_len,
    lemma_rank_mono, place_row, place_col, place_digit, lemma_names_len, placement,
};
use crate::decode::{
    readable, parsed, first_match, match_at, is_word, decode_upto, placed_cell, placed_digit,
};
use crate::algorithm::answer;

verus! {

/// The pattern reads the two digits off the name of an item.
pub(crate) proof fn lemma_parse_name(code: int)
    requires
        0 <= code < 324,
    ensures
        is_ascii_chars(name(code)),
        parsed(name(code)) == Some((char_digit(name(code)[1]), char_digit(name(code)[2]))),
        name(code).len() == 3,
{
    let text = name(code);
    assert(is_word(text[0]));
    assert(is_digit(text[1]));
    assert(is_digit(text[2]));
    assert(match_at(text, 0));
    assert(first_match(text, 0));
    let a = choose|a: int| first_match(text, a);
    assert(match_at(text, a));
    assert(a == 0);
}

/// With every option four items long, the arena has five indices per option
/// after the headers.
pub(crate) proof fn lemma_spacer_fours(p: Problem, k: int)
    requires
        0 <= k <= p.m(),
        forall|a: int| 0 <= a < p.m() ==> (#[trigger] p.opts[a]).len() == 4,
    ensures
        spacer(p, k) == p.n + 1 + 5 * k,
    decreases k,
{
    if k > 0 {
        lemma_spacer_fours(p, k - 1);
    }
}

/// The cell and the digit of a placement, read off the codes of its first
/// two items.
pub(crate) proof fn lemma_place_arith(t: int)
    requires
        0 <= t < 729,
    ensures
        place_row(t) * 9 + place_col(t) == t / 9,
        (place_row(t) * 9 + place_col(t)) / 9 == place_row(t),
        (place_row(t) * 9 + place_col(t)) % 9 == place_col(t),
        (81 + place_row(t) * 9 + (place_digit(t) - 1) - 81) % 9 + 1 == t % 9 + 1,
        0 <= place_row(t) < 9,
        0 <= place_col(t) < 9,
        1 <= place_digit(t) <= 9,
        0 <= place_row(t) * 9 + place_col(t) < 81,
        81 <= 81 + place_row(t) * 9 + (place_digit(t) - 1) < 162,
{
}

/// The digits of the names of the first two items of a placement.
pub(crate) proof fn lemma_place_names(t: int)
    requires
        0 <= t < 729,
    ensures
        is_ascii_chars(name(t / 9)),
        parsed(name(t / 9)) == Some((place_row(t), place_col(t))),
        is_ascii_chars(name(81 + place_row(t) * 9 + (place_digit(t) - 1))),
        parsed(name(81 + place_row(t) * 9 + (place_digit(t) - 1))) is Some,
        (parsed(name(81 + place_row(t) * 9 + (place_digit(t) - 1)))->0).1 == t % 9 + 1,
{
    lemma_place_arith(t);
    let cp = t / 9;
    let cr = 81 + place_row(t) * 9 + (place_digit(t) - 1);
    lemma_parse_name(cp);
    lemma_parse_name(cr);
}

/// Option `idx` of the problem of a grid, numbered from 1, can be read as
/// the placement that it stems from.
pub(crate) proof fn lemma_placed(e: &ExactCover, g: Seq<int>, idx: int)
    requires
        e.items@.len() == item_names(g).len(),
        forall|a: int| 0 <= a < e.items@.len() ==> (#[trigger] e.items@[a])@ == item_names(g)[a],
        e@.opts == options(g),
        e@.n == rank(g, 324),
        1 <= idx <= e@.m(),
    ensures
        readable(e, idx),
        placed_cell(e, idx) == placement(g, idx - 1) / 9,
        placed_digit(e, idx) == placement(g, idx - 1) % 9 + 1,
{
    let a = idx - 1;
    let t = lemma_option(g, a);
    lemma_place_arith(t);
    lemma_place_names(t);
    lemma_names_len(g, 324);
    let o = e@.opts[a];
    assert(o[0] == e.choices@[a]@[0]);
    assert(o[1] == e.choices@[a]@[1]);
    let cp = place_row(t) * 9 + place_col(t);
    let cr = 81 + place_row(t) * 9 + (place_digit(t) - 1);
    assert(e.items@[o[0]]@ == name(cp));
    assert(e.items@[o[1]]@ == name(cr));
}

/// What the problem of a well-formed grid looks like to the solver and to
/// the decoder: it fits the arena, it is valid if it has an item at all, and
/// every option can be read as the placement that it stems from.
pub(crate) proof fn lemma_encoding(e: &ExactCover, g: Seq<int>)
    requires
        e.items@.len() == item_names(g).len(),
        forall|a: int| 0 <= a < e.items@.len() ==> (#[trigger] e.items@[a])@ == item_names(g)[a],
        e@.opts == options(g),
        e@.n == rank(g, 324),
    ensures
        e@ == puzzle(g),
        e@.arena_last() < i32::MAX,
        e@.valid() <==> e@.n >= 1,
        forall|idx: int| 1 <= idx <= e@.m() ==> #[trigger] readable(e, idx),
        forall|idx: int|
            1 <= idx <= e@.m() ==> #[trigger] placed_cell(e, idx) == placement(g, idx - 1) / 9,
        forall|idx: int|
            1 <= idx <= e@.m() ==> #[trigger] placed_digit(e, idx) == placement(g, idx - 1) % 9 + 1,
{
    let p = e@;
    lemma_raw_len(g, 729);
    lemma_rank_mono(g, 0, 324);
    assert forall|a: int| 0 <= a < p.m() implies (#[trigger] p.opts[a]).len() == 4 by {
        let t = lemma_option(g, a);
    }
    lemma_spacer_fours(p, p.m());
    if p.n >= 1 {
        assert forall|k: int, t: int| 0 <= k < p.opts.len() && 0 <= t < p.opts[k].len() implies 1
            <= #[trigger] p.opts[k][t] <= p.n by {
            let w = lemma_option(g, k);
        }
        assert forall|k: int, s: int, t: int|
            0 <= k < p.opts.len() && 0 <= s < t < p.opts[k].len() implies #[trigger] p.opts[k][s]
            != #[trigger] p.opts[k][t] by {
            let w = lemma_option(g, k);
        }
    }
    assert forall|idx: int| 1 <= idx <= p.m() implies #[trigger] readable(e, idx) by {
        lemma_placed(e, g, idx);
    }
    assert forall|idx: int| 1 <= idx <= p.m() implies #[trigger] placed_cell(e, idx) == placement(
        g,
        idx - 1,
    ) / 9 by {
        lemma_placed(e, g, idx);
    }
    assert forall|idx: int| 1 <= idx <= p.m() implies #[trigger] placed_digit(e, idx) == placement(
        g,
        idx - 1,
    ) % 9 + 1 by {
        lemma_placed(e, g, idx);
    }
}

/// The exact-cover problem of grid `g`.
pub open spec fn puzzle(g: Seq<int>) -> Problem {
    Problem { n: rank(g, 324), opts: options(g) }
}

/// The options that the solver chooses for grid `g`, numbered from 1:
/// nothing where the grid has no blank cell with a candidate, or cannot be
/// completed.
pub open spec fn chosen_options(g: Seq<int>) -> Seq<int> {
    if puzzle(g).valid() {
        answer(puzzle(g))
    } else {
        Seq::empty()
    }
}

/// Grid `g` with the placements of the first `u` options of `sol` written
/// into their cells.
pub open spec fn fill_upto(g: Seq<int>, sol: Seq<int>, u: int) -> Seq<int>
    decreases u,
{
    if u <= 0 {
        g
    } else {
        fill_upto(g, sol, u - 1).update(
            placement(g, sol[u - 1] - 1) / 9,
            placement(g, sol[u - 1] - 1) % 9 + 1,
        )
    }
}

/// What the solver makes of grid `g`.
pub open spec fn solved(g: Seq<int>) -> Seq<int> {
    fill_upto(g, chosen_options(g), chosen_options(g).len() as int)
}

/// The cells that a text of 81 digits stands for.
pub open spec fn text_cells(text: Seq<char>) -> Seq<int> {
    Seq::new(81, |t: int| char_digit(text[t]))
}

/// Reading the options off the problem by the names of their items gives
/// the placements that they stem from.
pub(crate) proof fn lemma_decode(e: &ExactCover, g: Seq<int>, sol: Seq<usize>, u: int)
    requires
        0 <= u <= sol.len(),
        forall|j: int| 0 <= j < sol.len() ==> 1 <= #[trigger] sol[j] <= e@.m(),
        forall|idx: int|
            1 <= idx <= e@.m() ==> #[trigger] placed_cell(e, idx) == placement(g, idx - 1) / 9,
        forall|idx: int|
            1 <= idx <= e@.m() ==> #[trigger] placed_digit(e, idx) == placement(g, idx - 1) % 9 + 1,
    ensures
        decode_upto(g, e, sol, u) == fill_upto(g, as_ints(sol), u),
    decreases u,
{
    if u > 0 {
        lemma_decode(e, g, sol, u - 1);
        let idx = sol[u - 1] as int;
        assert(as_ints(sol)[u - 1] == idx);
        assert(placed_cell(e, idx) == placement(g, idx - 1) / 9);
        assert(placed_digit(e, idx) == placement(g, idx - 1) % 9 + 1);
    }
}

/// Solves the Sudoku given in text form, 81 digits row by row with 0 for a
/// blank, and returns the filled grid in the same form. A grid that cannot be
/// completed comes back as it was given.
pub fn solve_sudoku(s_str: &String) -> (res: String)
    requires
        puzzle_text(s_str@),
    ensures
        puzzle_text(res@),
        forall|t: int|
            0 <= t < 81 ==> #[trigger] res@[t] == digit_char(solved(text_cells(s_str@))[t]),
{
    let s = Sudoku::from_string(s_str);
    let e = sudoku_to_exact_cover(&s);
    proof {
        lemma_encoding(&e, s.cells());
    }
    let e_sol: Vec<usize> = match init_solver(&e) {
        Ok(solver) => {
            let mut solver = solver;
            solver.solve()
        },
        Err(_) => Vec::new(),
    };
    let ghost g = s.cells();
    proof {
        assert(g =~= text_cells(s_str@));
        assert(as_ints(e_sol@) =~= chosen_options(g));
        assert forall|t: int| 0 <= t < e_sol@.len() implies 1 <= #[trigger] e_sol@[t] <= e@.m() by {
            assert(as_ints(e_sol@)[t] == e_sol@[t]);
        }
        lemma_decode(&e, g, e_sol@, e_sol@.len() as int);
    }
    let s_sol = s.read_exact_cover(e, e_sol);
    let res = s_sol.to_string();
    proof {
        assert forall|t: int| 0 <= t < 81 implies is_digit(#[trigger] res@[t]) by {
            assert(res@[t] == digit_char(s_sol.cells()[t]));
        }
    }
    res
}

} // verus!
