//! The rules of Sudoku, and why the solver plays by them.

use vstd::prelude::*;

use crate::algorithm::{
    apart, complete, taken, solution, from_one, lemma_search_complete, lemma_search_sound,
};
use crate::sudoku::{puzzle, chosen_options, fill_upto, solved};
use crate::encode::{
    name, item_names, names_upto, lemma_names, lemma_names_len, lemma_option, cell_codes, hits, excl_upto, excluded, cand, used_upto, used, rank, raw_upto,
    placement_upto, placement, options, place_row, place_col, place_digit, lemma_rank_used,
    lemma_rank_mono, lemma_raw,
};

verus! {

/// The unit of family `fam` that a cell lies in: its row for family 1, its
/// column for family 2, its box for family 3.
pub open spec fn unit_of(fam: int, cell: int) -> int {
    if fam == 1 {
        cell / 9
    } else if fam == 2 {
        cell % 9
    } else {
        3 * ((cell / 9) / 3) + (cell % 9) / 3
    }
}

/// The code of the item "digit `k` in unit `u` of family `fam`".
pub open spec fn unit_code(fam: int, u: int, k: int) -> int {
    81 * fam + u * 9 + (k - 1)
}

/// Digit `k` in cell `cell` covers item `code`.
pub open spec fn hit(cell: int, k: int, code: int) -> bool {
    code == cell || code == unit_code(1, unit_of(1, cell), k) || code == unit_code(2, unit_of(2, cell), k)
        || code == unit_code(3, unit_of(3, cell), k)
}

/// 81 cells, each blank or a digit.
pub open spec fn grid_ok(g: Seq<int>) -> bool {
    g.len() == 81 && forall|t: int| 0 <= t < 81 ==> 0 <= #[trigger] g[t] <= 9
}

/// Cell `cell` lies in unit `u` of family `fam` and holds digit `k`.
pub open spec fn sits(f: Seq<int>, fam: int, u: int, k: int, cell: int) -> bool {
    0 <= cell < 81 && unit_of(fam, cell) == u && f[cell] == k
}

/// Unit `u` of family `fam` holds digit `k` exactly once.
pub open spec fn once(f: Seq<int>, fam: int, u: int, k: int) -> bool {
    exists|cell: int|
        #[trigger] sits(f, fam, u, k, cell) && forall|c2: int|
            #[trigger] sits(f, fam, u, k, c2) ==> c2 == cell
}

/// Every cell holds a digit from 1 to 9, and every row, every column and
/// every box holds each of these digits exactly once.
pub open spec fn proper(f: Seq<int>) -> bool {
    &&& f.len() == 81
    &&& forall|t: int| 0 <= t < 81 ==> 1 <= #[trigger] f[t] <= 9
    &&& forall|fam: int, u: int, k: int|
        1 <= fam <= 3 && 0 <= u < 9 && 1 <= k <= 9 ==> #[trigger] once(f, fam, u, k)
}

/// `f` is a proper grid that keeps the digits of `g`.
pub open spec fn completes(g: Seq<int>, f: Seq<int>) -> bool {
    proper(f) && forall|t: int| 0 <= t < 81 && g[t] != 0 ==> #[trigger] f[t] == g[t]
}

/// Units and codes stay in their ranges.
pub(crate) proof fn lemma_units(fam: int, cell: int, k: int)
    requires
        1 <= fam <= 3,
        0 <= cell < 81,
        1 <= k <= 9,
    ensures
        0 <= unit_of(fam, cell) < 9,
        81 * fam <= unit_code(fam, unit_of(fam, cell), k) < 81 * fam + 81,
{
}

/// A code names one family, one unit and one digit.
pub(crate) proof fn lemma_code_apart(fam: int, u: int, k: int, fam2: int, u2: int, k2: int)
    requires
        1 <= fam <= 3,
        1 <= fam2 <= 3,
        0 <= u < 9,
        0 <= u2 < 9,
        1 <= k <= 9,
        1 <= k2 <= 9,
        unit_code(fam, u, k) == unit_code(fam2, u2, k2),
    ensures
        fam == fam2,
        u == u2,
        k == k2,
{
}

/// The four codes of a placement, by cell and digit.
pub(crate) proof fn lemma_place(t: int)
    requires
        0 <= t < 729,
    ensures
        0 <= t / 9 < 81,
        1 <= t % 9 + 1 <= 9,
        place_digit(t) == t % 9 + 1,
        place_row(t) * 9 + place_col(t) == t / 9,
        cell_codes(place_row(t), place_col(t), place_digit(t))[0] == t / 9,
        cell_codes(place_row(t), place_col(t), place_digit(t))[1] == unit_code(
            1,
            unit_of(1, t / 9),
            t % 9 + 1,
        ),
        cell_codes(place_row(t), place_col(t), place_digit(t))[2] == unit_code(
            2,
            unit_of(2, t / 9),
            t % 9 + 1,
        ),
        cell_codes(place_row(t), place_col(t), place_digit(t))[3] == unit_code(
            3,
            unit_of(3, t / 9),
            t % 9 + 1,
        ),
        forall|code: int|
            hits(place_row(t), place_col(t), place_digit(t), code) <==> hit(t / 9, t % 9 + 1, code),
{
    let i = place_row(t);
    let j = place_col(t);
    assert(i == (t / 9) / 9);
    assert(j == (t / 9) % 9);
}

/// The items that a filled cell settles, by cell and digit.
pub(crate) proof fn lemma_cell_hits(t0: int, k: int)
    requires
        0 <= t0 < 81,
    ensures
        forall|code: int| hits(t0 / 9, t0 % 9, k, code) <==> hit(t0, k, code),
{
}

/// An item is settled exactly if a filled cell covers it.
pub(crate) proof fn lemma_excl(g: Seq<int>, end: int, code: int)
    requires
        0 <= end <= 81,
    ensures
        excl_upto(g, end, code) <==> exists|t0: int|
            0 <= t0 < end && g[t0] != 0 && #[trigger] hit(t0, g[t0], code),
    decreases end,
{
    if end > 0 {
        lemma_excl(g, end - 1, code);
        lemma_cell_hits(end - 1, g[end - 1]);
        if excl_upto(g, end, code) {
            if excl_upto(g, end - 1, code) {
                let t0 = choose|t0: int| 0 <= t0 < end - 1 && g[t0] != 0 && #[trigger] hit(t0, g[t0], code);
                assert(hit(t0, g[t0], code));
            } else {
                assert(hit(end - 1, g[end - 1], code));
            }
        }
        if exists|t0: int| 0 <= t0 < end && g[t0] != 0 && #[trigger] hit(t0, g[t0], code) {
            let t0 = choose|t0: int| 0 <= t0 < end && g[t0] != 0 && #[trigger] hit(t0, g[t0], code);
            if t0 < end - 1 {
                assert(hit(t0, g[t0], code));
            }
        }
    }
}

/// An item belongs to the problem exactly if a candidate covers it.
pub(crate) proof fn lemma_used(g: Seq<int>, end: int, code: int)
    requires
        0 <= end <= 729,
    ensures
        used_upto(g, end, code) <==> exists|t: int|
            0 <= t < end && cand(g, t) && #[trigger] hit(t / 9, t % 9 + 1, code),
    decreases end,
{
    if end > 0 {
        lemma_used(g, end - 1, code);
        lemma_place(end - 1);
        if used_upto(g, end, code) {
            if used_upto(g, end - 1, code) {
                let t = choose|t: int|
                    0 <= t < end - 1 && cand(g, t) && #[trigger] hit(t / 9, t % 9 + 1, code);
                assert(hit(t / 9, t % 9 + 1, code));
            } else {
                assert(hit((end - 1) / 9, (end - 1) % 9 + 1, code));
            }
        }
        if exists|t: int| 0 <= t < end && cand(g, t) && #[trigger] hit(t / 9, t % 9 + 1, code) {
            let t = choose|t: int| 0 <= t < end && cand(g, t) && #[trigger] hit(t / 9, t % 9 + 1, code);
            if t < end - 1 {
                assert(hit(t / 9, t % 9 + 1, code));
            }
        }
    }
}

/// A placement is a candidate exactly if no filled cell settles one of its
/// four items.
pub(crate) proof fn lemma_cand(g: Seq<int>, t: int)
    requires
        0 <= t < 729,
    ensures
        cand(g, t) <==> (!excluded(g, t / 9) && !excluded(g, unit_code(1, unit_of(1, t / 9), t % 9 + 1))
            && !excluded(g, unit_code(2, unit_of(2, t / 9), t % 9 + 1)) && !excluded(
            g,
            unit_code(3, unit_of(3, t / 9), t % 9 + 1),
        )),
{
    lemma_place(t);
}

/// The item of a cell is settled exactly if the cell is filled.
pub(crate) proof fn lemma_settled_cell(g: Seq<int>, cell: int)
    requires
        grid_ok(g),
        0 <= cell < 81,
    ensures
        excluded(g, cell) <==> g[cell] != 0,
{
    lemma_excl(g, 81, cell);
    if excluded(g, cell) {
        let t0 = choose|t0: int| 0 <= t0 < 81 && g[t0] != 0 && #[trigger] hit(t0, g[t0], cell);
        lemma_units(1, t0, g[t0]);
        lemma_units(2, t0, g[t0]);
        lemma_units(3, t0, g[t0]);
    }
    if g[cell] != 0 {
        assert(hit(cell, g[cell], cell));
    }
}

/// The item of a digit in a unit is settled exactly if a filled cell of the
/// unit holds the digit.
pub(crate) proof fn lemma_settled_unit(g: Seq<int>, fam: int, u: int, k: int)
    requires
        grid_ok(g),
        1 <= fam <= 3,
        0 <= u < 9,
        1 <= k <= 9,
    ensures
        excluded(g, unit_code(fam, u, k)) <==> exists|t0: int| #[trigger] sits(g, fam, u, k, t0),
{
    let code = unit_code(fam, u, k);
    lemma_excl(g, 81, code);
    if excluded(g, code) {
        let t0 = choose|t0: int| 0 <= t0 < 81 && g[t0] != 0 && #[trigger] hit(t0, g[t0], code);
        lemma_units(1, t0, g[t0]);
        lemma_units(2, t0, g[t0]);
        lemma_units(3, t0, g[t0]);
        if code == unit_code(1, unit_of(1, t0), g[t0]) {
            lemma_code_apart(fam, u, k, 1, unit_of(1, t0), g[t0]);
        } else if code == unit_code(2, unit_of(2, t0), g[t0]) {
            lemma_code_apart(fam, u, k, 2, unit_of(2, t0), g[t0]);
        } else {
            lemma_code_apart(fam, u, k, 3, unit_of(3, t0), g[t0]);
        }
        assert(sits(g, fam, u, k, t0));
    }
    if exists|t0: int| #[trigger] sits(g, fam, u, k, t0) {
        let t0 = choose|t0: int| #[trigger] sits(g, fam, u, k, t0);
        assert(hit(t0, g[t0], code));
    }
}

/// The placement of digit `k` in cell `cell`.
pub open spec fn place_at(cell: int, k: int) -> int {
    cell * 9 + (k - 1)
}

/// A placement names its cell and its digit.
pub(crate) proof fn lemma_place_at(cell: int, k: int)
    requires
        0 <= cell < 81,
        1 <= k <= 9,
    ensures
        0 <= place_at(cell, k) < 729,
        place_at(cell, k) / 9 == cell,
        place_at(cell, k) % 9 + 1 == k,
{
}

/// A placement is the placement of its digit in its cell.
pub(crate) proof fn lemma_place_back(t: int)
    requires
        0 <= t < 729,
    ensures
        place_at(t / 9, t % 9 + 1) == t,
{
}

/// In a grid that can be completed, the digit that the completion puts in a
/// blank cell is a candidate there.
pub(crate) proof fn lemma_completion_cand(g: Seq<int>, f: Seq<int>, cell: int)
    requires
        grid_ok(g),
        completes(g, f),
        0 <= cell < 81,
        g[cell] == 0,
    ensures
        cand(g, place_at(cell, f[cell])),
{
    let k = f[cell];
    let t = place_at(cell, k);
    lemma_place_at(cell, k);
    lemma_cand(g, t);
    lemma_settled_cell(g, cell);
    assert forall|fam: int| 1 <= fam <= 3 implies !excluded(
        g,
        #[trigger] unit_code(fam, unit_of(fam, cell), k),
    ) by {
        let u = unit_of(fam, cell);
        lemma_units(fam, cell, k);
        lemma_settled_unit(g, fam, u, k);
        if exists|t0: int| #[trigger] sits(g, fam, u, k, t0) {
            let t0 = choose|t0: int| #[trigger] sits(g, fam, u, k, t0);
            assert(f[t0] == g[t0]);
            assert(once(f, fam, u, k));
            assert(sits(f, fam, u, k, t0));
            assert(sits(f, fam, u, k, cell));
        }
    }
    assert(!excluded(g, unit_code(1, unit_of(1, cell), k)));
    assert(!excluded(g, unit_code(2, unit_of(2, cell), k)));
    assert(!excluded(g, unit_code(3, unit_of(3, cell), k)));
}

/// The family, unit and digit that a code above the cells names.
pub(crate) proof fn lemma_code_parts(code: int) -> (parts: (int, int, int))
    requires
        81 <= code < 324,
    ensures
        1 <= parts.0 <= 3,
        0 <= parts.1 < 9,
        1 <= parts.2 <= 9,
        code == unit_code(parts.0, parts.1, parts.2),
{
    (code / 81, (code % 81) / 9, code % 9 + 1)
}

/// In a grid that can be completed, every item that no filled cell settles
/// is covered by what the completion puts in some blank cell.
pub(crate) proof fn lemma_free_item(g: Seq<int>, f: Seq<int>, code: int) -> (cell: int)
    requires
        grid_ok(g),
        completes(g, f),
        0 <= code < 324,
        !excluded(g, code),
    ensures
        0 <= cell < 81,
        g[cell] == 0,
        hit(cell, f[cell], code),
        cand(g, place_at(cell, f[cell])),
        used(g, code),
{
    let cell = if code < 81 {
        lemma_settled_cell(g, code);
        code
    } else {
        let (fam, u, k) = lemma_code_parts(code);
        assert(once(f, fam, u, k));
        let c = choose|c: int| #[trigger] sits(f, fam, u, k, c);
        lemma_settled_unit(g, fam, u, k);
        if g[c] != 0 {
            assert(f[c] == g[c]);
            assert(sits(g, fam, u, k, c));
        }
        c
    };
    lemma_completion_cand(g, f, cell);
    let t = place_at(cell, f[cell]);
    lemma_place_at(cell, f[cell]);
    lemma_used(g, 729, code);
    assert(hit(t / 9, t % 9 + 1, code));
    cell
}

/// The number of the option of a candidate placement, counted from 0.
pub open spec fn index_of(g: Seq<int>, t: int) -> int {
    raw_upto(g, t).len() as int
}

/// Later placements come after more options.
pub(crate) proof fn lemma_index_mono(g: Seq<int>, a: int, b: int)
    requires
        a <= b,
    ensures
        index_of(g, a) <= index_of(g, b),
        a < b && cand(g, a) && 0 <= a ==> index_of(g, a) < index_of(g, b),
    decreases b - a,
{
    if a < b {
        lemma_index_mono(g, a, b - 1);
        if a == b - 1 {
        }
    }
}

/// The option of a candidate placement stems from that placement.
pub(crate) proof fn lemma_index_placement(g: Seq<int>, t: int, end: int)
    requires
        0 <= t < end <= 729,
        cand(g, t),
    ensures
        placement_upto(g, end, index_of(g, t)) == t,
        0 <= index_of(g, t) < index_of(g, end),
    decreases end,
{
    lemma_index_mono(g, t, end);
    if end - 1 > t {
        lemma_index_placement(g, t, end - 1);
        lemma_index_mono(g, t, end - 1);
    }
}

/// The items of an option are those that its placement covers.
pub(crate) proof fn lemma_option_items(g: Seq<int>, a: int, c: int)
    requires
        0 <= a < options(g).len(),
    ensures
        0 <= placement(g, a) < 729,
        cand(g, placement(g, a)),
        index_of(g, placement(g, a)) == a,
        options(g)[a].contains(c) <==> exists|code: int|
            #[trigger] hit(placement(g, a) / 9, placement(g, a) % 9 + 1, code) && c == rank(g, code) + 1,
{
    let t = lemma_raw(g, 729, a);
    lemma_place(t);
    let o = options(g)[a];
    let codes = cell_codes(place_row(t), place_col(t), place_digit(t));
    assert(o.len() == 4);
    assert(forall|b: int| 0 <= b < 4 ==> o[b] == rank(g, codes[b]) + 1);
    if o.contains(c) {
        let b = choose|b: int| 0 <= b < o.len() && o[b] == c;
        assert(hit(t / 9, t % 9 + 1, codes[b]));
    }
    if exists|code: int| #[trigger] hit(t / 9, t % 9 + 1, code) && c == rank(g, code) + 1 {
        let code = choose|code: int| #[trigger] hit(t / 9, t % 9 + 1, code) && c == rank(g, code) + 1;
        if code == codes[0] {
            assert(o[0] == c);
        } else if code == codes[1] {
            assert(o[1] == c);
        } else if code == codes[2] {
            assert(o[2] == c);
        } else {
            assert(o[3] == c);
        }
    }
}

/// Every item of the problem is the item of a code.
pub(crate) proof fn lemma_rank_onto(g: Seq<int>, end: int, c: int) -> (code: int)
    requires
        1 <= c <= rank(g, end),
    ensures
        0 <= code < end,
        used(g, code),
        rank(g, code) + 1 == c,
    decreases end,
{
    if end <= 0 {
        0
    } else if used(g, end - 1) && rank(g, end - 1) + 1 == c {
        end - 1
    } else {
        lemma_rank_onto(g, end - 1, c)
    }
}

/// Two codes of the problem with one rank are one code.
pub(crate) proof fn lemma_rank_one(g: Seq<int>, c1: int, c2: int)
    requires
        0 <= c1,
        0 <= c2,
        used(g, c1),
        used(g, c2),
        rank(g, c1) == rank(g, c2),
    ensures
        c1 == c2,
{
    if c1 < c2 {
        lemma_rank_used(g, c1, c2);
    } else if c2 < c1 {
        lemma_rank_used(g, c2, c1);
    }
}

/// What a candidate placement covers belongs to the problem and is settled
/// by no filled cell.
pub(crate) proof fn lemma_hit_used(g: Seq<int>, t: int, code: int)
    requires
        0 <= t < 729,
        cand(g, t),
        hit(t / 9, t % 9 + 1, code),
    ensures
        used(g, code),
        !excluded(g, code),
        0 <= code < 324,
{
    lemma_used(g, 729, code);
    lemma_cand(g, t);
    lemma_place(t);
    lemma_units(1, t / 9, t % 9 + 1);
    lemma_units(2, t / 9, t % 9 + 1);
    lemma_units(3, t / 9, t % 9 + 1);
}

/// The problem of a grid is valid exactly if it has an item.
pub(crate) proof fn lemma_puzzle_valid(g: Seq<int>)
    ensures
        puzzle(g).valid() <==> rank(g, 324) >= 1,
{
    let p = puzzle(g);
    if p.n >= 1 {
        assert forall|k: int| 0 <= k < p.opts.len() implies (#[trigger] p.opts[k]).len() > 0 by {
            let w = lemma_option(g, k);
        }
        assert forall|k: int, t: int| 0 <= k < p.opts.len() && 0 <= t < p.opts[k].len() implies 1
            <= #[trigger] p.opts[k][t] <= p.n by {
            let w = lemma_option(g, k);
        }
        assert forall|k: int, s: int, t: int|
            0 <= k < p.opts.len() && 0 <= s < t < p.opts[k].len() implies #[trigger] p.opts[k][s]
            != #[trigger] p.opts[k][t] by {
            let w = lemma_option(g, k);
        }
    }
}

/// Option `a` puts into its cell what grid `f` holds there.
pub open spec fn agrees(g: Seq<int>, f: Seq<int>, a: int) -> bool {
    f[placement(g, a) / 9] == placement(g, a) % 9 + 1
}

/// The options below `end` that agree with grid `f`, in order.
pub open spec fn agreeing_upto(g: Seq<int>, f: Seq<int>, end: int) -> Seq<int>
    decreases end,
{
    if end <= 0 {
        Seq::empty()
    } else if agrees(g, f, end - 1) {
        agreeing_upto(g, f, end - 1).push(end - 1)
    } else {
        agreeing_upto(g, f, end - 1)
    }
}

/// The options that agree with `f` are listed in increasing order, all of
/// them and no others.
pub(crate) proof fn lemma_agreeing(g: Seq<int>, f: Seq<int>, end: int)
    ensures
        forall|j: int|
            0 <= j < agreeing_upto(g, f, end).len() ==> 0 <= #[trigger] agreeing_upto(g, f, end)[j]
                < end && agrees(g, f, agreeing_upto(g, f, end)[j]),
        forall|j1: int, j2: int|
            0 <= j1 < j2 < agreeing_upto(g, f, end).len() ==> #[trigger] agreeing_upto(g, f, end)[j1]
                < #[trigger] agreeing_upto(g, f, end)[j2],
        forall|a: int|
            0 <= a < end && agrees(g, f, a) ==> #[trigger] agreeing_upto(g, f, end).contains(a),
    decreases end,
{
    if end > 0 {
        lemma_agreeing(g, f, end - 1);
        let prev = agreeing_upto(g, f, end - 1);
        let cur = agreeing_upto(g, f, end);
        assert forall|a: int| 0 <= a < end && agrees(g, f, a) implies #[trigger] cur.contains(a) by {
            if a < end - 1 {
                assert(prev.contains(a));
                let j = choose|j: int| 0 <= j < prev.len() && prev[j] == a;
                assert(cur[j] == a);
            } else {
                assert(cur[cur.len() - 1] == a);
            }
        }
    }
}

/// Two different options that agree with a proper grid share no item.
pub(crate) proof fn lemma_agreeing_apart(g: Seq<int>, f: Seq<int>, a1: int, a2: int, c: int)
    requires
        grid_ok(g),
        proper(f),
        0 <= a1 < options(g).len(),
        0 <= a2 < options(g).len(),
        a1 != a2,
        agrees(g, f, a1),
        agrees(g, f, a2),
        options(g)[a1].contains(c),
    ensures
        !options(g)[a2].contains(c),
{
    if options(g)[a2].contains(c) {
        lemma_option_items(g, a1, c);
        lemma_option_items(g, a2, c);
        let t1 = placement(g, a1);
        let t2 = placement(g, a2);
        let code1 = choose|code: int| #[trigger] hit(t1 / 9, t1 % 9 + 1, code) && c == rank(g, code) + 1;
        let code2 = choose|code: int| #[trigger] hit(t2 / 9, t2 % 9 + 1, code) && c == rank(g, code) + 1;
        lemma_hit_used(g, t1, code1);
        lemma_hit_used(g, t2, code2);
        lemma_rank_one(g, code1, code2);
        lemma_place(t1);
        lemma_place(t2);
        lemma_place_back(t1);
        lemma_place_back(t2);
        let cell1 = t1 / 9;
        let cell2 = t2 / 9;
        let k1 = t1 % 9 + 1;
        let k2 = t2 % 9 + 1;
        lemma_units(1, cell1, k1);
        lemma_units(2, cell1, k1);
        lemma_units(3, cell1, k1);
        lemma_units(1, cell2, k2);
        lemma_units(2, cell2, k2);
        lemma_units(3, cell2, k2);
        if code1 < 81 {
            assert(cell1 == cell2);
        } else {
            let (fam, u, k) = lemma_code_parts(code1);
            assert forall|fa: int, fb: int|
                1 <= fa <= 3 && 1 <= fb <= 3 && code1 == #[trigger] unit_code(fa, unit_of(fa, cell1), k1)
                    && code1 == #[trigger] unit_code(fb, unit_of(fb, cell2), k2) implies fa == fam && fb
                == fam && unit_of(fam, cell1) == u && unit_of(fam, cell2) == u && k1 == k && k2 == k by {
                lemma_code_apart(fam, u, k, fa, unit_of(fa, cell1), k1);
                lemma_code_apart(fam, u, k, fb, unit_of(fb, cell2), k2);
            }
            assert(code1 == unit_code(1, unit_of(1, cell1), k1) || code1 == unit_code(
                2,
                unit_of(2, cell1),
                k1,
            ) || code1 == unit_code(3, unit_of(3, cell1), k1));
            assert(code1 == unit_code(1, unit_of(1, cell2), k2) || code1 == unit_code(
                2,
                unit_of(2, cell2),
                k2,
            ) || code1 == unit_code(3, unit_of(3, cell2), k2));
            assert(sits(f, fam, u, k, cell1));
            assert(sits(f, fam, u, k, cell2));
            assert(once(f, fam, u, k));
            assert(cell1 == cell2);
        }
        assert(t1 == t2);
    }
}

/// The options that agree with a completion of the grid form an exact cover
/// of its problem: the search finds a cover.
pub(crate) proof fn lemma_completion_found(g: Seq<int>, f: Seq<int>)
    requires
        grid_ok(g),
        completes(g, f),
        puzzle(g).valid(),
    ensures
        solution(puzzle(g)) is Some,
{
    let p = puzzle(g);
    let m = options(g).len() as int;
    let s = agreeing_upto(g, f, m);
    lemma_agreeing(g, f, m);
    assert forall|j1: int, j2: int, c: int|
        0 <= j1 < j2 < s.len() && #[trigger] p.opts[s[j1]].contains(c) implies !#[trigger] p.opts[s[j2]].contains(
        c,
    ) by {
        lemma_agreeing_apart(g, f, s[j1], s[j2], c);
    }
    assert(apart(p, s));
    assert forall|c: int| 1 <= c <= p.n implies taken(p, s, c) by {
        let code = lemma_rank_onto(g, 324, c);
        lemma_used(g, 729, code);
        let t0 = choose|t0: int| 0 <= t0 < 729 && cand(g, t0) && #[trigger] hit(t0 / 9, t0 % 9 + 1, code);
        lemma_hit_used(g, t0, code);
        let cell = lemma_free_item(g, f, code);
        let t = place_at(cell, f[cell]);
        lemma_place_at(cell, f[cell]);
        lemma_index_placement(g, t, 729);
        let a = index_of(g, t);
        assert(agrees(g, f, a));
        assert(s.contains(a));
        lemma_option_items(g, a, c);
        assert(hit(placement(g, a) / 9, placement(g, a) % 9 + 1, code));
        assert(p.opts[a].contains(c));
        let j = choose|j: int| 0 <= j < s.len() && s[j] == a;
        assert(p.opts[s[j]].contains(c));
    }
    let e = Seq::<int>::empty();
    lemma_search_complete(p, e, s);
}

/// The cell that option number `j` of the cover `s` writes.
pub open spec fn written_cell(g: Seq<int>, s: Seq<int>, j: int) -> int {
    placement(g, s[j]) / 9
}

/// The digit that option number `j` of the cover `s` writes.
pub open spec fn written_digit(g: Seq<int>, s: Seq<int>, j: int) -> int {
    placement(g, s[j]) % 9 + 1
}

/// No two options of a cover write the same cell, and none writes a filled
/// cell.
pub(crate) proof fn lemma_writers(g: Seq<int>, s: Seq<int>, j1: int, j2: int)
    requires
        grid_ok(g),
        apart(puzzle(g), s),
        0 <= j1 < s.len(),
        0 <= j2 < s.len(),
    ensures
        0 <= written_cell(g, s, j1) < 81,
        1 <= written_digit(g, s, j1) <= 9,
        g[written_cell(g, s, j1)] == 0,
        j1 != j2 ==> written_cell(g, s, j1) != written_cell(g, s, j2),
{
    let p = puzzle(g);
    let t1 = placement(g, s[j1]);
    let t2 = placement(g, s[j2]);
    let cell = t1 / 9;
    lemma_option_items(g, s[j1], rank(g, cell) + 1);
    lemma_option_items(g, s[j2], rank(g, cell) + 1);
    lemma_place(t1);
    lemma_place(t2);
    lemma_cand(g, t1);
    lemma_settled_cell(g, cell);
    if j1 != j2 && cell == t2 / 9 {
        assert(hit(t1 / 9, t1 % 9 + 1, cell));
        assert(hit(t2 / 9, t2 % 9 + 1, cell));
        assert(p.opts[s[j1]].contains(rank(g, cell) + 1));
        assert(p.opts[s[j2]].contains(rank(g, cell) + 1));
    }
}

/// What the first `u` options of a cover leave in a cell: the digit of the
/// option that writes the cell, or what the grid held.
pub(crate) proof fn lemma_fill(g: Seq<int>, s: Seq<int>, u: int, cell: int)
    requires
        grid_ok(g),
        apart(puzzle(g), s),
        0 <= u <= s.len(),
        0 <= cell < 81,
    ensures
        fill_upto(g, from_one(s), u).len() == 81,
        (forall|j: int| 0 <= j < u ==> written_cell(g, s, j) != cell) ==> fill_upto(g, from_one(s), u)[cell]
            == g[cell],
        forall|j: int|
            0 <= j < u && written_cell(g, s, j) == cell ==> fill_upto(g, from_one(s), u)[cell]
                == #[trigger] written_digit(g, s, j),
    decreases u,
{
    if u > 0 {
        lemma_fill(g, s, u - 1, cell);
        lemma_writers(g, s, u - 1, u - 1);
        let sol = from_one(s);
        assert(sol[u - 1] - 1 == s[u - 1]);
        assert forall|j: int| 0 <= j < u && written_cell(g, s, j) == cell implies fill_upto(g, sol, u)[cell]
            == #[trigger] written_digit(g, s, j) by {
            if j < u - 1 {
                lemma_writers(g, s, j, u - 1);
            }
        }
    }
}

/// A cover of the problem of a grid that can be completed writes every blank
/// cell.
pub(crate) proof fn lemma_blank_written(g: Seq<int>, f: Seq<int>, s: Seq<int>, cell: int) -> (j: int)
    requires
        grid_ok(g),
        completes(g, f),
        apart(puzzle(g), s),
        complete(puzzle(g), s),
        0 <= cell < 81,
        g[cell] == 0,
    ensures
        0 <= j < s.len(),
        written_cell(g, s, j) == cell,
{
    let p = puzzle(g);
    lemma_settled_cell(g, cell);
    let w = lemma_free_item(g, f, cell);
    lemma_rank_used(g, cell, 324);
    lemma_rank_mono(g, 0, cell);
    let c = rank(g, cell) + 1;
    assert(taken(p, s, c));
    let j = choose|j: int| 0 <= j < s.len() && #[trigger] p.opts[s[j]].contains(c);
    lemma_option_items(g, s[j], c);
    let t = placement(g, s[j]);
    let code = choose|code: int| #[trigger] hit(t / 9, t % 9 + 1, code) && c == rank(g, code) + 1;
    lemma_hit_used(g, t, code);
    lemma_rank_one(g, code, cell);
    lemma_place(t);
    lemma_units(1, t / 9, t % 9 + 1);
    lemma_units(2, t / 9, t % 9 + 1);
    lemma_units(3, t / 9, t % 9 + 1);
    j
}

/// A cover of the problem of a grid that can be completed puts digit `k`
/// into unit `u` of family `fam` exactly where no filled cell of the unit
/// holds it already: it has one option for it, and one only.
pub(crate) proof fn lemma_unit_written(g: Seq<int>, f: Seq<int>, s: Seq<int>, fam: int, u: int, k: int) -> (j:
    int)
    requires
        grid_ok(g),
        completes(g, f),
        apart(puzzle(g), s),
        complete(puzzle(g), s),
        1 <= fam <= 3,
        0 <= u < 9,
        1 <= k <= 9,
        !excluded(g, unit_code(fam, u, k)),
    ensures
        0 <= j < s.len(),
        unit_of(fam, written_cell(g, s, j)) == u,
        written_digit(g, s, j) == k,
        forall|j2: int|
            0 <= j2 < s.len() && unit_of(fam, written_cell(g, s, j2)) == u && #[trigger] written_digit(
                g,
                s,
                j2,
            ) == k ==> j2 == j,
{
    let p = puzzle(g);
    let code = unit_code(fam, u, k);
    let w = lemma_free_item(g, f, code);
    lemma_rank_used(g, code, 324);
    lemma_rank_mono(g, 0, code);
    let c = rank(g, code) + 1;
    assert(taken(p, s, c));
    let j = choose|j: int| 0 <= j < s.len() && #[trigger] p.opts[s[j]].contains(c);
    lemma_option_items(g, s[j], c);
    let t = placement(g, s[j]);
    let code2 = choose|code2: int| #[trigger] hit(t / 9, t % 9 + 1, code2) && c == rank(g, code2) + 1;
    lemma_hit_used(g, t, code2);
    lemma_rank_one(g, code2, code);
    lemma_place(t);
    lemma_units(1, t / 9, t % 9 + 1);
    lemma_units(2, t / 9, t % 9 + 1);
    lemma_units(3, t / 9, t % 9 + 1);
    if code == unit_code(1, unit_of(1, t / 9), t % 9 + 1) {
        lemma_code_apart(fam, u, k, 1, unit_of(1, t / 9), t % 9 + 1);
    } else if code == unit_code(2, unit_of(2, t / 9), t % 9 + 1) {
        lemma_code_apart(fam, u, k, 2, unit_of(2, t / 9), t % 9 + 1);
    } else {
        lemma_code_apart(fam, u, k, 3, unit_of(3, t / 9), t % 9 + 1);
    }
    assert forall|j2: int|
        0 <= j2 < s.len() && unit_of(fam, written_cell(g, s, j2)) == u && #[trigger] written_digit(
            g,
            s,
            j2,
        ) == k implies j2 == j by {
        let t2 = placement(g, s[j2]);
        lemma_option_items(g, s[j2], c);
        assert(hit(t2 / 9, t2 % 9 + 1, code));
        assert(p.opts[s[j2]].contains(c));
        if j2 < j {
            assert(!p.opts[s[j]].contains(c));
        } else if j < j2 {
            assert(!p.opts[s[j2]].contains(c));
        }
    }
    j
}

/// What a cover of the problem of a grid that can be completed makes of the
/// grid holds digit `k` exactly once in unit `u` of family `fam`.
pub(crate) proof fn lemma_unit_once(g: Seq<int>, f: Seq<int>, s: Seq<int>, fam: int, u: int, k: int)
    requires
        grid_ok(g),
        completes(g, f),
        apart(puzzle(g), s),
        complete(puzzle(g), s),
        1 <= fam <= 3,
        0 <= u < 9,
        1 <= k <= 9,
    ensures
        once(fill_upto(g, from_one(s), s.len() as int), fam, u, k),
{
    let h = fill_upto(g, from_one(s), s.len() as int);
    let n = s.len() as int;
    let code = unit_code(fam, u, k);
    lemma_settled_unit(g, fam, u, k);
    // what h holds in a cell
    assert forall|cell: int| 0 <= cell < 81 && g[cell] != 0 implies h[cell] == g[cell] by {
        lemma_fill(g, s, n, cell);
        assert forall|j: int| 0 <= j < n implies written_cell(g, s, j) != cell by {
            lemma_writers(g, s, j, j);
        }
    }
    if excluded(g, code) {
        let t0 = choose|t0: int| #[trigger] sits(g, fam, u, k, t0);
        assert(sits(h, fam, u, k, t0));
        assert forall|c2: int| #[trigger] sits(h, fam, u, k, c2) implies c2 == t0 by {
            if g[c2] != 0 {
                assert(f[c2] == g[c2]);
                assert(f[t0] == g[t0]);
                assert(once(f, fam, u, k));
                assert(sits(f, fam, u, k, c2));
                assert(sits(f, fam, u, k, t0));
            } else {
                let j = lemma_blank_written(g, f, s, c2);
                lemma_fill(g, s, n, c2);
                assert(h[c2] == written_digit(g, s, j));
                let t = placement(g, s[j]);
                lemma_option_items(g, s[j], 0);
                lemma_cand(g, t);
                lemma_place(t);
            }
        }
    } else {
        let j = lemma_unit_written(g, f, s, fam, u, k);
        let cell = written_cell(g, s, j);
        lemma_writers(g, s, j, j);
        lemma_fill(g, s, n, cell);
        assert(h[cell] == written_digit(g, s, j));
        assert(sits(h, fam, u, k, cell));
        assert forall|c2: int| #[trigger] sits(h, fam, u, k, c2) implies c2 == cell by {
            if g[c2] != 0 {
                assert(sits(g, fam, u, k, c2));
            } else {
                let j2 = lemma_blank_written(g, f, s, c2);
                lemma_fill(g, s, n, c2);
                assert(h[c2] == written_digit(g, s, j2));
            }
        }
    }
}

/// What the solver makes of a grid that can be completed is a completion of
/// it: a grid that keeps the digits given and holds each digit from 1 to 9
/// exactly once in every row, every column and every box. `f` is any
/// completion of `g`.
pub proof fn solved_completes(g: Seq<int>, f: Seq<int>)
    requires
        grid_ok(g),
        completes(g, f),
    ensures
        completes(g, solved(g)),
{
    let p = puzzle(g);
    lemma_puzzle_valid(g);
    if p.valid() {
        lemma_completion_found(g, f);
        let e = Seq::<int>::empty();
        lemma_search_sound(p, e);
        let s = solution(p)->0;
        let n = s.len() as int;
        assert(chosen_options(g) =~= from_one(s));
        let h = solved(g);
        assert(h == fill_upto(g, from_one(s), n));
        assert forall|t: int| 0 <= t < 81 implies 1 <= #[trigger] h[t] <= 9 && (g[t] != 0 ==> h[t]
            == g[t]) by {
            lemma_fill(g, s, n, t);
            if g[t] != 0 {
                assert forall|j: int| 0 <= j < n implies written_cell(g, s, j) != t by {
                    lemma_writers(g, s, j, j);
                }
            } else {
                let j = lemma_blank_written(g, f, s, t);
                lemma_writers(g, s, j, j);
                assert(h[t] == written_digit(g, s, j));
            }
        }
        lemma_fill(g, s, n, 0);
        assert forall|fam: int, u: int, k: int|
            1 <= fam <= 3 && 0 <= u < 9 && 1 <= k <= 9 implies #[trigger] once(h, fam, u, k) by {
            lemma_unit_once(g, f, s, fam, u, k);
        }
    } else {
        // no item at all: the grid has no blank cell
        assert forall|t: int| 0 <= t < 81 implies g[t] != 0 by {
            if g[t] == 0 {
                lemma_settled_cell(g, t);
                let w = lemma_free_item(g, f, t);
                lemma_rank_used(g, t, 324);
                lemma_rank_mono(g, 0, t);
            }
        }
        assert(solved(g) == g);
        assert(g =~= f);
    }
}

/// Where the grid has one completion only, that is what the solver returns.
pub proof fn solved_is_the_completion(g: Seq<int>, f: Seq<int>)
    requires
        grid_ok(g),
        completes(g, f),
        forall|f2: Seq<int>| completes(g, f2) ==> f2 == f,
    ensures
        solved(g) == f,
{
    solved_completes(g, f);
}

/// Different codes have different names.
pub(crate) proof fn lemma_name_one(c1: int, c2: int)
    requires
        0 <= c1 < 324,
        0 <= c2 < 324,
        name(c1) == name(c2),
    ensures
        c1 == c2,
{
    let a = name(c1);
    let b = name(c2);
    assert(a[0] == b[0]);
    assert(a[1] == b[1]);
    assert(a[2] == b[2]);
}

/// The items of the problem of a grid bear different names, none of them
/// the empty name of the placeholder.
pub proof fn item_names_differ(g: Seq<int>, a: int, b: int)
    requires
        0 <= a < b < item_names(g).len(),
    ensures
        item_names(g)[a] != item_names(g)[b],
{
    lemma_names_len(g, 324);
    let cb = lemma_rank_onto(g, 324, b);
    lemma_names(g, 324, cb);
    assert(item_names(g)[b] == name(cb));
    assert(name(cb).len() == 3);
    if a > 0 {
        let ca = lemma_rank_onto(g, 324, a);
        lemma_names(g, 324, ca);
        assert(item_names(g)[a] == name(ca));
        if name(ca) == name(cb) {
            lemma_name_one(ca, cb);
        }
    } else {
        assert(item_names(g)[0].len() == 0);
    }
}

} // verus!
