//! Sudoku as an exact-cover problem.
//!
//! A grid gives rise to 324 candidate items in four families of 81: a cell
//! must be filled, a row must hold a digit, a column must hold a digit, a box
//! must hold a digit. Each item has a code: cells `0..81`, rows `81..162`,
//! columns `162..243`, boxes `243..324`. Placing digit `k` in the cell of row
//! `i` and column `j` is a placement, numbered `(i * 9 + j) * 9 + (k - 1)`.

use vstd::prelude::*;
use vstd::string::StringExecFns;
use crate::grid::{Sudoku, digit_char, digit_str};
use crate::problem::ExactCover;

verus! {

/// The row of placement `t`.
pub open spec fn place_row(t: int) -> int {
    t / 81
}

/// The column of placement `t`.
pub open spec fn place_col(t: int) -> int {
    (t / 9) % 9
}

/// The digit of placement `t`.
pub open spec fn place_digit(t: int) -> int {
    t % 9 + 1
}

/// The four items that placing digit `k` at row `i`, column `j` covers, by
/// code: the cell, the digit in the row, in the column, and in the box.
pub open spec fn cell_codes(i: int, j: int, k: int) -> Seq<int> {
    seq![
        i * 9 + j,
        81 + i * 9 + (k - 1),
        162 + j * 9 + (k - 1),
        243 + (3 * (i / 3) + j / 3) * 9 + (k - 1),
    ]
}

/// `code` is one of the four items of the placement.
pub open spec fn hits(i: int, j: int, k: int, code: int) -> bool {
    code == cell_codes(i, j, k)[0] || code == cell_codes(i, j, k)[1] || code == cell_codes(i, j, k)[2]
        || code == cell_codes(i, j, k)[3]
}

/// One of the first `t` cells of grid `g` is filled and settles item `code`.
pub open spec fn excl_upto(g: Seq<int>, t: int, code: int) -> bool
    decreases t,
{
    if t <= 0 {
        false
    } else {
        excl_upto(g, t - 1, code) || (g[t - 1] != 0 && hits((t - 1) / 9, (t - 1) % 9, g[t - 1], code))
    }
}

/// A filled cell of the grid settles item `code`.
pub open spec fn excluded(g: Seq<int>, code: int) -> bool {
    excl_upto(g, 81, code)
}

/// Placement `t` is a candidate: no filled cell settles any of its items.
pub open spec fn cand(g: Seq<int>, t: int) -> bool {
    let codes = cell_codes(place_row(t), place_col(t), place_digit(t));
    !excluded(g, codes[0]) && !excluded(g, codes[1]) && !excluded(g, codes[2]) && !excluded(
        g,
        codes[3],
    )
}

/// One of the first `t` placements is a candidate and covers item `code`.
pub open spec fn used_upto(g: Seq<int>, t: int, code: int) -> bool
    decreases t,
{
    if t <= 0 {
        false
    } else {
        used_upto(g, t - 1, code) || (cand(g, t - 1) && hits(
            place_row(t - 1),
            place_col(t - 1),
            place_digit(t - 1),
            code,
        ))
    }
}

/// Some candidate covers item `code`: the item belongs to the problem.
pub open spec fn used(g: Seq<int>, code: int) -> bool {
    used_upto(g, 729, code)
}

/// The number of items of the problem with a code below `code`.
pub open spec fn rank(g: Seq<int>, code: int) -> int
    decreases code,
{
    if code <= 0 {
        0
    } else {
        rank(g, code - 1) + if used(g, code - 1) {
            1int
        } else {
            0int
        }
    }
}

/// The name of an item: a letter for its family and two digits.
pub open spec fn name(code: int) -> Seq<char> {
    if code < 81 {
        seq!['p', digit_char(code / 9), digit_char(code % 9)]
    } else if code < 162 {
        seq!['r', digit_char((code - 81) / 9), digit_char((code - 81) % 9 + 1)]
    } else if code < 243 {
        seq!['c', digit_char((code - 162) / 9), digit_char((code - 162) % 9 + 1)]
    } else {
        seq!['b', digit_char((code - 243) / 9), digit_char((code - 243) % 9 + 1)]
    }
}

/// The names of the items of the problem with a code below `code`, in order
/// of their codes.
pub open spec fn names_upto(g: Seq<int>, code: int) -> Seq<Seq<char>>
    decreases code,
{
    if code <= 0 {
        Seq::empty()
    } else {
        if used(g, code - 1) {
            names_upto(g, code - 1).push(name(code - 1))
        } else {
            names_upto(g, code - 1)
        }
    }
}

/// The items of the candidates among the first `t` placements, by code, in
/// order of the placements.
pub open spec fn raw_upto(g: Seq<int>, t: int) -> Seq<Seq<int>>
    decreases t,
{
    if t <= 0 {
        Seq::empty()
    } else {
        if cand(g, t - 1) {
            raw_upto(g, t - 1).push(cell_codes(place_row(t - 1), place_col(t - 1), place_digit(t - 1)))
        } else {
            raw_upto(g, t - 1)
        }
    }
}

/// The placement that option `a` stems from, among the first `end`
/// placements: the candidate with `a` candidates before it.
pub open spec fn placement_upto(g: Seq<int>, end: int, a: int) -> int
    decreases end,
{
    if end <= 0 {
        0
    } else if cand(g, end - 1) && a == raw_upto(g, end - 1).len() {
        end - 1
    } else {
        placement_upto(g, end - 1, a)
    }
}

/// The placement that option `a` of the problem of grid `g` stems from,
/// options numbered from 0.
pub open spec fn placement(g: Seq<int>, a: int) -> int {
    placement_upto(g, 729, a)
}

/// The names of the problem of grid `g`: a placeholder, then the items that
/// some candidate covers.
pub open spec fn item_names(g: Seq<int>) -> Seq<Seq<char>> {
    seq![Seq::<char>::empty()] + names_upto(g, 324)
}

/// The options of the problem of grid `g`: one per candidate, each holding
/// the numbers of its four items.
pub open spec fn options(g: Seq<int>) -> Seq<Seq<int>> {
    Seq::new(
        raw_upto(g, 729).len(),
        |a: int| Seq::new(4, |b: int| rank(g, raw_upto(g, 729)[a][b]) + 1),
    )
}

/// The codes of a placement lie in their four families.
pub(crate) proof fn lemma_codes(t: int)
    requires
        0 <= t < 729,
    ensures
        0 <= place_row(t) < 9,
        0 <= place_col(t) < 9,
        1 <= place_digit(t) <= 9,
        0 <= cell_codes(place_row(t), place_col(t), place_digit(t))[0] < 81,
        81 <= cell_codes(place_row(t), place_col(t), place_digit(t))[1] < 162,
        162 <= cell_codes(place_row(t), place_col(t), place_digit(t))[2] < 243,
        243 <= cell_codes(place_row(t), place_col(t), place_digit(t))[3] < 324,
{
}

/// Builds the name of the item with the given code.
pub fn item_name(code: usize) -> (res: String)
    requires
        code < 324,
    ensures
        res@ == name(code as int),
{
    proof {
        reveal_strlit("p");
        reveal_strlit("r");
        reveal_strlit("c");
        reveal_strlit("b");
    }
    let mut out = String::new();
    if code < 81 {
        out.append("p");
        out.append(digit_str((code / 9) as u8));
        out.append(digit_str((code % 9) as u8));
    } else if code < 162 {
        out.append("r");
        out.append(digit_str(((code - 81) / 9) as u8));
        out.append(digit_str(((code - 81) % 9 + 1) as u8));
    } else if code < 243 {
        out.append("c");
        out.append(digit_str(((code - 162) / 9) as u8));
        out.append(digit_str(((code - 162) % 9 + 1) as u8));
    } else {
        out.append("b");
        out.append(digit_str(((code - 243) / 9) as u8));
        out.append(digit_str(((code - 243) % 9 + 1) as u8));
    }
    assert(out@ =~= name(code as int));
    out
}

/// A vector of `len` flags, all down.
pub fn flags(len: usize) -> (v: Vec<bool>)
    ensures
        v@.len() == len,
        forall|a: int| 0 <= a < len ==> !#[trigger] v@[a],
{
    let mut v: Vec<bool> = Vec::new();
    let mut a: usize = 0;
    while a < len
        invariant
            a <= len,
            v@.len() == a,
            forall|b: int| 0 <= b < a ==> !#[trigger] v@[b],
        decreases len - a,
    {
        v.push(false);
        a = a + 1;
    }
    v
}

/// The codes of the four items of placement `t`.
pub fn place_codes(t: usize) -> (codes: (usize, usize, usize, usize))
    requires
        t < 729,
    ensures
        codes.0 == cell_codes(place_row(t as int), place_col(t as int), place_digit(t as int))[0],
        codes.1 == cell_codes(place_row(t as int), place_col(t as int), place_digit(t as int))[1],
        codes.2 == cell_codes(place_row(t as int), place_col(t as int), place_digit(t as int))[2],
        codes.3 == cell_codes(place_row(t as int), place_col(t as int), place_digit(t as int))[3],
        codes.0 < 81 <= codes.1 < 162 <= codes.2 < 243 <= codes.3 < 324,
{
    let i: usize = t / 81;
    let j: usize = (t / 9) % 9;
    let k: usize = t % 9 + 1;
    (
        i * 9 + j,
        81 + i * 9 + (k - 1),
        162 + j * 9 + (k - 1),
        243 + (3 * (i / 3) + j / 3) * 9 + (k - 1),
    )
}

/// Marks the items that the filled cells of the grid settle.
pub fn settled(sudoku: &Sudoku) -> (excl: Vec<bool>)
    requires
        sudoku.wf(),
    ensures
        excl@.len() == 324,
        forall|code: int| 0 <= code < 324 ==> #[trigger] excl@[code] == excluded(sudoku.cells(), code),
{
    let ghost g = sudoku.cells();
    let mut excl = flags(324);
    let mut t: usize = 0;
    while t < 81
        invariant
            t <= 81,
            sudoku.wf(),
            g == sudoku.cells(),
            excl@.len() == 324,
            forall|code: int| 0 <= code < 324 ==> #[trigger] excl@[code] == excl_upto(g, t as int, code),
        decreases 81 - t,
    {
        let i: usize = t / 9;
        let j: usize = t % 9;
        let k: usize = sudoku.grid[i][j] as usize;
        assert(g[t as int] == k);
        if k != 0 {
            let ghost e0 = excl@;
            excl.set(i * 9 + j, true);
            excl.set(81 + i * 9 + (k - 1), true);
            excl.set(162 + j * 9 + (k - 1), true);
            excl.set(243 + (3 * (i / 3) + j / 3) * 9 + (k - 1), true);
            assert forall|code: int| 0 <= code < 324 implies #[trigger] excl@[code] == excl_upto(
                g,
                t + 1,
                code,
            ) by {
                assert(e0[code] == excl_upto(g, t as int, code));
            }
        }
        t = t + 1;
    }
    excl
}

/// `picked` holds the options of `raw`, item by item.
pub open spec fn same_rows(picked: Seq<Vec<usize>>, raw: Seq<Seq<int>>) -> bool {
    &&& picked.len() == raw.len()
    &&& forall|a: int| 0 <= a < picked.len() ==> #[trigger] same_row(picked[a]@, raw[a])
}

/// `row` holds the four items of `codes`, each a code.
pub open spec fn same_row(row: Seq<usize>, codes: Seq<int>) -> bool {
    &&& row.len() == 4
    &&& codes.len() == 4
    &&& forall|b: int| 0 <= b < 4 ==> #[trigger] row[b] == codes[b] && row[b] < 324
}

/// Collects the candidates of the grid, by the codes of their items, and
/// marks the items that they cover.
fn candidates(excl: &Vec<bool>, Ghost(g): Ghost<Seq<int>>) -> (res: (Vec<Vec<usize>>, Vec<bool>))
    requires
        excl@.len() == 324,
        forall|code: int| 0 <= code < 324 ==> #[trigger] excl@[code] == excluded(g, code),
    ensures
        same_rows(res.0@, raw_upto(g, 729)),
        res.1@.len() == 324,
        forall|code: int| 0 <= code < 324 ==> #[trigger] res.1@[code] == used(g, code),
{
    let mut used_f = flags(324);
    let mut picked: Vec<Vec<usize>> = Vec::new();
    let mut t: usize = 0;
    while t < 729
        invariant
            t <= 729,
            excl@.len() == 324,
            forall|code: int| 0 <= code < 324 ==> #[trigger] excl@[code] == excluded(g, code),
            used_f@.len() == 324,
            forall|code: int|
                0 <= code < 324 ==> #[trigger] used_f@[code] == used_upto(g, t as int, code),
            same_rows(picked@, raw_upto(g, t as int)),
        decreases 729 - t,
    {
        let codes = place_codes(t);
        if !excl[codes.0] && !excl[codes.1] && !excl[codes.2] && !excl[codes.3] {
            let mut row: Vec<usize> = Vec::new();
            row.push(codes.0);
            row.push(codes.1);
            row.push(codes.2);
            row.push(codes.3);
            let ghost u0 = used_f@;
            let ghost p0 = picked@;
            used_f.set(codes.0, true);
            used_f.set(codes.1, true);
            used_f.set(codes.2, true);
            used_f.set(codes.3, true);
            picked.push(row);
            proof {
                let cs = cell_codes(place_row(t as int), place_col(t as int), place_digit(t as int));
                let r0 = raw_upto(g, t as int);
                assert(cand(g, t as int));
                assert(raw_upto(g, t + 1) == r0.push(cs));
                assert forall|code: int| 0 <= code < 324 implies #[trigger] used_f@[code]
                    == used_upto(g, t + 1, code) by {
                    assert(u0[code] == used_upto(g, t as int, code));
                }
                assert forall|a: int| 0 <= a < picked@.len() implies #[trigger] same_row(
                    picked@[a]@,
                    r0.push(cs)[a],
                ) by {
                    if a < p0.len() {
                        assert(same_row(p0[a]@, r0[a]));
                    }
                }
            }
        } else {
            proof {
                assert(!cand(g, t as int));
            }
        }
        t = t + 1;
    }
    (picked, used_f)
}

/// Turns a grid into an exact-cover problem: one option for each placement
/// of a digit in a cell that no filled cell rules out, and as items those
/// that some option covers, in order of their codes.
pub fn sudoku_to_exact_cover(sudoku: &Sudoku) -> (res: ExactCover)
    requires
        sudoku.wf(),
    ensures
        res.items@.len() == item_names(sudoku.cells()).len(),
        forall|a: int|
            0 <= a < res.items@.len() ==> (#[trigger] res.items@[a])@ == item_names(sudoku.cells())[a],
        res@.opts == options(sudoku.cells()),
        res@.n == rank(sudoku.cells(), 324),
        0 <= res@.n <= 324,
        res@.m() <= 729,
        forall|a: int| 0 <= a < res@.m() ==> (#[trigger] res@.opts[a]).len() == 4,
{
    let ghost g = sudoku.cells();
    let excl = settled(sudoku);
    let (picked, used_f) = candidates(&excl, Ghost(g));
    let mut items: Vec<String> = Vec::new();
    items.push(String::new());
    let mut index: Vec<usize> = Vec::new();
    let mut count: usize = 0;
    let mut code: usize = 0;
    let ghost blank = seq![Seq::<char>::empty()];
    while code < 324
        invariant
            code <= 324,
            used_f@.len() == 324,
            forall|c: int| 0 <= c < 324 ==> #[trigger] used_f@[c] == used(g, c),
            count == rank(g, code as int),
            count <= code,
            index@.len() == code,
            forall|c: int| 0 <= c < code ==> #[trigger] index@[c] == rank(g, c) + 1,
            items@.len() == 1 + count,
            names_upto(g, code as int).len() == count,
            blank == seq![Seq::<char>::empty()],
            forall|a: int|
                0 <= a < items@.len() ==> (#[trigger] items@[a])@ == (blank + names_upto(
                    g,
                    code as int,
                ))[a],
        decreases 324 - code,
    {
        index.push(count + 1);
        if used_f[code] {
            let ghost i0 = items@;
            let nm = item_name(code);
            items.push(nm);
            count = count + 1;
            proof {
                let n0 = names_upto(g, code as int);
                let n1 = names_upto(g, code + 1);
                assert(n1 == n0.push(name(code as int)));
                assert forall|a: int| 0 <= a < items@.len() implies (#[trigger] items@[a])@ == (blank
                    + n1)[a] by {
                    if a < i0.len() {
                        assert(items@[a] == i0[a]);
                        assert(i0[a]@ == (blank + n0)[a]);
                    }
                }
            }
        }
        code = code + 1;
    }
    let mut choices: Vec<Vec<usize>> = Vec::new();
    let mut a: usize = 0;
    let ghost raw = raw_upto(g, 729);
    while a < picked.len()
        invariant
            a <= picked.len(),
            index@.len() == 324,
            forall|c: int| 0 <= c < 324 ==> #[trigger] index@[c] == rank(g, c) + 1,
            same_rows(picked@, raw),
            choices@.len() == a,
            forall|a2: int| 0 <= a2 < a ==> (#[trigger] choices@[a2])@.len() == 4,
            forall|a2: int, b: int|
                0 <= a2 < a && 0 <= b < 4 ==> #[trigger] choices@[a2]@[b] == rank(g, raw[a2][b]) + 1,
        decreases picked.len() - a,
    {
        let mut row: Vec<usize> = Vec::new();
        let mut b: usize = 0;
        assert(same_row(picked@[a as int]@, raw[a as int]));
        while b < 4
            invariant
                b <= 4,
                a < picked.len(),
                index@.len() == 324,
                forall|c: int| 0 <= c < 324 ==> #[trigger] index@[c] == rank(g, c) + 1,
                same_row(picked@[a as int]@, raw[a as int]),
                row@.len() == b,
                forall|b2: int| 0 <= b2 < b ==> #[trigger] row@[b2] == rank(g, raw[a as int][b2]) + 1,
            decreases 4 - b,
        {
            let c: usize = picked[a][b];
            row.push(index[c]);
            b = b + 1;
        }
        choices.push(row);
        a = a + 1;
    }
    let res = ExactCover { items, choices };
    proof {
        let opts = options(g);
        assert(res@.opts.len() == opts.len());
        assert forall|a2: int| 0 <= a2 < opts.len() implies #[trigger] res@.opts[a2] == opts[a2] by {
            assert(res.choices@[a2]@.len() == 4);
            assert(res@.opts[a2] =~= opts[a2]);
        }
        assert(res@.opts =~= opts);
        lemma_raw_len(g, 729);
        lemma_rank_mono(g, 0, 324);
    }
    res
}

/// Ranks grow with the code.
pub(crate) proof fn lemma_rank_mono(g: Seq<int>, a: int, b: int)
    requires
        a <= b,
    ensures
        rank(g, a) <= rank(g, b),
        0 <= rank(g, a),
        rank(g, b) <= if b > 0 { b } else { 0 },
    decreases b,
{
    if b > 0 {
        if a < b {
            lemma_rank_mono(g, a, b - 1);
        } else {
            lemma_rank_mono(g, a - 1, b - 1);
        }
    } else {
    }
}

/// An item of the problem has a smaller rank than every later code.
pub(crate) proof fn lemma_rank_used(g: Seq<int>, a: int, b: int)
    requires
        0 <= a < b,
        used(g, a),
    ensures
        rank(g, a) < rank(g, b),
{
    lemma_rank_mono(g, a + 1, b);
}

/// The names are as many as the rank says, and the name of an item of the
/// problem stands at the place of its rank.
pub(crate) proof fn lemma_names(g: Seq<int>, c: int, a: int)
    requires
        0 <= a < c,
        used(g, a),
    ensures
        names_upto(g, c).len() == rank(g, c),
        rank(g, a) < rank(g, c),
        names_upto(g, c)[rank(g, a)] == name(a),
    decreases c,
{
    lemma_names_len(g, c);
    lemma_names_len(g, c - 1);
    lemma_rank_used(g, a, c);
    lemma_rank_mono(g, 0, a);
    if a < c - 1 {
        lemma_names(g, c - 1, a);
        assert(names_upto(g, c)[rank(g, a)] == names_upto(g, c - 1)[rank(g, a)]);
    } else {
        assert(names_upto(g, c) == names_upto(g, c - 1).push(name(a)));
    }
}

/// There are as many names as items.
pub(crate) proof fn lemma_names_len(g: Seq<int>, c: int)
    ensures
        names_upto(g, c).len() == rank(g, c),
    decreases c,
{
    if c > 0 {
        lemma_names_len(g, c - 1);
    }
}

/// What one of the first `t` placements covers, some placement covers.
pub(crate) proof fn lemma_used_mono(g: Seq<int>, t: int, end: int, code: int)
    requires
        t <= end,
        used_upto(g, t, code),
    ensures
        used_upto(g, end, code),
    decreases end - t,
{
    if t < end {
        lemma_used_mono(g, t, end - 1, code);
    }
}

/// Every option stems from a candidate placement.
pub(crate) proof fn lemma_raw(g: Seq<int>, end: int, a: int) -> (t: int)
    requires
        0 <= a < raw_upto(g, end).len(),
    ensures
        t == placement_upto(g, end, a),
        0 <= t < end,
        cand(g, t),
        raw_upto(g, t).len() == a,
        raw_upto(g, end)[a] == cell_codes(place_row(t), place_col(t), place_digit(t)),
    decreases end,
{
    if cand(g, end - 1) && a == raw_upto(g, end - 1).len() {
        end - 1
    } else {
        lemma_raw(g, end - 1, a)
    }
}

/// There are no more options than placements.
pub(crate) proof fn lemma_raw_len(g: Seq<int>, end: int)
    requires
        0 <= end,
    ensures
        raw_upto(g, end).len() <= end,
    decreases end,
{
    if end > 0 {
        lemma_raw_len(g, end - 1);
    }
}

/// What the problem of a grid says of one of its options: its four items
/// are items of the problem, in increasing order, and the first two bear the
/// names of the cell and of the digit in the row.
pub(crate) proof fn lemma_option(g: Seq<int>, a: int) -> (t: int)
    requires
        0 <= a < options(g).len(),
    ensures
        t == placement(g, a),
        0 <= t < 729,
        cand(g, t),
        raw_upto(g, t).len() == a,
        raw_upto(g, 729)[a] == cell_codes(place_row(t), place_col(t), place_digit(t)),
        options(g)[a].len() == 4,
        1 <= options(g)[a][0] < options(g)[a][1] < options(g)[a][2] < options(g)[a][3] <= rank(
            g,
            324,
        ),
        item_names(g)[options(g)[a][0]] == name(place_row(t) * 9 + place_col(t)),
        item_names(g)[options(g)[a][1]] == name(81 + place_row(t) * 9 + (place_digit(t) - 1)),
{
    let t = lemma_raw(g, 729, a);
    lemma_codes(t);
    let codes = cell_codes(place_row(t), place_col(t), place_digit(t));
    assert forall|b: int| 0 <= b < 4 implies used(g, #[trigger] codes[b]) by {
        assert(used_upto(g, t + 1, codes[b]));
        lemma_used_mono(g, t + 1, 729, codes[b]);
    }
    assert(used(g, codes[0]) && used(g, codes[1]) && used(g, codes[2]) && used(g, codes[3]));
    lemma_rank_mono(g, 0, codes[0]);
    lemma_rank_used(g, codes[0], codes[1]);
    lemma_rank_used(g, codes[1], codes[2]);
    lemma_rank_used(g, codes[2], codes[3]);
    lemma_rank_used(g, codes[3], 324);
    lemma_names(g, 324, codes[0]);
    lemma_names(g, 324, codes[1]);
    t
}

} // verus!
