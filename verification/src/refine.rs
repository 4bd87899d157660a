//! How the state of the matrix during the search relates to the search as
//! stated on the problem.

use vstd::prelude::*;

use crate::layout::Layout;
use crate::algorithm::{
    taken, visible, fits, count_fits, mrv_upto, mrv, search, try_from, unwind, lemma_try_skip,
    lemma_unwind_push, lemma_mrv_free,
};
use crate::matrix::{count_live, live_in};
use crate::cover::{
    trail, cover_stack, cover_removed, row_hit, lemma_sem, lemma_concat_contains, lemma_cover_elems,
};
use crate::search::{
    cov_of, pick, other_items, lemma_cover_stack_prefix, stack_valid, chosen_ok,
};

verus! {

/// The options of the chosen nodes, numbered from 0.
pub open spec fn rows_of(lay: Layout, xs: Seq<int>) -> Seq<int> {
    Seq::new(xs.len(), |j: int| lay.row[xs[j]])
}

/// Every entry of the stack is a node.
pub open spec fn all_nodes(lay: Layout, xs: Seq<int>) -> bool {
    forall|j: int| 0 <= j < xs.len() ==> lay.is_node(#[trigger] xs[j])
}

/// The node of item number `t` of option `k`.
pub(crate) proof fn lemma_node_of(lay: Layout, k: int, t: int) -> (y: int)
    requires
        lay.wf(),
        0 <= k < lay.p.m(),
        0 <= t < lay.p.opts[k].len(),
    ensures
        y == lay.sp[k] + 1 + t,
        lay.is_node(y),
        lay.row[y] == k,
        lay.top(y) == lay.p.opts[k][t],
        lay.lo(y) == lay.sp[k] + 1,
{
    let y = lay.sp[k] + 1 + t;
    assert(lay.step(k));
    assert(lay.ordered(k + 1, lay.p.m()));
    lay.lemma_row_unique(y, k);
    lay.lemma_node(y);
    y
}

/// Choosing a node covers exactly the items of its option.
pub(crate) proof fn lemma_pick(lay: Layout, x: int, c: int)
    requires
        lay.wf(),
        lay.is_node(x),
    ensures
        pick(lay, x).contains(c) <==> lay.p.opts[lay.row[x]].contains(c),
{
    lay.lemma_node(x);
    let k = lay.row[x];
    let opt = lay.p.opts[k];
    let lo = lay.lo(x);
    let hi = lay.hi(x);
    let pk = pick(lay, x);
    let others = lay.others(x);
    if pk.contains(c) {
        let a = choose|a: int| 0 <= a < pk.len() && pk[a] == c;
        if a == 0 {
            assert(opt[x - lo] == c);
        } else {
            let y = others[a - 1];
            assert(pk[a] == other_items(lay, x)[a - 1]);
            assert(lay.row[y] == k);
            assert(opt[y - lo] == c);
        }
    }
    if opt.contains(c) {
        let t = choose|t: int| 0 <= t < opt.len() && opt[t] == c;
        let y = lo + t;
        assert(lay.row[y] == k);
        assert(lay.is_node(y));
        assert(lay.top(y) == c);
        if y == x {
            assert(pk[0] == c);
        } else {
            let j = if y > x { y - x - 1 } else { y - x - 1 + (hi - lo) };
            assert(others[j] == y);
            assert(other_items(lay, x)[j] == c);
            assert(pk[j + 1] == c);
        }
    }
}

/// An item is covered by the chosen options exactly if it is on the stack
/// of covered items.
pub(crate) proof fn lemma_taken(lay: Layout, xs: Seq<int>, c: int)
    requires
        lay.wf(),
        all_nodes(lay, xs),
    ensures
        taken(lay.p, rows_of(lay, xs), c) <==> cov_of(lay, xs).contains(c),
    decreases xs.len(),
{
    let p = lay.p;
    let ch = rows_of(lay, xs);
    if xs.len() == 0 {
    } else {
        let xs1 = xs.drop_last();
        let ch1 = rows_of(lay, xs1);
        let x = xs.last();
        assert(lay.is_node(xs[xs.len() - 1]));
        assert forall|j: int| 0 <= j < xs1.len() implies lay.is_node(#[trigger] xs1[j]) by {
            assert(xs1[j] == xs[j]);
        }
        lemma_taken(lay, xs1, c);
        lemma_pick(lay, x, c);
        lemma_concat_contains(cov_of(lay, xs1), pick(lay, x), c);
        if taken(p, ch, c) {
            let j = choose|j: int| 0 <= j < ch.len() && #[trigger] p.opts[ch[j]].contains(c);
            if j < xs1.len() {
                assert(ch1[j] == ch[j]);
                assert(p.opts[ch1[j]].contains(c));
            }
        }
        if taken(p, ch1, c) {
            let j = choose|j: int| 0 <= j < ch1.len() && #[trigger] p.opts[ch1[j]].contains(c);
            assert(ch[j] == ch1[j]);
            assert(p.opts[ch[j]].contains(c));
        }
        if p.opts[lay.row[x]].contains(c) {
            assert(ch[xs.len() - 1] == lay.row[x]);
            assert(p.opts[ch[xs.len() - 1]].contains(c));
        }
    }
}

/// A node in the column of a free item is unlinked exactly if its option is
/// not open.
pub(crate) proof fn lemma_open(lay: Layout, xs: Seq<int>, y: int)
    requires
        lay.wf(),
        all_nodes(lay, xs),
        cover_stack(lay, cov_of(lay, xs)),
        lay.is_node(y),
        !cov_of(lay, xs).contains(lay.top(y)),
    ensures
        trail(lay, cov_of(lay, xs)).contains(y) <==> !visible(lay.p, rows_of(lay, xs), lay.row[y]),
{
    let p = lay.p;
    let cov = cov_of(lay, xs);
    let ch = rows_of(lay, xs);
    let k = lay.row[y];
    lay.lemma_node(y);
    lemma_sem(lay, cov, y);
    if row_hit(lay, cov, y) {
        let y2 = choose|y2: int| lay.lo(y) <= y2 < lay.hi(y) && cov.contains(#[trigger] lay.top(y2));
        lemma_taken(lay, xs, lay.top(y2));
        assert(lay.row[y2] == k);
        let t = y2 - lay.lo(y);
        assert(p.opts[k][t] == lay.top(y2));
        assert(!visible(p, ch, k));
    }
    if !visible(p, ch, k) {
        let t = choose|t: int| 0 <= t < p.opts[k].len() && taken(p, ch, #[trigger] p.opts[k][t]);
        lemma_taken(lay, xs, p.opts[k][t]);
        let y2 = lay.lo(y) + t;
        assert(lay.row[y2] == k);
        assert(lay.top(y2) == p.opts[k][t]);
        assert(row_hit(lay, cov, y));
    }
}

/// Indices at which no node of column `c` is linked add nothing to its
/// count.
pub(crate) proof fn lemma_count_span(lay: Layout, stamp: Seq<int>, c: int, a: int, b: int)
    requires
        a <= b,
        forall|y: int| a <= y < b ==> !#[trigger] live_in(lay, stamp, c, y),
    ensures
        count_live(lay, stamp, c, b) == count_live(lay, stamp, c, a),
    decreases b - a,
{
    if a < b {
        lemma_count_span(lay, stamp, c, a, b - 1);
        assert(!live_in(lay, stamp, c, b - 1));
    }
}

/// A stretch of indices with exactly one linked node of column `c` adds one
/// to its count.
pub(crate) proof fn lemma_count_one(lay: Layout, stamp: Seq<int>, c: int, a: int, b: int, w: int)
    requires
        0 <= a <= w < b,
        live_in(lay, stamp, c, w),
        forall|y: int| a <= y < b && y != w ==> !#[trigger] live_in(lay, stamp, c, y),
    ensures
        count_live(lay, stamp, c, b) == count_live(lay, stamp, c, a) + 1,
{
    lemma_count_span(lay, stamp, c, a, w);
    lemma_count_span(lay, stamp, c, w + 1, b);
}

/// The stamps say of every node whether the covered items `cov` left it
/// linked.
pub open spec fn stamps_follow(lay: Layout, stamp: Seq<int>, cov: Seq<int>) -> bool {
    &&& stamp.len() == lay.z() + 1
    &&& forall|y: int| lay.is_node(y) ==> (#[trigger] stamp[y] < 0 <==> !trail(lay, cov).contains(y))
}

/// The nodes of option `k` add one to the count of a free item if the option
/// fits it, and nothing otherwise.
pub(crate) proof fn lemma_count_row(lay: Layout, stamp: Seq<int>, xs: Seq<int>, c: int, k: int)
    requires
        lay.wf(),
        all_nodes(lay, xs),
        cover_stack(lay, cov_of(lay, xs)),
        stamps_follow(lay, stamp, cov_of(lay, xs)),
        !cov_of(lay, xs).contains(c),
        0 <= k < lay.p.m(),
    ensures
        count_live(lay, stamp, c, lay.sp[k + 1] + 1) == count_live(lay, stamp, c, lay.sp[k] + 1) + (
        if fits(lay.p, rows_of(lay, xs), c, k) {
            1int
        } else {
            0int
        }),
{
    let p = lay.p;
    let ch = rows_of(lay, xs);
    let a = lay.sp[k] + 1;
    let b = lay.sp[k + 1] + 1;
    assert(lay.step(k));
    assert(lay.ordered(0, k));
    assert(lay.ordered(k + 1, p.m()));
    assert forall|y: int| a <= y < b && lay.is_node(y) implies lay.row[y] == k && lay.top(y)
        == p.opts[k][y - a] && y < b - 1 by {
        lay.lemma_row_unique(y, k);
    }
    if fits(p, ch, c, k) {
        let t = choose|t: int| 0 <= t < p.opts[k].len() && p.opts[k][t] == c;
        let w = lemma_node_of(lay, k, t);
        lemma_open(lay, xs, w);
        assert(live_in(lay, stamp, c, w));
        assert forall|y: int| a <= y < b && y != w implies !#[trigger] live_in(lay, stamp, c, y) by {
            if lay.is_node(y) {
                assert(p.opts[k][y - a] != p.opts[k][t]);
            }
        }
        lemma_count_one(lay, stamp, c, a, b, w);
    } else {
        assert forall|y: int| a <= y < b implies !#[trigger] live_in(lay, stamp, c, y) by {
            if lay.is_node(y) && lay.top(y) == c {
                assert(p.opts[k][y - a] == c);
                assert(p.opts[k].contains(c));
                lemma_open(lay, xs, y);
            }
        }
        lemma_count_span(lay, stamp, c, a, b);
    }
}

/// The count of a free item is the number of options that fit it.
pub(crate) proof fn lemma_count_bridge(lay: Layout, stamp: Seq<int>, xs: Seq<int>, c: int, k: int)
    requires
        lay.wf(),
        all_nodes(lay, xs),
        cover_stack(lay, cov_of(lay, xs)),
        stamps_follow(lay, stamp, cov_of(lay, xs)),
        !cov_of(lay, xs).contains(c),
        0 <= k <= lay.p.m(),
    ensures
        count_live(lay, stamp, c, lay.sp[k] + 1) == count_fits(lay.p, rows_of(lay, xs), c, k),
    decreases k,
{
    if k == 0 {
        assert forall|y: int| 0 <= y < lay.p.n + 2 implies !#[trigger] live_in(lay, stamp, c, y) by {}
        lemma_count_span(lay, stamp, c, 0, lay.p.n + 2);
    } else {
        lemma_count_bridge(lay, stamp, xs, c, k - 1);
        lemma_count_row(lay, stamp, xs, c, k - 1);
    }
}

/// Among the items up to `c` that are not covered, the first one with the
/// smallest count; 0 if all are covered.
pub open spec fn best_upto(covered: Seq<int>, toplen: Seq<i32>, c: int) -> int
    decreases c,
{
    if c <= 0 {
        0
    } else {
        let best = best_upto(covered, toplen, c - 1);
        if covered.contains(c) {
            best
        } else if best == 0 || toplen[c] < toplen[best] {
            c
        } else {
            best
        }
    }
}

/// Covered items make no difference to the choice.
pub(crate) proof fn lemma_best_skip(covered: Seq<int>, toplen: Seq<i32>, a: int, b: int)
    requires
        0 <= a <= b,
        forall|d: int| a < d <= b ==> covered.contains(d),
    ensures
        best_upto(covered, toplen, b) == best_upto(covered, toplen, a),
    decreases b - a,
{
    if a < b {
        lemma_best_skip(covered, toplen, a, b - 1);
    }
}

/// What is chosen is not covered.
pub(crate) proof fn lemma_best_free(covered: Seq<int>, toplen: Seq<i32>, c: int)
    ensures
        best_upto(covered, toplen, c) != 0 ==> 1 <= best_upto(covered, toplen, c) <= c
            && !covered.contains(best_upto(covered, toplen, c)),
        best_upto(covered, toplen, c) >= 0,
    decreases c,
{
    if c > 0 {
        lemma_best_free(covered, toplen, c - 1);
    }
}

/// The choice by the counts in the matrix is the choice by the number of
/// options that fit.
pub(crate) proof fn lemma_best_is_mrv(
    lay: Layout,
    stamp: Seq<int>,
    toplen: Seq<i32>,
    xs: Seq<int>,
    c: int,
)
    requires
        lay.wf(),
        all_nodes(lay, xs),
        cover_stack(lay, cov_of(lay, xs)),
        stamps_follow(lay, stamp, cov_of(lay, xs)),
        0 <= c <= lay.p.n,
        forall|d: int|
            1 <= d <= lay.p.n ==> #[trigger] toplen[d] == count_live(lay, stamp, d, lay.z() + 1),
    ensures
        best_upto(cov_of(lay, xs), toplen, c) == mrv_upto(lay.p, rows_of(lay, xs), c),
    decreases c,
{
    if c > 0 {
        let cov = cov_of(lay, xs);
        lemma_best_is_mrv(lay, stamp, toplen, xs, c - 1);
        lemma_taken(lay, xs, c);
        let best = best_upto(cov, toplen, c - 1);
        lemma_best_free(cov, toplen, c - 1);
        if !cov.contains(c) {
            lemma_count_bridge(lay, stamp, xs, c, lay.p.m());
            if best != 0 {
                lemma_count_bridge(lay, stamp, xs, best, lay.p.m());
            }
        }
    }
}

/// Between two neighbours in the column of item `i`, once `i` is covered, no
/// option fits `i`; and where the lower neighbour is a node, its option does.
/// `a` is the upper neighbour, the header or a node, and `d` the lower one.
pub(crate) proof fn lemma_walk(lay: Layout, xs: Seq<int>, i: int, a: int, d: int)
    requires
        lay.wf(),
        all_nodes(lay, xs),
        cover_stack(lay, cov_of(lay, xs).push(i)),
        a == i || (lay.is_node(a) && lay.top(a) == i),
        d == i || (lay.is_node(d) && lay.top(d) == i && a < d && !trail(
            lay,
            cov_of(lay, xs).push(i),
        ).contains(d)),
        forall|y: int|
            a < y < (if d == i { lay.z() + 1 } else { d }) && lay.is_node(y) && lay.top(y) == i
                ==> #[trigger] trail(lay, cov_of(lay, xs).push(i)).contains(y),
    ensures
        forall|k: int|
            (if a == i { 0 } else { lay.row[a] + 1 }) <= k < (if d == i { lay.p.m() } else { lay.row[d] })
                ==> !#[trigger] fits(lay.p, rows_of(lay, xs), i, k),
        d != i ==> fits(lay.p, rows_of(lay, xs), i, lay.row[d]),
        d != i ==> 0 <= lay.row[d] < lay.p.m(),
        a != i ==> 0 <= lay.row[a] < lay.p.m(),
        a != i && d != i ==> lay.row[a] < lay.row[d],
{
    let p = lay.p;
    let cov = cov_of(lay, xs);
    let ch = rows_of(lay, xs);
    let full = cov.push(i);
    lemma_cover_stack_prefix(lay, cov, i);
    assert(full.drop_last() =~= cov);
    assert(full.last() == i);
    let added = cover_removed(lay, trail(lay, cov), i);
    lemma_cover_elems(lay, trail(lay, cov), i, lay.z());
    assert forall|y: int| lay.is_node(y) && lay.top(y) == i implies (trail(lay, full).contains(y)
        <==> !visible(p, ch, lay.row[y])) by {
        lemma_concat_contains(trail(lay, cov), added, y);
        lemma_open(lay, xs, y);
        if added.contains(y) {
            let j = choose|j: int| 0 <= j < added.len() && added[j] == y;
            assert(lay.top(added[j]) != i);
        }
    }
    if a != i {
        lay.lemma_node(a);
    }
    if d != i {
        lay.lemma_node(d);
        let t = d - lay.lo(d);
        assert(p.opts[lay.row[d]][t] == i);
        assert(p.opts[lay.row[d]].contains(i));
        if a != i {
            lay.lemma_rows_ordered(a, d);
        }
    }
    assert forall|k: int|
        (if a == i { 0 } else { lay.row[a] + 1 }) <= k < (if d == i { p.m() } else { lay.row[d] })
        implies !#[trigger] fits(p, ch, i, k) by {
        if fits(p, ch, i, k) {
            let t = choose|t: int| 0 <= t < p.opts[k].len() && p.opts[k][t] == i;
            let w = lemma_node_of(lay, k, t);
            assert(!trail(lay, full).contains(w));
            lay.lemma_size();
            if a != i {
                if w <= a {
                    if w < a {
                        lay.lemma_rows_ordered(w, a);
                    }
                }
            }
            if d != i {
                if w >= d {
                    if w > d {
                        lay.lemma_rows_ordered(d, w);
                    }
                }
            }
        }
    }
}

/// The choice at level `j` was made for the item that the search branches
/// on there.
pub open spec fn level_ok(lay: Layout, xs: Seq<int>, j: int) -> bool {
    lay.top(xs[j]) == mrv(lay.p, rows_of(lay, xs.take(j)))
}

/// Every choice on the stack was made for the item that the search branches
/// on at its level.
pub open spec fn levels_ok(lay: Layout, xs: Seq<int>) -> bool {
    forall|j: int| 0 <= j < xs.len() ==> #[trigger] level_ok(lay, xs, j)
}

/// A valid stack holds nodes.
pub(crate) proof fn lemma_valid_nodes(lay: Layout, xs: Seq<int>)
    requires
        stack_valid(lay, xs),
    ensures
        all_nodes(lay, xs),
{
    assert forall|j: int| 0 <= j < xs.len() implies lay.is_node(#[trigger] xs[j]) by {
        assert(chosen_ok(lay, xs, j));
    }
}

/// The position in the order of the options at which a walk down a column
/// stands: the option of the node, or past the last option at the header.
pub open spec fn reach(lay: Layout, i: int, d: int) -> int {
    if d == i {
        lay.p.m()
    } else {
        lay.row[d]
    }
}

/// Entering a level: the item that the matrix selects is the item that the
/// search branches on, and the first node left in its column stands for the
/// first option that fits the item.
pub(crate) proof fn lemma_enter(
    lay: Layout,
    stamp: Seq<int>,
    toplen: Seq<i32>,
    xs: Seq<int>,
    i: int,
    d: int,
)
    requires
        lay.wf(),
        stack_valid(lay, xs),
        cover_stack(lay, cov_of(lay, xs).push(i)),
        stamps_follow(lay, stamp, cov_of(lay, xs)),
        forall|c: int|
            1 <= c <= lay.p.n ==> #[trigger] toplen[c] == count_live(lay, stamp, c, lay.z() + 1),
        i == best_upto(cov_of(lay, xs), toplen, lay.p.n),
        xs.len() < lay.p.n,
        d == i || (lay.is_node(d) && lay.top(d) == i && !trail(lay, cov_of(lay, xs).push(i)).contains(
            d,
        )),
        forall|y: int|
            i < y < (if d == i { lay.z() + 1 } else { d }) && lay.is_node(y) && lay.top(y) == i
                ==> #[trigger] trail(lay, cov_of(lay, xs).push(i)).contains(y),
    ensures
        i == mrv(lay.p, rows_of(lay, xs)),
        search(lay.p, rows_of(lay, xs)) == try_from(lay.p, rows_of(lay, xs), i, reach(lay, i, d)),
        d != i ==> fits(lay.p, rows_of(lay, xs), i, lay.row[d]),
{
    let p = lay.p;
    let ch = rows_of(lay, xs);
    lemma_valid_nodes(lay, xs);
    lemma_cover_stack_prefix(lay, cov_of(lay, xs), i);
    lemma_best_is_mrv(lay, stamp, toplen, xs, p.n);
    lay.lemma_size();
    lemma_walk(lay, xs, i, i, d);
    lemma_try_skip(p, ch, i, 0, reach(lay, i, d));
}

/// Leaving a level that has run out of options: the search goes on one
/// level up, at the next node left in the column there.
pub(crate) proof fn lemma_retreat(lay: Layout, xs1: Seq<int>, d: int)
    requires
        lay.wf(),
        xs1.len() > 0,
        xs1.len() <= lay.p.n,
        stack_valid(lay, xs1),
        levels_ok(lay, xs1),
        cover_stack(lay, cov_of(lay, xs1.drop_last()).push(lay.top(xs1.last()))),
        d == lay.top(xs1.last()) || (lay.is_node(d) && lay.top(d) == lay.top(xs1.last()) && xs1.last()
            < d && !trail(lay, cov_of(lay, xs1.drop_last()).push(lay.top(xs1.last()))).contains(d)),
        forall|y: int|
            xs1.last() < y < (if d == lay.top(xs1.last()) { lay.z() + 1 } else { d }) && lay.is_node(y)
                && lay.top(y) == lay.top(xs1.last()) ==> #[trigger] trail(
                lay,
                cov_of(lay, xs1.drop_last()).push(lay.top(xs1.last())),
            ).contains(y),
    ensures
        lay.top(xs1.last()) == mrv(lay.p, rows_of(lay, xs1.drop_last())),
        unwind(lay.p, rows_of(lay, xs1), None) == unwind(
            lay.p,
            rows_of(lay, xs1.drop_last()),
            try_from(
                lay.p,
                rows_of(lay, xs1.drop_last()),
                lay.top(xs1.last()),
                reach(lay, lay.top(xs1.last()), d),
            ),
        ),
        d != lay.top(xs1.last()) ==> fits(
            lay.p,
            rows_of(lay, xs1.drop_last()),
            lay.top(xs1.last()),
            lay.row[d],
        ),
        levels_ok(lay, xs1.drop_last()),
{
    let p = lay.p;
    let xs = xs1.drop_last();
    let xl = xs1.last();
    let i = lay.top(xl);
    let ch1 = rows_of(lay, xs1);
    let ch = rows_of(lay, xs);
    let l = xs.len() as int;
    lemma_valid_nodes(lay, xs1);
    assert(lay.is_node(xs1[l]));
    assert forall|j: int| 0 <= j < xs.len() implies lay.is_node(#[trigger] xs[j]) by {
        assert(xs[j] == xs1[j]);
    }
    assert(level_ok(lay, xs1, l));
    assert(xs1.take(l) =~= xs);
    assert(ch1.drop_last() =~= ch);
    assert(ch1.last() == lay.row[xl]);
    lay.lemma_node(xl);
    lemma_walk(lay, xs, i, xl, d);
    lemma_try_skip(p, ch, i, lay.row[xl] + 1, reach(lay, i, d));
    assert forall|j: int| 0 <= j < xs.len() implies #[trigger] level_ok(lay, xs, j) by {
        assert(level_ok(lay, xs1, j));
        assert(xs1.take(j) =~= xs.take(j));
    }
}

/// Committing to an option that fits: the search goes on one level down.
pub(crate) proof fn lemma_advance(lay: Layout, xs: Seq<int>, x: int)
    requires
        lay.wf(),
        levels_ok(lay, xs),
        lay.is_node(x),
        lay.top(x) == mrv(lay.p, rows_of(lay, xs)),
        fits(lay.p, rows_of(lay, xs), lay.top(x), lay.row[x]),
        xs.len() < lay.p.n,
    ensures
        levels_ok(lay, xs.push(x)),
        unwind(lay.p, rows_of(lay, xs.push(x)), search(lay.p, rows_of(lay, xs.push(x)))) == unwind(
            lay.p,
            rows_of(lay, xs),
            try_from(lay.p, rows_of(lay, xs), lay.top(x), lay.row[x]),
        ),
{
    let p = lay.p;
    let ch = rows_of(lay, xs);
    let xs2 = xs.push(x);
    assert(rows_of(lay, xs2) =~= ch.push(lay.row[x]));
    lemma_unwind_push(p, ch, lay.top(x), lay.row[x]);
    assert forall|j: int| 0 <= j < xs2.len() implies #[trigger] level_ok(lay, xs2, j) by {
        if j < xs.len() {
            assert(level_ok(lay, xs, j));
            assert(xs2.take(j) =~= xs.take(j));
        } else {
            assert(xs2.take(j) =~= xs);
        }
    }
}

/// With every item covered the search has found its cover.
pub(crate) proof fn lemma_finish(lay: Layout, xs: Seq<int>)
    requires
        lay.wf(),
        stack_valid(lay, xs),
        forall|c: int| 1 <= c <= lay.p.n ==> cov_of(lay, xs).contains(c),
    ensures
        search(lay.p, rows_of(lay, xs)) == Some(rows_of(lay, xs)),
{
    let p = lay.p;
    let ch = rows_of(lay, xs);
    lemma_valid_nodes(lay, xs);
    lemma_mrv_free(p, ch, p.n);
    assert forall|c: int| 1 <= c <= p.n implies taken(p, ch, c) by {
        lemma_taken(lay, xs, c);
    }
}

} // verus!
