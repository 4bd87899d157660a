//! The search driver: depth-first search over the matrix with an explicit
//! stack of choices.

use vstd::prelude::*;
use crate::layout::Layout;
use crate::matrix::{ExactCoverSolver, links_ok, sides_ok};
use crate::cover::{trail, cover_stack, cover_removed, lemma_clean, lemma_concat_contains};
use crate::algorithm::{
    mrv, search, try_from, unwind, solution, answer, fits, answer_is_exact_cover,
    answer_is_empty_iff_no_cover,
};
use crate::problem::as_ints;
use crate::refine::{
    best_upto, lemma_best_skip, rows_of, levels_ok, reach, stamps_follow, lemma_enter, lemma_retreat,
    lemma_advance, lemma_finish,
};

verus! {

/// The items of the other nodes of the option of node `x`, in scan order.
pub open spec fn other_items(lay: Layout, x: int) -> Seq<int> {
    Seq::new(lay.others(x).len(), |j: int| lay.top(lay.others(x)[j]))
}

/// The items that choosing node `x` covers, in the order in which they are
/// covered: the item of `x` first, then the items of the other nodes of its
/// option.
pub open spec fn pick(lay: Layout, x: int) -> Seq<int> {
    seq![lay.top(x)] + other_items(lay, x)
}

/// The stack of covered items when the nodes `xs` have been chosen, one per
/// level of the search.
pub open spec fn cov_of(lay: Layout, xs: Seq<int>) -> Seq<int>
    decreases xs.len(),
{
    if xs.len() == 0 {
        Seq::empty()
    } else {
        cov_of(lay, xs.drop_last()) + pick(lay, xs.last())
    }
}

/// The choice at level `j` was open when it was made: `xs[j]` is a node of
/// an item that the earlier choices left uncovered, and it was still linked
/// in its column once that item had been covered.
pub open spec fn chosen_ok(lay: Layout, xs: Seq<int>, j: int) -> bool {
    let c0 = cov_of(lay, xs.take(j));
    let x = xs[j];
    &&& lay.is_node(x)
    &&& !c0.contains(lay.top(x))
    &&& !trail(lay, c0.push(lay.top(x))).contains(x)
}

/// Every choice on the stack was open when it was made.
pub open spec fn stack_valid(lay: Layout, xs: Seq<int>) -> bool {
    forall|j: int| 0 <= j < xs.len() ==> #[trigger] chosen_ok(lay, xs, j)
}

/// Digit `j` of the stack read as a number, zero past its end.
pub open spec fn digit(xs: Seq<int>, j: int) -> int {
    if 0 <= j < xs.len() {
        xs[j]
    } else {
        0
    }
}

/// The first `j` choices read as a number in base `b`, most significant
/// first. The search visits stacks in increasing order of this number, which
/// is why it ends.
pub open spec fn horner(xs: Seq<int>, b: int, j: int) -> int
    decreases j,
{
    if j <= 0 {
        0
    } else {
        horner(xs, b, j - 1) * b + digit(xs, j - 1)
    }
}

/// The largest number of `j` digits in base `b`.
pub open spec fn ceiling(b: int, j: int) -> int
    decreases j,
{
    if j <= 0 {
        0
    } else {
        ceiling(b, j - 1) * b + (b - 1)
    }
}

/// A number of `j` digits is at most the largest such number.
pub(crate) proof fn lemma_horner_bound(xs: Seq<int>, b: int, j: int)
    requires
        b >= 1,
        forall|k: int| 0 <= k < xs.len() ==> 0 <= #[trigger] xs[k] < b,
    ensures
        0 <= horner(xs, b, j) <= ceiling(b, j),
    decreases j,
{
    if j > 0 {
        lemma_horner_bound(xs, b, j - 1);
        let h = horner(xs, b, j - 1);
        let c = ceiling(b, j - 1);
        assert(0 <= h * b <= c * b) by (nonlinear_arith)
            requires
                0 <= h <= c,
                b >= 1,
        ;
    }
}

/// Stacks that agree on the first `j` levels read as the same number there.
pub(crate) proof fn lemma_horner_same(xs: Seq<int>, ys: Seq<int>, b: int, j: int)
    requires
        forall|k: int| 0 <= k < j ==> digit(xs, k) == digit(ys, k),
    ensures
        horner(xs, b, j) == horner(ys, b, j),
    decreases j,
{
    if j > 0 {
        lemma_horner_same(xs, ys, b, j - 1);
    }
}

/// A stack that agrees with another on the first `l0` levels and holds a
/// larger choice at level `l0` reads as a larger number.
pub(crate) proof fn lemma_horner_grows(xs: Seq<int>, ys: Seq<int>, b: int, l0: int, j: int)
    requires
        b >= 1,
        0 <= l0 < j,
        forall|k: int| 0 <= k < l0 ==> digit(xs, k) == digit(ys, k),
        digit(ys, l0) > digit(xs, l0),
        forall|k: int| 0 <= k < xs.len() ==> 0 <= #[trigger] xs[k] < b,
        forall|k: int| 0 <= k < ys.len() ==> 0 <= #[trigger] ys[k],
    ensures
        horner(ys, b, j) > horner(xs, b, j),
    decreases j,
{
    if j == l0 + 1 {
        lemma_horner_same(xs, ys, b, l0);
    } else {
        lemma_horner_grows(xs, ys, b, l0, j - 1);
        let hy = horner(ys, b, j - 1);
        let hx = horner(xs, b, j - 1);
        assert(hy * b >= hx * b + b) by (nonlinear_arith)
            requires
                hy >= hx + 1,
                b >= 1,
        ;
    }
}

/// A stack of distinct items holds no more items than there are.
pub(crate) proof fn lemma_stack_bound(lay: Layout, cov: Seq<int>)
    requires
        cover_stack(lay, cov),
        lay.p.n >= 0,
    ensures
        cov.len() <= lay.p.n,
{
    crate::algorithm::lemma_distinct_bound(cov, lay.p.n);
}

/// Every choice covers at least one item.
pub(crate) proof fn lemma_cov_len(lay: Layout, xs: Seq<int>)
    ensures
        cov_of(lay, xs).len() >= xs.len(),
    decreases xs.len(),
{
    if xs.len() > 0 {
        lemma_cov_len(lay, xs.drop_last());
    }
}

/// Pushing an open choice keeps the stack valid, and covers the items of the
/// choice on top of what was covered.
pub(crate) proof fn lemma_push_valid(lay: Layout, xs: Seq<int>, x: int)
    requires
        stack_valid(lay, xs),
        lay.is_node(x),
        !cov_of(lay, xs).contains(lay.top(x)),
        !trail(lay, cov_of(lay, xs).push(lay.top(x))).contains(x),
    ensures
        stack_valid(lay, xs.push(x)),
        cov_of(lay, xs.push(x)) == cov_of(lay, xs).push(lay.top(x)) + other_items(lay, x),
{
    let xs2 = xs.push(x);
    assert(xs2.drop_last() =~= xs);
    assert(cov_of(lay, xs2) =~= cov_of(lay, xs).push(lay.top(x)) + other_items(lay, x));
    assert forall|j: int| 0 <= j < xs2.len() implies #[trigger] chosen_ok(lay, xs2, j) by {
        if j < xs.len() {
            assert(chosen_ok(lay, xs, j));
            assert(xs2.take(j) =~= xs.take(j));
        } else {
            assert(xs2.take(j) =~= xs);
        }
    }
}

/// Popping the last choice keeps the stack valid; the choice was open, and
/// its items lie on top of what the rest of the stack covers.
pub(crate) proof fn lemma_pop_valid(lay: Layout, xs: Seq<int>)
    requires
        stack_valid(lay, xs),
        xs.len() > 0,
    ensures
        stack_valid(lay, xs.drop_last()),
        lay.is_node(xs.last()),
        !cov_of(lay, xs.drop_last()).contains(lay.top(xs.last())),
        !trail(lay, cov_of(lay, xs.drop_last()).push(lay.top(xs.last()))).contains(xs.last()),
        cov_of(lay, xs) == cov_of(lay, xs.drop_last()).push(lay.top(xs.last())) + other_items(
            lay,
            xs.last(),
        ),
{
    let xs1 = xs.drop_last();
    let l = xs.len() - 1;
    assert(chosen_ok(lay, xs, l));
    assert(xs.take(l) =~= xs1);
    assert(cov_of(lay, xs) =~= cov_of(lay, xs1).push(lay.top(xs.last())) + other_items(
        lay,
        xs.last(),
    ));
    assert forall|j: int| 0 <= j < xs1.len() implies #[trigger] chosen_ok(lay, xs1, j) by {
        assert(chosen_ok(lay, xs, j));
        assert(xs.take(j) =~= xs1.take(j));
    }
}

/// A prefix of a stack of distinct items is one too.
pub(crate) proof fn lemma_cover_stack_prefix(lay: Layout, c: Seq<int>, i: int)
    requires
        cover_stack(lay, c.push(i)),
    ensures
        cover_stack(lay, c),
        !c.contains(i),
        1 <= i <= lay.p.n,
{
    let full = c.push(i);
    assert(full[c.len() as int] == i);
    assert forall|j: int| 0 <= j < c.len() implies 1 <= #[trigger] c[j] <= lay.p.n by {
        assert(full[j] == c[j]);
    }
    assert forall|j: int, k: int| 0 <= j < c.len() && 0 <= k < c.len() && j != k implies c[j]
        != c[k] by {
        assert(full[j] == c[j]);
        assert(full[k] == c[k]);
    }
    if c.contains(i) {
        let j = choose|j: int| 0 <= j < c.len() && c[j] == i;
        assert(full[j] == i);
    }
}

/// Once item `i` is covered, a node `x` that is still linked in its column
/// belongs to an option none of whose other items is covered.
pub(crate) proof fn lemma_ready(lay: Layout, c: Seq<int>, x: int)
    requires
        lay.wf(),
        lay.is_node(x),
        cover_stack(lay, c.push(lay.top(x))),
        !trail(lay, c.push(lay.top(x))).contains(x),
    ensures
        forall|j: int|
            0 <= j < other_items(lay, x).len() ==> !c.push(lay.top(x)).contains(
                #[trigger] other_items(lay, x)[j],
            ),
{
    let i = lay.top(x);
    let full = c.push(i);
    lay.lemma_node(x);
    lemma_cover_stack_prefix(lay, c, i);
    assert(full.drop_last() =~= c);
    assert(full.last() == i);
    lemma_concat_contains(trail(lay, c), cover_removed(lay, trail(lay, c), i), x);
    assert(!trail(lay, c).contains(x));
    assert forall|j: int| 0 <= j < other_items(lay, x).len() implies !full.contains(
        #[trigger] other_items(lay, x)[j],
    ) by {
        let y = lay.others(x)[j];
        lemma_clean(lay, c, x, y);
        let t = lay.top(y);
        assert(t != i);
        if full.contains(t) {
            let k = choose|k: int| 0 <= k < full.len() && full[k] == t;
            assert(c[k] == t);
        }
    }
}

/// The stack that the search moves on to reads as a larger number than the
/// stack it came from.
pub(crate) proof fn lemma_progress(lay: Layout, xs0: Seq<int>, xs: Seq<int>, x: int, n: int)
    requires
        lay.wf(),
        stack_valid(lay, xs0),
        stack_valid(lay, xs.push(x)),
        xs.len() <= xs0.len(),
        xs == xs0.take(xs.len() as int),
        x > digit(xs0, xs.len() as int),
        xs.len() < n,
    ensures
        horner(xs.push(x), lay.z() + 1, n) > horner(xs0, lay.z() + 1, n),
        ceiling(lay.z() + 1, n) >= horner(xs.push(x), lay.z() + 1, n),
{
    let b = lay.z() + 1;
    let xs2 = xs.push(x);
    lay.lemma_size();
    assert forall|k: int| 0 <= k < xs0.len() implies 0 <= #[trigger] xs0[k] < b by {
        assert(chosen_ok(lay, xs0, k));
    }
    assert forall|k: int| 0 <= k < xs2.len() implies 0 <= #[trigger] xs2[k] < b by {
        assert(chosen_ok(lay, xs2, k));
    }
    lemma_horner_grows(xs0, xs2, b, xs.len() as int, n);
    lemma_horner_bound(xs2, b, n);
}

impl<'a> ExactCoverSolver<'a> {
    /// The stack of covered items of a well-formed matrix holds distinct
    /// items of the problem.
    pub(crate) proof fn lemma_cover_stack(&self)
        requires
            self.wf(),
        ensures
            cover_stack(self.lay@, self.covered@),
            self.covered@.len() <= self.lay@.p.n,
    {
        self.lemma_stamps();
        assert forall|j: int| 0 <= j < self.covered@.len() implies 1 <= #[trigger] self.covered@[j]
            <= self.lay@.p.n by {
            assert(self.hstamp@[self.covered@[j]] == j);
        }
        lemma_stack_bound(self.lay@, self.covered@);
    }

    /// What lies below `x` in its column, for a header or a linked node:
    /// the next linked node or the header, with only unlinked nodes between.
    pub(crate) proof fn lemma_below(&self, x: int)
        requires
            self.wf(),
            self.consistent(),
            self.lay@.is_header(x) || self.linked(x),
        ensures
            ({
                let lay = self.lay@;
                let d = self.dlink@[x] as int;
                let c = lay.col(x);
                &&& 1 <= c <= lay.p.n
                &&& 0 <= d <= lay.z()
                &&& d == c || (lay.is_node(d) && lay.top(d) == c && x < d && !trail(
                    lay,
                    self.covered@,
                ).contains(d) && self.linked(d))
                &&& forall|y: int|
                    x < y < (if d == c { lay.z() + 1 } else { d }) && lay.is_node(y) && lay.top(y) == c
                        ==> #[trigger] trail(lay, self.covered@).contains(y)
            }),
    {
        let lay = self.lay@;
        self.lemma_stamps();
        lay.lemma_size();
        if lay.is_node(x) {
            lay.lemma_node(x);
        }
        assert(links_ok(lay, self.ulink@, self.dlink@, self.stamp@, self.removed@.len() as int, x));
        let d = self.dlink@[x] as int;
        let c = lay.col(x);
        assert forall|y: int|
            x < y < (if d == c { lay.z() + 1 } else { d }) && lay.is_node(y) && lay.top(y)
                == c implies #[trigger] trail(lay, self.covered@).contains(y) by {
            assert(0 <= self.stamp@[y]);
        }
    }

    /// The stamps of a consistent matrix follow the stack of covered items.
    pub(crate) proof fn lemma_follow(&self)
        requires
            self.wf(),
            self.consistent(),
        ensures
            stamps_follow(self.lay@, self.stamp@, self.covered@),
            forall|c: int|
                1 <= c <= self.lay@.p.n ==> #[trigger] self.toplen@[c] == crate::matrix::count_live(
                    self.lay@,
                    self.stamp@,
                    c,
                    self.lay@.z() + 1,
                ),
    {
        self.lemma_stamps();
    }

    /// Picks the item to branch on: among the items in the header ring, the
    /// first one, in ring order, whose column holds the fewest linked nodes.
    pub fn select(&self) -> (i: i32)
        requires
            self.wf(),
            self.rlink@[0] != 0,
        ensures
            self.active(i as int),
            i == best_upto(self.covered@, self.toplen@, self.lay@.p.n),
    {
        let ghost lay = self.lay@;
        let ghost n = lay.p.n;
        let ghost cov = self.covered@;
        let ghost top = self.toplen@;
        proof {
            self.lemma_stamps();
            lay.lemma_size();
            assert(sides_ok(n, self.llink@, self.rlink@, self.hstamp@, self.covered@.len() as int, 0));
        }
        let mut item: i32 = self.rlink[0];
        let mut minlen: i32 = self.toplen[item as usize];
        let mut i: i32 = item;
        proof {
            assert forall|d: int| 0 < d <= item - 1 implies cov.contains(d) by {
                assert(0 <= self.hstamp@[d]);
            }
            lemma_best_skip(cov, top, 0, item - 1);
        }
        while item != 0
            invariant
                self.wf(),
                lay == self.lay@,
                cov == self.covered@,
                top == self.toplen@,
                n == lay.p.n,
                lay.z() >= n + 1,
                0 <= item <= n,
                item == 0 || self.active(item as int),
                self.active(i as int),
                minlen == top[i as int],
                ({
                    let done = if item == 0 { n } else { item - 1 };
                    let best = best_upto(cov, top, done);
                    (best == 0 && i == item) || (best != 0 && best == i)
                }),
            decreases (if item == 0 { 0 } else { n + 1 - item }),
        {
            proof {
                self.lemma_stamps();
                assert(sides_ok(
                    n,
                    self.llink@,
                    self.rlink@,
                    self.hstamp@,
                    self.covered@.len() as int,
                    item as int,
                ));
            }
            let here: i32 = self.toplen[item as usize];
            if here < minlen {
                minlen = here;
                i = item;
            }
            let ghost at = item;
            item = self.rlink[item as usize];
            proof {
                let done = if item == 0 { n } else { item - 1 };
                assert forall|d: int| at < d <= done implies cov.contains(d) by {
                    assert(0 <= self.hstamp@[d]);
                }
                lemma_best_skip(cov, top, at as int, done);
            }
        }
        i
    }

    /// Covers the items of the other nodes of the option of node `x`, in
    /// scan order to the right of `x`.
    pub fn commit(&mut self, x: i32)
        requires
            old(self).wf(),
            old(self).consistent(),
            old(self).lay@.is_node(x as int),
            forall|j: int|
                0 <= j < other_items(old(self).lay@, x as int).len() ==> !old(self).covered@.contains(
                    #[trigger] other_items(old(self).lay@, x as int)[j],
                ),
        ensures
            final(self).wf(),
            final(self).consistent(),
            final(self).covered@ == old(self).covered@ + other_items(old(self).lay@, x as int),
            final(self).lay@ == old(self).lay@,
            final(self).ec == old(self).ec,
    {
        let ghost lay = self.lay@;
        let ghost c0 = self.covered@;
        let ghost others = lay.others(x as int);
        let ghost items = other_items(lay, x as int);
        let ghost lo = lay.lo(x as int);
        let ghost hi = lay.hi(x as int);
        proof {
            lay.lemma_node(x as int);
            assert(c0 + items.take(0) =~= c0);
        }
        let mut p: i32 = x + 1;
        let ghost mut j: int = 0;
        while p != x
            invariant
                self.wf(),
                self.consistent(),
                self.lay@ == lay,
                self.ec == old(self).ec,
                lay.wf(),
                lay.z() < i32::MAX,
                lay.is_node(x as int),
                others == lay.others(x as int),
                items == other_items(lay, x as int),
                lo == lay.lo(x as int),
                hi == lay.hi(x as int),
                0 <= j <= others.len(),
                self.covered@ == c0 + items.take(j),
                (x < p <= hi && j == p - x - 1) || (lo <= p <= x && j == (hi - x - 1) + (p - lo)),
                forall|k: int| 0 <= k < items.len() ==> !c0.contains(#[trigger] items[k]),
            decreases 2 * (others.len() - j) + (if p > x { 1int } else { 0int }),
        {
            proof {
                lay.lemma_node(x as int);
            }
            let t: i32 = self.toplen[p as usize];
            if t <= 0 {
                p = self.ulink[p as usize];
            } else {
                proof {
                    assert(lay.is_node(p as int));
                    assert(others[j] == p);
                    assert(items[j] == t);
                    lay.lemma_node(p as int);
                    lemma_concat_contains(c0, items.take(j), t as int);
                    if items.take(j).contains(t as int) {
                        let k = choose|k: int| 0 <= k < j && items.take(j)[k] == t;
                        assert(items[k] == lay.top(others[k]));
                        assert(others[k] != p);
                        assert(lay.lo(x as int) <= others[k] < lay.hi(x as int));
                    }
                }
                self.cover(t);
                proof {
                    assert(items.take(j + 1) =~= items.take(j).push(t as int));
                    assert(self.covered@ =~= c0 + items.take(j + 1));
                    j = j + 1;
                }
                p = p + 1;
            }
        }
        proof {
            assert(items.take(j) =~= items);
        }
    }

    /// Undoes `commit(x)`: uncovers the items of the other nodes of the
    /// option of node `x`, last covered first.
    pub fn retract(&mut self, x: i32)
        requires
            old(self).wf(),
            old(self).consistent(),
            old(self).lay@.is_node(x as int),
            old(self).covered@.len() >= other_items(old(self).lay@, x as int).len(),
            old(self).covered@.subrange(
                old(self).covered@.len() - other_items(old(self).lay@, x as int).len(),
                old(self).covered@.len() as int,
            ) == other_items(old(self).lay@, x as int),
        ensures
            final(self).wf(),
            final(self).consistent(),
            final(self).covered@ == old(self).covered@.take(
                old(self).covered@.len() - other_items(old(self).lay@, x as int).len(),
            ),
            final(self).lay@ == old(self).lay@,
            final(self).ec == old(self).ec,
    {
        let ghost lay = self.lay@;
        let ghost c0 = self.covered@;
        let ghost others = lay.others(x as int);
        let ghost items = other_items(lay, x as int);
        let ghost lo = lay.lo(x as int);
        let ghost hi = lay.hi(x as int);
        let ghost base = c0.len() - items.len();
        proof {
            lay.lemma_node(x as int);
            lay.lemma_size();
            assert(c0.take(base + items.len()) =~= c0);
        }
        let mut p: i32 = x - 1;
        let ghost mut j: int = others.len() as int;
        while p != x
            invariant
                self.wf(),
                self.consistent(),
                self.lay@ == lay,
                self.ec == old(self).ec,
                lay.wf(),
                lay.z() < i32::MAX,
                lay.is_node(x as int),
                others == lay.others(x as int),
                items == other_items(lay, x as int),
                lo == lay.lo(x as int),
                hi == lay.hi(x as int),
                base == c0.len() - items.len(),
                base >= 0,
                c0.subrange(base, c0.len() as int) == items,
                0 <= j <= others.len(),
                self.covered@ == c0.take(base + j),
                (lo - 1 <= p < x && j == (hi - x - 1) + (p - lo + 1)) || (x < p < hi && j == p - x)
                    || (p == x && j == 0),
            decreases 2 * j + (if p < x { 1int } else { 0int }),
        {
            proof {
                lay.lemma_node(x as int);
                lay.lemma_size();
            }
            let t: i32 = self.toplen[p as usize];
            if t <= 0 {
                proof {
                    assert(p == lo - 1);
                    assert(lay.is_spacer(p as int));
                    assert(crate::matrix::next_last(lay, p as int) == hi - 1) by {
                        assert(lay.step(0));
                    }
                }
                p = self.dlink[p as usize];
            } else {
                proof {
                    assert(lay.is_node(p as int));
                    assert(others[j - 1] == p);
                    assert(items[j - 1] == t);
                    assert(c0.subrange(base, c0.len() as int)[j - 1] == c0[base + j - 1]);
                    assert(self.covered@.last() == t);
                }
                self.uncover(t);
                proof {
                    assert(self.covered@ =~= c0.take(base + j - 1));
                    j = j - 1;
                }
                p = p - 1;
            }
        }
    }

    /// The option that node `x` belongs to, numbered from 1: scans to the
    /// right of `x` for the spacer that closes the option, and reads the
    /// number off it.
    pub fn option_of(&self, x: i32) -> (k: usize)
        requires
            self.wf(),
            self.lay@.is_node(x as int),
        ensures
            k == self.lay@.row[x as int] + 1,
            1 <= k <= self.problem().m(),
    {
        let ghost lay = self.lay@;
        let mut q: i32 = x;
        proof {
            lay.lemma_node(x as int);
        }
        while self.toplen[q as usize] > 0
            invariant
                self.wf(),
                self.lay@ == lay,
                lay.is_node(x as int),
                x <= q <= lay.hi(x as int),
                lay.hi(x as int) <= lay.z(),
            decreases lay.hi(x as int) - q,
        {
            proof {
                lay.lemma_node(x as int);
            }
            q = q + 1;
        }
        proof {
            lay.lemma_node(x as int);
            lay.lemma_spacer_lower(lay.p.m());
        }
        let t: i32 = self.toplen[q as usize];
        (-t) as usize
    }

    /// Searches for an exact cover, depth first. On each level it selects an
    /// item, covers it, and tries the options that are still linked in the
    /// column of the item, from the top down; when a level runs out of
    /// options, it goes back one level and tries the next option there.
    /// Returns the options chosen, numbered from 1, in the order in which they
    /// were chosen, or nothing if there is no exact cover. Where it finds
    /// none, it leaves the matrix as it was; where it finds one, it leaves the
    /// items covered and the header ring empty.
    pub fn solve(&mut self) -> (res: Vec<usize>)
        requires
            old(self).wf(),
            old(self).consistent(),
            old(self).covered@.len() == 0,
        ensures
            final(self).wf(),
            final(self).consistent(),
            final(self).lay@ == old(self).lay@,
            final(self).ec == old(self).ec,
            as_ints(res@) == answer(old(self).problem()),
            res@.len() > 0 ==> old(self).problem().is_exact_cover(as_ints(res@)),
            res@.len() == 0 <==> forall|sol: Seq<int>| !old(self).problem().is_exact_cover(sol),
            res@.len() > 0 ==> final(self).rlink@[0] == 0,
            res@.len() == 0 ==> final(self).covered@.len() == 0 && final(self).toplen@ == old(
                self,
            ).toplen@ && final(self).llink@ == old(self).llink@ && final(self).rlink@ == old(
                self,
            ).rlink@ && final(self).ulink@ == old(self).ulink@ && final(self).dlink@ == old(
                self,
            ).dlink@,
    {
        let ghost before = *self;
        let ghost lay = self.lay@;
        let ghost p = lay.p;
        let ghost b = lay.z() + 1;
        proof {
            lay.lemma_size();
        }
        let n: usize = self.llink.len() - 1;
        let mut x: Vec<i32> = Vec::new();
        let mut f: usize = 0;
        while f < n
            invariant
                f <= n,
                x.len() == f,
            decreases n - f,
        {
            x.push(0);
            f = f + 1;
        }
        let mut l: usize = 0;
        let ghost mut xs: Seq<int> = Seq::empty();
        proof {
            assert(self.covered@ =~= cov_of(lay, xs));
            assert(rows_of(lay, xs) =~= Seq::<int>::empty());
        }
        while self.rlink[0] != 0
            invariant
                self.wf(),
                self.consistent(),
                self.lay@ == lay,
                lay == old(self).lay@,
                before == *old(self),
                before.wf(),
                before.consistent(),
                before.covered@.len() == 0,
                p == lay.p,
                p == old(self).problem(),
                self.ec == old(self).ec,
                lay.wf(),
                b == lay.z() + 1,
                n == lay.p.n,
                x.len() == n,
                xs.len() == l,
                l <= n,
                forall|j: int| 0 <= j < l ==> x[j] == #[trigger] xs[j],
                stack_valid(lay, xs),
                levels_ok(lay, xs),
                self.covered@ == cov_of(lay, xs),
                solution(p) == unwind(p, rows_of(lay, xs), search(p, rows_of(lay, xs))),
            decreases ceiling(b, n as int) - horner(xs, b, n as int),
        {
            let ghost xs0 = xs;
            let ghost stamp0 = self.stamp@;
            let ghost toplen0 = self.toplen@;
            // enter a level: select an item, cover it, try its first option
            let mut i: i32 = self.select();
            proof {
                lemma_cov_len(lay, xs);
                self.lemma_follow();
            }
            self.cover(i);
            proof {
                self.lemma_cover_stack();
                self.lemma_below(i as int);
            }
            let first: i32 = self.dlink[i as usize];
            x.set(l, first);
            proof {
                lemma_enter(lay, stamp0, toplen0, xs, i as int, first as int);
            }
            while x[l] == i
                invariant
                    self.wf(),
                    self.consistent(),
                    self.lay@ == lay,
                    lay == old(self).lay@,
                    before == *old(self),
                    before.wf(),
                    before.consistent(),
                    before.covered@.len() == 0,
                    p == lay.p,
                    p == old(self).problem(),
                    self.ec == old(self).ec,
                    lay.wf(),
                    b == lay.z() + 1,
                    n == lay.p.n,
                    x.len() == n,
                    xs.len() == l,
                    l < n,
                    l <= xs0.len(),
                    xs == xs0.take(l as int),
                    forall|j: int| 0 <= j < l ==> x[j] == #[trigger] xs[j],
                    stack_valid(lay, xs),
                    stack_valid(lay, xs0),
                    levels_ok(lay, xs),
                    1 <= i <= n,
                    !cov_of(lay, xs).contains(i as int),
                    self.covered@ == cov_of(lay, xs).push(i as int),
                    x[l as int] == i || (lay.is_node(x[l as int] as int) && lay.top(x[l as int] as int) == i
                        && self.linked(x[l as int] as int)),
                    x[l as int] != i ==> x[l as int] > digit(xs0, l as int),
                    i == mrv(p, rows_of(lay, xs)),
                    x[l as int] != i ==> fits(p, rows_of(lay, xs), i as int, lay.row[x[l as int] as int]),
                    solution(p) == unwind(
                        p,
                        rows_of(lay, xs),
                        try_from(p, rows_of(lay, xs), i as int, reach(lay, i as int, x[l as int] as int)),
                    ),
                decreases l,
            {
                // the level is out of options: give the item back
                proof {
                    assert(try_from(p, rows_of(lay, xs), i as int, p.m()) is None);
                }
                self.uncover(i);
                proof {
                    assert(self.covered@ =~= cov_of(lay, xs));
                }
                if l == 0 {
                    let none: Vec<usize> = Vec::new();
                    proof {
                        assert(answer(p) =~= Seq::<int>::empty());
                        assert(as_ints(none@) =~= answer(p));
                        answer_is_empty_iff_no_cover(p);
                        assert(self.covered@ =~= before.covered@);
                        crate::unique::links_are_determined(*self, before);
                    }
                    return none;
                }
                // go back one level, undo the option chosen there, try the next
                l = l - 1;
                let xl: i32 = x[l];
                let ghost xs1 = xs;
                proof {
                    xs = xs1.drop_last();
                    lemma_pop_valid(lay, xs1);
                    assert(xs =~= xs0.take(l as int));
                    let items = other_items(lay, xl as int);
                    let full = self.covered@;
                    assert(full.subrange(full.len() - items.len(), full.len() as int) =~= items);
                    assert(full.take(full.len() - items.len()) =~= cov_of(lay, xs).push(
                        lay.top(xl as int),
                    ));
                }
                self.retract(xl);
                i = self.toplen[xl as usize];
                proof {
                    self.lemma_stamps();
                    self.lemma_cover_stack();
                    assert(self.linked(xl as int));
                    self.lemma_below(xl as int);
                }
                let next: i32 = self.dlink[xl as usize];
                x.set(l, next);
                proof {
                    lemma_retreat(lay, xs1, next as int);
                }
            }
            // an option is left: commit to it and go one level down
            let xl: i32 = x[l];
            proof {
                self.lemma_cover_stack();
                lemma_ready(lay, cov_of(lay, xs), xl as int);
                lemma_push_valid(lay, xs, xl as int);
                lemma_progress(lay, xs0, xs, xl as int, n as int);
                lemma_advance(lay, xs, xl as int);
            }
            self.commit(xl);
            l = l + 1;
            proof {
                xs = xs.push(xl as int);
            }
        }
        proof {
            self.lemma_stamps();
            assert(sides_ok(n as int, self.llink@, self.rlink@, self.hstamp@, self.covered@.len() as int, 0));
            assert forall|c: int| 1 <= c <= lay.p.n implies cov_of(lay, xs).contains(c) by {
                assert(0 <= self.hstamp@[c]);
            }
            lemma_finish(lay, xs);
            assert(solution(p) == Some(rows_of(lay, xs)));
            assert(cov_of(lay, xs).contains(1));
            assert(l > 0);
        }
        // every item is covered: read the options off the chosen nodes
        let mut res: Vec<usize> = Vec::new();
        let mut j: usize = 0;
        while j < l
            invariant
                self.wf(),
                self.lay@ == lay,
                lay.wf(),
                j <= l,
                l <= x.len(),
                xs.len() == l,
                forall|k: int| 0 <= k < l ==> x[k] == #[trigger] xs[k],
                stack_valid(lay, xs),
                res.len() == j,
                forall|k: int| 0 <= k < j ==> #[trigger] res[k] == lay.row[xs[k]] + 1,
                lay.z() < i32::MAX,
                l > 0,
            decreases l - j,
        {
            proof {
                assert(chosen_ok(lay, xs, j as int));
            }
            let k = self.option_of(x[j]);
            res.push(k);
            j = j + 1;
        }
        proof {
            let ch = rows_of(lay, xs);
            assert(answer(p).len() == ch.len());
            assert forall|k: int| 0 <= k < res@.len() implies #[trigger] res@[k] == answer(p)[k] by {
                assert(res[k] == lay.row[xs[k]] + 1);
                assert(ch[k] == lay.row[xs[k]]);
            }
            assert(as_ints(res@) =~= answer(p));
            answer_is_empty_iff_no_cover(p);
            if res@.len() > 0 {
                answer_is_exact_cover(p);
            }
        }
        res
    }
}

} // verus!
