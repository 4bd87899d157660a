//! Covering and uncovering an item.

use vstd::prelude::*;
use crate::layout::Layout;
use crate::matrix::{ExactCoverSolver, links_ok, stack_ok, lemma_unlink_horiz, lemma_relink_horiz};

verus! {

/// The nodes that covering item `i` unlinks, as far as the nodes of column
/// `i` below index `p` account for them, when the nodes in `r0` were unlinked
/// before: for each node of the column that is still linked, from the top of
/// the column down, the other nodes of its option.
pub open spec fn cover_upto(lay: Layout, r0: Seq<int>, i: int, p: int) -> Seq<int>
    decreases p - lay.p.n,
{
    if p <= lay.p.n + 2 {
        Seq::empty()
    } else {
        cover_upto(lay, r0, i, p - 1) + (if cover_hides(lay, r0, i, p - 1) {
            lay.others(p - 1)
        } else {
            Seq::empty()
        })
    }
}

/// Covering item `i` hides the option of node `x`: `x` lies in the column of
/// `i` and is still linked there.
pub open spec fn cover_hides(lay: Layout, r0: Seq<int>, i: int, x: int) -> bool {
    lay.is_node(x) && lay.top(x) == i && !r0.contains(x)
}

/// All the nodes that covering item `i` unlinks, in order.
pub open spec fn cover_removed(lay: Layout, r0: Seq<int>, i: int) -> Seq<int> {
    cover_upto(lay, r0, i, lay.z())
}

/// The stack of unlinked nodes after the items of `cov` were covered one
/// after the other, starting from the matrix as built.
pub open spec fn trail(lay: Layout, cov: Seq<int>) -> Seq<int>
    decreases cov.len(),
{
    if cov.len() == 0 {
        Seq::empty()
    } else {
        trail(lay, cov.drop_last()) + cover_removed(lay, trail(lay, cov.drop_last()), cov.last())
    }
}

/// Some item of the option of node `y` is among `cov`.
pub open spec fn row_hit(lay: Layout, cov: Seq<int>, y: int) -> bool {
    exists|y2: int| lay.lo(y) <= y2 < lay.hi(y) && cov.contains(#[trigger] lay.top(y2))
}

/// Indices between `a` and `b` at which covering hides nothing add nothing.
pub(crate) proof fn lemma_cover_skip(lay: Layout, r0: Seq<int>, i: int, a: int, b: int)
    requires
        a <= b,
        forall|x: int| a <= x < b ==> !#[trigger] cover_hides(lay, r0, i, x),
    ensures
        cover_upto(lay, r0, i, b) == cover_upto(lay, r0, i, a),
    decreases b - a,
{
    if a < b {
        lemma_cover_skip(lay, r0, i, a, b - 1);
        assert(!cover_hides(lay, r0, i, b - 1));
        if b <= lay.p.n + 2 {
        } else {
            assert(cover_upto(lay, r0, i, b - 1) + Seq::<int>::empty() =~= cover_upto(
                lay,
                r0,
                i,
                b - 1,
            ));
        }
    }
}

/// What covering item `i` unlinks are nodes outside column `i`, each in the
/// option of a node of column `i` that was linked, below `p`.
pub(crate) proof fn lemma_cover_elems(lay: Layout, r0: Seq<int>, i: int, p: int)
    requires
        lay.wf(),
    ensures
        forall|k: int|
            0 <= k < cover_upto(lay, r0, i, p).len() ==> {
                let y = #[trigger] cover_upto(lay, r0, i, p)[k];
                &&& lay.is_node(y)
                &&& lay.top(y) != i
                &&& exists|x: int|
                    lay.lo(y) <= x < lay.hi(y) && x < p && #[trigger] cover_hides(lay, r0, i, x)
            },
    decreases p - lay.p.n,
{
    if p > lay.p.n + 2 {
        lemma_cover_elems(lay, r0, i, p - 1);
        let prev = cover_upto(lay, r0, i, p - 1);
        let cur = cover_upto(lay, r0, i, p);
        assert forall|k: int| 0 <= k < cur.len() implies {
            let y = #[trigger] cur[k];
            &&& lay.is_node(y)
            &&& lay.top(y) != i
            &&& exists|x: int|
                lay.lo(y) <= x < lay.hi(y) && x < p && #[trigger] cover_hides(lay, r0, i, x)
        } by {
            let y = cur[k];
            if k < prev.len() {
                assert(cur[k] == prev[k]);
                let x = choose|x: int|
                    lay.lo(y) <= x < lay.hi(y) && x < p - 1 && #[trigger] cover_hides(lay, r0, i, x);
                assert(cover_hides(lay, r0, i, x));
            } else {
                let x = p - 1;
                assert(cover_hides(lay, r0, i, x));
                lay.lemma_node(x);
                assert(y == lay.others(x)[k - prev.len()]);
                assert(lay.row[y] == lay.row[x]);
                assert(lay.is_node(y));
                assert(lay.top(y) != lay.top(x));
            }
        }
    }
}

/// Conversely, every other node of the option of a node that covering hides
/// is among what covering unlinks.
pub(crate) proof fn lemma_cover_has(lay: Layout, r0: Seq<int>, i: int, p: int, x: int, y: int)
    requires
        lay.wf(),
        cover_hides(lay, r0, i, x),
        x < p,
        lay.lo(x) <= y < lay.hi(x),
        y != x,
    ensures
        cover_upto(lay, r0, i, p).contains(y),
    decreases p - lay.p.n,
{
    lay.lemma_node(x);
    if p <= lay.p.n + 2 {
    } else if x == p - 1 {
        let prev = cover_upto(lay, r0, i, p - 1);
        let others = lay.others(x);
        let size = lay.hi(x) - lay.lo(x);
        let j = if y > x { y - x - 1 } else { y - x - 1 + size };
        assert(others[j] == y);
        assert((prev + others)[prev.len() + j] == y);
    } else {
        lemma_cover_has(lay, r0, i, p - 1, x, y);
        let prev = cover_upto(lay, r0, i, p - 1);
        let j = choose|j: int| 0 <= j < prev.len() && prev[j] == y;
        assert(cover_upto(lay, r0, i, p)[j] == y);
    }
}

/// Membership in a concatenation.
pub(crate) proof fn lemma_concat_contains(a: Seq<int>, b: Seq<int>, y: int)
    ensures
        (a + b).contains(y) <==> a.contains(y) || b.contains(y),
{
    if a.contains(y) {
        let j = choose|j: int| 0 <= j < a.len() && a[j] == y;
        assert((a + b)[j] == y);
    }
    if b.contains(y) {
        let j = choose|j: int| 0 <= j < b.len() && b[j] == y;
        assert((a + b)[a.len() + j] == y);
    }
    if (a + b).contains(y) {
        let j = choose|j: int| 0 <= j < (a + b).len() && (a + b)[j] == y;
        if j < a.len() {
            assert(a[j] == y);
        } else {
            assert(b[j - a.len()] == y);
        }
    }
}

/// The items of `cov` are items of the problem, none of them twice.
pub open spec fn cover_stack(lay: Layout, cov: Seq<int>) -> bool {
    &&& cov.no_duplicates()
    &&& forall|j: int| 0 <= j < cov.len() ==> 1 <= #[trigger] cov[j] <= lay.p.n
}

/// After the items of `cov` were covered, a node in the column of an item
/// that is not covered is unlinked exactly if its option holds a covered
/// item.
pub(crate) proof fn lemma_sem(lay: Layout, cov: Seq<int>, y: int)
    requires
        lay.wf(),
        cover_stack(lay, cov),
        lay.is_node(y),
        !cov.contains(lay.top(y)),
    ensures
        trail(lay, cov).contains(y) <==> row_hit(lay, cov, y),
    decreases cov.len(),
{
    lay.lemma_node(y);
    if cov.len() == 0 {
        assert(!row_hit(lay, cov, y));
    } else {
        let c0 = cov.drop_last();
        let i = cov.last();
        let r0 = trail(lay, c0);
        let added = cover_removed(lay, r0, i);
        assert(cov[cov.len() - 1] == i);
        assert forall|c: int| c0.contains(c) implies cov.contains(c) by {
            let j = choose|j: int| 0 <= j < c0.len() && c0[j] == c;
            assert(cov[j] == c);
        }
        assert forall|c: int| cov.contains(c) implies c0.contains(c) || c == i by {
            let j = choose|j: int| 0 <= j < cov.len() && cov[j] == c;
            if j < cov.len() - 1 {
                assert(c0[j] == c);
            }
        }
        assert(!c0.contains(i)) by {
            if c0.contains(i) {
                let j = choose|j: int| 0 <= j < c0.len() && c0[j] == i;
                assert(cov[j] == cov[cov.len() - 1]);
            }
        }
        assert(cover_stack(lay, c0));
        lemma_sem(lay, c0, y);
        lemma_concat_contains(r0, added, y);
        if trail(lay, cov).contains(y) {
            if r0.contains(y) {
                let y2 = choose|y2: int|
                    lay.lo(y) <= y2 < lay.hi(y) && c0.contains(#[trigger] lay.top(y2));
                assert(cov.contains(lay.top(y2)));
            } else {
                lemma_cover_elems(lay, r0, i, lay.z());
                let k = choose|k: int| 0 <= k < added.len() && added[k] == y;
                let x = choose|x: int|
                    lay.lo(added[k]) <= x < lay.hi(added[k]) && x < lay.z() && #[trigger] cover_hides(
                        lay,
                        r0,
                        i,
                        x,
                    );
                assert(cov.contains(lay.top(x)));
            }
        }
        if row_hit(lay, cov, y) {
            let y2 = choose|y2: int|
                lay.lo(y) <= y2 < lay.hi(y) && cov.contains(#[trigger] lay.top(y2));
            if c0.contains(lay.top(y2)) {
                assert(row_hit(lay, c0, y));
            } else if row_hit(lay, c0, y) {
            } else {
                assert(lay.top(y2) == i);
                assert(lay.is_node(y2));
                assert(lay.row[y2] == lay.row[y]);
                lemma_sem(lay, c0, y2);
                assert(!row_hit(lay, c0, y2)) by {
                    if row_hit(lay, c0, y2) {
                        let y3 = choose|y3: int|
                            lay.lo(y2) <= y3 < lay.hi(y2) && c0.contains(#[trigger] lay.top(y3));
                        assert(lay.lo(y) <= y3 < lay.hi(y));
                    }
                }
                assert(cover_hides(lay, r0, i, y2));
                lemma_cover_has(lay, r0, i, lay.z(), y2, y);
            }
        }
    }
}

/// After the items of `cov` were covered, every node that is still linked in
/// the column of an item `i` that is not covered has its whole option linked.
pub(crate) proof fn lemma_clean(lay: Layout, cov: Seq<int>, x: int, y: int)
    requires
        lay.wf(),
        cover_stack(lay, cov),
        lay.is_node(x),
        !cov.contains(lay.top(x)),
        !trail(lay, cov).contains(x),
        lay.lo(x) <= y < lay.hi(x),
    ensures
        !cov.contains(lay.top(y)),
        !trail(lay, cov).contains(y),
{
    lay.lemma_node(x);
    lemma_sem(lay, cov, x);
    assert(!row_hit(lay, cov, x));
    assert(!cov.contains(lay.top(y)));
    assert(lay.row[y] == lay.row[x]);
    assert(lay.is_node(y));
    lemma_sem(lay, cov, y);
    if row_hit(lay, cov, y) {
        let y2 = choose|y2: int| lay.lo(y) <= y2 < lay.hi(y) && cov.contains(#[trigger] lay.top(y2));
        assert(lay.lo(x) <= y2 < lay.hi(x));
    }
}

impl<'a> ExactCoverSolver<'a> {
    /// The matrix is in the state that covering the items on the stack of
    /// covered items, one after the other, leaves behind.
    pub open spec fn consistent(&self) -> bool {
        self.removed@ == trail(self.lay@, self.covered@)
    }

    /// Takes the header `i` out of the header ring.
    fn unlink_header(&mut self, i: i32)
        requires
            old(self).wf(),
            old(self).active(i as int),
        ensures
            final(self).wf(),
            final(self).removed@ == old(self).removed@,
            final(self).covered@ == old(self).covered@.push(i as int),
            final(self).lay@ == old(self).lay@,
            final(self).ec == old(self).ec,
    {
        let ghost lay = self.lay@;
        let ghost len = self.covered@.len() as int;
        let ghost hstamp = self.hstamp@;
        proof {
            self.lemma_stamps();
            lay.lemma_size();
            lemma_unlink_horiz(lay.p.n, self.llink@, self.rlink@, hstamp, len, i as int);
        }
        let l = self.llink[i as usize];
        let r = self.rlink[i as usize];
        self.rlink.set(l as usize, r);
        self.llink.set(r as usize, l);
        self.covered = Ghost(self.covered@.push(i as int));
        self.hstamp = Ghost(hstamp.update(i as int, len));
        proof {
            assert(stack_ok(self.covered@, self.hstamp@));
        }
    }

    /// Puts the header on top of the stack of covered items back into the
    /// header ring.
    fn relink_header(&mut self, i: i32)
        requires
            old(self).wf(),
            old(self).covered@.len() > 0,
            old(self).covered@.last() == i,
        ensures
            final(self).wf(),
            final(self).removed@ == old(self).removed@,
            final(self).covered@ == old(self).covered@.drop_last(),
            final(self).lay@ == old(self).lay@,
            final(self).ec == old(self).ec,
    {
        let ghost lay = self.lay@;
        let ghost len = self.covered@.len() as int;
        let ghost hstamp = self.hstamp@;
        proof {
            self.lemma_stamps();
            lay.lemma_size();
            assert(self.covered@[len - 1] == i);
            assert(hstamp[i as int] == len - 1);
            assert forall|x: int| 0 <= x < hstamp.len() && x != i implies #[trigger] hstamp[x] != len
                - 1 by {}
            lemma_relink_horiz(lay.p.n, self.llink@, self.rlink@, hstamp, len, i as int);
        }
        let l = self.llink[i as usize];
        let r = self.rlink[i as usize];
        self.rlink.set(l as usize, i);
        self.llink.set(r as usize, i);
        self.covered = Ghost(self.covered@.drop_last());
        self.hstamp = Ghost(hstamp.update(i as int, -1));
        proof {
            assert(stack_ok(self.covered@, self.hstamp@));
        }
    }

    /// Covers item `i`: hides every option that is still linked in the column
    /// of `i`, from the top of the column down, then takes the header of `i`
    /// out of the header ring.
    pub fn cover(&mut self, i: i32)
        requires
            old(self).wf(),
            old(self).consistent(),
            old(self).active(i as int),
        ensures
            final(self).wf(),
            final(self).consistent(),
            final(self).covered@ == old(self).covered@.push(i as int),
            final(self).lay@ == old(self).lay@,
            final(self).ec == old(self).ec,
    {
        let ghost lay = self.lay@;
        let ghost cov = self.covered@;
        let ghost r0 = self.removed@;
        proof {
            self.lemma_stamps();
            lay.lemma_size();
            assert(links_ok(
                lay,
                self.ulink@,
                self.dlink@,
                self.stamp@,
                self.removed@.len() as int,
                i as int,
            ));
        }
        let mut p = self.dlink[i as usize];
        proof {
            let b = if p == i { lay.z() } else { p as int };
            assert forall|x: int| lay.p.n + 2 <= x < b implies !#[trigger] cover_hides(
                lay,
                r0,
                i as int,
                x,
            ) by {
                if lay.is_node(x) && lay.top(x) == i {
                    assert(0 <= self.stamp@[x]);
                }
            }
            if lay.p.n + 2 <= b {
                lemma_cover_skip(lay, r0, i as int, lay.p.n + 2, b);
            }
            assert(r0 + Seq::<int>::empty() =~= r0);
        }
        while p != i
            invariant
                self.wf(),
                self.lay@ == lay,
                self.ec == old(self).ec,
                self.covered@ == cov,
                lay.wf(),
                cover_stack(lay, cov),
                r0 == trail(lay, cov),
                1 <= i <= lay.p.n,
                !cov.contains(i as int),
                p == i || (lay.is_node(p as int) && lay.top(p as int) == i && self.linked(p as int)),
                self.removed@ == r0 + cover_upto(
                    lay,
                    r0,
                    i as int,
                    if p == i { lay.z() } else { p as int },
                ),
                forall|k: int|
                    r0.len() <= k < self.removed@.len() ==> lay.top(#[trigger] self.removed@[k]) != i
                        && (p != i ==> self.removed@[k] < lay.lo(p as int)),
            decreases (if p == i { 0 } else { lay.z() - p }),
        {
            let ghost before = self.removed@;
            proof {
                lay.lemma_node(p as int);
                assert(!r0.contains(p as int)) by {
                    if r0.contains(p as int) {
                        let j = choose|j: int| 0 <= j < r0.len() && r0[j] == p;
                        assert(before[j] == p);
                    }
                }
                assert forall|k: int| 0 <= k < lay.others(p as int).len() implies self.linked(
                    #[trigger] lay.others(p as int)[k],
                ) by {
                    let y = lay.others(p as int)[k];
                    lemma_clean(lay, cov, p as int, y);
                    if before.contains(y) {
                        let j = choose|j: int| 0 <= j < before.len() && before[j] == y;
                        if j < r0.len() {
                            assert(r0[j] == y);
                        }
                    }
                }
            }
            self.hide_option(p);
            proof {
                self.lemma_stamps();
                assert(links_ok(
                    lay,
                    self.ulink@,
                    self.dlink@,
                    self.stamp@,
                    self.removed@.len() as int,
                    p as int,
                ));
                assert(self.linked(p as int)) by {
                    if self.removed@.contains(p as int) {
                        let j = choose|j: int|
                            0 <= j < self.removed@.len() && self.removed@[j] == p;
                        if j < before.len() {
                            assert(before[j] == p);
                        } else {
                            assert(lay.others(p as int)[j - before.len()] == p);
                        }
                    }
                }
            }
            let ghost p0 = p;
            p = self.dlink[p as usize];
            proof {
                let b = if p == i { lay.z() } else { p as int };
                assert(cover_hides(lay, r0, i as int, p0 as int));
                assert(cover_upto(lay, r0, i as int, p0 + 1) == cover_upto(lay, r0, i as int, p0 as int)
                    + lay.others(p0 as int));
                assert forall|k: int| r0.len() <= k < self.removed@.len() implies lay.top(
                    #[trigger] self.removed@[k],
                ) != i && (p != i ==> self.removed@[k] < lay.lo(p as int)) by {
                    if p != i {
                        lay.lemma_rows_ordered(p0 as int, p as int);
                    }
                    if k < before.len() {
                        assert(self.removed@[k] == before[k]);
                    } else {
                        assert(self.removed@[k] == lay.others(p0 as int)[k - before.len()]);
                    }
                }
                assert forall|x: int| p0 + 1 <= x < b implies !#[trigger] cover_hides(
                    lay,
                    r0,
                    i as int,
                    x,
                ) by {
                    if lay.is_node(x) && lay.top(x) == i {
                        assert(0 <= self.stamp@[x]);
                        assert(self.removed@.contains(x));
                        let j = choose|j: int|
                            0 <= j < self.removed@.len() && self.removed@[j] == x;
                        if j >= r0.len() {
                            assert(lay.top(self.removed@[j]) != i);
                        } else {
                            assert(r0[j] == x);
                        }
                    }
                }
                lemma_cover_skip(lay, r0, i as int, p0 + 1, b);
                assert(self.removed@ =~= r0 + cover_upto(lay, r0, i as int, b));
            }
        }
        self.unlink_header(i);
        proof {
            assert(self.covered@.drop_last() =~= cov);
        }
    }

    /// Undoes `cover(i)` for the item covered last: puts its header back into
    /// the header ring, then unhides the options of its column, from the
    /// bottom of the column up.
    pub fn uncover(&mut self, i: i32)
        requires
            old(self).wf(),
            old(self).consistent(),
            old(self).covered@.len() > 0,
            old(self).covered@.last() == i,
        ensures
            final(self).wf(),
            final(self).consistent(),
            final(self).covered@ == old(self).covered@.drop_last(),
            final(self).lay@ == old(self).lay@,
            final(self).ec == old(self).ec,
    {
        let ghost lay = self.lay@;
        let ghost cov = self.covered@.drop_last();
        let ghost r0 = trail(lay, cov);
        let ghost start = self.removed@;
        proof {
            self.lemma_stamps();
            lay.lemma_size();
            assert(self.covered@[self.covered@.len() - 1] == i);
            assert(!cov.contains(i as int)) by {
                if cov.contains(i as int) {
                    let j = choose|j: int| 0 <= j < cov.len() && cov[j] == i;
                    assert(self.covered@[j] == i);
                }
            }
            assert(cover_stack(lay, cov)) by {
                assert forall|j: int| 0 <= j < cov.len() implies 1 <= #[trigger] cov[j]
                    <= lay.p.n by {
                    assert(self.covered@[j] == cov[j]);
                    assert(self.hstamp@[self.covered@[j]] == j);
                }
            }
            lemma_cover_elems(lay, r0, i as int, lay.z());
        }
        self.relink_header(i);
        proof {
            self.lemma_stamps();
            assert(links_ok(
                lay,
                self.ulink@,
                self.dlink@,
                self.stamp@,
                self.removed@.len() as int,
                i as int,
            ));
        }
        let mut p = self.ulink[i as usize];
        proof {
            let a = if p == i { lay.p.n + 2 } else { p + 1 };
            assert forall|x: int| a <= x < lay.z() implies !#[trigger] cover_hides(
                lay,
                r0,
                i as int,
                x,
            ) by {
                if lay.is_node(x) && lay.top(x) == i {
                    assert(0 <= self.stamp@[x]);
                    assert(self.removed@.contains(x));
                    let j = choose|j: int| 0 <= j < self.removed@.len() && self.removed@[j] == x;
                    if j >= r0.len() {
                        assert(cover_removed(lay, r0, i as int)[j - r0.len()] == x);
                    } else {
                        assert(r0[j] == x);
                    }
                }
            }
            if a <= lay.z() {
                lemma_cover_skip(lay, r0, i as int, a, lay.z());
            }
        }
        while p != i
            invariant
                self.wf(),
                self.lay@ == lay,
                self.ec == old(self).ec,
                self.covered@ == cov,
                lay.wf(),
                r0 == trail(lay, cov),
                1 <= i <= lay.p.n,
                p == i || (lay.is_node(p as int) && lay.top(p as int) == i && self.linked(p as int)),
                self.removed@ == r0 + cover_upto(
                    lay,
                    r0,
                    i as int,
                    if p == i { lay.p.n + 2 } else { p + 1 },
                ),
                forall|k: int|
                    r0.len() <= k < self.removed@.len() ==> lay.top(#[trigger] self.removed@[k]) != i,
            decreases (if p == i { 0 } else { p as int }),
        {
            let ghost before = self.removed@;
            let ghost mid = r0 + cover_upto(lay, r0, i as int, p as int);
            proof {
                lay.lemma_node(p as int);
                assert(!r0.contains(p as int)) by {
                    if r0.contains(p as int) {
                        let j = choose|j: int| 0 <= j < r0.len() && r0[j] == p;
                        assert(before[j] == p);
                    }
                }
                assert(cover_hides(lay, r0, i as int, p as int));
                assert(cover_upto(lay, r0, i as int, p + 1) == cover_upto(lay, r0, i as int, p as int)
                    + lay.others(p as int));
                assert(before =~= mid + lay.others(p as int));
                assert(before.subrange(before.len() - lay.others(p as int).len(), before.len() as int)
                    =~= lay.others(p as int));
                assert(before.take(before.len() - lay.others(p as int).len()) =~= mid);
            }
            self.unhide(p);
            proof {
                self.lemma_stamps();
                assert(links_ok(
                    lay,
                    self.ulink@,
                    self.dlink@,
                    self.stamp@,
                    self.removed@.len() as int,
                    p as int,
                ));
                assert(self.linked(p as int)) by {
                    if self.removed@.contains(p as int) {
                        let j = choose|j: int|
                            0 <= j < self.removed@.len() && self.removed@[j] == p;
                        assert(before[j] == p);
                    }
                }
                assert forall|k: int| r0.len() <= k < self.removed@.len() implies lay.top(
                    #[trigger] self.removed@[k],
                ) != i by {
                    assert(self.removed@[k] == before[k]);
                }
            }
            let ghost p0 = p;
            p = self.ulink[p as usize];
            proof {
                let a = if p == i { lay.p.n + 2 } else { p + 1 };
                assert forall|x: int| a <= x < p0 implies !#[trigger] cover_hides(
                    lay,
                    r0,
                    i as int,
                    x,
                ) by {
                    if lay.is_node(x) && lay.top(x) == i {
                        assert(0 <= self.stamp@[x]);
                        assert(self.removed@.contains(x));
                        let j = choose|j: int|
                            0 <= j < self.removed@.len() && self.removed@[j] == x;
                        if j >= r0.len() {
                            assert(lay.top(self.removed@[j]) != i);
                        } else {
                            assert(r0[j] == x);
                        }
                    }
                }
                lemma_cover_skip(lay, r0, i as int, a, p0 as int);
            }
        }
        proof {
            assert(r0 + Seq::<int>::empty() =~= r0);
        }
    }
}

} // verus!
