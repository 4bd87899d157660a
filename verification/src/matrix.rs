//! The dancing-links matrix: the arena of link arrays and the stack
//! discipline that governs it.
//!
//! The state of the matrix is fully described by two stacks: the element
//! nodes that are at present unlinked from their columns, in the order in
//! which they were unlinked, and the item headers that are unlinked from the
//! header ring, likewise in order. Every link in the arena follows from these
//! two stacks: a node that is still linked points to its nearest linked
//! neighbours in its column, and a node that was unlinked keeps pointing to
//! the neighbours it had at the moment it left.

use vstd::prelude::*;
use crate::problem::ExactCover;
use crate::layout::Layout;

verus! {

/// The matrix of one problem. The root has index 0, the header of item `c`
/// index `c`; the nodes of the options and the spacers between them follow.
pub struct ExactCoverSolver<'a> {
    /// The problem that the matrix was built from.
    pub ec: &'a ExactCover,
    /// For a header the number of nodes linked in its column, for a node its
    /// item, for the spacer that closes option `k`, counted from 1, `-k`.
    pub toplen: Vec<i32>,
    /// The left neighbour of each header in the header ring.
    pub llink: Vec<i32>,
    /// The right neighbour of each header in the header ring.
    pub rlink: Vec<i32>,
    /// The neighbour above in the column; for a spacer, the first node of
    /// the option that it closes.
    pub ulink: Vec<i32>,
    /// The neighbour below in the column; for a spacer, the last node of the
    /// option that it precedes.
    pub dlink: Vec<i32>,
    /// Where the options lie in the arena.
    pub lay: Ghost<Layout>,
    /// The nodes that are unlinked from their columns, in the order in which
    /// they were unlinked.
    pub removed: Ghost<Seq<int>>,
    /// The place of each node in `removed`, -1 for one that is linked.
    pub stamp: Ghost<Seq<int>>,
    /// The items whose headers are out of the header ring, in the order in
    /// which they were covered.
    pub covered: Ghost<Seq<int>>,
    /// The place of each item in `covered`, -1 for one in the ring.
    pub hstamp: Ghost<Seq<int>>,
}

/// The moment from which the links of `x` are frozen: its place in the stack
/// if it was unlinked, the height of the stack if it is still linked.
pub open spec fn time(stamp: Seq<int>, len: int, x: int) -> int {
    if stamp[x] < 0 {
        len
    } else {
        stamp[x]
    }
}

/// `stack` and `stamp` tell the same story: `stamp[x]` is the place of `x` in
/// the stack, or -1 if `x` is not on it.
pub open spec fn stack_ok(stack: Seq<int>, stamp: Seq<int>) -> bool {
    &&& forall|j: int|
        0 <= j < stack.len() ==> 0 <= #[trigger] stack[j] < stamp.len() && stamp[stack[j]] == j
    &&& forall|x: int|
        0 <= x < stamp.len() ==> #[trigger] stamp[x] == -1 || (0 <= stamp[x] < stack.len()
            && stack[stamp[x]] == x)
}

/// The index just past the last place where a neighbour of `x` in its column
/// can lie stamp one looks upward from `x`: `x` itself for a node, the end of
/// the arena for a header.
pub open spec fn far(lay: Layout, x: int) -> int {
    if x <= lay.p.n {
        lay.z() + 1
    } else {
        x
    }
}

/// `up[x]` is the nearest node above `x` in its column that was linked stamp
/// the links of `x` froze, or the header if there is none.
pub open spec fn up_ok(lay: Layout, up: Seq<i32>, stamp: Seq<int>, len: int, x: int) -> bool {
    let u = up[x] as int;
    let c = lay.col(x);
    let j = time(stamp, len, x);
    &&& u == c || (lay.is_node(u) && lay.top(u) == c && (stamp[u] < 0 || stamp[u] >= j))
    &&& u < far(lay, x)
    &&& forall|y: int|
        u < y < far(lay, x) && lay.is_node(y) && lay.top(y) == c ==> 0 <= #[trigger] stamp[y] < j
}

/// `down[x]` is the nearest node below `x` in its column that was linked stamp
/// the links of `x` froze, or the header if there is none.
pub open spec fn down_ok(lay: Layout, down: Seq<i32>, stamp: Seq<int>, len: int, x: int) -> bool {
    let d = down[x] as int;
    let c = lay.col(x);
    let j = time(stamp, len, x);
    &&& d == c || (lay.is_node(d) && lay.top(d) == c && (stamp[d] < 0 || stamp[d] >= j))
    &&& x < far(lay, d)
    &&& forall|y: int|
        x < y < far(lay, d) && lay.is_node(y) && lay.top(y) == c ==> 0 <= #[trigger] stamp[y] < j
}

/// Every header and every node has the vertical links that the stack of
/// unlinked nodes dictates.
pub open spec fn vert_ok(
    lay: Layout,
    up: Seq<i32>,
    down: Seq<i32>,
    stamp: Seq<int>,
    len: int,
) -> bool {
    forall|x: int|
        lay.is_header(x) || lay.is_node(x) ==> #[trigger] links_ok(lay, up, down, stamp, len, x)
}

/// Both vertical links of `x` are as the stack dictates.
pub open spec fn links_ok(
    lay: Layout,
    up: Seq<i32>,
    down: Seq<i32>,
    stamp: Seq<int>,
    len: int,
    x: int,
) -> bool {
    up_ok(lay, up, stamp, len, x) && down_ok(lay, down, stamp, len, x)
}

/// Node `y` lies in the column of item `c` and is linked.
pub open spec fn live_in(lay: Layout, stamp: Seq<int>, c: int, y: int) -> bool {
    lay.is_node(y) && lay.top(y) == c && stamp[y] < 0
}

/// The number of linked nodes of column `c` among the indices below `hi`.
pub open spec fn count_live(lay: Layout, stamp: Seq<int>, c: int, hi: int) -> int
    decreases hi,
{
    if hi <= 0 {
        0
    } else {
        count_live(lay, stamp, c, hi - 1) + if live_in(lay, stamp, c, hi - 1) {
            1int
        } else {
            0int
        }
    }
}

/// The last node of the option that follows the spacer at `x`.
pub open spec fn next_last(lay: Layout, x: int) -> int {
    if x <= lay.p.n + 1 {
        lay.sp[1] - 1
    } else {
        lay.sp[lay.row[x] + 2] - 1
    }
}

/// The part of the arena that never changes: what each node and spacer
/// records, and the links of the spacers.
pub open spec fn static_ok(lay: Layout, toplen: Seq<i32>, up: Seq<i32>, down: Seq<i32>) -> bool {
    &&& toplen.len() == lay.z() + 1
    &&& up.len() == lay.z() + 1
    &&& down.len() == lay.z() + 1
    &&& toplen[0] == 0
    &&& up[0] == 0
    &&& down[0] == 0
    &&& forall|x: int| lay.p.n < x <= lay.z() ==> #[trigger] toplen[x] == lay.top(x)
    &&& forall|x: int|
        lay.is_spacer(x) ==> #[trigger] up[x] == (if x == lay.p.n + 1 {
            0
        } else {
            lay.lo(x)
        })
    &&& forall|x: int|
        lay.is_spacer(x) ==> #[trigger] down[x] == (if x == lay.z() {
            0
        } else {
            next_last(lay, x)
        })
}

/// The index past which no left neighbour of header `h` is sought.
pub open spec fn hfar(n: int, h: int) -> int {
    if h == 0 {
        n + 1
    } else {
        h
    }
}

/// `left[h]` is the nearest header to the left of `h`, cyclically, that was
/// in the ring stamp the links of `h` froze.
pub open spec fn left_ok(n: int, left: Seq<i32>, hstamp: Seq<int>, len: int, h: int) -> bool {
    let l = left[h] as int;
    let j = time(hstamp, len, h);
    &&& 0 <= l <= n
    &&& l < hfar(n, h)
    &&& hstamp[l] < 0 || hstamp[l] >= j
    &&& forall|y: int| l < y < hfar(n, h) ==> 0 <= #[trigger] hstamp[y] < j
}

/// `right[h]` is the nearest header to the right of `h`, cyclically, that was
/// in the ring stamp the links of `h` froze.
pub open spec fn right_ok(n: int, right: Seq<i32>, hstamp: Seq<int>, len: int, h: int) -> bool {
    let r = right[h] as int;
    let j = time(hstamp, len, h);
    &&& 0 <= r <= n
    &&& h < hfar(n, r)
    &&& hstamp[r] < 0 || hstamp[r] >= j
    &&& forall|y: int| h < y < hfar(n, r) ==> 0 <= #[trigger] hstamp[y] < j
}

/// The root and every header have the horizontal links that the stack of
/// covered items dictates.
pub open spec fn horiz_ok(n: int, left: Seq<i32>, right: Seq<i32>, hstamp: Seq<int>, len: int) -> bool {
    &&& left.len() == n + 1
    &&& right.len() == n + 1
    &&& forall|h: int| 0 <= h <= n ==> #[trigger] sides_ok(n, left, right, hstamp, len, h)
}

/// Both horizontal links of `h` are as the stack dictates.
pub open spec fn sides_ok(
    n: int,
    left: Seq<i32>,
    right: Seq<i32>,
    hstamp: Seq<int>,
    len: int,
    h: int,
) -> bool {
    left_ok(n, left, hstamp, len, h) && right_ok(n, right, hstamp, len, h)
}

impl<'a> ExactCoverSolver<'a> {
    /// The problem that the matrix was built from.
    pub open spec fn problem(&self) -> crate::problem::Problem {
        self.ec@
    }

    /// The link arrays are exactly what the two stacks dictate.
    pub open spec fn wf(&self) -> bool {
        let lay = self.lay@;
        &&& lay.wf()
        &&& lay == Layout::of(self.ec@)
        &&& lay.z() < i32::MAX
        &&& static_ok(lay, self.toplen@, self.ulink@, self.dlink@)
        &&& self.stamp@.len() == lay.z() + 1
        &&& stack_ok(self.removed@, self.stamp@)
        &&& forall|j: int| 0 <= j < self.removed@.len() ==> lay.is_node(#[trigger] self.removed@[j])
        &&& vert_ok(lay, self.ulink@, self.dlink@, self.stamp@, self.removed@.len() as int)
        &&& forall|c: int|
            1 <= c <= lay.p.n ==> #[trigger] self.toplen@[c] == count_live(
                lay,
                self.stamp@,
                c,
                lay.z() + 1,
            )
        &&& self.hstamp@.len() == lay.p.n + 1
        &&& stack_ok(self.covered@, self.hstamp@)
        &&& forall|j: int| 0 <= j < self.covered@.len() ==> 1 <= #[trigger] self.covered@[j]
        &&& horiz_ok(lay.p.n, self.llink@, self.rlink@, self.hstamp@, self.covered@.len() as int)
    }

    /// Node `x` is linked into its column.
    pub open spec fn linked(&self, x: int) -> bool {
        self.lay@.is_node(x) && !self.removed@.contains(x)
    }

    /// Item `c` is in the header ring.
    pub open spec fn active(&self, c: int) -> bool {
        1 <= c <= self.lay@.p.n && !self.covered@.contains(c)
    }
}

/// Unlinking or relinking one node changes the count of its column by one and
/// no other count.
pub(crate) proof fn lemma_count_change(lay: Layout, w1: Seq<int>, w2: Seq<int>, c: int, q: int, hi: int)
    requires
        forall|y: int| y != q ==> live_in(lay, w1, c, y) == live_in(lay, w2, c, y),
    ensures
        count_live(lay, w2, c, hi) - count_live(lay, w1, c, hi) == (if 0 <= q < hi {
            (if live_in(lay, w2, c, q) {
                1int
            } else {
                0int
            }) - (if live_in(lay, w1, c, q) {
                1int
            } else {
                0int
            })
        } else {
            0int
        }),
    decreases hi,
{
    if hi > 0 {
        lemma_count_change(lay, w1, w2, c, q, hi - 1);
    }
}

/// A count of linked nodes lies between zero and the number of indices counted.
pub(crate) proof fn lemma_count_bounds(lay: Layout, w: Seq<int>, c: int, hi: int)
    ensures
        0 <= count_live(lay, w, c, hi),
        count_live(lay, w, c, hi) <= if hi > 0 { hi } else { 0 },
    decreases hi,
{
    if hi > 0 {
        lemma_count_bounds(lay, w, c, hi - 1);
    }
}

/// Unlinking a linked node `q` from its column, and pushing it on the stack,
/// leaves every vertical link as the longer stack dictates.
#[verifier::rlimit(50)]
pub(crate) proof fn lemma_unlink_vert(
    lay: Layout,
    up: Seq<i32>,
    down: Seq<i32>,
    stamp: Seq<int>,
    len: int,
    q: int,
)
    requires
        lay.wf(),
        lay.z() < i32::MAX,
        up.len() == lay.z() + 1,
        down.len() == lay.z() + 1,
        stamp.len() == lay.z() + 1,
        len >= 0,
        forall|x: int| 0 <= x < stamp.len() ==> #[trigger] stamp[x] < len,
        forall|x: int| 0 <= x <= lay.p.n ==> #[trigger] stamp[x] < 0,
        vert_ok(lay, up, down, stamp, len),
        lay.is_node(q),
        stamp[q] < 0,
    ensures
        vert_ok(
            lay,
            up.update(down[q] as int, up[q]),
            down.update(up[q] as int, down[q]),
            stamp.update(q, len),
            len + 1,
        ),
        0 <= up[q] <= lay.z(),
        0 <= down[q] <= lay.z(),
        up[q] != q,
        down[q] != q,
{
    lay.lemma_node(q);
    assert(links_ok(lay, up, down, stamp, len, q));
    let u = up[q] as int;
    let d = down[q] as int;
    let c = lay.col(q);
    let up2 = up.update(d, up[q]);
    let down2 = down.update(u, down[q]);
    let stamp2 = stamp.update(q, len);
    assert(links_ok(lay, up, down, stamp, len, c));
    assert forall|x: int| lay.is_header(x) || lay.is_node(x) implies #[trigger] links_ok(
        lay,
        up2,
        down2,
        stamp2,
        len + 1,
        x,
    ) by {
        assert(links_ok(lay, up, down, stamp, len, x));
        if lay.is_node(x) {
            lay.lemma_node(x);
        }
        let cx = lay.col(x);
        let ux = up[x] as int;
        let dx = down[x] as int;
        if x == q {
            assert(up_ok(lay, up2, stamp2, len + 1, x));
            assert(down_ok(lay, down2, stamp2, len + 1, x));
        } else if cx != c {
            assert(ux != q);
            assert(dx != q);
            assert(x != u && x != d);
            assert(up_ok(lay, up2, stamp2, len + 1, x));
            assert(down_ok(lay, down2, stamp2, len + 1, x));
        } else {
            // `x` lies in the column of `q`: were `q` its neighbour above, it
            // would be the neighbour of `q` below, and the other way round
            if x != d {
                assert(up2[x] == up[x]);
                if ux == q {
                    assert(stamp[x] >= 0 || x == d) by {
                        if stamp[x] < 0 {
                            if d != c {
                                assert(stamp[d] < 0);
                            }
                        }
                    }
                }
                assert(up_ok(lay, up2, stamp2, len + 1, x));
            } else {
                assert(up2[x] as int == u);
                assert(lay.col(x) == c);
                assert(stamp[x] < 0);
                assert(time(stamp2, len + 1, x) == len + 1);
                assert(u == c || stamp[u] < 0);
                assert(u < far(lay, x));
                assert forall|y: int|
                    u < y < far(lay, x) && lay.is_node(y) && lay.top(y) == c implies 0
                    <= #[trigger] stamp2[y] < len + 1 by {
                    if y < q {
                        assert(0 <= stamp[y] < len);
                    } else if y > q {
                        assert(0 <= stamp[y] < len);
                    }
                }
                assert(up_ok(lay, up2, stamp2, len + 1, x));
            }
            if x != u {
                assert(down2[x] == down[x]);
                if dx == q {
                    assert(stamp[x] >= 0 || x == u) by {
                        if stamp[x] < 0 {
                            if u != c {
                                assert(stamp[u] < 0);
                            }
                        }
                    }
                }
                assert(down_ok(lay, down2, stamp2, len + 1, x));
            } else {
                assert(down2[x] as int == d);
                assert(lay.col(x) == c);
                assert(stamp[x] < 0);
                assert(time(stamp2, len + 1, x) == len + 1);
                assert(d == c || stamp[d] < 0);
                assert(x < far(lay, d));
                assert forall|y: int|
                    x < y < far(lay, d) && lay.is_node(y) && lay.top(y) == c implies 0
                    <= #[trigger] stamp2[y] < len + 1 by {
                    if y < q {
                        assert(0 <= stamp[y] < len);
                    } else if y > q {
                        assert(0 <= stamp[y] < len);
                    }
                }
                assert(down_ok(lay, down2, stamp2, len + 1, x));
            }
        }
    }
}

/// Relinking the node `q` on top of the stack between the neighbours it
/// remembers, and popping it, leaves every vertical link as the shorter stack
/// dictates.
#[verifier::rlimit(50)]
pub(crate) proof fn lemma_relink_vert(
    lay: Layout,
    up: Seq<i32>,
    down: Seq<i32>,
    stamp: Seq<int>,
    len: int,
    q: int,
)
    requires
        lay.wf(),
        lay.z() < i32::MAX,
        up.len() == lay.z() + 1,
        down.len() == lay.z() + 1,
        stamp.len() == lay.z() + 1,
        len >= 1,
        forall|x: int| 0 <= x < stamp.len() ==> #[trigger] stamp[x] < len,
        forall|x: int| 0 <= x < stamp.len() && x != q ==> #[trigger] stamp[x] != len - 1,
        forall|x: int| 0 <= x <= lay.p.n ==> #[trigger] stamp[x] < 0,
        vert_ok(lay, up, down, stamp, len),
        lay.is_node(q),
        stamp[q] == len - 1,
    ensures
        vert_ok(
            lay,
            up.update(down[q] as int, q as i32),
            down.update(up[q] as int, q as i32),
            stamp.update(q, -1),
            len - 1,
        ),
        0 <= up[q] <= lay.z(),
        0 <= down[q] <= lay.z(),
        up[q] != q,
        down[q] != q,
{
    lay.lemma_node(q);
    assert(links_ok(lay, up, down, stamp, len, q));
    let u = up[q] as int;
    let d = down[q] as int;
    let c = lay.col(q);
    let up2 = up.update(d, q as i32);
    let down2 = down.update(u, q as i32);
    let stamp2 = stamp.update(q, -1);
    assert(lay.is_header(c));
    assert(links_ok(lay, up, down, stamp, len, c));
    assert(u == c || stamp[u] < 0);
    assert(d == c || stamp[d] < 0);
    assert forall|x: int| lay.is_header(x) || lay.is_node(x) implies #[trigger] links_ok(
        lay,
        up2,
        down2,
        stamp2,
        len - 1,
        x,
    ) by {
        assert(links_ok(lay, up, down, stamp, len, x));
        if lay.is_node(x) {
            lay.lemma_node(x);
        }
        let cx = lay.col(x);
        let ux = up[x] as int;
        let dx = down[x] as int;
        if x == q {
            assert(up_ok(lay, up2, stamp2, len - 1, x));
            assert(down_ok(lay, down2, stamp2, len - 1, x));
        } else if cx != c {
            assert(x != u && x != d);
            assert(up_ok(lay, up2, stamp2, len - 1, x));
            assert(down_ok(lay, down2, stamp2, len - 1, x));
        } else {
            if x != d {
                assert(up2[x] == up[x]);
                assert(up_ok(lay, up2, stamp2, len - 1, x));
            } else {
                assert(up2[x] as int == q);
                assert(up_ok(lay, up2, stamp2, len - 1, x));
            }
            if x != u {
                assert(down2[x] == down[x]);
                assert(down_ok(lay, down2, stamp2, len - 1, x));
            } else {
                assert(down2[x] as int == q);
                assert(down_ok(lay, down2, stamp2, len - 1, x));
            }
        }
    }
}

/// Taking the header of an item `i` out of the header ring, and pushing it on
/// the stack, leaves every horizontal link as the longer stack dictates.
pub(crate) proof fn lemma_unlink_horiz(
    n: int,
    left: Seq<i32>,
    right: Seq<i32>,
    hstamp: Seq<int>,
    len: int,
    i: int,
)
    requires
        1 <= i <= n < i32::MAX,
        hstamp.len() == n + 1,
        len >= 0,
        forall|x: int| 0 <= x < hstamp.len() ==> #[trigger] hstamp[x] < len,
        hstamp[0] < 0,
        horiz_ok(n, left, right, hstamp, len),
        hstamp[i] < 0,
    ensures
        horiz_ok(
            n,
            left.update(right[i] as int, left[i]),
            right.update(left[i] as int, right[i]),
            hstamp.update(i, len),
            len + 1,
        ),
        0 <= left[i] <= n,
        0 <= right[i] <= n,
        left[i] != i,
        right[i] != i,
{
    assert(sides_ok(n, left, right, hstamp, len, i));
    let left2 = left.update(right[i] as int, left[i]);
    let right2 = right.update(left[i] as int, right[i]);
    let hstamp2 = hstamp.update(i, len);
    assert forall|h: int| 0 <= h <= n implies #[trigger] sides_ok(
        n,
        left2,
        right2,
        hstamp2,
        len + 1,
        h,
    ) by {
        assert(sides_ok(n, left, right, hstamp, len, h));
    }
}

/// Putting the header on top of the stack back between the neighbours it
/// remembers, and popping it, leaves every horizontal link as the shorter
/// stack dictates.
pub(crate) proof fn lemma_relink_horiz(
    n: int,
    left: Seq<i32>,
    right: Seq<i32>,
    hstamp: Seq<int>,
    len: int,
    i: int,
)
    requires
        1 <= i <= n < i32::MAX,
        hstamp.len() == n + 1,
        len >= 1,
        forall|x: int| 0 <= x < hstamp.len() ==> #[trigger] hstamp[x] < len,
        forall|x: int| 0 <= x < hstamp.len() && x != i ==> #[trigger] hstamp[x] != len - 1,
        hstamp[0] < 0,
        horiz_ok(n, left, right, hstamp, len),
        hstamp[i] == len - 1,
    ensures
        horiz_ok(
            n,
            left.update(right[i] as int, i as i32),
            right.update(left[i] as int, i as i32),
            hstamp.update(i, -1),
            len - 1,
        ),
        0 <= left[i] <= n,
        0 <= right[i] <= n,
        left[i] != i,
        right[i] != i,
{
    assert(sides_ok(n, left, right, hstamp, len, i));
    let left2 = left.update(right[i] as int, i as i32);
    let right2 = right.update(left[i] as int, i as i32);
    let hstamp2 = hstamp.update(i, -1);
    assert forall|h: int| 0 <= h <= n implies #[trigger] sides_ok(
        n,
        left2,
        right2,
        hstamp2,
        len - 1,
        h,
    ) by {
        assert(sides_ok(n, left, right, hstamp, len, h));
    }
}

} // verus!
