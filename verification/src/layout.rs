//! Where each option's nodes lie in the arena.
//!
//! The arena holds the root at index 0, the item headers at `1..=n`, a first
//! spacer at `n + 1`, and then, for each option in turn, one node per item of
//! the option followed by a spacer.

use vstd::prelude::*;
use crate::problem::Problem;

verus! {

/// The fixed geometry of the arena for one problem. `sp[k]` is the index of
/// the spacer that precedes option `k` (and `sp[m]` the last index of the
/// arena); `row[x]` is the option that index `x` belongs to, a spacer
/// belonging to the option it closes.
pub struct Layout {
    pub p: Problem,
    pub sp: Seq<int>,
    pub row: Seq<int>,
}

/// The index of the spacer that precedes option `k`.
pub open spec fn spacer(p: Problem, k: int) -> int {
    p.n + 1 + p.room(k)
}

/// The option that index `x` belongs to, among the first `k` options: the
/// last one whose opening spacer lies before `x`.
pub open spec fn row_below(p: Problem, x: int, k: int) -> int
    decreases k,
{
    if k <= 1 {
        0
    } else if spacer(p, k - 1) < x {
        k - 1
    } else {
        row_below(p, x, k - 1)
    }
}

/// Spacers lie in the order of their options.
pub(crate) proof fn lemma_spacer_ordered(p: Problem, j: int, k: int)
    requires
        0 <= j <= k,
    ensures
        spacer(p, j) <= spacer(p, k),
    decreases k - j,
{
    if j < k {
        lemma_spacer_ordered(p, j, k - 1);
    }
}

/// `row_below` finds the option whose index range holds `x`.
pub(crate) proof fn lemma_row_below(p: Problem, x: int, k: int)
    requires
        1 <= k,
        spacer(p, 0) < x <= spacer(p, k),
    ensures
        0 <= row_below(p, x, k) < k,
        spacer(p, row_below(p, x, k)) < x <= spacer(p, row_below(p, x, k) + 1),
    decreases k,
{
    if k > 1 && !(spacer(p, k - 1) < x) {
        lemma_row_below(p, x, k - 1);
    }
}

impl Layout {
    /// The layout of the arena for problem `p`.
    pub open spec fn of(p: Problem) -> Layout {
        Layout {
            p: p,
            sp: Seq::new((p.m() + 1) as nat, |k: int| spacer(p, k)),
            row: Seq::new((spacer(p, p.m()) + 1) as nat, |x: int| row_below(p, x, p.m())),
        }
    }

    /// The layout of a valid problem is well-formed.
    pub(crate) proof fn lemma_of(p: Problem)
        requires
            p.valid(),
        ensures
            Layout::of(p).wf(),
            Layout::of(p).z() == spacer(p, p.m()),
    {
        let lay = Layout::of(p);
        lemma_spacer_ordered(p, 0, p.m());
        assert forall|k: int| 0 <= k < p.m() implies #[trigger] lay.step(k) by {
            assert(spacer(p, k + 1) == spacer(p, k) + p.opts[k].len() + 1);
        }
        assert forall|j: int, k: int| 0 <= j <= k <= p.m() implies #[trigger] lay.ordered(j, k) by {
            lemma_spacer_ordered(p, j, k);
        }
        assert forall|x: int| p.n + 1 < x <= lay.z() implies 0 <= #[trigger] lay.row[x] < p.m()
            && lay.sp[lay.row[x]] < x <= lay.sp[lay.row[x] + 1] by {
            lemma_row_below(p, x, p.m());
        }
    }

    /// The option whose index range holds `x` is the option of `x`.
    pub(crate) proof fn lemma_row_unique(self, x: int, k: int)
        requires
            self.wf(),
            0 <= k < self.p.m(),
            self.sp[k] < x <= self.sp[k + 1],
        ensures
            self.row[x] == k,
            self.p.n + 1 < x <= self.z(),
    {
        assert(self.ordered(0, k));
        assert(self.ordered(k + 1, self.p.m()));
        let r = self.row[x];
        if r < k {
            assert(self.ordered(r + 1, k));
        } else if r > k {
            assert(self.ordered(k + 1, r));
        }
    }

    /// The last index of the arena.
    pub open spec fn z(self) -> int {
        self.sp[self.p.m()]
    }

    /// The spacers lie one option apart, in order, and every index past the
    /// first spacer belongs to the option whose range holds it.
    pub open spec fn wf(self) -> bool {
        &&& self.p.valid()
        &&& self.sp.len() == self.p.m() + 1
        &&& self.sp[0] == self.p.n + 1
        &&& forall|k: int| 0 <= k < self.p.m() ==> #[trigger] self.step(k)
        &&& forall|j: int, k: int| 0 <= j <= k <= self.p.m() ==> #[trigger] self.ordered(j, k)
        &&& self.row.len() == self.z() + 1
        &&& forall|x: int|
            self.p.n + 1 < x <= self.z() ==> 0 <= #[trigger] self.row[x] < self.p.m() && self.sp[self.row[x]]
                < x <= self.sp[self.row[x] + 1]
    }

    /// Option `k` takes one index per item, and one more for its spacer.
    pub open spec fn step(self, k: int) -> bool {
        self.sp[k + 1] == self.sp[k] + self.p.opts[k].len() + 1
    }

    /// Spacer `j` does not lie after spacer `k`.
    pub open spec fn ordered(self, j: int, k: int) -> bool {
        self.sp[j] <= self.sp[k]
    }

    /// `x` is the index of an element node.
    pub open spec fn is_node(self, x: int) -> bool {
        self.p.n + 1 < x < self.z() && x < self.sp[self.row[x] + 1]
    }

    /// `x` is the index of a spacer.
    pub open spec fn is_spacer(self, x: int) -> bool {
        self.p.n + 1 <= x <= self.z() && !self.is_node(x)
    }

    /// `x` is an item header.
    pub open spec fn is_header(self, x: int) -> bool {
        1 <= x <= self.p.n
    }

    /// The first node of the option that `x` belongs to.
    pub open spec fn lo(self, x: int) -> int {
        self.sp[self.row[x]] + 1
    }

    /// The spacer that closes the option that `x` belongs to.
    pub open spec fn hi(self, x: int) -> int {
        self.sp[self.row[x] + 1]
    }

    /// What the arena records at index `x > n`: for a node its item, for the
    /// spacer closing option `k` (counted from 0) the number `-(k + 1)`, and
    /// 0 for the first spacer.
    pub open spec fn top(self, x: int) -> int {
        if x <= self.p.n + 1 {
            0
        } else if x == self.sp[self.row[x] + 1] {
            -(self.row[x] + 1)
        } else {
            self.p.opts[self.row[x]][x - self.sp[self.row[x]] - 1]
        }
    }

    /// The item whose column holds `x`, for a header or a node.
    pub open spec fn col(self, x: int) -> int {
        if x <= self.p.n {
            x
        } else {
            self.top(x)
        }
    }

    /// The other nodes of the option of node `x`, in the order in which a
    /// scan to the right of `x` meets them, wrapping at the end of the option.
    pub open spec fn others(self, x: int) -> Seq<int> {
        Seq::new(
            (self.hi(x) - self.lo(x) - 1) as nat,
            |j: int|
                if x + 1 + j < self.hi(x) {
                    x + 1 + j
                } else {
                    x + 1 + j - (self.hi(x) - self.lo(x))
                },
        )
    }

    /// The arena holds at least the root, the headers and the first spacer.
    pub(crate) proof fn lemma_size(self)
        requires
            self.wf(),
        ensures
            self.z() >= self.p.n + 1,
            self.is_spacer(self.p.n + 1),
            self.is_spacer(self.z()),
    {
        assert(self.ordered(0, self.p.m()));
    }

    /// Facts about the option around a node, spelled out.
    pub(crate) proof fn lemma_node(self, x: int)
        requires
            self.wf(),
            self.is_node(x),
        ensures
            self.p.n + 1 < self.lo(x) <= x < self.hi(x) <= self.z(),
            0 <= self.row[x] < self.p.m(),
            self.hi(x) - self.lo(x) == self.p.opts[self.row[x]].len(),
            1 <= self.top(x) <= self.p.n,
            self.top(x) == self.p.opts[self.row[x]][x - self.lo(x)],
            self.lo(x) - 1 == self.sp[self.row[x]],
            self.is_spacer(self.hi(x)),
            self.is_spacer(self.lo(x) - 1),
            self.top(self.hi(x)) == -(self.row[x] + 1),
            self.lo(x) - 1 == self.p.n + 1 <==> self.row[x] == 0,
            self.lo(x) - 1 > self.p.n + 1 ==> self.row[self.lo(x) - 1] == self.row[x] - 1,
            forall|y: int|
                self.lo(x) <= y <= self.hi(x) ==> #[trigger] self.row[y] == self.row[x],
            forall|y: int| self.lo(x) <= y < self.hi(x) ==> #[trigger] self.is_node(y),
            forall|y: int|
                self.lo(x) <= y < self.hi(x) && y != x ==> #[trigger] self.top(y) != self.top(x),
    {
        let r = self.row[x];
        assert(self.step(r));
        assert(self.ordered(0, r));
        assert(self.ordered(r + 1, self.p.m()));
        assert forall|y: int| self.lo(x) <= y <= self.hi(x) implies #[trigger] self.row[y] == r by {
            let ry = self.row[y];
            if ry < r {
                assert(self.ordered(ry + 1, r));
            } else if ry > r {
                assert(self.ordered(r + 1, ry));
            }
        }
        assert(self.row[self.hi(x)] == r);
        if self.lo(x) - 1 > self.p.n + 1 {
            let y = self.lo(x) - 1;
            let ry = self.row[y];
            if ry >= r {
                assert(self.ordered(r, ry));
            } else {
                assert(self.ordered(ry + 1, r));
                if ry + 1 < r {
                    assert(self.step(ry + 1));
                    assert(self.ordered(ry + 2, r));
                }
            }
        } else {
            if r > 0 {
                assert(self.step(0));
                assert(self.ordered(1, r));
            }
        }
    }

    /// Two nodes of one column lie in different options, the lower-indexed
    /// node in the earlier one.
    pub(crate) proof fn lemma_rows_ordered(self, x: int, y: int)
        requires
            self.wf(),
            self.is_node(x),
            self.is_node(y),
            x < y,
            self.top(x) == self.top(y),
        ensures
            self.hi(x) < self.lo(y),
            self.row[x] < self.row[y],
    {
        self.lemma_node(x);
        self.lemma_node(y);
        assert(self.is_node(x));
        if self.row[x] > self.row[y] {
            assert(self.ordered(self.row[y] + 1, self.row[x]));
        } else if self.row[x] == self.row[y] {
            assert(self.top(x) != self.top(y));
        } else {
            assert(self.ordered(self.row[x] + 1, self.row[y]));
        }
    }

    /// Every option takes at least one index, so there are fewer options
    /// than indices.
    pub(crate) proof fn lemma_spacer_lower(self, k: int)
        requires
            self.wf(),
            0 <= k <= self.p.m(),
        ensures
            self.sp[k] >= self.p.n + 1 + k,
        decreases k,
    {
        if k > 0 {
            self.lemma_spacer_lower(k - 1);
            assert(self.step(k - 1));
        }
    }
}

} // verus!
