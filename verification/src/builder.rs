//! Building the matrix from a problem.

use vstd::prelude::*;
use crate::problem::{ExactCover, InvalidProblem};
use crate::layout::{Layout, spacer};
use crate::matrix::{
    ExactCoverSolver, links_ok, sides_ok, static_ok, stack_ok, count_live, live_in, next_last,
    lemma_count_bounds,
};

verus! {

/// The stamps of a matrix in which nothing is unlinked.
pub open spec fn fresh(len: int) -> Seq<int> {
    Seq::new(len as nat, |x: int| -1int)
}

/// While the arena is being filled, `x` has the vertical links that the
/// nodes emitted so far, those below `end`, dictate.
pub open spec fn node_built(lay: Layout, up: Seq<i32>, down: Seq<i32>, end: int, x: int) -> bool {
    let u = up[x] as int;
    let d = down[x] as int;
    let c = lay.col(x);
    let fx = if x <= lay.p.n { end } else { x };
    let fd = if d <= lay.p.n { end } else { d };
    &&& u == c || (lay.is_node(u) && u < end && lay.top(u) == c)
    &&& u < fx
    &&& forall|y: int| u < y < fx && lay.is_node(y) ==> #[trigger] lay.top(y) != c
    &&& d == c || (lay.is_node(d) && d < end && lay.top(d) == c)
    &&& x < fd
    &&& forall|y: int| x < y < fd && lay.is_node(y) ==> #[trigger] lay.top(y) != c
}

/// Every header, and every node emitted so far, is linked as it should be.
pub open spec fn built_ok(lay: Layout, up: Seq<i32>, down: Seq<i32>, end: int) -> bool {
    forall|x: int|
        lay.is_header(x) || (lay.is_node(x) && x < end) ==> #[trigger] node_built(lay, up, down, end, x)
}

/// The fixed part of the arena is in place below `end`, with `k` options
/// closed by their spacers.
pub open spec fn built_static(
    lay: Layout,
    toplen: Seq<i32>,
    up: Seq<i32>,
    down: Seq<i32>,
    end: int,
    k: int,
) -> bool {
    &&& toplen.len() == end
    &&& up.len() == end
    &&& down.len() == end
    &&& toplen[0] == 0
    &&& up[0] == 0
    &&& down[0] == 0
    &&& forall|x: int| lay.p.n < x < end ==> #[trigger] toplen[x] == lay.top(x)
    &&& forall|x: int|
        lay.is_spacer(x) && x < end ==> #[trigger] up[x] == (if x == lay.p.n + 1 {
            0
        } else {
            lay.lo(x)
        })
    &&& forall|x: int| lay.is_spacer(x) && x < lay.sp[k] ==> #[trigger] down[x] == next_last(lay, x)
    &&& down[lay.sp[k]] == 0
}

/// Every header counts the nodes of its column emitted so far.
pub open spec fn built_counts(lay: Layout, toplen: Seq<i32>, end: int) -> bool {
    forall|c: int|
        1 <= c <= lay.p.n ==> #[trigger] toplen[c] == count_live(lay, fresh(lay.z() + 1), c, end)
}

/// Builds the matrix for problem `e`: the header ring in item order, and for
/// each option in turn one node per item, appended to the column of the
/// item, and a closing spacer. An invalid problem is refused before anything
/// is built.
#[verifier::rlimit(50)]
pub fn init_solver<'a>(e: &'a ExactCover) -> (res: Result<ExactCoverSolver<'a>, InvalidProblem>)
    requires
        e@.valid() ==> e@.arena_last() < i32::MAX,
    ensures
        res is Ok <==> e@.valid(),
        res matches Ok(s) ==> {
            &&& s.wf()
            &&& s.consistent()
            &&& s.ec == e
            &&& s.covered@ == Seq::<int>::empty()
            &&& s.removed@ == Seq::<int>::empty()
        },
{
    if !e.is_valid() {
        return Err(InvalidProblem);
    }
    let ghost lay = Layout::of(e@);
    proof {
        Layout::lemma_of(e@);
        lay.lemma_size();
    }
    let n: usize = e.items.len() - 1;
    let mut llink: Vec<i32> = Vec::new();
    let mut rlink: Vec<i32> = Vec::new();
    let mut toplen: Vec<i32> = Vec::new();
    let mut ulink: Vec<i32> = Vec::new();
    let mut dlink: Vec<i32> = Vec::new();
    let mut h: usize = 0;
    while h <= n
        invariant
            h <= n + 1,
            n + 1 < i32::MAX,
            llink.len() == h,
            rlink.len() == h,
            toplen.len() == h,
            ulink.len() == h,
            dlink.len() == h,
            forall|j: int| 0 <= j < h ==> #[trigger] llink[j] == (if j == 0 { n as int } else { j - 1 }),
            forall|j: int| 0 <= j < h ==> #[trigger] rlink[j] == (if j == n { 0 } else { j + 1 }),
            forall|j: int| 0 <= j < h ==> #[trigger] toplen[j] == 0,
            forall|j: int| 0 <= j < h ==> #[trigger] ulink[j] == j,
            forall|j: int| 0 <= j < h ==> #[trigger] dlink[j] == j,
        decreases n + 1 - h,
    {
        llink.push(if h == 0 { n as i32 } else { (h - 1) as i32 });
        rlink.push(if h == n { 0 } else { (h + 1) as i32 });
        toplen.push(0);
        ulink.push(h as i32);
        dlink.push(h as i32);
        h = h + 1;
    }
    toplen.push(0);
    ulink.push(0);
    dlink.push(0);
    let mut count: usize = n + 2;
    let mut k: usize = 0;
    proof {
        assert(built_static(lay, toplen@, ulink@, dlink@, count as int, 0));
        assert forall|x: int| lay.is_header(x) implies #[trigger] node_built(
            lay,
            ulink@,
            dlink@,
            count as int,
            x,
        ) by {}
        assert forall|c: int| 1 <= c <= lay.p.n implies #[trigger] count_live(
            lay,
            fresh(lay.z() + 1),
            c,
            count as int,
        ) == 0 by {
            lemma_count_none(lay, c, count as int);
        }
    }
    while k < e.choices.len()
        invariant
            k <= e.choices.len(),
            lay == Layout::of(e@),
            lay.wf(),
            lay.z() < i32::MAX,
            n == lay.p.n,
            count == lay.sp[k as int] + 1,
            k < count,
            built_static(lay, toplen@, ulink@, dlink@, count as int, k as int),
            built_ok(lay, ulink@, dlink@, count as int),
            built_counts(lay, toplen@, count as int),
        decreases e.choices.len() - k,
    {
        let row = &e.choices[k];
        let first = count;
        let mut t: usize = 0;
        proof {
            assert(lay.step(k as int));
            assert(lay.ordered(k + 1, lay.p.m()));
            assert(lay.p.opts[k as int].len() == row.len());
        }
        while t < row.len()
            invariant
                t <= row.len(),
                k < e.choices.len(),
                row == e.choices[k as int],
                lay == Layout::of(e@),
                lay.wf(),
                lay.z() < i32::MAX,
                n == lay.p.n,
                first == lay.sp[k as int] + 1,
                count == first + t,
                k < first,
                lay.sp[k + 1] == lay.sp[k as int] + row.len() + 1,
                lay.sp[k + 1] <= lay.z(),
                built_static(lay, toplen@, ulink@, dlink@, count as int, k as int),
                built_ok(lay, ulink@, dlink@, count as int),
                built_counts(lay, toplen@, count as int),
            decreases row.len() - t,
        {
            let val = row[t];
            let ghost x = count as int;
            let ghost up0 = ulink@;
            let ghost down0 = dlink@;
            proof {
                lay.lemma_row_unique(x, k as int);
                assert(lay.is_node(x));
                lay.lemma_node(x);
                assert(lay.top(x) == val) by {
                    assert(lay.p.opts[k as int][t as int] == val);
                }
                assert(node_built(lay, up0, down0, x, val as int));
            }
            let u = ulink[val];
            let c = toplen[val];
            proof {
                lemma_count_bounds(lay, fresh(lay.z() + 1), val as int, x);
                if u != val {
                    assert(node_built(lay, up0, down0, x, u as int));
                }
            }
            toplen.push(val as i32);
            ulink.push(u);
            dlink.push(val as i32);
            dlink.set(u as usize, count as i32);
            ulink.set(val, count as i32);
            toplen.set(val, c + 1);
            proof {
                let up1 = ulink@;
                let down1 = dlink@;
                assert(!lay.is_spacer(u as int));
                assert(built_static(lay, toplen@, up1, down1, x + 1, k as int));
                assert forall|y: int|
                    lay.is_header(y) || (lay.is_node(y) && y < x + 1) implies #[trigger] node_built(
                    lay,
                    up1,
                    down1,
                    x + 1,
                    y,
                ) by {
                    if y != x {
                        assert(node_built(lay, up0, down0, x, y));
                    }
                    if lay.is_node(y) {
                        lay.lemma_node(y);
                    }
                }
                assert forall|c2: int| 1 <= c2 <= lay.p.n implies #[trigger] toplen@[c2]
                    == count_live(lay, fresh(lay.z() + 1), c2, x + 1) by {
                    assert(live_in(lay, fresh(lay.z() + 1), c2, x) == (c2 == val));
                }
            }
            count = count + 1;
            t = t + 1;
        }
        proof {
            lay.lemma_row_unique(count as int, k as int);
            if k > 0 {
                lay.lemma_row_unique(first - 1, k - 1);
            }
            assert(lay.is_spacer(count as int));
            assert(lay.is_spacer(first - 1));
        }
        let ghost top0 = toplen@;
        let ghost up0 = ulink@;
        let ghost down0 = dlink@;
        toplen.push(-(k as i32) - 1);
        ulink.push(first as i32);
        dlink.push(0);
        dlink.set(first - 1, (count - 1) as i32);
        proof {
            let x = count as int;
            let up1 = ulink@;
            let down1 = dlink@;
            assert(built_static(lay, toplen@, up1, down1, x + 1, k + 1)) by {
                assert forall|y: int| lay.is_spacer(y) && y < lay.sp[k + 1] implies #[trigger] down1[y]
                    == next_last(lay, y) by {
                    if y < lay.sp[k as int] {
                        assert(down1[y] == down0[y]);
                    } else if y > lay.sp[k as int] {
                        lay.lemma_row_unique(y, k as int);
                    }
                }
            }
            assert forall|y: int|
                lay.is_header(y) || (lay.is_node(y) && y < x + 1) implies #[trigger] node_built(
                lay,
                up1,
                down1,
                x + 1,
                y,
            ) by {
                assert(node_built(lay, up0, down0, x, y));
            }
            assert forall|c2: int| 1 <= c2 <= lay.p.n implies #[trigger] toplen@[c2] == count_live(
                lay,
                fresh(lay.z() + 1),
                c2,
                x + 1,
            ) by {
                assert(!live_in(lay, fresh(lay.z() + 1), c2, x));
            }
        }
        count = count + 1;
        k = k + 1;
    }
    let s = ExactCoverSolver {
        ec: e,
        toplen,
        llink,
        rlink,
        ulink,
        dlink,
        lay: Ghost(lay),
        removed: Ghost(Seq::empty()),
        stamp: Ghost(fresh(lay.z() + 1)),
        covered: Ghost(Seq::empty()),
        hstamp: Ghost(fresh(lay.p.n + 1)),
    };
    proof {
        let stamp = fresh(lay.z() + 1);
        let hstamp = fresh(lay.p.n + 1);
        assert(static_ok(lay, s.toplen@, s.ulink@, s.dlink@));
        assert(stack_ok(s.removed@, stamp));
        assert(stack_ok(s.covered@, hstamp));
        assert forall|x: int| lay.is_header(x) || lay.is_node(x) implies #[trigger] links_ok(
            lay,
            s.ulink@,
            s.dlink@,
            stamp,
            0,
            x,
        ) by {
            assert(node_built(lay, s.ulink@, s.dlink@, lay.z() + 1, x));
        }
        assert forall|h: int| 0 <= h <= lay.p.n implies #[trigger] sides_ok(
            lay.p.n,
            s.llink@,
            s.rlink@,
            hstamp,
            0,
            h,
        ) by {}
        assert(s.wf());
    }
    Ok(s)
}

/// Below the first node no column counts anything.
pub(crate) proof fn lemma_count_none(lay: Layout, c: int, hi: int)
    requires
        hi <= lay.p.n + 2,
    ensures
        count_live(lay, fresh(lay.z() + 1), c, hi) == 0,
    decreases hi,
{
    if hi > 0 {
        lemma_count_none(lay, c, hi - 1);
    }
}

} // verus!
