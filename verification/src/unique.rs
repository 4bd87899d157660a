//! The link arrays are a function of the two stacks.

use vstd::prelude::*;
use crate::matrix::{ExactCoverSolver, links_ok, sides_ok, stack_ok};
use crate::problem::as_ints;
use crate::algorithm::answer;
use crate::problem::Problem;

verus! {

/// A stack admits one assignment of stamps only.
pub(crate) proof fn lemma_stamps_unique(stack: Seq<int>, s1: Seq<int>, s2: Seq<int>)
    requires
        stack_ok(stack, s1),
        stack_ok(stack, s2),
        s1.len() == s2.len(),
    ensures
        s1 == s2,
{
    assert forall|x: int| 0 <= x < s1.len() implies s1[x] == s2[x] by {
        if s1[x] != -1 {
            assert(stack[s1[x]] == x);
            assert(s2[stack[s1[x]]] == s1[x]);
        } else if s2[x] != -1 {
            assert(stack[s2[x]] == x);
            assert(s1[stack[s2[x]]] == s2[x]);
        }
    }
    assert(s1 =~= s2);
}

/// Two well-formed matrices of one problem with the same nodes unlinked and
/// the same items covered, in the same order, agree in every link and every
/// count.
pub proof fn links_are_determined(a: ExactCoverSolver, b: ExactCoverSolver)
    requires
        a.wf(),
        b.wf(),
        a.lay@ == b.lay@,
        a.removed@ == b.removed@,
        a.covered@ == b.covered@,
    ensures
        a.toplen@ == b.toplen@,
        a.llink@ == b.llink@,
        a.rlink@ == b.rlink@,
        a.ulink@ == b.ulink@,
        a.dlink@ == b.dlink@,
{
    let lay = a.lay@;
    let n = lay.p.n;
    lay.lemma_size();
    lemma_stamps_unique(a.removed@, a.stamp@, b.stamp@);
    lemma_stamps_unique(a.covered@, a.hstamp@, b.hstamp@);
    let stamp = a.stamp@;
    let hstamp = a.hstamp@;
    let len = a.removed@.len() as int;
    let clen = a.covered@.len() as int;
    assert forall|x: int| 0 <= x <= lay.z() implies a.ulink@[x] == b.ulink@[x] && a.dlink@[x]
        == b.dlink@[x] && a.toplen@[x] == b.toplen@[x] by {
        if lay.is_header(x) || lay.is_node(x) {
            assert(links_ok(lay, a.ulink@, a.dlink@, stamp, len, x));
            assert(links_ok(lay, b.ulink@, b.dlink@, stamp, len, x));
            let ua = a.ulink@[x] as int;
            let ub = b.ulink@[x] as int;
            let da = a.dlink@[x] as int;
            let db = b.dlink@[x] as int;
            if ua != ub {
                if lay.is_node(ua) {
                    assert(stamp[ua] < 0 || stamp[ua] >= 0);
                }
                if lay.is_node(ub) {
                    assert(stamp[ub] < 0 || stamp[ub] >= 0);
                }
            }
            if da != db {
                if lay.is_node(da) {
                    assert(stamp[da] < 0 || stamp[da] >= 0);
                }
                if lay.is_node(db) {
                    assert(stamp[db] < 0 || stamp[db] >= 0);
                }
            }
        } else if x == 0 {
        } else {
            assert(lay.is_spacer(x));
        }
    }
    assert(a.ulink@ =~= b.ulink@);
    assert(a.dlink@ =~= b.dlink@);
    assert(a.toplen@ =~= b.toplen@);
    assert forall|h: int| 0 <= h <= n implies a.llink@[h] == b.llink@[h] && a.rlink@[h]
        == b.rlink@[h] by {
        assert(sides_ok(n, a.llink@, a.rlink@, hstamp, clen, h));
        assert(sides_ok(n, b.llink@, b.rlink@, hstamp, clen, h));
        let la = a.llink@[h] as int;
        let lb = b.llink@[h] as int;
        let ra = a.rlink@[h] as int;
        let rb = b.rlink@[h] as int;
        if la != lb {
            assert(hstamp[la] < 0 || hstamp[la] >= 0);
            assert(hstamp[lb] < 0 || hstamp[lb] >= 0);
        }
        if ra != rb {
            assert(hstamp[ra] < 0 || hstamp[ra] >= 0);
            assert(hstamp[rb] < 0 || hstamp[rb] >= 0);
        }
    }
    assert(a.llink@ =~= b.llink@);
    assert(a.rlink@ =~= b.rlink@);
}

/// Covering an item and uncovering it again leaves every link array of the
/// matrix, and every count, as it was: `before` is any consistent matrix in
/// which item `c` is in the header ring, `between` what `cover(c)` makes of
/// it, and `after` what `uncover(c)` makes of that.
pub proof fn uncover_undoes_cover(
    before: ExactCoverSolver,
    between: ExactCoverSolver,
    after: ExactCoverSolver,
    c: int,
)
    requires
        before.wf(),
        before.consistent(),
        before.active(c),
        between.wf(),
        between.consistent(),
        between.covered@ == before.covered@.push(c),
        between.lay@ == before.lay@,
        after.wf(),
        after.consistent(),
        after.covered@ == between.covered@.drop_last(),
        after.lay@ == between.lay@,
    ensures
        after.toplen@ == before.toplen@,
        after.llink@ == before.llink@,
        after.rlink@ == before.rlink@,
        after.ulink@ == before.ulink@,
        after.dlink@ == before.dlink@,
{
    assert(before.covered@.push(c).drop_last() =~= before.covered@);
    links_are_determined(after, before);
}

/// Two runs of the solver on one problem return the same options in the
/// same order: `r1` and `r2` are what two calls of `solve` on matrices built
/// from problem `p` return.
pub proof fn solve_is_deterministic(p: Problem, r1: Seq<usize>, r2: Seq<usize>)
    requires
        as_ints(r1) == answer(p),
        as_ints(r2) == answer(p),
    ensures
        r1 == r2,
{
    assert(r1.len() == as_ints(r1).len());
    assert(r2.len() == as_ints(r2).len());
    assert forall|j: int| 0 <= j < r1.len() implies r1[j] == r2[j] by {
        assert(as_ints(r1)[j] == r1[j]);
        assert(as_ints(r2)[j] == r2[j]);
    }
    assert(r1 =~= r2);
}

} // verus!
