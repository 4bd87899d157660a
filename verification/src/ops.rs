//! The reversible primitives: unlinking and relinking single nodes, hiding
//! and unhiding the options of a node.

use vstd::prelude::*;
use crate::matrix::{
    ExactCoverSolver, links_ok, static_ok, stack_ok, count_live, lemma_count_bounds,
    lemma_count_change, lemma_unlink_vert, lemma_relink_vert,
};

verus! {

impl<'a> ExactCoverSolver<'a> {
    /// In a well-formed matrix the stamps and the stacks agree on what is
    /// linked.
    pub(crate) proof fn lemma_stamps(&self)
        requires
            self.wf(),
        ensures
            forall|x: int|
                0 <= x <= self.lay@.z() ==> (#[trigger] self.stamp@[x] < 0 <==> !self.removed@.contains(
                    x,
                )),
            forall|x: int| 0 <= x <= self.lay@.z() ==> #[trigger] self.stamp@[x] < self.removed@.len(),
            forall|x: int| 0 <= x <= self.lay@.p.n ==> #[trigger] self.stamp@[x] < 0,
            forall|c: int|
                0 <= c <= self.lay@.p.n ==> (#[trigger] self.hstamp@[c] < 0 <==> !self.covered@.contains(
                    c,
                )),
            forall|c: int| 0 <= c <= self.lay@.p.n ==> #[trigger] self.hstamp@[c] < self.covered@.len(),
            self.hstamp@[0] < 0,
            self.removed@.no_duplicates(),
            self.covered@.no_duplicates(),
    {
        let removed = self.removed@;
        let stamp = self.stamp@;
        self.lay@.lemma_size();
        assert forall|x: int| 0 <= x <= self.lay@.z() implies (#[trigger] stamp[x] < 0
            <==> !removed.contains(x)) by {
            if removed.contains(x) {
                let j = choose|j: int| 0 <= j < removed.len() && removed[j] == x;
                assert(stamp[removed[j]] == j);
            }
        }
        assert forall|x: int| 0 <= x <= self.lay@.p.n implies #[trigger] stamp[x] < 0 by {
            if stamp[x] >= 0 {
                assert(self.lay@.is_node(removed[stamp[x]]));
            }
        }
        let covered = self.covered@;
        let hstamp = self.hstamp@;
        assert forall|c: int| 0 <= c <= self.lay@.p.n implies (#[trigger] hstamp[c] < 0
            <==> !covered.contains(c)) by {
            if covered.contains(c) {
                let j = choose|j: int| 0 <= j < covered.len() && covered[j] == c;
                assert(hstamp[covered[j]] == j);
            }
        }
        if hstamp[0] >= 0 {
            assert(covered[hstamp[0]] >= 1);
        }
        assert forall|i: int, j: int|
            0 <= i < removed.len() && 0 <= j < removed.len() && i != j implies removed[i]
            != removed[j] by {
            assert(stamp[removed[i]] == i);
            assert(stamp[removed[j]] == j);
        }
        assert forall|i: int, j: int|
            0 <= i < covered.len() && 0 <= j < covered.len() && i != j implies covered[i]
            != covered[j] by {
            assert(hstamp[covered[i]] == i);
            assert(hstamp[covered[j]] == j);
        }
    }

    /// Takes the linked node `q` out of its column and pushes it on the
    /// stack of unlinked nodes.
    pub fn unlink(&mut self, q: i32)
        requires
            old(self).wf(),
            old(self).linked(q as int),
        ensures
            final(self).wf(),
            final(self).removed@ == old(self).removed@.push(q as int),
            final(self).covered@ == old(self).covered@,
            final(self).lay@ == old(self).lay@,
            final(self).ec == old(self).ec,
            final(self).llink@ == old(self).llink@,
            final(self).rlink@ == old(self).rlink@,
    {
        let ghost lay = self.lay@;
        let ghost len = self.removed@.len() as int;
        let ghost stamp = self.stamp@;
        let ghost stamp2 = stamp.update(q as int, len);
        proof {
            self.lemma_stamps();
            lay.lemma_node(q as int);
            lemma_unlink_vert(lay, self.ulink@, self.dlink@, stamp, len, q as int);
            assert(links_ok(lay, self.ulink@, self.dlink@, stamp, len, q as int));
        }
        let x = self.toplen[q as usize];
        let u = self.ulink[q as usize];
        let d = self.dlink[q as usize];
        let c = self.toplen[x as usize];
        proof {
            lemma_count_bounds(lay, stamp, x as int, lay.z() + 1);
            assert forall|c2: int| 1 <= c2 <= lay.p.n implies #[trigger] count_live(
                lay,
                stamp2,
                c2,
                lay.z() + 1,
            ) == count_live(lay, stamp, c2, lay.z() + 1) - (if c2 == x { 1int } else { 0int }) by {
                lemma_count_change(lay, stamp, stamp2, c2, q as int, lay.z() + 1);
            }
        }
        self.dlink.set(u as usize, d);
        self.ulink.set(d as usize, u);
        self.toplen.set(x as usize, c - 1);
        self.removed = Ghost(self.removed@.push(q as int));
        self.stamp = Ghost(stamp2);
        proof {
            assert(!lay.is_spacer(u as int) && !lay.is_spacer(d as int));
            assert(static_ok(lay, self.toplen@, self.ulink@, self.dlink@));
            assert(stack_ok(self.removed@, self.stamp@));
        }
    }

    /// Puts the node on top of the stack of unlinked nodes back into its
    /// column, between the neighbours it remembers.
    pub fn relink(&mut self, q: i32)
        requires
            old(self).wf(),
            old(self).removed@.len() > 0,
            old(self).removed@.last() == q,
        ensures
            final(self).wf(),
            final(self).removed@ == old(self).removed@.drop_last(),
            final(self).covered@ == old(self).covered@,
            final(self).lay@ == old(self).lay@,
            final(self).ec == old(self).ec,
            final(self).llink@ == old(self).llink@,
            final(self).rlink@ == old(self).rlink@,
    {
        let ghost lay = self.lay@;
        let ghost len = self.removed@.len() as int;
        let ghost stamp = self.stamp@;
        let ghost stamp2 = stamp.update(q as int, -1);
        proof {
            self.lemma_stamps();
            assert(self.removed@[len - 1] == q);
            assert(lay.is_node(q as int));
            assert(stamp[q as int] == len - 1);
            lay.lemma_node(q as int);
            assert forall|x: int| 0 <= x < stamp.len() && x != q implies #[trigger] stamp[x] != len
                - 1 by {}
            lemma_relink_vert(lay, self.ulink@, self.dlink@, stamp, len, q as int);
            assert(links_ok(lay, self.ulink@, self.dlink@, stamp, len, q as int));
        }
        let x = self.toplen[q as usize];
        let u = self.ulink[q as usize];
        let d = self.dlink[q as usize];
        let c = self.toplen[x as usize];
        proof {
            lemma_count_bounds(lay, stamp, x as int, lay.z() + 1);
            lemma_count_bounds(lay, stamp2, x as int, lay.z() + 1);
            assert forall|c2: int| 1 <= c2 <= lay.p.n implies #[trigger] count_live(
                lay,
                stamp2,
                c2,
                lay.z() + 1,
            ) == count_live(lay, stamp, c2, lay.z() + 1) + (if c2 == x { 1int } else { 0int }) by {
                lemma_count_change(lay, stamp, stamp2, c2, q as int, lay.z() + 1);
            }
        }
        self.dlink.set(u as usize, q);
        self.ulink.set(d as usize, q);
        self.toplen.set(x as usize, c + 1);
        self.removed = Ghost(self.removed@.drop_last());
        self.stamp = Ghost(stamp2);
        proof {
            assert(!lay.is_spacer(u as int) && !lay.is_spacer(d as int));
            assert(static_ok(lay, self.toplen@, self.ulink@, self.dlink@));
            assert(stack_ok(self.removed@, self.stamp@));
        }
    }

    /// Every other node of the option of `p` is linked.
    pub open spec fn others_linked(&self, p: int) -> bool {
        forall|k: int|
            0 <= k < self.lay@.others(p).len() ==> self.linked(#[trigger] self.lay@.others(p)[k])
    }

    /// Hides the option of node `p`: unlinks every other node of that option
    /// from its column, scanning to the right of `p` and wrapping at the end
    /// of the option. `p` itself stays where it is.
    pub fn hide_option(&mut self, p: i32)
        requires
            old(self).wf(),
            old(self).lay@.is_node(p as int),
            old(self).others_linked(p as int),
        ensures
            final(self).wf(),
            final(self).removed@ == old(self).removed@ + old(self).lay@.others(p as int),
            final(self).covered@ == old(self).covered@,
            final(self).lay@ == old(self).lay@,
            final(self).ec == old(self).ec,
            final(self).llink@ == old(self).llink@,
            final(self).rlink@ == old(self).rlink@,
    {
        let ghost lay = self.lay@;
        let ghost r0 = self.removed@;
        let ghost others = lay.others(p as int);
        let ghost lo = lay.lo(p as int);
        let ghost hi = lay.hi(p as int);
        proof {
            lay.lemma_node(p as int);
            assert(r0 + others.take(0) =~= r0);
        }
        let mut q = p + 1;
        let ghost mut j: int = 0;
        while q != p
            invariant
                self.wf(),
                self.lay@ == lay,
                self.ec == old(self).ec,
                self.covered@ == old(self).covered@,
                self.llink@ == old(self).llink@,
                self.rlink@ == old(self).rlink@,
                lay.wf(),
                lay.is_node(p as int),
                others == lay.others(p as int),
                lo == lay.lo(p as int),
                hi == lay.hi(p as int),
                0 <= j <= others.len(),
                self.removed@ == r0 + others.take(j),
                (p < q <= hi && j == q - p - 1) || (lo <= q <= p && j == (hi - p - 1) + (q - lo)),
                forall|k: int| j <= k < others.len() ==> self.linked(#[trigger] others[k]),
            decreases 2 * (others.len() - j) + (if q > p { 1int } else { 0int }),
        {
            proof {
                lay.lemma_node(p as int);
            }
            let x = self.toplen[q as usize];
            if x <= 0 {
                q = self.ulink[q as usize];
            } else {
                proof {
                    assert(lay.is_node(q as int));
                    assert(others[j] == q);
                }
                let ghost before = self.removed@;
                self.unlink(q);
                proof {
                    assert(others.take(j + 1) =~= others.take(j).push(q as int));
                    assert(self.removed@ =~= r0 + others.take(j + 1));
                    assert forall|k: int| j + 1 <= k < others.len() implies self.linked(
                        #[trigger] others[k],
                    ) by {
                        assert(others[k] != q);
                        assert(!before.contains(others[k]));
                        if self.removed@.contains(others[k]) {
                            let i = choose|i: int|
                                0 <= i < self.removed@.len() && self.removed@[i] == others[k];
                            if i < before.len() {
                                assert(before[i] == others[k]);
                            }
                        }
                    }
                    j = j + 1;
                }
                q = q + 1;
            }
        }
        proof {
            assert(others.take(j) =~= others);
        }
    }

    /// Undoes `hide_option(p)`: relinks the other nodes of the option of `p`, last
    /// unlinked first, scanning to the left of `p` and wrapping at the start
    /// of the option.
    pub fn unhide(&mut self, p: i32)
        requires
            old(self).wf(),
            old(self).lay@.is_node(p as int),
            old(self).removed@.len() >= old(self).lay@.others(p as int).len(),
            old(self).removed@.subrange(
                old(self).removed@.len() - old(self).lay@.others(p as int).len(),
                old(self).removed@.len() as int,
            ) == old(self).lay@.others(p as int),
        ensures
            final(self).wf(),
            final(self).removed@ == old(self).removed@.take(
                old(self).removed@.len() - old(self).lay@.others(p as int).len(),
            ),
            final(self).covered@ == old(self).covered@,
            final(self).lay@ == old(self).lay@,
            final(self).ec == old(self).ec,
            final(self).llink@ == old(self).llink@,
            final(self).rlink@ == old(self).rlink@,
    {
        let ghost lay = self.lay@;
        let ghost r0 = self.removed@;
        let ghost others = lay.others(p as int);
        let ghost lo = lay.lo(p as int);
        let ghost hi = lay.hi(p as int);
        let ghost base = r0.len() - others.len();
        proof {
            lay.lemma_node(p as int);
            lay.lemma_size();
            assert(r0.take(base + others.len()) =~= r0);
        }
        let mut q = p - 1;
        let ghost mut j: int = others.len() as int;
        while q != p
            invariant
                self.wf(),
                self.lay@ == lay,
                self.ec == old(self).ec,
                self.covered@ == old(self).covered@,
                self.llink@ == old(self).llink@,
                self.rlink@ == old(self).rlink@,
                lay.wf(),
                lay.is_node(p as int),
                others == lay.others(p as int),
                lo == lay.lo(p as int),
                hi == lay.hi(p as int),
                base == r0.len() - others.len(),
                base >= 0,
                r0.subrange(base, r0.len() as int) == others,
                0 <= j <= others.len(),
                self.removed@ == r0.take(base + j),
                (lo - 1 <= q < p && j == (hi - p - 1) + (q - lo + 1)) || (p < q < hi && j == q - p)
                    || (q == p && j == 0),
            decreases 2 * j + (if q < p { 1int } else { 0int }),
        {
            proof {
                lay.lemma_node(p as int);
                lay.lemma_size();
            }
            let x = self.toplen[q as usize];
            if x <= 0 {
                proof {
                    assert(q == lo - 1);
                    assert(lay.is_spacer(q as int));
                    assert(crate::matrix::next_last(lay, q as int) == hi - 1) by {
                        assert(lay.step(0));
                    }
                }
                q = self.dlink[q as usize];
            } else {
                proof {
                    assert(lay.is_node(q as int));
                    assert(others[j - 1] == q);
                    assert(r0.subrange(base, r0.len() as int)[j - 1] == r0[base + j - 1]);
                    assert(self.removed@.last() == q);
                }
                self.relink(q);
                proof {
                    assert(self.removed@ =~= r0.take(base + j - 1));
                    j = j - 1;
                }
                q = q - 1;
            }
        }
    }
}

} // verus!
