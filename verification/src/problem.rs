//! The exact-cover problem: items, options, and what it means to cover.

use vstd::prelude::*;

verus! {

/// The mathematical content of an exact-cover problem: `n` items, numbered
/// `1..=n`, and a sequence of options, each a sequence of item numbers.
pub struct Problem {
    pub n: int,
    pub opts: Seq<Seq<int>>,
}

impl Problem {
    /// The number of options.
    pub open spec fn m(self) -> int {
        self.opts.len() as int
    }

    /// At least one item; every option is non-empty, names only items in
    /// `1..=n`, and names none twice.
    pub open spec fn valid(self) -> bool {
        &&& self.n >= 1
        &&& forall|k: int| 0 <= k < self.opts.len() ==> (#[trigger] self.opts[k]).len() > 0
        &&& forall|k: int, t: int|
            0 <= k < self.opts.len() && 0 <= t < self.opts[k].len() ==> 1 <= #[trigger] self.opts[k][t]
                <= self.n
        &&& forall|k: int, s: int, t: int|
            0 <= k < self.opts.len() && 0 <= s < t < self.opts[k].len() ==> #[trigger] self.opts[k][s]
                != #[trigger] self.opts[k][t]
    }

    /// The options `sol`, numbered from 1, form an exact cover: they are
    /// options of the problem, no two of them share an item, and every item
    /// is in one of them.
    pub open spec fn is_exact_cover(self, sol: Seq<int>) -> bool {
        &&& forall|j: int| 0 <= j < sol.len() ==> 1 <= #[trigger] sol[j] <= self.m()
        &&& forall|j1: int, j2: int, c: int|
            0 <= j1 < j2 < sol.len() && #[trigger] self.opts[sol[j1] - 1].contains(c) ==> !#[trigger] self.opts[sol[j2]
                - 1].contains(c)
        &&& forall|c: int| 1 <= c <= self.n ==> #[trigger] self.covers(sol, c)
    }

    /// One of the options `sol`, numbered from 1, holds item `c`.
    pub open spec fn covers(self, sol: Seq<int>, c: int) -> bool {
        exists|j: int| 0 <= j < sol.len() && #[trigger] self.opts[sol[j] - 1].contains(c)
    }
}

impl Problem {
    /// Room only grows with the number of options.
    pub(crate) proof fn lemma_room_grows(self, j: int, k: int)
        requires
            0 <= j <= k,
        ensures
            0 <= self.room(j) <= self.room(k),
        decreases k,
    {
        if j < k {
            self.lemma_room_grows(j, k - 1);
        } else if j > 0 {
            self.lemma_room_grows(j - 1, j - 1);
        }
    }
}

/// A list of option numbers as mathematical integers.
pub open spec fn as_ints(v: Seq<usize>) -> Seq<int> {
    Seq::new(v.len(), |j: int| v[j] as int)
}

/// An exact-cover problem as the caller writes it. `items[0]` is a
/// placeholder: the items proper are `items[1..]`, and options refer to them
/// by index.
pub struct ExactCover {
    pub items: Vec<String>,
    pub choices: Vec<Vec<usize>>,
}

impl View for ExactCover {
    type V = Problem;

    open spec fn view(&self) -> Problem {
        Problem {
            n: self.items@.len() - 1,
            opts: Seq::new(
                self.choices@.len(),
                |k: int| Seq::new(self.choices@[k]@.len(), |t: int| self.choices@[k]@[t] as int),
            ),
        }
    }
}

/// The one way in which a problem can be refused: it has no item, or an
/// option that is empty, that names an item out of range, or that names an
/// item twice.
#[derive(Debug, Clone, Copy, PartialEq, Eq)]
pub struct InvalidProblem;

impl Problem {
    /// The number of indices that the first `k` options take in the arena of
    /// the solver, one per item and one more per option.
    pub open spec fn room(self, k: int) -> int
        decreases k,
    {
        if k <= 0 {
            0
        } else {
            self.room(k - 1) + self.opts[k - 1].len() + 1
        }
    }

    /// The last index of the arena of the solver: the root, the items, a
    /// first spacer, and the room for the options.
    pub open spec fn arena_last(self) -> int {
        self.n + 1 + self.room(self.m())
    }
}

impl ExactCover {
    /// Decides whether the arena of the solver for this problem can be
    /// indexed by 32-bit integers.
    pub fn fits_arena(&self) -> (b: bool)
        ensures
            b == (self@.arena_last() < i32::MAX),
    {
        let limit: usize = 0x7fff_ffff;
        if self.items.len() > limit {
            proof {
                self@.lemma_room_grows(0, self@.m());
            }
            return false;
        }
        let mut total: usize = self.items.len();
        let mut k: usize = 0;
        while k < self.choices.len()
            invariant
                k <= self.choices.len(),
                limit == i32::MAX,
                total == self.items@.len() + self@.room(k as int),
                total <= limit,
            decreases self.choices.len() - k,
        {
            let len = self.choices[k].len();
            proof {
                assert(self@.opts[k as int].len() == len);
                self@.lemma_room_grows(k + 1, self@.m());
            }
            if len >= limit || total + len + 1 > limit {
                return false;
            }
            total = total + len + 1;
            k = k + 1;
        }
        total < limit
    }

    /// Decides whether the problem is valid.
    pub fn is_valid(&self) -> (b: bool)
        ensures
            b == self@.valid(),
    {
        let n_items = self.items.len();
        if n_items < 2 {
            return false;
        }
        let n = n_items - 1;
        let mut seen: Vec<usize> = Vec::new();
        let mut c: usize = 0;
        while c <= n
            invariant
                c <= n + 1,
                n < usize::MAX,
                seen.len() == c,
                forall|j: int| 0 <= j < c ==> seen[j] == 0,
            decreases n + 1 - c,
        {
            seen.push(0);
            c = c + 1;
        }
        let mut k: usize = 0;
        while k < self.choices.len()
            invariant
                k <= self.choices.len(),
                n == self@.n,
                n >= 1,
                seen.len() == n + 1,
                forall|j: int| 0 <= j <= n ==> seen[j] <= k,
                forall|k2: int| 0 <= k2 < k ==> (#[trigger] self@.opts[k2]).len() > 0,
                forall|k2: int, t: int|
                    0 <= k2 < k && 0 <= t < self@.opts[k2].len() ==> 1 <= #[trigger] self@.opts[k2][t]
                        <= n,
                forall|k2: int, s: int, t: int|
                    0 <= k2 < k && 0 <= s < t < self@.opts[k2].len() ==> #[trigger] self@.opts[k2][s]
                        != #[trigger] self@.opts[k2][t],
            decreases self.choices.len() - k,
        {
            let row = &self.choices[k];
            if row.len() == 0 {
                assert(self@.opts[k as int].len() == 0);
                return false;
            }
            let ghost mut wit: Seq<int> = Seq::new((n + 1) as nat, |j: int| 0int);
            let mut t: usize = 0;
            while t < row.len()
                invariant
                    t <= row.len(),
                    k < self.choices.len(),
                    row == self.choices[k as int],
                    n == self@.n,
                    seen.len() == n + 1,
                    wit.len() == n + 1,
                    forall|j: int| 0 <= j <= n ==> seen[j] <= k + 1,
                    forall|j: int|
                        0 <= j <= n && #[trigger] seen[j] == k + 1 ==> 0 <= wit[j] < t && row[wit[j]]
                            == j,
                    forall|s: int| 0 <= s < t ==> 1 <= #[trigger] row[s] <= n && seen[row[s] as int] == k + 1,
                    forall|s: int, s2: int| 0 <= s < s2 < t ==> #[trigger] row[s] != #[trigger] row[s2],
                decreases row.len() - t,
            {
                let val = row[t];
                if val < 1 || val > n {
                    assert(self@.opts[k as int][t as int] == val);
                    return false;
                }
                if seen[val] == k + 1 {
                    assert(self@.opts[k as int][wit[val as int]] == val);
                    assert(self@.opts[k as int][t as int] == val);
                    return false;
                }
                seen.set(val, k + 1);
                proof {
                    wit = wit.update(val as int, t as int);
                }
                t = t + 1;
            }
            proof {
                assert(self@.opts[k as int] =~= Seq::new(row@.len(), |t: int| row@[t] as int));
            }
            k = k + 1;
        }
        true
    }
}

} // verus!
