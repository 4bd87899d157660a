//! What the search computes, stated on the problem alone.
//!
//! The search keeps a sequence of chosen options, none of which share an
//! item. It branches on the free item that the fewest open options can
//! cover, the first such item if there are several, and tries these options
//! in the order of the problem. Options are numbered from 0 here.

use vstd::prelude::*;
use crate::problem::Problem;

verus! {

/// One of the chosen options covers item `c`.
pub open spec fn taken(p: Problem, chosen: Seq<int>, c: int) -> bool {
    exists|j: int| 0 <= j < chosen.len() && #[trigger] p.opts[chosen[j]].contains(c)
}

/// Option `k` is open: none of its items is covered by a chosen option.
pub open spec fn visible(p: Problem, chosen: Seq<int>, k: int) -> bool {
    forall|t: int| 0 <= t < p.opts[k].len() ==> !taken(p, chosen, #[trigger] p.opts[k][t])
}

/// Option `k` is open and covers item `c`.
pub open spec fn fits(p: Problem, chosen: Seq<int>, c: int, k: int) -> bool {
    0 <= k < p.m() && p.opts[k].contains(c) && visible(p, chosen, k)
}

/// The number of options below `k` that are open and cover item `c`.
pub open spec fn count_fits(p: Problem, chosen: Seq<int>, c: int, k: int) -> int
    decreases k,
{
    if k <= 0 {
        0
    } else {
        count_fits(p, chosen, c, k - 1) + if fits(p, chosen, c, k - 1) {
            1int
        } else {
            0int
        }
    }
}

/// The number of ways left to cover item `c`.
pub open spec fn branching(p: Problem, chosen: Seq<int>, c: int) -> int {
    count_fits(p, chosen, c, p.m())
}

/// Among the free items up to `c`, the first one with the fewest ways left
/// to cover it; 0 if none of them is free.
pub open spec fn mrv_upto(p: Problem, chosen: Seq<int>, c: int) -> int
    decreases c,
{
    if c <= 0 {
        0
    } else {
        let best = mrv_upto(p, chosen, c - 1);
        if taken(p, chosen, c) {
            best
        } else if best == 0 || branching(p, chosen, c) < branching(p, chosen, best) {
            c
        } else {
            best
        }
    }
}

/// The item to branch on; 0 if every item is covered.
pub open spec fn mrv(p: Problem, chosen: Seq<int>) -> int {
    mrv_upto(p, chosen, p.n)
}

/// The outcome of the search below the options `chosen`: the first exact
/// cover that extends them, in the order of the search, if there is one.
/// In a valid problem the chosen options never outnumber the items, since
/// each covers an item of its own; the search stops where they would.
pub open spec fn search(p: Problem, chosen: Seq<int>) -> Option<Seq<int>>
    decreases p.n - chosen.len(), p.m() + 1,
{
    if mrv(p, chosen) == 0 {
        Some(chosen)
    } else if chosen.len() >= p.n {
        None
    } else {
        try_from(p, chosen, mrv(p, chosen), 0)
    }
}

/// The outcome of trying, for item `i`, the options from `k` on.
pub open spec fn try_from(p: Problem, chosen: Seq<int>, i: int, k: int) -> Option<Seq<int>>
    decreases p.n - chosen.len(), p.m() - k,
{
    if k >= p.m() || k < 0 || chosen.len() >= p.n {
        None
    } else if fits(p, chosen, i, k) {
        match search(p, chosen.push(k)) {
            Some(s) => Some(s),
            None => try_from(p, chosen, i, k + 1),
        }
    } else {
        try_from(p, chosen, i, k + 1)
    }
}

/// The outcome of the whole search: the options of the first exact cover
/// found, numbered from 0, in the order in which they were chosen.
pub open spec fn solution(p: Problem) -> Option<Seq<int>> {
    search(p, Seq::empty())
}

/// The answer of the solver: the options of `solution`, numbered from 1, or
/// nothing where the search finds no exact cover.
pub open spec fn answer(p: Problem) -> Seq<int> {
    match solution(p) {
        Some(s) => Seq::new(s.len(), |j: int| s[j] + 1),
        None => Seq::empty(),
    }
}

/// The outcome of the whole search, given that the search below `chosen`
/// ends in `r`: `r` itself if it is a cover; otherwise the search goes on
/// one level up, with the options after the last one chosen there.
pub open spec fn unwind(p: Problem, chosen: Seq<int>, r: Option<Seq<int>>) -> Option<Seq<int>>
    decreases chosen.len(),
{
    if r is Some {
        r
    } else if chosen.len() == 0 {
        None
    } else {
        unwind(
            p,
            chosen.drop_last(),
            try_from(p, chosen.drop_last(), mrv(p, chosen.drop_last()), chosen.last() + 1),
        )
    }
}

/// Options that do not fit make no difference to a trial.
pub(crate) proof fn lemma_try_skip(p: Problem, chosen: Seq<int>, i: int, k1: int, k2: int)
    requires
        0 <= k1 <= k2 <= p.m(),
        chosen.len() < p.n,
        forall|k: int| k1 <= k < k2 ==> !#[trigger] fits(p, chosen, i, k),
    ensures
        try_from(p, chosen, i, k1) == try_from(p, chosen, i, k2),
    decreases k2 - k1,
{
    if k1 < k2 {
        assert(!fits(p, chosen, i, k1));
        lemma_try_skip(p, chosen, i, k1 + 1, k2);
    }
}

/// Trying an option that fits leaves the outcome of the whole search as it
/// was.
pub(crate) proof fn lemma_unwind_push(p: Problem, chosen: Seq<int>, i: int, k: int)
    requires
        i == mrv(p, chosen),
        fits(p, chosen, i, k),
        chosen.len() < p.n,
    ensures
        unwind(p, chosen.push(k), search(p, chosen.push(k))) == unwind(
            p,
            chosen,
            try_from(p, chosen, i, k),
        ),
{
    let c2 = chosen.push(k);
    assert(c2.drop_last() =~= chosen);
    assert(c2.last() == k);
}

/// A free item up to `c` makes `mrv_upto` find one; what it finds is free.
pub(crate) proof fn lemma_mrv_free(p: Problem, chosen: Seq<int>, c: int)
    ensures
        mrv_upto(p, chosen, c) == 0 <==> forall|d: int| 1 <= d <= c ==> taken(p, chosen, d),
        mrv_upto(p, chosen, c) != 0 ==> 1 <= mrv_upto(p, chosen, c) <= c && !taken(
            p,
            chosen,
            mrv_upto(p, chosen, c),
        ),
    decreases c,
{
    if c > 0 {
        lemma_mrv_free(p, chosen, c - 1);
        if mrv_upto(p, chosen, c) == 0 {
            assert forall|d: int| 1 <= d <= c implies taken(p, chosen, d) by {
                if d < c {
                }
            }
        }
    }
}

/// The chosen options are options of the problem, and no two of them share
/// an item.
pub open spec fn apart(p: Problem, chosen: Seq<int>) -> bool {
    &&& forall|j: int| 0 <= j < chosen.len() ==> 0 <= #[trigger] chosen[j] < p.m()
    &&& forall|j1: int, j2: int, c: int|
        0 <= j1 < j2 < chosen.len() && #[trigger] p.opts[chosen[j1]].contains(c) ==> !#[trigger] p.opts[chosen[j2]].contains(
            c,
        )
}

/// The chosen options cover every item.
pub open spec fn complete(p: Problem, chosen: Seq<int>) -> bool {
    forall|c: int| 1 <= c <= p.n ==> taken(p, chosen, c)
}

/// Adding an option that is open keeps the chosen options apart.
pub(crate) proof fn lemma_apart_push(p: Problem, chosen: Seq<int>, k: int)
    requires
        apart(p, chosen),
        0 <= k < p.m(),
        visible(p, chosen, k),
    ensures
        apart(p, chosen.push(k)),
{
    let c2 = chosen.push(k);
    assert forall|j1: int, j2: int, c: int|
        0 <= j1 < j2 < c2.len() && #[trigger] p.opts[c2[j1]].contains(c) implies !#[trigger] p.opts[c2[j2]].contains(
        c,
    ) by {
        if j2 == chosen.len() {
            if p.opts[k].contains(c) {
                let t = choose|t: int| 0 <= t < p.opts[k].len() && p.opts[k][t] == c;
                assert(p.opts[chosen[j1]].contains(c));
                assert(taken(p, chosen, p.opts[k][t]));
            }
        } else {
            assert(c2[j1] == chosen[j1] && c2[j2] == chosen[j2]);
        }
    }
}

/// What the search finds is an exact cover: options that lie apart and
/// cover every item.
pub(crate) proof fn lemma_search_sound(p: Problem, chosen: Seq<int>)
    requires
        apart(p, chosen),
        search(p, chosen) is Some,
    ensures
        apart(p, search(p, chosen)->0),
        complete(p, search(p, chosen)->0),
    decreases p.n - chosen.len(), p.m() + 1,
{
    if mrv(p, chosen) == 0 {
        lemma_mrv_free(p, chosen, p.n);
    } else {
        lemma_try_sound(p, chosen, mrv(p, chosen), 0);
    }
}

/// What a trial finds is an exact cover.
pub(crate) proof fn lemma_try_sound(p: Problem, chosen: Seq<int>, i: int, k: int)
    requires
        apart(p, chosen),
        try_from(p, chosen, i, k) is Some,
    ensures
        apart(p, try_from(p, chosen, i, k)->0),
        complete(p, try_from(p, chosen, i, k)->0),
    decreases p.n - chosen.len(), p.m() - k,
{
    if k >= p.m() || k < 0 || chosen.len() >= p.n {
    } else if fits(p, chosen, i, k) {
        if search(p, chosen.push(k)) is Some {
            lemma_apart_push(p, chosen, k);
            lemma_search_sound(p, chosen.push(k));
        } else {
            lemma_try_sound(p, chosen, i, k + 1);
        }
    } else {
        lemma_try_sound(p, chosen, i, k + 1);
    }
}

/// Distinct numbers between 1 and `n` are at most `n`.
pub(crate) proof fn lemma_distinct_bound(s: Seq<int>, n: int)
    requires
        s.no_duplicates(),
        n >= 0,
        forall|j: int| 0 <= j < s.len() ==> 1 <= #[trigger] s[j] <= n,
    ensures
        s.len() <= n,
{
    s.unique_seq_to_set();
    vstd::set_lib::lemma_int_range(1, n + 1);
    assert(s.to_set().subset_of(vstd::set_lib::set_int_range(1, n + 1))) by {
        assert forall|c: int| s.to_set().contains(c) implies vstd::set_lib::set_int_range(
            1,
            n + 1,
        ).contains(c) by {
            let j = choose|j: int| 0 <= j < s.len() && s[j] == c;
            assert(1 <= s[j] <= n);
        }
    }
    vstd::set_lib::lemma_len_subset(s.to_set(), vstd::set_lib::set_int_range(1, n + 1));
}

/// Options that lie apart and leave an item free are fewer than the items:
/// the search never reaches the depth at which it would give up.
pub(crate) proof fn lemma_depth(p: Problem, chosen: Seq<int>, i: int)
    requires
        p.valid(),
        apart(p, chosen),
        1 <= i <= p.n,
        !taken(p, chosen, i),
    ensures
        chosen.len() < p.n,
{
    let firsts = Seq::new(chosen.len(), |j: int| p.opts[chosen[j]][0]).push(i);
    assert forall|j: int| 0 <= j < firsts.len() implies 1 <= #[trigger] firsts[j] <= p.n by {
        if j < chosen.len() {
            assert(p.opts[chosen[j]].len() > 0);
            assert(1 <= p.opts[chosen[j]][0] <= p.n);
        }
    }
    assert forall|j1: int, j2: int|
        0 <= j1 < firsts.len() && 0 <= j2 < firsts.len() && j1 != j2 implies firsts[j1]
        != firsts[j2] by {
        let (a, b) = if j1 < j2 { (j1, j2) } else { (j2, j1) };
        assert(p.opts[chosen[a]].len() > 0);
        assert(p.opts[chosen[a]][0] == firsts[a]);
        assert(p.opts[chosen[a]].contains(firsts[a]));
        if b < chosen.len() {
            assert(p.opts[chosen[b]].len() > 0);
            assert(p.opts[chosen[b]][0] == firsts[b]);
            assert(p.opts[chosen[b]].contains(firsts[b]));
        }
    }
    lemma_distinct_bound(firsts, p.n);
}

/// Every chosen option is one of `s`.
pub open spec fn within(chosen: Seq<int>, s: Seq<int>) -> bool {
    forall|j: int| 0 <= j < chosen.len() ==> s.contains(#[trigger] chosen[j])
}

/// Where an exact cover extends the chosen options, the search below them
/// finds one.
pub(crate) proof fn lemma_search_complete(p: Problem, chosen: Seq<int>, s: Seq<int>)
    requires
        p.valid(),
        apart(p, chosen),
        apart(p, s),
        complete(p, s),
        within(chosen, s),
    ensures
        search(p, chosen) is Some,
    decreases p.n - chosen.len(), p.m() + 1,
{
    let i = mrv(p, chosen);
    if i != 0 {
        lemma_mrv_free(p, chosen, p.n);
        lemma_depth(p, chosen, i);
        assert(taken(p, s, i));
        let js = choose|j: int| 0 <= j < s.len() && #[trigger] p.opts[s[j]].contains(i);
        let ks = s[js];
        assert forall|t: int| 0 <= t < p.opts[ks].len() implies !taken(
            p,
            chosen,
            #[trigger] p.opts[ks][t],
        ) by {
            let c = p.opts[ks][t];
            if taken(p, chosen, c) {
                let j = choose|j: int| 0 <= j < chosen.len() && #[trigger] p.opts[chosen[j]].contains(c);
                assert(s.contains(chosen[j]));
                let j2 = choose|j2: int| 0 <= j2 < s.len() && s[j2] == chosen[j];
                assert(p.opts[s[js]].contains(c));
                assert(p.opts[s[j2]].contains(c));
                if j2 == js {
                    assert(p.opts[chosen[j]].contains(i));
                }
            }
        }
        assert(s.contains(ks));
        lemma_try_complete(p, chosen, i, 0, ks, s);
    }
}

/// Where an exact cover extends the chosen options by option `ks`, which fits
/// item `i`, the trial of the options from `k` on, up to `ks`, finds a cover.
pub(crate) proof fn lemma_try_complete(p: Problem, chosen: Seq<int>, i: int, k: int, ks: int, s: Seq<int>)
    requires
        p.valid(),
        apart(p, chosen),
        apart(p, s),
        complete(p, s),
        within(chosen, s),
        chosen.len() < p.n,
        0 <= k <= ks < p.m(),
        fits(p, chosen, i, ks),
        s.contains(ks),
    ensures
        try_from(p, chosen, i, k) is Some,
    decreases p.n - chosen.len(), p.m() - k,
{
    if fits(p, chosen, i, k) && search(p, chosen.push(k)) is Some {
    } else if k == ks {
        lemma_apart_push(p, chosen, ks);
        let c2 = chosen.push(ks);
        assert forall|j: int| 0 <= j < c2.len() implies s.contains(#[trigger] c2[j]) by {
            if j < chosen.len() {
                assert(c2[j] == chosen[j]);
            }
        }
        lemma_search_complete(p, c2, s);
    } else {
        lemma_try_complete(p, chosen, i, k + 1, ks, s);
    }
}

/// The options of `s`, numbered from 1.
pub open spec fn from_one(s: Seq<int>) -> Seq<int> {
    Seq::new(s.len(), |j: int| s[j] + 1)
}

/// The options of `sol`, numbered from 0.
pub open spec fn from_zero(sol: Seq<int>) -> Seq<int> {
    Seq::new(sol.len(), |j: int| sol[j] - 1)
}

/// Options that lie apart and cover every item form an exact cover, and
/// the other way round.
pub(crate) proof fn lemma_exact_cover(p: Problem, s: Seq<int>)
    ensures
        apart(p, s) && complete(p, s) <==> p.is_exact_cover(from_one(s)),
{
    let sol = from_one(s);
    if apart(p, s) && complete(p, s) {
        assert forall|j1: int, j2: int, c: int|
            0 <= j1 < j2 < sol.len() && #[trigger] p.opts[sol[j1] - 1].contains(c) implies !#[trigger] p.opts[sol[j2]
            - 1].contains(c) by {
            assert(p.opts[s[j1]].contains(c));
        }
        assert forall|c: int| 1 <= c <= p.n implies #[trigger] p.covers(sol, c) by {
            assert(taken(p, s, c));
            let j = choose|j: int| 0 <= j < s.len() && #[trigger] p.opts[s[j]].contains(c);
            assert(p.opts[sol[j] - 1].contains(c));
        }
    }
    if p.is_exact_cover(sol) {
        assert forall|j: int| 0 <= j < s.len() implies 0 <= #[trigger] s[j] < p.m() by {
            assert(1 <= sol[j] <= p.m());
        }
        assert forall|j1: int, j2: int, c: int|
            0 <= j1 < j2 < s.len() && #[trigger] p.opts[s[j1]].contains(c) implies !#[trigger] p.opts[s[j2]].contains(
            c,
        ) by {
            assert(p.opts[sol[j1] - 1].contains(c));
            assert(!p.opts[sol[j2] - 1].contains(c));
        }
        assert forall|c: int| 1 <= c <= p.n implies taken(p, s, c) by {
            assert(p.covers(sol, c));
            let j = choose|j: int| 0 <= j < sol.len() && #[trigger] p.opts[sol[j] - 1].contains(c);
            assert(p.opts[s[j]].contains(c));
        }
    }
}

/// The answer of the solver is an exact cover, unless it is empty.
pub proof fn answer_is_exact_cover(p: Problem)
    requires
        p.valid(),
        answer(p).len() > 0,
    ensures
        p.is_exact_cover(answer(p)),
{
    let e = Seq::<int>::empty();
    lemma_search_sound(p, e);
    let s = solution(p)->0;
    lemma_exact_cover(p, s);
    assert(answer(p) =~= from_one(s));
}

/// The answer of the solver is empty exactly if the problem has no exact
/// cover.
pub proof fn answer_is_empty_iff_no_cover(p: Problem)
    requires
        p.valid(),
    ensures
        answer(p).len() == 0 <==> forall|sol: Seq<int>| !p.is_exact_cover(sol),
{
    let e = Seq::<int>::empty();
    if solution(p) is Some {
        lemma_search_sound(p, e);
        let s = solution(p)->0;
        lemma_exact_cover(p, s);
        assert(answer(p) =~= from_one(s));
        assert(p.is_exact_cover(from_one(s)));
        assert(taken(p, s, 1));
    } else {
        assert forall|sol: Seq<int>| !p.is_exact_cover(sol) by {
            if p.is_exact_cover(sol) {
                let s = from_zero(sol);
                assert(from_one(s) =~= sol);
                lemma_exact_cover(p, s);
                lemma_search_complete(p, e, s);
            }
        }
    }
}

/// Where no option holds some item, the answer of the solver is empty.
pub proof fn uncoverable_item_gives_no_answer(p: Problem, c: int)
    requires
        p.valid(),
        1 <= c <= p.n,
        forall|k: int| 0 <= k < p.m() ==> !(#[trigger] p.opts[k]).contains(c),
    ensures
        answer(p).len() == 0,
{
    answer_is_empty_iff_no_cover(p);
    assert forall|sol: Seq<int>| !p.is_exact_cover(sol) by {
        if p.is_exact_cover(sol) {
            assert(p.covers(sol, c));
            let j = choose|j: int| 0 <= j < sol.len() && #[trigger] p.opts[sol[j] - 1].contains(c);
            assert(1 <= sol[j] <= p.m());
        }
    }
}

} // verus!
