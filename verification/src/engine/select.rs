//! Greedy selection from a library of models.
//!
//! Each selection bag starts from the best of the top members and then adds, one
//! by one, the member that improves the bag's blend the most. The caller scores
//! blends; the choices, and how often each member was chosen, are made here.
use crate::backend::{pb_seed, seed_of, Stage};
use crate::error::{answers, internal, invalid_config, Fault, PbError};
use crate::float::F64;
use crate::sort::{lemma_sorted_members, lemma_sorted_pairs, pair_le, sort_pairs, sorted_pairs};
use vstd::prelude::*;

verus! {

/// Positive infinity.
pub open spec fn infinity() -> F64 {
    F64 { bits: 0x7ff0_0000_0000_0000 }
}

/// Why a selection is refused.
pub open spec fn selection_fault(n: nat, bags: nat, top: nat) -> Option<Fault> {
    if n == 0 {
        Some(Fault::InvalidConfig("GreedySelect requires at least one library member"@))
    } else if bags == 0 || top == 0 || top > n {
        Some(
            Fault::InvalidConfig(
                "GreedySelect selection_bags and seed_top_n are inconsistent"@,
            ),
        )
    } else {
        None
    }
}

/// Refuses a selection without members, bags or seeds, or with more seeds than
/// members.
pub fn check_selection(n: usize, bags: usize, top: usize) -> (r: Result<(), PbError>)
    ensures
        answers(r, selection_fault(n as nat, bags as nat, top as nat)),
        r is Ok <==> n > 0 && bags > 0 && 1 <= top <= n,
{
    if n == 0 {
        return Err(invalid_config("GreedySelect requires at least one library member"));
    }
    if bags == 0 || top == 0 || top > n {
        return Err(invalid_config("GreedySelect selection_bags and seed_top_n are inconsistent"));
    }
    Ok(())
}

/// The members with the ranks of their deviances.
pub open spec fn member_keys(deviances: Seq<F64>) -> Seq<(u64, u64)> {
    Seq::new(
        deviances.len(),
        |i: int| ((deviances[i].total_key() + 0x8000_0000_0000_0000) as u64, i as u64),
    )
}

/// The members by ascending deviance in the total order, the earlier first among
/// equals.
pub fn rank_members(deviances: &Vec<F64>) -> (order: Vec<usize>)
    ensures
        order@.len() == deviances@.len(),
        forall|i: int|
            0 <= i < order@.len() ==> (#[trigger] order@[i]) as u64 == sorted_pairs(
                member_keys(deviances@),
            )[i].1 && order@[i] < deviances@.len(),
{
    let n: usize = deviances.len();
    let ghost want = member_keys(deviances@);
    let mut keys: Vec<(u64, u64)> = Vec::with_capacity(n);
    let mut i: usize = 0;
    while i < n
        invariant
            i <= n,
            n == deviances@.len(),
            want == member_keys(deviances@),
            keys@.len() == i,
            forall|j: int| 0 <= j < i ==> #[trigger] keys@[j] == want[j],
        decreases n - i,
    {
        keys.push((deviances[i].total_rank(), i as u64));
        i = i + 1;
    }
    assert(keys@ =~= want);
    let sorted = sort_pairs(keys);
    proof {
        crate::sort::lemma_sorted_members(want);
        assert forall|j: int| 0 <= j < n implies (#[trigger] sorted@[j]).1 < n by {
            assert(want.contains(sorted@[j]));
        }
    }
    let mut order: Vec<usize> = Vec::with_capacity(n);
    let mut k: usize = 0;
    while k < n
        invariant
            k <= n,
            sorted@.len() == n,
            forall|j: int| 0 <= j < n ==> (#[trigger] sorted@[j]).1 < n,
            order@.len() == k,
            forall|j: int|
                0 <= j < k ==> (#[trigger] order@[j]) as u64 == sorted@[j].1 && order@[j] < n,
        decreases n - k,
    {
        order.push(sorted[k].1 as usize);
        k = k + 1;
    }
    order
}

/// Whether candidate `a` with score `x` is preferred to `b` with score `y`: by
/// the lower score, then by the lower number.
pub open spec fn preferred(x: F64, a: usize, y: F64, b: usize) -> bool {
    x.below(y) || (x.same(y) && a < b)
}

/// The candidate and the score held after the first `n` candidates, starting
/// from the first one with an infinite score.
pub open spec fn seed_after(order: Seq<usize>, scores: Seq<F64>, n: nat) -> (usize, F64)
    decreases n,
{
    if n == 0 {
        (order[0], infinity())
    } else {
        let held = seed_after(order, scores, (n - 1) as nat);
        if preferred(scores[n - 1], order[n - 1], held.1, held.0) {
            (order[n - 1], scores[n - 1])
        } else {
            held
        }
    }
}

/// The seed of a selection bag: of the scored top members, the preferred one.
pub fn pick_seed(order: &Vec<usize>, scores: &Vec<F64>) -> (seed: usize)
    requires
        0 < scores@.len() <= order@.len(),
    ensures
        seed == seed_after(order@, scores@, scores@.len()).0,
{
    let mut best: usize = order[0];
    let mut loss: F64 = F64 { bits: 0x7ff0_0000_0000_0000 };
    let mut i: usize = 0;
    while i < scores.len()
        invariant
            i <= scores@.len() <= order@.len(),
            (best, loss) == seed_after(order@, scores@, i as nat),
        decreases scores.len() - i,
    {
        if scores[i].lt(&loss) || (scores[i].ieee_eq(&loss) && order[i] < best) {
            best = order[i];
            loss = scores[i];
        }
        i = i + 1;
    }
    best
}

/// The seed is preferred: no scored member is preferred to it, and it is one of
/// them.
pub proof fn law_seed_is_preferred(order: Seq<usize>, scores: Seq<F64>, n: nat, i: int)
    requires
        n <= scores.len() <= order.len(),
        0 <= i < n,
    ensures
        ({
            let held = seed_after(order, scores, n);
            &&& !preferred(scores[i], order[i], held.1, held.0)
            &&& order.take(n as int).contains(held.0)
        }),
    decreases n,
{
    let held = seed_after(order, scores, n);
    let before = seed_after(order, scores, (n - 1) as nat);
    if i < n - 1 {
        law_seed_is_preferred(order, scores, (n - 1) as nat, i);
        let head = order.take(n - 1);
        let q = choose|q: int| 0 <= q < head.len() && head[q] == before.0;
        assert(order.take(n as int)[q] == before.0);
    } else if n == 1 {
        assert(order.take(1)[0] == order[0]);
    } else {
        law_seed_is_preferred(order, scores, (n - 1) as nat, 0);
        let head = order.take(n - 1);
        let q = choose|q: int| 0 <= q < head.len() && head[q] == before.0;
        assert(order.take(n as int)[q] == before.0);
    }
    if held == (order[n - 1], scores[n - 1]) {
        assert(order.take(n as int)[n - 1] == held.0);
    }
}

/// A member to add to a bag.
#[derive(Debug, Clone, Copy, PartialEq, Eq, Structural)]
pub struct Pick {
    pub member: usize,
    /// Whether its score was usable, so that the bag takes over its blend.
    pub scored: bool,
}

/// Whether the first lowest score, below infinity, stands at `c`.
pub open spec fn lowest_score_at(scores: Seq<F64>, c: int) -> bool {
    &&& 0 <= c < scores.len()
    &&& scores[c].below(infinity())
    &&& forall|j: int| 0 <= j < scores.len() ==> !(#[trigger] scores[j]).below(scores[c])
    &&& forall|j: int| 0 <= j < c ==> !(#[trigger] scores[j]).at_most(scores[c])
}

/// The member to add to a bag: the first with the lowest score; where no score
/// lies below infinity, the first of all, unscored.
pub fn pick_member(scores: &Vec<F64>) -> (p: Pick)
    ensures
        p.scored == exists|j: int|
            0 <= j < scores@.len() && (#[trigger] scores@[j]).below(infinity()),
        p.scored ==> lowest_score_at(scores@, p.member as int),
        !p.scored ==> p.member == 0,
{
    let mut best: Pick = Pick { member: 0, scored: false };
    let mut loss: F64 = F64 { bits: 0x7ff0_0000_0000_0000 };
    let mut i: usize = 0;
    while i < scores.len()
        invariant
            i <= scores.len(),
            !best.scored ==> {
                &&& best.member == 0
                &&& loss == infinity()
                &&& forall|j: int| 0 <= j < i ==> !(#[trigger] scores@[j]).below(infinity())
            },
            best.scored ==> {
                &&& best.member < i
                &&& loss == scores@[best.member as int]
                &&& loss.below(infinity())
                &&& forall|j: int| 0 <= j < i ==> !(#[trigger] scores@[j]).below(loss)
                &&& forall|j: int| 0 <= j < best.member ==> !(#[trigger] scores@[j]).at_most(loss)
            },
        decreases scores.len() - i,
    {
        if scores[i].lt(&loss) {
            best = Pick { member: i, scored: true };
            loss = scores[i];
        }
        i = i + 1;
    }
    assert(best.scored ==> scores@[best.member as int].below(infinity()));
    best
}

/// How often a member was picked.
pub open spec fn picks_of(picks: Seq<usize>, c: int) -> nat
    decreases picks.len(),
{
    if picks.len() == 0 {
        0
    } else {
        picks_of(picks.drop_last(), c) + if picks.last() == c {
            1nat
        } else {
            0nat
        }
    }
}

/// The sum of the picks of the first `n` members.
pub open spec fn picks_sum(picks: Seq<usize>, n: nat) -> nat
    decreases n,
{
    if n == 0 {
        0
    } else {
        picks_sum(picks, (n - 1) as nat) + picks_of(picks, n - 1)
    }
}

/// Why picks cannot be counted.
pub open spec fn count_fault(picks: Seq<usize>, n: nat) -> Option<Fault> {
    if exists|i: int| 0 <= i < picks.len() && (#[trigger] picks[i]) >= n {
        Some(Fault::Internal("GreedySelect candidate escaped counts"@))
    } else {
        None
    }
}

/// How often each member was picked.
pub fn count_picks(picks: &Vec<usize>, n: usize) -> (r: Result<Vec<u64>, PbError>)
    ensures
        answers(r, count_fault(picks@, n as nat)),
        r is Ok ==> r->Ok_0@.len() == n && forall|c: int|
            0 <= c < n ==> (#[trigger] r->Ok_0@[c]) as nat == picks_of(picks@, c),
{
    let mut counts: Vec<u64> = Vec::with_capacity(n);
    let mut k: usize = 0;
    while k < n
        invariant
            k <= n,
            counts@.len() == k,
            forall|c: int| 0 <= c < k ==> #[trigger] counts@[c] == 0,
        decreases n - k,
    {
        counts.push(0);
        k = k + 1;
    }
    let mut i: usize = 0;
    while i < picks.len()
        invariant
            i <= picks.len(),
            counts@.len() == n,
            forall|j: int| 0 <= j < i ==> (#[trigger] picks@[j]) < n,
            forall|c: int|
                0 <= c < n ==> (#[trigger] counts@[c]) as nat == picks_of(picks@.take(i as int), c)
                    && counts@[c] <= i,
        decreases picks.len() - i,
    {
        let p: usize = picks[i];
        if p >= n {
            assert(picks@[i as int] >= n);
            return Err(internal("GreedySelect candidate escaped counts"));
        }
        proof {
            assert(picks@.take(i + 1).drop_last() =~= picks@.take(i as int));
            assert(counts@[p as int] <= i);
        }
        let v: u64 = counts[p];
        counts.set(p, v + 1);
        i = i + 1;
    }
    assert(picks@.take(i as int) =~= picks@);
    Ok(counts)
}

/// The counts of a bag sum to its picks, so that the shares of all members make a
/// convex combination.
pub proof fn law_counts_sum_to_picks(picks: Seq<usize>, n: nat)
    requires
        forall|i: int| 0 <= i < picks.len() ==> (#[trigger] picks[i]) < n,
    ensures
        picks_sum(picks, n) == picks.len(),
    decreases picks.len(),
{
    if picks.len() == 0 {
        lemma_no_picks(picks, n);
    } else {
        let rest = picks.drop_last();
        assert forall|i: int| 0 <= i < rest.len() implies (#[trigger] rest[i]) < n by {
            assert(rest[i] == picks[i]);
        }
        law_counts_sum_to_picks(rest, n);
        lemma_one_pick(picks, n);
        assert(picks[picks.len() - 1] < n);
    }
}

proof fn lemma_no_picks(picks: Seq<usize>, n: nat)
    requires
        picks.len() == 0,
    ensures
        picks_sum(picks, n) == 0,
    decreases n,
{
    if n > 0 {
        lemma_no_picks(picks, (n - 1) as nat);
    }
}

proof fn lemma_one_pick(picks: Seq<usize>, n: nat)
    requires
        picks.len() > 0,
    ensures
        picks_sum(picks, n) == picks_sum(picks.drop_last(), n) + (if picks.last() < n {
            1nat
        } else {
            0nat
        }),
    decreases n,
{
    if n > 0 {
        lemma_one_pick(picks, (n - 1) as nat);
    }
}

/// The seed of a bag.
pub fn bag_seed(seed: u64, bag: u32) -> (s: u64)
    ensures
        s == seed_of(seed, bag, Stage::Sample.code(), 0),
{
    pb_seed(seed, bag, Stage::Sample.number(), 0)
}

/// The seed of a library member: by its ordinal and its bin count.
pub fn member_seed(seed: u64, ordinal: u16, max_bin: u16) -> (s: u64)
    ensures
        s == seed_of(seed, ordinal as u32, Stage::Sample.code(), (max_bin + ordinal) as u32),
{
    pb_seed(seed, ordinal as u32, Stage::Sample.number(), max_bin as u32 + ordinal as u32)
}

/// Members are ranked from the lowest deviance up, the earlier member first where
/// two are equal, and every member has one place.
pub proof fn law_members_are_ranked_by_deviance(deviances: Seq<F64>, order: Seq<usize>, i: int, j: int)
    requires
        deviances.len() <= u64::MAX,
        order.len() == deviances.len(),
        forall|i: int|
            0 <= i < order.len() ==> (#[trigger] order[i]) as u64 == sorted_pairs(
                member_keys(deviances),
            )[i].1 && order[i] < deviances.len(),
        0 <= i < j < order.len(),
    ensures
        order[i] != order[j],
        deviances[order[i] as int].total_key() <= deviances[order[j] as int].total_key(),
        deviances[order[i] as int].total_key() == deviances[order[j] as int].total_key()
            ==> order[i] < order[j],
{
    let keyed = member_keys(deviances);
    let t = sorted_pairs(keyed);
    lemma_sorted_pairs(keyed);
    lemma_sorted_members(keyed);
    keyed.to_multiset_ensures();
    t.to_multiset_ensures();
    assert(order[i] as u64 == t[i].1 && order[j] as u64 == t[j].1);
    assert(pair_le(t[i], t[j]));
    assert(keyed.contains(t[i]) && keyed.contains(t[j]));
    let a = choose|a: int| 0 <= a < keyed.len() && keyed[a] == t[i];
    let b = choose|b: int| 0 <= b < keyed.len() && keyed[b] == t[j];
    assert(a == order[i] && b == order[j]);
    if a == b {
        assert(keyed.no_duplicates()) by {
            assert forall|x: int, y: int| 0 <= x < y < keyed.len() implies keyed[x] != keyed[y] by {
                assert(keyed[x].1 != keyed[y].1);
            }
        }
        keyed.lemma_multiset_has_no_duplicates();
        assert(keyed.to_multiset().count(t[i]) <= 1) by {
            assert(keyed.to_multiset().contains(t[i]));
        }
        lemma_seen_twice(t, i, j);
    }
}

/// What stands at two places counts at least twice.
proof fn lemma_seen_twice(t: Seq<(u64, u64)>, i: int, j: int)
    requires
        0 <= i < j < t.len(),
        t[i] == t[j],
    ensures
        t.to_multiset().count(t[i]) >= 2,
{
    let head = t.take(j);
    let tail = t.skip(j);
    assert(t =~= head + tail);
    vstd::seq_lib::lemma_multiset_commutative(head, tail);
    head.to_multiset_ensures();
    tail.to_multiset_ensures();
    assert(head[i] == t[i] && tail[0] == t[i]);
    assert(head.contains(t[i]) && tail.contains(t[i]));
    assert(head.to_multiset().count(t[i]) > 0 && tail.to_multiset().count(t[i]) > 0);
    assert(t.to_multiset() == head.to_multiset().add(tail.to_multiset()));
}

/// The seed has the lowest score of those compared, and where another has the
/// same, the smaller number; scores that are no numbers are passed over.
pub proof fn law_seed_has_the_lowest_score(order: Seq<usize>, scores: Seq<F64>, i: int)
    requires
        0 < scores.len() <= order.len(),
        0 <= i < scores.len(),
        scores[i].finite(),
    ensures
        exists|p: int|
            {
                &&& 0 <= p < scores.len()
                &&& #[trigger] order[p] == seed_after(order, scores, scores.len()).0
                &&& !scores[p].nan()
                &&& scores[p].key() <= scores[i].key()
                &&& scores[p].key() == scores[i].key() ==> order[p] <= order[i]
            },
{
    lemma_seed(order, scores, scores.len(), i);
}

proof fn lemma_seed(order: Seq<usize>, scores: Seq<F64>, n: nat, i: int)
    requires
        n <= scores.len() <= order.len(),
    ensures
        ({
            let held = seed_after(order, scores, n);
            &&& !held.1.nan()
            &&& held.1 == infinity() || exists|p: int|
                0 <= p < n && #[trigger] order[p] == held.0 && scores[p] == held.1
            &&& 0 <= i < n && scores[i].finite() ==> {
                &&& exists|p: int| 0 <= p < n && #[trigger] order[p] == held.0 && scores[p] == held.1
                &&& held.1.key() <= scores[i].key()
                &&& held.1.key() == scores[i].key() ==> held.0 <= order[i]
            }
        }),
    decreases n,
{
    if n > 0 {
        lemma_seed(order, scores, (n - 1) as nat, i);
        let held = seed_after(order, scores, n);
        let before = seed_after(order, scores, (n - 1) as nat);
        if held == (order[n - 1], scores[n - 1]) {
            assert(order[n - 1] == held.0 && scores[n - 1] == held.1);
        } else if exists|p: int|
            0 <= p < n - 1 && #[trigger] order[p] == before.0 && scores[p] == before.1 {
            let p = choose|p: int|
                0 <= p < n - 1 && #[trigger] order[p] == before.0 && scores[p] == before.1;
            assert(order[p] == held.0 && scores[p] == held.1);
        }
    }
}

/// A member with the lowest score is picked, the first of equal ones, whenever
/// some score is finite.
pub proof fn law_the_lowest_score_is_picked(scores: Seq<F64>, c: int, i: int)
    requires
        lowest_score_at(scores, c),
        0 <= i < scores.len(),
        !scores[i].nan(),
    ensures
        !scores[c].nan(),
        scores[c].key() <= scores[i].key(),
        i < c ==> scores[c].key() < scores[i].key(),
{
    assert(!scores[i].below(scores[c]));
}

/// A finite score is always low enough to be picked.
pub proof fn law_finite_scores_can_be_picked(x: F64)
    requires
        x.finite(),
    ensures
        x.below(infinity()),
{
}

/// A member is counted as often as it was picked.
pub proof fn law_picks_are_counted(picks: Seq<usize>, c: int)
    ensures
        picks_of(picks, c) == picks.filter(|p: usize| p as int == c).len(),
    decreases picks.len(),
{
    reveal(Seq::filter);
    if picks.len() > 0 {
        law_picks_are_counted(picks.drop_last(), c);
    }
}

/// A selection is accepted exactly when there is a member, a bag, and a number of
/// seeds from one to that of the members; picks are counted exactly when each is a
/// member.
pub proof fn law_accepted_selections_are_sound(n: nat, bags: nat, top: nat, picks: Seq<usize>)
    ensures
        selection_fault(n, bags, top) is None <==> n >= 1 && bags >= 1 && 1 <= top <= n,
        count_fault(picks, n) is None <==> forall|i: int|
            0 <= i < picks.len() ==> (#[trigger] picks[i]) < n,
{
}

} // verus!
