use crate::story::StoryItem;
use vstd::prelude::*;

verus! {

/// Error of the whole fetch operation. Only a failure of the ranking
/// fetch is fatal; individual detail-fetch failures are absorbed and
/// never surface here.
#[derive(Clone, Copy, Debug, PartialEq, Eq)]
pub enum FetchError {
    /// The ranking endpoint was unreachable, answered with an error, or
    /// its payload was not an array of integers.
    RankingUnavailable,
}

/// The number of detail fetches issued for a request of `count` stories
/// against a ranking of `ids_len` identifiers: the requested count,
/// clamped to the identifiers actually returned.
pub open spec fn effective_count(count: int, ids_len: int) -> int {
    if count <= ids_len {
        count
    } else {
        ids_len
    }
}

/// Plans the detail fan-out from the outcome of the ranking fetch.
///
/// `ranking` is `None` when the ranking fetch failed in any way (transport
/// error, error status, or a payload that was not an array of integers);
/// the whole operation then fails with [`FetchError::RankingUnavailable`]
/// and no detail fetch is issued. Otherwise the plan is the first
/// `effective_count` identifiers of the ranking, in ranking order, and the
/// caller issues exactly one detail fetch per planned identifier.
pub fn plan_fetches(ranking: Option<Vec<i64>>, count: usize) -> (r: Result<Vec<i64>, FetchError>)
    ensures
        r is Err <==> ranking is None,
        ranking is None ==> r == Err::<Vec<i64>, FetchError>(FetchError::RankingUnavailable),
        ranking matches Some(ids) ==> (r matches Ok(plan) && plan@ == ids@.take(
            effective_count(count as int, ids@.len() as int),
        )),
        ranking is Some && count == 0 ==> (r matches Ok(plan) && plan@.len() == 0),
{
    match ranking {
        None => Err(FetchError::RankingUnavailable),
        Some(ids) => {
            let n: usize = if count <= ids.len() {
                count
            } else {
                ids.len()
            };
            let mut plan: Vec<i64> = Vec::new();
            proof {
                assert(plan@ =~= ids@.take(0));
            }
            let mut i: usize = 0;
            while i < n
                invariant
                    i <= n,
                    n <= ids@.len(),
                    plan@ == ids@.take(i as int),
                decreases n - i,
            {
                let id = ids[i];
                plan.push(id);
                proof {
                    assert(ids@.take(i as int).push(ids@[i as int]) =~= ids@.take(i as int + 1));
                }
                i = i + 1;
            }
            proof {
                assert(n as int == effective_count(count as int, ids@.len() as int));
            }
            Ok(plan)
        },
    }
}

/// The records that survive the best-effort join, in order: each
/// successful outcome keeps its record, each failed one is dropped.
pub open spec fn kept(outcomes: Seq<Option<StoryItem>>) -> Seq<StoryItem>
    decreases outcomes.len(),
{
    if outcomes.len() == 0 {
        Seq::empty()
    } else {
        match outcomes.first() {
            Some(s) => seq![s] + kept(outcomes.drop_first()),
            None => kept(outcomes.drop_first()),
        }
    }
}

/// Drops the failed detail fetches from a sequence of per-position
/// outcomes, keeping the surviving records in their original relative
/// order.
pub fn assemble(outcomes: Vec<Option<StoryItem>>) -> (r: Vec<StoryItem>)
    ensures
        r@ == kept(outcomes@),
{
    let ghost orig: Seq<Option<StoryItem>> = outcomes@;
    let mut rest = outcomes;
    let mut r: Vec<StoryItem> = Vec::new();
    proof {
        assert(r@ + kept(rest@) =~= kept(orig));
    }
    while rest.len() > 0
        invariant
            r@ + kept(rest@) == kept(orig),
        decreases rest@.len(),
    {
        let ghost prev = rest@;
        let first = rest.remove(0);
        proof {
            assert(rest@ =~= prev.drop_first());
        }
        match first {
            Some(s) => {
                let ghost r0 = r@;
                r.push(s);
                proof {
                    assert(kept(prev) == seq![s] + kept(prev.drop_first()));
                    assert(r@ + kept(rest@) =~= r0 + kept(prev));
                }
            },
            None => {
                proof {
                    assert(kept(prev) == kept(prev.drop_first()));
                }
            },
        }
    }
    proof {
        assert(r@ + kept(rest@) =~= r@);
    }
    r
}

/// Some arrival carries the outcome for rank position `i`.
pub open spec fn has_arrival(arrivals: Seq<(usize, Option<StoryItem>)>, i: int) -> bool {
    exists|j: int| 0 <= j < arrivals.len() && (#[trigger] arrivals[j]).0 == i
}

/// The arrivals of a fan-out over `n` rank positions: one outcome per
/// position, tagged with its position, in any completion order.
pub open spec fn arrivals_complete(arrivals: Seq<(usize, Option<StoryItem>)>, n: int) -> bool {
    &&& arrivals.len() == n
    &&& forall|j: int| 0 <= j < arrivals.len() ==> (#[trigger] arrivals[j]).0 < n
    &&& forall|j: int, k: int|
        0 <= j < arrivals.len() && 0 <= k < arrivals.len() && j != k ==> (#[trigger] arrivals[j]).0
            != (#[trigger] arrivals[k]).0
    &&& forall|i: int| 0 <= i < n ==> #[trigger] has_arrival(arrivals, i)
}

/// The outcome that arrived for rank position `i`.
pub open spec fn outcome_at(arrivals: Seq<(usize, Option<StoryItem>)>, i: int) -> Option<
    StoryItem,
> {
    arrivals[choose|j: int| 0 <= j < arrivals.len() && (#[trigger] arrivals[j]).0 == i].1
}

/// The per-position outcomes put back into ranking order.
pub open spec fn rank_order(arrivals: Seq<(usize, Option<StoryItem>)>, n: int) -> Seq<
    Option<StoryItem>,
> {
    Seq::new(n as nat, |i: int| outcome_at(arrivals, i))
}

/// Reassembles the outcomes of the concurrent detail fetches into ranking
/// order. The arrivals may come in any completion order; each one carries
/// the rank position it was issued for, and the result places every
/// outcome at that position.
pub fn reassemble(n: usize, arrivals: Vec<(usize, Option<StoryItem>)>) -> (r: Vec<
    Option<StoryItem>,
>)
    requires
        arrivals_complete(arrivals@, n as int),
    ensures
        r@ == rank_order(arrivals@, n as int),
{
    let ghost all = arrivals@;
    let mut r: Vec<Option<StoryItem>> = Vec::new();
    while r.len() < n
        invariant
            r@.len() <= n,
        decreases n - r@.len(),
    {
        r.push(None);
    }
    let mut rest = arrivals;
    let ghost mut m: int = 0;
    while rest.len() > 0
        invariant
            arrivals_complete(all, n as int),
            0 <= m <= all.len(),
            rest@ == all.skip(m),
            r@.len() == n,
            forall|j: int| 0 <= j < m ==> r@[(#[trigger] all[j]).0 as int] == all[j].1,
        decreases rest@.len(),
    {
        let ghost prev = rest@;
        let pair = rest.remove(0);
        proof {
            assert(prev[0] == all[m]);
            assert(pair == all[m]);
            assert(all[m].0 < n);
        }
        r.set(pair.0, pair.1);
        proof {
            assert(rest@ =~= all.skip(m + 1));
            m = m + 1;
        }
    }
    proof {
        assert(m == all.len());
        assert forall|i: int| 0 <= i < n implies r@[i] == outcome_at(all, i) by {
            assert(has_arrival(all, i));
            let j = choose|j: int| 0 <= j < all.len() && (#[trigger] all[j]).0 == i;
            assert(r@[i] == all[j].1);
        }
        assert(r@ =~= rank_order(all, n as int));
    }
    r
}

/// The whole fan-in of the detail fetches: the arrivals, in any
/// completion order, are put back into ranking order and the failed ones
/// are dropped.
pub fn gather(n: usize, arrivals: Vec<(usize, Option<StoryItem>)>) -> (r: Vec<StoryItem>)
    requires
        arrivals_complete(arrivals@, n as int),
    ensures
        r@ == kept(rank_order(arrivals@, n as int)),
        r@.len() <= n,
{
    let slots = reassemble(n, arrivals);
    proof {
        lemma_kept_len_le(slots@);
    }
    assemble(slots)
}

/// The best-effort join never yields more records than outcomes it was
/// handed: every record comes from one distinct successful outcome.
pub proof fn lemma_kept_len_le(outcomes: Seq<Option<StoryItem>>)
    ensures
        kept(outcomes).len() <= outcomes.len(),
    decreases outcomes.len(),
{
    if outcomes.len() > 0 {
        lemma_kept_len_le(outcomes.drop_first());
    }
}

/// Law: for every requested count and every ranking, the listing holds at
/// most `min(count, ids returned)` records, however many detail fetches
/// fail: the fan-out issues `effective_count` fetches and the join keeps
/// at most one record per fetch.
pub proof fn lemma_result_length_bound(
    ids: Seq<i64>,
    count: int,
    outcomes: Seq<Option<StoryItem>>,
)
    requires
        0 <= count,
        outcomes.len() == effective_count(count, ids.len() as int),
    ensures
        kept(outcomes).len() <= count,
        kept(outcomes).len() <= ids.len(),
{
    lemma_kept_len_le(outcomes);
}

/// The join treats each outcome independently: it distributes over
/// concatenation of outcome sequences.
pub proof fn lemma_kept_add(a: Seq<Option<StoryItem>>, b: Seq<Option<StoryItem>>)
    ensures
        kept(a + b) == kept(a) + kept(b),
    decreases a.len(),
{
    if a.len() == 0 {
        assert(a + b =~= b);
        assert(kept(a) + kept(b) =~= kept(b));
    } else {
        lemma_kept_add(a.drop_first(), b);
        assert((a + b).drop_first() =~= a.drop_first() + b);
        assert((a + b).first() == a.first());
        match a.first() {
            Some(s) => {
                assert(seq![s] + (kept(a.drop_first()) + kept(b)) =~= (seq![s] + kept(
                    a.drop_first(),
                )) + kept(b));
            },
            None => {},
        }
    }
}

/// When every detail fetch succeeds, the join keeps every record, each at
/// its own rank position.
pub proof fn lemma_kept_all_some(outcomes: Seq<Option<StoryItem>>)
    requires
        forall|j: int| 0 <= j < outcomes.len() ==> (#[trigger] outcomes[j]) is Some,
    ensures
        kept(outcomes).len() == outcomes.len(),
        forall|j: int| 0 <= j < outcomes.len() ==> (#[trigger] kept(outcomes)[j]) == outcomes[j]->0,
    decreases outcomes.len(),
{
    if outcomes.len() > 0 {
        assert(outcomes[0] is Some);
        assert forall|j: int| 0 <= j < outcomes.drop_first().len() implies (#[trigger] outcomes.drop_first()[j]) is Some by {
            assert(outcomes.drop_first()[j] == outcomes[j + 1]);
        }
        lemma_kept_all_some(outcomes.drop_first());
        assert forall|j: int| 0 <= j < outcomes.len() implies (#[trigger] kept(outcomes)[j])
            == outcomes[j]->0 by {
            if j > 0 {
                assert(kept(outcomes)[j] == kept(outcomes.drop_first())[j - 1]);
                assert(outcomes.drop_first()[j - 1] == outcomes[j]);
            }
        }
    }
}

/// Law: if exactly one of the issued detail fetches fails, the listing
/// holds every other record — one fewer than was requested — and the
/// survivors keep their original relative ranking order.
pub proof fn lemma_single_failure(outcomes: Seq<Option<StoryItem>>, i: int)
    requires
        0 <= i < outcomes.len(),
        outcomes[i] is None,
        forall|j: int| 0 <= j < outcomes.len() && j != i ==> (#[trigger] outcomes[j]) is Some,
    ensures
        kept(outcomes).len() == outcomes.len() - 1,
        kept(outcomes) == outcomes.remove(i).map_values(|o: Option<StoryItem>| o->0),
{
    let pre = outcomes.take(i);
    let post = outcomes.skip(i + 1);
    let failed = seq![outcomes[i]];
    assert(outcomes =~= (pre + failed) + post);
    lemma_kept_add(pre + failed, post);
    lemma_kept_add(pre, failed);
    assert(failed.first() == outcomes[i]);
    assert(kept(failed) == kept(failed.drop_first()));
    assert(failed.drop_first().len() == 0);
    assert(kept(failed) =~= Seq::<StoryItem>::empty());
    assert(kept(pre) + kept(failed) =~= kept(pre));
    assert forall|j: int| 0 <= j < pre.len() implies (#[trigger] pre[j]) is Some by {
        assert(pre[j] == outcomes[j]);
    }
    assert forall|j: int| 0 <= j < post.len() implies (#[trigger] post[j]) is Some by {
        assert(post[j] == outcomes[j + i + 1]);
    }
    lemma_kept_all_some(pre);
    lemma_kept_all_some(post);
    assert(kept(outcomes) == kept(pre) + kept(post));
    assert(outcomes.remove(i) =~= pre + post);
    assert(kept(outcomes) =~= outcomes.remove(i).map_values(|o: Option<StoryItem>| o->0));
}

/// Law: the completion order of the concurrent detail fetches does not
/// matter. Two arrival sequences that are reorderings of one another —
/// the same tagged outcomes, shuffled — reassemble into the same
/// ranking-order sequence and so into the same listing.
pub proof fn lemma_completion_order_irrelevant(
    a: Seq<(usize, Option<StoryItem>)>,
    b: Seq<(usize, Option<StoryItem>)>,
    n: int,
)
    requires
        arrivals_complete(a, n),
        arrivals_complete(b, n),
        a.to_multiset() == b.to_multiset(),
    ensures
        rank_order(a, n) == rank_order(b, n),
        kept(rank_order(a, n)) == kept(rank_order(b, n)),
{
    broadcast use vstd::seq_lib::group_to_multiset_ensures;

    assert forall|i: int| 0 <= i < n implies outcome_at(a, i) == outcome_at(b, i) by {
        assert(has_arrival(a, i));
        assert(has_arrival(b, i));
        let ja = choose|j: int| 0 <= j < a.len() && (#[trigger] a[j]).0 == i;
        let jb = choose|j: int| 0 <= j < b.len() && (#[trigger] b[j]).0 == i;
        assert(a.contains(a[ja]));
        assert(b.to_multiset().count(a[ja]) > 0);
        assert(b.contains(a[ja]));
        let k = choose|k: int| 0 <= k < b.len() && b[k] == a[ja];
        assert(b[k].0 == i);
        assert(k == jb);
        assert(outcome_at(a, i) == a[ja].1);
        assert(outcome_at(b, i) == b[jb].1);
    }
    assert(rank_order(a, n) =~= rank_order(b, n));
}

} // verus!

