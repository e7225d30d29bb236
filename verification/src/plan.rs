//! The fetch planner: given a feed's persisted configuration and its episode
//! index, computes the threshold date, the episodes to consider for
//! download, and whether the feed's watermark must advance.

use vstd::prelude::*;

use crate::index::{sorted_desc, Episode, EpisodeView, FeedIndex};
use crate::models::Feed;

verus! {

/// The per-fetch result for one feed: the candidate episodes (newest first,
/// all with publish timestamp at least `threshold`), the cutoff timestamp
/// itself, and the new watermark value to persist, if the watermark must
/// move.
pub struct FetchPlan {
    pub episodes: Vec<Episode>,
    pub threshold: i64,
    pub set_fetch_since: Option<i64>,
}

/// The mathematical value of an optional timestamp.
pub open spec fn opt_ts(o: Option<i64>) -> Option<int> {
    match o {
        Some(t) => Some(t as int),
        None => None,
    }
}

/// A configured backlog size clamped to the usable range `1..=len`.
pub open spec fn clamped_backlog(backlog: int, len: int) -> int {
    if backlog < 1 {
        1
    } else if backlog > len {
        len
    } else {
        backlog
    }
}

/// The backlog boundary date: the publish timestamp of the oldest episode
/// within the configured backlog window (the index is newest first, so this
/// is the timestamp at the clamped backlog position).
pub open spec fn backlog_date(backlog: int, index: Seq<EpisodeView>) -> int
    recommends
        index.len() >= 1,
{
    index[clamped_backlog(backlog, index.len() as int) - 1].when
}

/// Whether a feed with watermark `fetch_since` is mature for this index:
/// its watermark is established and no later than the backlog boundary
/// date, so fetching stays strictly incremental from the watermark.
pub open spec fn feed_is_mature(fetch_since: Option<int>, backlog: int, index: Seq<EpisodeView>) -> bool {
    fetch_since matches Some(s) && s <= backlog_date(backlog, index)
}

/// The cutoff timestamp of a fetch plan: the watermark for a mature feed,
/// the backlog boundary date otherwise.
pub open spec fn plan_threshold(fetch_since: Option<int>, backlog: int, index: Seq<EpisodeView>) -> int {
    if feed_is_mature(fetch_since, backlog, index) {
        fetch_since->0
    } else {
        backlog_date(backlog, index)
    }
}

/// The watermark update of a fetch plan: none for a mature feed, the
/// backlog boundary date otherwise.
pub open spec fn plan_update(fetch_since: Option<int>, backlog: int, index: Seq<EpisodeView>) -> Option<int> {
    if feed_is_mature(fetch_since, backlog, index) {
        None
    } else {
        Some(backlog_date(backlog, index))
    }
}

/// The episodes a plan selects: exactly those of the index with publish
/// timestamp at least `threshold`, in index order.
pub open spec fn plan_episodes(index: Seq<EpisodeView>, threshold: int) -> Seq<EpisodeView> {
    index.filter(|e: EpisodeView| e.when >= threshold)
}

proof fn lemma_filter_all_true<A>(s: Seq<A>, pred: spec_fn(A) -> bool)
    requires
        forall|i: int| 0 <= i < s.len() ==> pred(#[trigger] s[i]),
    ensures
        s.filter(pred) == s,
    decreases s.len(),
{
    reveal(Seq::filter);
    if s.len() > 0 {
        lemma_filter_all_true(s.drop_last(), pred);
        assert(s.drop_last().push(s.last()) =~= s);
    }
}

proof fn lemma_filter_all_false<A>(s: Seq<A>, pred: spec_fn(A) -> bool)
    requires
        forall|i: int| 0 <= i < s.len() ==> !pred(#[trigger] s[i]),
    ensures
        s.filter(pred).len() == 0,
    decreases s.len(),
{
    reveal(Seq::filter);
    if s.len() > 0 {
        lemma_filter_all_false(s.drop_last(), pred);
    }
}

/// Threshold law: when the feed's watermark is established and no later
/// than the backlog boundary date, the plan's threshold is the watermark
/// and no watermark update is requested; otherwise the threshold is the
/// backlog boundary date and the watermark advances to it.
pub proof fn lemma_plan_threshold(fetch_since: Option<int>, backlog: int, index: Seq<EpisodeView>)
    ensures
        feed_is_mature(fetch_since, backlog, index) ==> plan_threshold(fetch_since, backlog, index)
            == fetch_since->0 && plan_update(fetch_since, backlog, index) is None,
        !feed_is_mature(fetch_since, backlog, index) ==> plan_threshold(fetch_since, backlog, index)
            == backlog_date(backlog, index) && plan_update(fetch_since, backlog, index) == Some(
            backlog_date(backlog, index),
        ),
{
}

/// Plan completeness law: every episode the plan selects has a publish
/// timestamp at least the threshold, and every index episode with a publish
/// timestamp at least the threshold is selected.
pub proof fn lemma_plan_completeness(index: Seq<EpisodeView>, threshold: int)
    ensures
        forall|i: int|
            0 <= i < plan_episodes(index, threshold).len() ==> #[trigger] plan_episodes(
                index,
                threshold,
            )[i].when >= threshold,
        forall|j: int|
            0 <= j < index.len() && index[j].when >= threshold ==> plan_episodes(
                index,
                threshold,
            ).contains(#[trigger] index[j]),
{
    broadcast use vstd::seq_lib::group_filter_ensures;

    let pred = |e: EpisodeView| e.when >= threshold;
    assert forall|i: int| 0 <= i < plan_episodes(index, threshold).len() implies #[trigger] plan_episodes(
        index,
        threshold,
    )[i].when >= threshold by {
        assert(pred(index.filter(pred)[i]));
    }
    assert forall|j: int|
        0 <= j < index.len() && index[j].when >= threshold implies plan_episodes(
        index,
        threshold,
    ).contains(#[trigger] index[j]) by {
        assert(pred(index[j]));
        assert(index.filter(pred).contains(index[j]));
    }
}

/// Computes the fetch plan for one feed from its persisted configuration
/// and its episode index. The index must be nonempty (an empty index is a
/// feed-scoped error upstream, never planned) and ordered newest first.
///
/// The plan's threshold and watermark update follow the mature/new rule of
/// [`plan_threshold`] and [`plan_update`], and the selected episodes are
/// exactly the index episodes no older than the threshold, which form a
/// prefix of the index.
pub fn plan_fetch(feed: &Feed, index: &FeedIndex) -> (plan: FetchPlan)
    requires
        index.len() >= 1,
        sorted_desc(index.deep_view()),
    ensures
        plan.threshold as int == plan_threshold(feed@.fetch_since, feed@.backlog, index.deep_view()),
        opt_ts(plan.set_fetch_since) == plan_update(feed@.fetch_since, feed@.backlog, index.deep_view()),
        plan.episodes.deep_view() == plan_episodes(index.deep_view(), plan.threshold as int),
        plan.episodes.deep_view() == index.deep_view().take(plan.episodes.len() as int),
{
    let ghost iv = index.deep_view();
    let len = index.len();
    let clamped: usize = {
        let c: usize = if feed.backlog < 1 {
            1
        } else if feed.backlog as usize > len {
            len
        } else {
            feed.backlog as usize
        };
        c
    };
    let backlog_start_index = clamped - 1;
    let backlog_start_date = index[backlog_start_index].when;
    proof {
        assert(iv[backlog_start_index as int].when == backlog_start_date as int);
        assert(backlog_start_date as int == backlog_date(feed@.backlog, iv));
    }

    let mut threshold = backlog_start_date;
    let mut set_fetch_since: Option<i64> = Some(backlog_start_date);
    match feed.fetch_since {
        Some(s) => {
            if s <= backlog_start_date {
                threshold = s;
                set_fetch_since = None;
            }
        },
        None => {},
    }

    let ghost pred = |e: EpisodeView| e.when >= threshold as int;
    let mut episodes: Vec<Episode> = Vec::new();
    let mut k: usize = 0;
    proof {
        assert(episodes.deep_view() =~= iv.take(0));
    }
    while k < index.len() && index[k].when >= threshold
        invariant
            0 <= k <= index.len(),
            iv == index.deep_view(),
            iv.len() == index.len(),
            episodes.len() == k,
            episodes.deep_view() == iv.take(k as int),
            forall|m: int| 0 <= m < k ==> #[trigger] iv[m].when >= threshold as int,
        decreases index.len() - k,
    {
        let ghost pre = episodes.deep_view();
        episodes.push(index[k].clone());
        proof {
            assert(episodes.deep_view() =~= pre.push(iv[k as int]));
            assert(episodes.deep_view() =~= iv.take(k as int + 1));
        }
        k += 1;
    }
    proof {
        let taken = iv.take(k as int);
        let rest = iv.skip(k as int);
        assert forall|m: int| 0 <= m < taken.len() implies pred(#[trigger] taken[m]) by {
            assert(taken[m] == iv[m]);
        }
        lemma_filter_all_true(taken, pred);
        assert forall|m: int| 0 <= m < rest.len() implies !pred(#[trigger] rest[m]) by {
            assert(rest[m] == iv[k as int + m]);
            if k < index.len() {
                assert(iv[k as int].when < threshold as int);
                assert(iv[k as int].when >= iv[k as int + m].when);
            }
        }
        lemma_filter_all_false(rest, pred);
        assert(taken + rest =~= iv);
        Seq::filter_distributes_over_add(taken, rest, pred);
        assert(taken.filter(pred) + rest.filter(pred) =~= taken.filter(pred));
        assert(iv.filter(pred) == taken);
    }
    FetchPlan { episodes, threshold, set_fetch_since }
}


/// Backlog widening law: for a feed whose watermark is the newest
/// episode's timestamp (a feed fully caught up under backlog 1), raising
/// the backlog to `n` widens the next plan to exactly the `n` newest
/// episodes and advances the watermark to the `n`-th newest timestamp.
/// Timestamps must be distinct down past the new boundary; with a tie at
/// the boundary timestamp the plan would widen further.
pub proof fn lemma_backlog_widening(index: Seq<EpisodeView>, n: int)
    requires
        2 <= n <= index.len(),
        sorted_desc(index),
        forall|i: int, j: int|
            #![trigger index[i].when, index[j].when]
            0 <= i < j < n ==> index[i].when > index[j].when,
        n < index.len() ==> index[n].when < index[n - 1].when,
    ensures
        ({
            let since = Some(index[0].when);
            &&& plan_threshold(since, n, index) == index[n - 1].when
            &&& plan_update(since, n, index) == Some(index[n - 1].when)
            &&& plan_episodes(index, index[n - 1].when) == index.take(n)
        }),
{
    let since = Some(index[0].when);
    assert(clamped_backlog(n, index.len() as int) == n);
    assert(backlog_date(n, index) == index[n - 1].when);
    assert(index[0].when > index[n - 1].when);
    assert(!feed_is_mature(since, n, index));

    let thr = index[n - 1].when;
    let pred = |e: EpisodeView| e.when >= thr;
    let taken = index.take(n);
    let rest = index.skip(n);
    assert forall|m: int| 0 <= m < taken.len() implies pred(#[trigger] taken[m]) by {
        assert(taken[m] == index[m]);
        assert(index[m].when >= index[n - 1].when);
    }
    lemma_filter_all_true(taken, pred);
    assert forall|m: int| 0 <= m < rest.len() implies !pred(#[trigger] rest[m]) by {
        assert(rest[m] == index[n + m]);
        assert(index[n].when >= index[n + m].when);
    }
    lemma_filter_all_false(rest, pred);
    assert(taken + rest =~= index);
    Seq::filter_distributes_over_add(taken, rest, pred);
    assert(taken.filter(pred) + rest.filter(pred) =~= taken.filter(pred));
    assert(index.filter(pred) == taken);
}

} // verus!
