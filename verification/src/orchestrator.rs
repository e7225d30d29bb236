//! The fetch orchestrator: per-feed processing of retrieved feed documents
//! — index building, planning, watermark persistence, and the sequential,
//! dedup-checked download protocol — with per-feed failure isolation.
//!
//! Network retrieval and the download command are the caller's collaborators:
//! the caller hands each feed's retrieval outcome to [`start_feed`] and then
//! drives the returned [`FeedRun`], performing each requested download and
//! reporting success or failure back. [`run_fetch`] packages the whole
//! protocol for a run in which every requested download succeeds.

use vstd::prelude::*;

use crate::document::{EntryView, FeedDocument};
use crate::download::DownloadRequest;
use crate::index::{build_index, episode_index, Episode, EpisodeView};
use crate::models::FeedView;
use crate::plan::{plan_episodes, plan_fetch, plan_threshold, plan_update};
use crate::registry::{
    feeds_wf, find_feed, lemma_find_feed_name, lemma_find_replace_same, replace_feed, GetFeeds,
    Registry, StoreView,
};

verus! {

/// The outcome of retrieving and parsing one feed's document, as the
/// caller observed it.
pub enum FetchOutcome {
    /// The network fetch failed: feed unreachable, non-success status, or
    /// body read failure.
    Transport,
    /// The retrieved document could not be parsed.
    Parse,
    /// The parsed document.
    Document(FeedDocument),
}

/// The mathematical value of a [`FetchOutcome`].
pub ghost enum FetchOutcomeView {
    Transport,
    Parse,
    Document(Seq<EntryView>),
}

impl View for FetchOutcome {
    type V = FetchOutcomeView;

    open spec fn view(&self) -> FetchOutcomeView {
        match self {
            FetchOutcome::Transport => FetchOutcomeView::Transport,
            FetchOutcome::Parse => FetchOutcomeView::Parse,
            FetchOutcome::Document(doc) => FetchOutcomeView::Document(doc@),
        }
    }
}

impl DeepView for FetchOutcome {
    type V = FetchOutcomeView;

    open spec fn deep_view(&self) -> FetchOutcomeView {
        self.view()
    }
}

/// A feed-scoped failure: it is reported for its feed and never aborts the
/// processing of other feeds.
#[derive(Clone, Copy, Debug, PartialEq, Eq, Structural)]
pub enum FeedError {
    /// The network fetch failed.
    Transport,
    /// The document could not be parsed.
    Parse,
    /// The document contains no recognizable episodes.
    NoEpisodes,
    /// The named feed is not in the store.
    UnknownFeed,
    /// A download command failed; the feed's remaining (older) episodes are
    /// not attempted this run.
    Download,
}

impl View for FeedError {
    type V = FeedError;

    open spec fn view(&self) -> FeedError {
        *self
    }
}

impl DeepView for FeedError {
    type V = FeedError;

    open spec fn deep_view(&self) -> FeedError {
        *self
    }
}

/// The registrations after a plan's episodes have all been downloaded or
/// found already registered: the old registrations plus one per planned
/// episode id.
pub open spec fn regs_after(
    name: Seq<char>,
    plan: Seq<EpisodeView>,
    regs: Set<(Seq<char>, Seq<char>)>,
) -> Set<(Seq<char>, Seq<char>)> {
    Set::new(
        |p: (Seq<char>, Seq<char>)|
            regs.contains(p) || (p.0 == name && exists|k: int|
                0 <= k < plan.len() && #[trigger] plan[k].id == p.1),
    )
}

/// The episodes actually downloaded when a plan is walked newest-first
/// against the registrations `regs`: each episode not yet registered is
/// downloaded and registered before the walk continues, so a repeated id
/// is downloaded only once.
pub open spec fn pending_episodes(
    name: Seq<char>,
    plan: Seq<EpisodeView>,
    regs: Set<(Seq<char>, Seq<char>)>,
) -> Seq<EpisodeView>
    decreases plan.len(),
{
    if plan.len() == 0 {
        Seq::empty()
    } else if regs.contains((name, plan[0].id)) {
        pending_episodes(name, plan.drop_first(), regs)
    } else {
        seq![plan[0]] + pending_episodes(name, plan.drop_first(), regs.insert((name, plan[0].id)))
    }
}

/// The threshold a feed's plan uses for this index.
pub open spec fn step_threshold(f: FeedView, index: Seq<EpisodeView>) -> int {
    plan_threshold(f.fetch_since, f.backlog, index)
}

/// The episodes a feed's plan selects from this index.
pub open spec fn step_plan(f: FeedView, index: Seq<EpisodeView>) -> Seq<EpisodeView> {
    plan_episodes(index, step_threshold(f, index))
}

/// The feed records after a feed's plan has been made: unchanged for a
/// mature feed, the watermark advanced to the backlog boundary date
/// otherwise.
pub open spec fn step_feeds(
    f: FeedView,
    name: Seq<char>,
    index: Seq<EpisodeView>,
    feeds: Seq<FeedView>,
) -> Seq<FeedView> {
    match plan_update(f.fetch_since, f.backlog, index) {
        Some(w) => replace_feed(
            feeds,
            name,
            FeedView { name: f.name, uri: f.uri, backlog: f.backlog, fetch_since: Some(w) },
        ),
        None => feeds,
    }
}

/// What processing one feed does to the store and reports back.
#[verifier::ext_equal]
pub ghost struct FeedStepView {
    /// The store afterwards.
    pub store: StoreView,
    /// The feed-scoped error, if the feed failed.
    pub error: Option<FeedError>,
    /// The episodes downloaded, newest first.
    pub downloads: Seq<EpisodeView>,
}

/// The per-feed processing step, with every requested download succeeding:
/// a failed retrieval or parse, an unknown feed, or an empty index is a
/// feed-scoped error that leaves the store unchanged; otherwise the plan is
/// made, the watermark advanced if the plan asks, and every planned episode
/// not yet registered is downloaded and registered, newest first.
pub open spec fn feed_step(
    name: Seq<char>,
    outcome: FetchOutcomeView,
    now: int,
    st: StoreView,
) -> FeedStepView {
    match outcome {
        FetchOutcomeView::Transport => FeedStepView {
            store: st,
            error: Some(FeedError::Transport),
            downloads: Seq::empty(),
        },
        FetchOutcomeView::Parse => FeedStepView {
            store: st,
            error: Some(FeedError::Parse),
            downloads: Seq::empty(),
        },
        FetchOutcomeView::Document(entries) => match find_feed(st.feeds, name) {
            None => FeedStepView {
                store: st,
                error: Some(FeedError::UnknownFeed),
                downloads: Seq::empty(),
            },
            Some(f) => {
                let index = episode_index(entries, now);
                if index.len() == 0 {
                    FeedStepView {
                        store: st,
                        error: Some(FeedError::NoEpisodes),
                        downloads: Seq::empty(),
                    }
                } else {
                    let plan = step_plan(f, index);
                    FeedStepView {
                        store: StoreView {
                            feeds: step_feeds(f, name, index, st.feeds),
                            regs: regs_after(name, plan, st.regs),
                        },
                        error: None,
                        downloads: pending_episodes(name, plan, st.regs),
                    }
                }
            },
        },
    }
}

/// The in-flight download protocol of one feed: the planned episodes,
/// newest first, the position reached, the number downloaded, and whether
/// a download has failed (which stops the feed's remaining, older
/// episodes for this run).
pub struct FeedRun {
    /// The feed being processed.
    pub feed_name: String,
    /// The planned episodes, newest first.
    pub plan: Vec<Episode>,
    /// How many planned episodes have been passed (downloaded or found
    /// already registered).
    pub pos: usize,
    /// How many episodes have been downloaded.
    pub fetched: u64,
    /// Whether a download failed.
    pub failed: bool,
}

/// Begins processing one feed from its retrieval outcome: on a retrieved
/// document, looks the feed up, builds the index, makes the plan, and
/// persists the watermark if the plan asks, returning the download
/// protocol to drive; otherwise reports the feed-scoped error and leaves
/// the store untouched. Registrations are never touched here.
pub fn start_feed(name: &str, outcome: &FetchOutcome, now: i64, registry: &mut Registry) -> (r:
    Result<FeedRun, FeedError>)
    requires
        feeds_wf(old(registry)@.feeds),
    ensures
        feeds_wf(final(registry)@.feeds),
        final(registry)@.regs == old(registry)@.regs,
        match r {
            Ok(run) => {
                &&& outcome@ matches FetchOutcomeView::Document(entries)
                &&& find_feed(old(registry)@.feeds, name@) matches Some(f)
                &&& episode_index(entries, now as int).len() > 0
                &&& run.feed_name@ == name@
                &&& run.plan.deep_view() == step_plan(f, episode_index(entries, now as int))
                &&& run.pos == 0
                &&& run.fetched == 0
                &&& !run.failed
                &&& final(registry)@.feeds == step_feeds(
                    f,
                    name@,
                    episode_index(entries, now as int),
                    old(registry)@.feeds,
                )
            },
            Err(e) => {
                &&& final(registry)@.feeds == old(registry)@.feeds
                &&& feed_step(name@, outcome@, now as int, old(registry)@).error == Some(e)
                &&& match e {
                    FeedError::Transport => outcome@ is Transport,
                    FeedError::Parse => outcome@ is Parse,
                    FeedError::UnknownFeed => outcome@ is Document && find_feed(
                        old(registry)@.feeds,
                        name@,
                    ) is None,
                    FeedError::NoEpisodes => outcome@ matches FetchOutcomeView::Document(entries)
                        && find_feed(old(registry)@.feeds, name@) is Some && episode_index(
                        entries,
                        now as int,
                    ).len() == 0,
                    FeedError::Download => false,
                }
            },
        },
{
    match outcome {
        FetchOutcome::Transport => Err(FeedError::Transport),
        FetchOutcome::Parse => Err(FeedError::Parse),
        FetchOutcome::Document(doc) => {
            let found = registry.get_feeds(GetFeeds::One(name));
            proof {
                assert(found.deep_view().len() == found@.len());
            }
            if found.is_empty() {
                proof {
                    if find_feed(registry@.feeds, name@) is Some {
                        assert(found.deep_view().len() == 1);
                    }
                }
                return Err(FeedError::UnknownFeed);
            }
            let feed = &found[0];
            proof {
                if find_feed(registry@.feeds, name@) is None {
                    assert(found.deep_view().len() == 0);
                }
                assert(found.deep_view()[0] == found@[0].deep_view());
                assert(feed@ == find_feed(registry@.feeds, name@)->0);
            }
            let index = build_index(doc, now);
            if index.len() == 0 {
                return Err(FeedError::NoEpisodes);
            }
            let plan = plan_fetch(feed, &index);
            match plan.set_fetch_since {
                Some(w) => {
                    let updated = registry.set_fetch_since(name, w);
                    proof {
                        lemma_find_feed_name(old(registry)@.feeds, name@);
                    }
                    match updated {
                        Ok(()) => {},
                        Err(_) => {
                            proof {
                                assert(false);
                            }
                            return Err(FeedError::UnknownFeed);
                        },
                    }
                },
                None => {},
            }
            Ok(
                FeedRun {
                    feed_name: name.to_owned(),
                    plan: plan.episodes,
                    pos: 0,
                    fetched: 0,
                    failed: false,
                },
            )
        },
    }
}

impl FeedRun {
    /// The planned episodes still ahead are walked newest-first: episodes
    /// already registered are passed over, and the first unregistered one
    /// (if the feed has not failed) is returned as the next download to
    /// perform. `None` means the feed is done for this run: every planned
    /// episode was downloaded or already registered, or a download failed.
    pub fn next_request(&mut self, registry: &Registry) -> (r: Option<DownloadRequest>)
        requires
            old(self).pos <= old(self).plan.len(),
        ensures
            final(self).feed_name == old(self).feed_name,
            final(self).plan == old(self).plan,
            final(self).fetched == old(self).fetched,
            final(self).failed == old(self).failed,
            old(self).pos <= final(self).pos <= final(self).plan.len(),
            forall|k: int|
                old(self).pos <= k < final(self).pos ==> registry@.regs.contains(
                    (final(self).feed_name@, #[trigger] final(self).plan.deep_view()[k].id),
                ),
            match r {
                Some(req) => {
                    &&& !final(self).failed
                    &&& final(self).pos < final(self).plan.len()
                    &&& !registry@.regs.contains(
                        (final(self).feed_name@, final(self).plan.deep_view()[final(self).pos as int].id),
                    )
                    &&& req@ == (final(self).feed_name@, final(self).plan.deep_view()[final(self).pos as int])
                },
                None => final(self).failed || final(self).pos == final(self).plan.len(),
            },
    {
        if self.failed {
            return None;
        }
        while self.pos < self.plan.len()
            invariant
                self.pos <= self.plan.len(),
                self.feed_name == old(self).feed_name,
                self.plan == old(self).plan,
                self.fetched == old(self).fetched,
                self.failed == old(self).failed,
                !self.failed,
                old(self).pos <= self.pos,
                forall|k: int|
                    old(self).pos <= k < self.pos ==> registry@.regs.contains(
                        (self.feed_name@, #[trigger] self.plan.deep_view()[k].id),
                    ),
            decreases self.plan.len() - self.pos,
        {
            proof {
                assert(self.plan.deep_view()[self.pos as int] == self.plan[self.pos as int]@);
            }
            let registered = registry.is_episode_registered(
                self.feed_name.as_str(),
                self.plan[self.pos].id.as_str(),
            );
            if !registered {
                proof {
                    assert(!registry@.regs.contains(
                        (self.feed_name@, self.plan.deep_view()[self.pos as int].id),
                    ));
                }
                let req = DownloadRequest {
                    feed_name: self.feed_name.clone(),
                    episode: self.plan[self.pos].clone(),
                };
                proof {
                    assert(req@ == (self.feed_name@, self.plan.deep_view()[self.pos as int]));
                }
                return Some(req);
            }
            self.pos = self.pos + 1;
        }
        None
    }

    /// Records that the download of the episode at the current position
    /// succeeded: the episode is registered and the walk advances past it.
    pub fn record_success(&mut self, registry: &mut Registry)
        requires
            !old(self).failed,
            old(self).pos < old(self).plan.len(),
            old(self).fetched <= old(self).pos,
        ensures
            final(self).feed_name == old(self).feed_name,
            final(self).plan == old(self).plan,
            final(self).pos == old(self).pos + 1,
            final(self).fetched == old(self).fetched + 1,
            !final(self).failed,
            final(registry)@.feeds == old(registry)@.feeds,
            final(registry)@.regs == old(registry)@.regs.insert(
                (old(self).feed_name@, old(self).plan.deep_view()[old(self).pos as int].id),
            ),
    {
        proof {
            assert(self.plan.deep_view()[self.pos as int] == self.plan[self.pos as int]@);
        }
        registry.register_episode(self.feed_name.as_str(), self.plan[self.pos].id.as_str());
        self.pos = self.pos + 1;
        self.fetched = self.fetched + 1;
    }

    /// Records that the download of the episode at the current position
    /// failed: the feed's remaining (older) episodes are not attempted
    /// this run, so the resumption model stays consistent.
    pub fn record_failure(&mut self)
        ensures
            final(self).feed_name == old(self).feed_name,
            final(self).plan == old(self).plan,
            final(self).pos == old(self).pos,
            final(self).fetched == old(self).fetched,
            final(self).failed,
    {
        self.failed = true;
    }
}


/// Walking past already-registered planned episodes downloads nothing and
/// registers nothing new.
proof fn lemma_walk_skip(
    name: Seq<char>,
    plan: Seq<EpisodeView>,
    regs: Set<(Seq<char>, Seq<char>)>,
    a: int,
    b: int,
)
    requires
        0 <= a <= b <= plan.len(),
        forall|k: int| a <= k < b ==> regs.contains((name, #[trigger] plan[k].id)),
    ensures
        pending_episodes(name, plan.skip(a), regs) == pending_episodes(name, plan.skip(b), regs),
        regs_after(name, plan.skip(a), regs) == regs_after(name, plan.skip(b), regs),
    decreases b - a,
{
    if a < b {
        assert(plan.skip(a)[0] == plan[a]);
        assert(regs.contains((name, plan[a].id)));
        assert(plan.skip(a).drop_first() =~= plan.skip(a + 1));
        lemma_walk_skip(name, plan, regs, a + 1, b);
        assert forall|p: (Seq<char>, Seq<char>)| #[trigger] regs_after(
            name,
            plan.skip(a),
            regs,
        ).contains(p) implies regs_after(name, plan.skip(a + 1), regs).contains(p) by {
            if !regs.contains(p) {
                let k = choose|k: int|
                    0 <= k < plan.skip(a).len() && #[trigger] plan.skip(a)[k].id == p.1;
                if k == 0 {
                    assert(p.1 == plan[a].id);
                    assert(regs.contains(p));
                } else {
                    assert(plan.skip(a + 1)[k - 1].id == p.1);
                }
            }
        }
        assert forall|p: (Seq<char>, Seq<char>)| #[trigger] regs_after(
            name,
            plan.skip(a + 1),
            regs,
        ).contains(p) implies regs_after(name, plan.skip(a), regs).contains(p) by {
            if !regs.contains(p) {
                let k = choose|k: int|
                    0 <= k < plan.skip(a + 1).len() && #[trigger] plan.skip(a + 1)[k].id == p.1;
                assert(plan.skip(a)[k + 1].id == p.1);
            }
        }
        assert(regs_after(name, plan.skip(a), regs) =~= regs_after(name, plan.skip(a + 1), regs));
    }
}

/// Downloading the first unregistered planned episode prepends it to the
/// walk's downloads and carries its registration into the rest of the walk.
proof fn lemma_walk_download(
    name: Seq<char>,
    plan: Seq<EpisodeView>,
    regs: Set<(Seq<char>, Seq<char>)>,
    a: int,
)
    requires
        0 <= a < plan.len(),
        !regs.contains((name, plan[a].id)),
    ensures
        pending_episodes(name, plan.skip(a), regs) == seq![plan[a]] + pending_episodes(
            name,
            plan.skip(a + 1),
            regs.insert((name, plan[a].id)),
        ),
        regs_after(name, plan.skip(a), regs) == regs_after(
            name,
            plan.skip(a + 1),
            regs.insert((name, plan[a].id)),
        ),
{
    assert(plan.skip(a)[0] == plan[a]);
    assert(plan.skip(a).drop_first() =~= plan.skip(a + 1));
    let regs1 = regs.insert((name, plan[a].id));
    assert forall|p: (Seq<char>, Seq<char>)| #[trigger] regs_after(
        name,
        plan.skip(a),
        regs,
    ).contains(p) implies regs_after(name, plan.skip(a + 1), regs1).contains(p) by {
        if !regs.contains(p) {
            let k = choose|k: int| 0 <= k < plan.skip(a).len() && #[trigger] plan.skip(a)[k].id == p.1;
            if k == 0 {
                assert(p == (name, plan[a].id));
                assert(regs1.contains(p));
            } else {
                assert(plan.skip(a + 1)[k - 1].id == p.1);
            }
        }
    }
    assert forall|p: (Seq<char>, Seq<char>)| #[trigger] regs_after(
        name,
        plan.skip(a + 1),
        regs1,
    ).contains(p) implies regs_after(name, plan.skip(a), regs).contains(p) by {
        if !regs.contains(p) {
            if p == (name, plan[a].id) {
                assert(plan.skip(a)[0].id == p.1);
            } else if !regs1.contains(p) {
                let k = choose|k: int|
                    0 <= k < plan.skip(a + 1).len() && #[trigger] plan.skip(a + 1)[k].id == p.1;
                assert(plan.skip(a)[k + 1].id == p.1);
            }
        }
    }
    assert(regs_after(name, plan.skip(a), regs) =~= regs_after(name, plan.skip(a + 1), regs1));
}

/// A finished walk has registered exactly the planned episode ids.
proof fn lemma_regs_after_empty(name: Seq<char>, regs: Set<(Seq<char>, Seq<char>)>)
    ensures
        regs_after(name, Seq::<EpisodeView>::empty(), regs) == regs,
{
    assert(regs_after(name, Seq::<EpisodeView>::empty(), regs) =~= regs);
}

/// A plan whose episodes are all registered downloads nothing.
proof fn lemma_pending_all_registered(
    name: Seq<char>,
    plan: Seq<EpisodeView>,
    regs: Set<(Seq<char>, Seq<char>)>,
)
    requires
        forall|k: int| 0 <= k < plan.len() ==> regs.contains((name, #[trigger] plan[k].id)),
    ensures
        pending_episodes(name, plan, regs).len() == 0,
    decreases plan.len(),
{
    if plan.len() > 0 {
        assert(regs.contains((name, plan[0].id)));
        assert forall|k: int| 0 <= k < plan.drop_first().len() implies regs.contains(
            (name, #[trigger] plan.drop_first()[k].id),
        ) by {
            assert(plan[k + 1].id == plan.drop_first()[k].id);
        }
        lemma_pending_all_registered(name, plan.drop_first(), regs);
    }
}

/// What a whole fetch run does: the store afterwards, the feed-scoped
/// errors in input order, and the downloads performed, tagged with their
/// feed and in order.
#[verifier::ext_equal]
pub ghost struct RunView {
    /// The store afterwards.
    pub store: StoreView,
    /// Each failed feed's name and error, in input order.
    pub errors: Seq<(Seq<char>, FeedError)>,
    /// Every download performed, tagged with its feed, in order.
    pub downloads: Seq<(Seq<char>, EpisodeView)>,
}

/// The whole fetch run, with every requested download succeeding: each
/// input feed is processed in turn by [`feed_step`] against the store the
/// previous feeds left.
pub open spec fn run_steps(
    inputs: Seq<(Seq<char>, FetchOutcomeView)>,
    now: int,
    st: StoreView,
) -> RunView
    decreases inputs.len(),
{
    if inputs.len() == 0 {
        RunView { store: st, errors: Seq::empty(), downloads: Seq::empty() }
    } else {
        let s0 = feed_step(inputs[0].0, inputs[0].1, now, st);
        let rest = run_steps(inputs.drop_first(), now, s0.store);
        RunView {
            store: rest.store,
            errors: (match s0.error {
                Some(e) => seq![(inputs[0].0, e)],
                None => Seq::empty(),
            }) + rest.errors,
            downloads: s0.downloads.map_values(|e: EpisodeView| (inputs[0].0, e)) + rest.downloads,
        }
    }
}

/// What a fetch run reports: how many episodes were downloaded, each
/// failed feed's name and error, and the downloads performed, in order.
pub struct RunReport {
    /// The total number of episodes downloaded across all feeds.
    pub fetched: u64,
    /// Each failed feed's name and error, in input order.
    pub errors: Vec<(String, FeedError)>,
    /// Every download performed, in order.
    pub downloads: Vec<DownloadRequest>,
}

/// Runs a whole fetch against the store: processes each feed's retrieval
/// outcome in turn — index, plan, watermark, then the dedup-checked
/// download walk — treating every requested download as successful and
/// registering it. A failed feed is reported and never prevents the other
/// feeds from being processed. Callers whose downloads can fail drive
/// [`start_feed`] and [`FeedRun`] directly instead.
pub fn run_fetch(inputs: &Vec<(String, FetchOutcome)>, now: i64, registry: &mut Registry) -> (report:
    RunReport)
    requires
        feeds_wf(old(registry)@.feeds),
    ensures
        feeds_wf(final(registry)@.feeds),
        final(registry)@ == run_steps(inputs.deep_view(), now as int, old(registry)@).store,
        report.errors.deep_view() == run_steps(inputs.deep_view(), now as int, old(registry)@).errors,
        report.downloads.deep_view() == run_steps(
            inputs.deep_view(),
            now as int,
            old(registry)@,
        ).downloads,
        report.fetched == run_steps(inputs.deep_view(), now as int, old(registry)@).downloads.len(),
{
    let ghost iv = inputs.deep_view();
    let ghost st0 = registry@;
    let ghost rv = run_steps(iv, now as int, st0);
    let mut errors: Vec<(String, FeedError)> = Vec::new();
    let mut downloads: Vec<DownloadRequest> = Vec::new();
    let mut i: usize = 0;
    proof {
        assert(iv.len() == inputs@.len());
        assert(iv.skip(0) =~= iv);
        assert(errors.deep_view() =~= Seq::<(Seq<char>, FeedError)>::empty());
        assert(downloads.deep_view() =~= Seq::<(Seq<char>, EpisodeView)>::empty());
    }
    while i < inputs.len()
        invariant
            0 <= i <= inputs.len(),
            iv == inputs.deep_view(),
            iv.len() == inputs.len(),
            rv == run_steps(iv, now as int, st0),
            feeds_wf(registry@.feeds),
            rv.store == run_steps(iv.skip(i as int), now as int, registry@).store,
            rv.errors == errors.deep_view() + run_steps(iv.skip(i as int), now as int, registry@).errors,
            rv.downloads == downloads.deep_view() + run_steps(
                iv.skip(i as int),
                now as int,
                registry@,
            ).downloads,
        decreases inputs.len() - i,
    {
        let (name, outcome) = &inputs[i];
        proof {
            assert(iv[i as int] == inputs@[i as int].deep_view());
            assert(iv[i as int].0 == name@ && iv[i as int].1 == outcome@);
            assert(iv.skip(i as int)[0] == iv[i as int]);
            assert(iv.skip(i as int).drop_first() =~= iv.skip(i as int + 1));
        }
        let ghost st_before = registry@;
        let ghost step = feed_step(name@, outcome@, now as int, st_before);
        match start_feed(name.as_str(), outcome, now, registry) {
            Err(e) => {
                errors.push((name.clone(), e));
                proof {
                    assert(registry@ =~= st_before);
                    assert(step.store == st_before);
                    assert(step.error == Some(e));
                    assert(step.downloads =~= Seq::<EpisodeView>::empty());
                    let rest = run_steps(iv.skip(i as int + 1), now as int, registry@);
                    assert(run_steps(iv.skip(i as int), now as int, st_before).store == rest.store);
                    assert(run_steps(iv.skip(i as int), now as int, st_before).errors =~= seq![
                        (name@, e),
                    ] + rest.errors);
                    assert(step.downloads.map_values(|ep: EpisodeView| (name@, ep)) =~= Seq::<
                        (Seq<char>, EpisodeView),
                    >::empty());
                    assert(run_steps(iv.skip(i as int), now as int, st_before).downloads
                        =~= rest.downloads);
                    assert(rv.errors =~= errors.deep_view() + rest.errors);
                    assert(rv.downloads =~= downloads.deep_view() + rest.downloads);
                }
            },
            Ok(mut run) => {
                let ghost f = find_feed(st_before.feeds, name@)->0;
                let ghost entries = match outcome@ {
                    FetchOutcomeView::Document(es) => es,
                    _ => Seq::empty(),
                };
                let ghost index = episode_index(entries, now as int);
                let ghost plan = run.plan.deep_view();
                let ghost regs0 = st_before.regs;
                let ghost feeds1 = registry@.feeds;
                let ghost col0 = downloads.deep_view();
                let ghost mut col: Seq<EpisodeView> = Seq::empty();
                proof {
                    assert(registry@.regs == regs0);
                    assert(plan.skip(0) =~= plan);
                    assert(col0 + col.map_values(|ep: EpisodeView| (name@, ep)) =~= col0);
                }
                loop
                    invariant
                        run.pos <= run.plan.len(),
                        run.feed_name@ == name@,
                        run.plan.deep_view() == plan,
                        !run.failed,
                        run.fetched <= run.pos,
                        run.fetched == col.len(),
                        registry@.feeds == feeds1,
                        feeds_wf(registry@.feeds),
                        pending_episodes(name@, plan, regs0) == col + pending_episodes(
                            name@,
                            plan.skip(run.pos as int),
                            registry@.regs,
                        ),
                        regs_after(name@, plan, regs0) == regs_after(
                            name@,
                            plan.skip(run.pos as int),
                            registry@.regs,
                        ),
                        downloads.deep_view() == col0 + col.map_values(
                            |ep: EpisodeView| (name@, ep),
                        ),
                    ensures
                        run.pos == run.plan.len(),
                        run.plan.deep_view() == plan,
                        run.feed_name@ == name@,
                        !run.failed,
                        registry@.feeds == feeds1,
                        feeds_wf(registry@.feeds),
                        pending_episodes(name@, plan, regs0) == col + pending_episodes(
                            name@,
                            plan.skip(run.pos as int),
                            registry@.regs,
                        ),
                        regs_after(name@, plan, regs0) == regs_after(
                            name@,
                            plan.skip(run.pos as int),
                            registry@.regs,
                        ),
                        downloads.deep_view() == col0 + col.map_values(
                            |ep: EpisodeView| (name@, ep),
                        ),
                    decreases run.plan.len() - run.pos,
                {
                    let ghost pos_before = run.pos as int;
                    let ghost regs_before = registry@.regs;
                    let next = run.next_request(registry);
                    proof {
                        lemma_walk_skip(name@, plan, regs_before, pos_before, run.pos as int);
                    }
                    match next {
                        None => {
                            break ;
                        },
                        Some(req) => {
                            let ghost a = run.pos as int;
                            downloads.push(req);
                            run.record_success(registry);
                            proof {
                                lemma_walk_download(name@, plan, regs_before, a);
                                assert(registry@.regs == regs_before.insert((name@, plan[a].id)));
                                let colp = col.push(plan[a]);
                                assert(col + (seq![plan[a]] + pending_episodes(
                                    name@,
                                    plan.skip(a + 1),
                                    registry@.regs,
                                )) =~= colp + pending_episodes(
                                    name@,
                                    plan.skip(a + 1),
                                    registry@.regs,
                                ));
                                assert(colp.map_values(|ep: EpisodeView| (name@, ep))
                                    =~= col.map_values(|ep: EpisodeView| (name@, ep)).push(
                                    (name@, plan[a]),
                                ));
                                assert(req@ == (name@, plan[a]));
                                assert(downloads.deep_view() =~= (col0 + col.map_values(
                                    |ep: EpisodeView| (name@, ep),
                                )).push(req@));
                                assert((col0 + col.map_values(|ep: EpisodeView| (name@, ep))).push(
                                    req@,
                                ) =~= col0 + colp.map_values(|ep: EpisodeView| (name@, ep)));
                                col = colp;
                            }
                        },
                    }
                }
                proof {
                    assert(plan.skip(run.pos as int) =~= Seq::<EpisodeView>::empty());
                    lemma_regs_after_empty(name@, registry@.regs);
                    assert(pending_episodes(
                        name@,
                        Seq::<EpisodeView>::empty(),
                        registry@.regs,
                    ) =~= Seq::<EpisodeView>::empty());
                    assert(col + Seq::<EpisodeView>::empty() =~= col);
                    assert(pending_episodes(name@, plan, regs0) == col);
                    assert(regs_after(name@, plan, regs0) == registry@.regs);
                    // the exec walk realized this feed's step
                    assert(step.error is None);
                    assert(step.downloads == pending_episodes(name@, plan, regs0));
                    assert(step.store.feeds == feeds1);
                    assert(step.store.regs == regs_after(name@, plan, regs0));
                    assert(registry@ =~= step.store);
                    let rest = run_steps(iv.skip(i as int + 1), now as int, registry@);
                    assert(run_steps(iv.skip(i as int), now as int, st_before).store == rest.store);
                    assert(run_steps(iv.skip(i as int), now as int, st_before).errors
                        =~= rest.errors);
                    assert(run_steps(iv.skip(i as int), now as int, st_before).downloads
                        =~= step.downloads.map_values(|ep: EpisodeView| (name@, ep))
                        + rest.downloads);
                    assert(col.map_values(|ep: EpisodeView| (name@, ep)) == step.downloads.map_values(
                        |ep: EpisodeView| (name@, ep),
                    ));
                    assert(rv.downloads =~= downloads.deep_view() + rest.downloads);
                    assert(rv.errors =~= errors.deep_view() + rest.errors);
                }
            },
        }
        i += 1;
    }
    proof {
        assert(iv.skip(i as int).len() == 0);
        assert(run_steps(iv.skip(i as int), now as int, registry@).errors =~= Seq::<
            (Seq<char>, FeedError),
        >::empty());
        assert(run_steps(iv.skip(i as int), now as int, registry@).downloads =~= Seq::<
            (Seq<char>, EpisodeView),
        >::empty());
        assert(rv.errors =~= errors.deep_view());
        assert(rv.downloads =~= downloads.deep_view());
        assert(rv.store == registry@);
        assert(downloads.deep_view().len() == downloads@.len());
    }
    let fetched = downloads.len() as u64;
    RunReport { fetched, errors, downloads }
}


/// Dedup idempotence law: fetching an unchanged document for an unchanged
/// feed twice in succession downloads nothing the second time and leaves
/// the store exactly as the first run left it.
pub proof fn lemma_second_fetch_idle(
    name: Seq<char>,
    entries: Seq<EntryView>,
    now: int,
    st: StoreView,
)
    requires
        find_feed(st.feeds, name) is Some,
        episode_index(entries, now).len() > 0,
    ensures
        ({
            let first = feed_step(name, FetchOutcomeView::Document(entries), now, st);
            let second = feed_step(name, FetchOutcomeView::Document(entries), now, first.store);
            &&& first.error is None
            &&& second.error is None
            &&& second.downloads.len() == 0
            &&& second.store == first.store
        }),
{
    let f = find_feed(st.feeds, name)->0;
    lemma_find_feed_name(st.feeds, name);
    let index = episode_index(entries, now);
    let thr = plan_threshold(f.fetch_since, f.backlog, index);
    let plan = step_plan(f, index);
    let first = feed_step(name, FetchOutcomeView::Document(entries), now, st);
    let regs1 = regs_after(name, plan, st.regs);

    // the feed record the second run sees, and its plan
    let f2 = match plan_update(f.fetch_since, f.backlog, index) {
        Some(w) => FeedView { name: f.name, uri: f.uri, backlog: f.backlog, fetch_since: Some(w) },
        None => f,
    };
    match plan_update(f.fetch_since, f.backlog, index) {
        Some(w) => {
            lemma_find_replace_same(st.feeds, name, f2);
            assert(find_feed(first.store.feeds, name) == Some(f2));
            // the advanced watermark equals the backlog boundary date, so
            // the feed is mature on the second run with the same threshold
            assert(plan_threshold(f2.fetch_since, f2.backlog, index) == thr);
            assert(plan_update(f2.fetch_since, f2.backlog, index) is None);
        },
        None => {
            assert(first.store.feeds == st.feeds);
            assert(plan_threshold(f2.fetch_since, f2.backlog, index) == thr);
            assert(plan_update(f2.fetch_since, f2.backlog, index) is None);
        },
    }
    assert(step_plan(f2, index) == plan);
    let second = feed_step(name, FetchOutcomeView::Document(entries), now, first.store);
    assert(second.store.feeds == first.store.feeds);

    // every planned episode is registered after the first run
    assert forall|k: int| 0 <= k < plan.len() implies regs1.contains(
        (name, #[trigger] plan[k].id),
    ) by {
    }
    lemma_pending_all_registered(name, plan, regs1);
    assert(second.downloads.len() == 0);

    // registering already-registered episodes changes nothing
    assert forall|p: (Seq<char>, Seq<char>)| #[trigger] regs_after(name, plan, regs1).contains(
        p,
    ) implies regs1.contains(p) by {
    }
    assert(regs_after(name, plan, regs1) =~= regs1);
    assert(second.store =~= first.store);
}

/// Dedup idempotence of the whole flow: a fetch run over one feed's
/// unchanged document, repeated against the store the first run left,
/// reports no error, downloads nothing, and leaves the store unchanged.
pub proof fn lemma_second_run_downloads_nothing(
    name: Seq<char>,
    entries: Seq<EntryView>,
    now: int,
    st: StoreView,
)
    requires
        find_feed(st.feeds, name) is Some,
        episode_index(entries, now).len() > 0,
    ensures
        ({
            let input = seq![(name, FetchOutcomeView::Document(entries))];
            let first = run_steps(input, now, st);
            let second = run_steps(input, now, first.store);
            &&& first.errors.len() == 0
            &&& second.errors.len() == 0
            &&& second.downloads.len() == 0
            &&& second.store == first.store
        }),
{
    lemma_second_fetch_idle(name, entries, now, st);
    let input = seq![(name, FetchOutcomeView::Document(entries))];
    assert(input[0] == (name, FetchOutcomeView::Document(entries)));
    assert(input.drop_first() =~= Seq::<(Seq<char>, FetchOutcomeView)>::empty());
    let s1 = feed_step(name, FetchOutcomeView::Document(entries), now, st);
    let first = run_steps(input, now, st);
    let r1 = run_steps(input.drop_first(), now, s1.store);
    assert(r1.store == s1.store && r1.errors.len() == 0 && r1.downloads.len() == 0);
    assert(first.store == s1.store);
    assert(first.errors =~= Seq::<(Seq<char>, FeedError)>::empty());
    let s2 = feed_step(name, FetchOutcomeView::Document(entries), now, first.store);
    let second = run_steps(input, now, first.store);
    let r2 = run_steps(input.drop_first(), now, s2.store);
    assert(r2.store == s2.store && r2.errors.len() == 0 && r2.downloads.len() == 0);
    assert(second.store == s2.store);
    assert(second.errors =~= Seq::<(Seq<char>, FeedError)>::empty());
    assert(s2.downloads.map_values(|ep: EpisodeView| (name, ep)).len() == 0);
    assert(second.downloads =~= Seq::<(Seq<char>, EpisodeView)>::empty());
}

/// Processing a run of feeds factors over concatenation: the second part
/// starts from the store the first part left.
pub proof fn lemma_run_steps_concat(
    u: Seq<(Seq<char>, FetchOutcomeView)>,
    v: Seq<(Seq<char>, FetchOutcomeView)>,
    now: int,
    st: StoreView,
)
    ensures
        ({
            let a = run_steps(u, now, st);
            let b = run_steps(v, now, a.store);
            run_steps(u + v, now, st) == RunView {
                store: b.store,
                errors: a.errors + b.errors,
                downloads: a.downloads + b.downloads,
            }
        }),
    decreases u.len(),
{
    let a = run_steps(u, now, st);
    let b = run_steps(v, now, a.store);
    if u.len() == 0 {
        assert(u + v =~= v);
        assert(a.store == st);
        assert(a.errors + b.errors =~= b.errors);
        assert(a.downloads + b.downloads =~= b.downloads);
        assert(run_steps(u + v, now, st) =~= RunView {
            store: b.store,
            errors: a.errors + b.errors,
            downloads: a.downloads + b.downloads,
        });
    } else {
        let s0 = feed_step(u[0].0, u[0].1, now, st);
        assert((u + v)[0] == u[0]);
        assert((u + v).drop_first() =~= u.drop_first() + v);
        lemma_run_steps_concat(u.drop_first(), v, now, s0.store);
        let ar = run_steps(u.drop_first(), now, s0.store);
        let head_errors = match s0.error {
            Some(e) => seq![(u[0].0, e)],
            None => Seq::<(Seq<char>, FeedError)>::empty(),
        };
        let head_downloads = s0.downloads.map_values(|ep: EpisodeView| (u[0].0, ep));
        assert(head_errors + (ar.errors + b.errors) =~= (head_errors + ar.errors) + b.errors);
        assert(head_downloads + (ar.downloads + b.downloads) =~= (head_downloads + ar.downloads)
            + b.downloads);
        assert(run_steps(u + v, now, st) =~= RunView {
            store: b.store,
            errors: a.errors + b.errors,
            downloads: a.downloads + b.downloads,
        });
    }
}

/// Failure isolation law: a feed whose retrieval or parse failed
/// contributes exactly its own error report, in input order; the final
/// store and the downloads performed are those of the run without it, so
/// one feed's failure never prevents the other feeds from being fetched,
/// downloaded and registered.
pub proof fn lemma_failed_fetch_isolated(
    before: Seq<(Seq<char>, FetchOutcomeView)>,
    name: Seq<char>,
    outcome: FetchOutcomeView,
    after: Seq<(Seq<char>, FetchOutcomeView)>,
    now: int,
    st: StoreView,
)
    requires
        outcome is Transport || outcome is Parse,
    ensures
        ({
            let whole = run_steps(before + seq![(name, outcome)] + after, now, st);
            let without = run_steps(before + after, now, st);
            let head = run_steps(before, now, st);
            let tail = run_steps(after, now, head.store);
            let err = if outcome is Transport {
                FeedError::Transport
            } else {
                FeedError::Parse
            };
            &&& whole.store == without.store
            &&& whole.downloads == without.downloads
            &&& whole.errors == head.errors + seq![(name, err)] + tail.errors
            &&& without.errors == head.errors + tail.errors
        }),
{
    let head = run_steps(before, now, st);
    let tail = run_steps(after, now, head.store);
    let mid = seq![(name, outcome)];
    let err = if outcome is Transport {
        FeedError::Transport
    } else {
        FeedError::Parse
    };

    // the failing feed's step reports its error and changes nothing
    let s0 = feed_step(name, outcome, now, head.store);
    assert(s0.store == head.store && s0.error == Some(err) && s0.downloads.len() == 0);
    assert(mid[0] == (name, outcome));
    assert(mid.drop_first() =~= Seq::<(Seq<char>, FetchOutcomeView)>::empty());
    let m = run_steps(mid, now, head.store);
    let m_rest = run_steps(mid.drop_first(), now, s0.store);
    assert(m_rest.store == s0.store && m_rest.errors.len() == 0 && m_rest.downloads.len() == 0);
    assert(m.store == head.store);
    assert(m.errors =~= seq![(name, err)]);
    assert(s0.downloads.map_values(|ep: EpisodeView| (name, ep)) =~= Seq::<
        (Seq<char>, EpisodeView),
    >::empty());
    assert(m.downloads =~= Seq::<(Seq<char>, EpisodeView)>::empty());

    lemma_run_steps_concat(mid, after, now, head.store);
    let ma = run_steps(mid + after, now, head.store);
    assert(ma.store == tail.store);
    assert(ma.errors == m.errors + tail.errors);
    assert(ma.downloads =~= tail.downloads);

    lemma_run_steps_concat(before, mid + after, now, st);
    assert(before + mid + after =~= before + (mid + after));
    let whole = run_steps(before + mid + after, now, st);
    assert(whole.store == ma.store);
    assert(whole.errors == head.errors + ma.errors);
    assert(whole.downloads == head.downloads + ma.downloads);

    lemma_run_steps_concat(before, after, now, st);
    let without = run_steps(before + after, now, st);
    assert(without.store == tail.store);
    assert(without.errors == head.errors + tail.errors);
    assert(without.downloads == head.downloads + tail.downloads);

    assert(whole.errors =~= head.errors + seq![(name, err)] + tail.errors);
    assert(whole.downloads =~= without.downloads);
}

} // verus!
