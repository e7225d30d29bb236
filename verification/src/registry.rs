//! The registration store model: feed records and (feed name, episode id)
//! download registrations, with the operations the fetcher and the user
//! commands perform on them. Callers that persist this state load it into a
//! [`Registry`] at the start of a run and write it back after.

use vstd::prelude::*;

use crate::models::{str_eq, Feed, FeedView, Registration, RegistrationView};
use crate::options::Modification;

verus! {

/// Which feeds to load: all of them, or the one with the given name.
pub enum GetFeeds<'a> {
    All,
    One(&'a str),
}

/// A store-level failure, scoped to the feed the operation named.
#[derive(Clone, Copy, Debug, PartialEq, Eq, Structural)]
pub enum StoreError {
    /// A feed with that name already exists.
    DuplicateFeed,
    /// No feed with that name exists.
    NoSuchFeed,
}

/// The mathematical state of a [`Registry`]: the feed records in stored
/// order, and the set of (feed name, episode id) registration facts.
#[verifier::ext_equal]
pub ghost struct StoreView {
    pub feeds: Seq<FeedView>,
    pub regs: Set<(Seq<char>, Seq<char>)>,
}

/// The in-memory registration store: feed configurations plus the
/// registrations that record which episodes have already been downloaded.
pub struct Registry {
    feeds: Vec<Feed>,
    registrations: Vec<Registration>,
}

/// Well-formedness of a store's feed records: feed names are unique.
pub open spec fn feeds_wf(feeds: Seq<FeedView>) -> bool {
    forall|i: int, j: int|
        #![trigger feeds[i].name, feeds[j].name]
        0 <= i < j < feeds.len() ==> feeds[i].name != feeds[j].name
}

/// The first feed with the given name, if any.
pub open spec fn find_feed(feeds: Seq<FeedView>, name: Seq<char>) -> Option<FeedView>
    decreases feeds.len(),
{
    if feeds.len() == 0 {
        None
    } else if feeds[0].name == name {
        Some(feeds[0])
    } else {
        find_feed(feeds.drop_first(), name)
    }
}

/// The feed records with the first one named `name` replaced by `f`.
pub open spec fn replace_feed(feeds: Seq<FeedView>, name: Seq<char>, f: FeedView) -> Seq<FeedView>
    decreases feeds.len(),
{
    if feeds.len() == 0 {
        feeds
    } else if feeds[0].name == name {
        feeds.update(0, f)
    } else {
        seq![feeds[0]] + replace_feed(feeds.drop_first(), name, f)
    }
}

/// The feed records without the first one named `name`.
pub open spec fn remove_feed_named(feeds: Seq<FeedView>, name: Seq<char>) -> Seq<FeedView>
    decreases feeds.len(),
{
    if feeds.len() == 0 {
        feeds
    } else if feeds[0].name == name {
        feeds.drop_first()
    } else {
        seq![feeds[0]] + remove_feed_named(feeds.drop_first(), name)
    }
}

/// The backlog size a new feed is created with: the requested one, or 1
/// when none was requested.
pub open spec fn spec_effective_backlog(backlog: Option<u32>) -> int {
    match backlog {
        Some(n) => n as int,
        None => 1,
    }
}

/// A found feed bears the name it was found under.
pub proof fn lemma_find_feed_name(feeds: Seq<FeedView>, name: Seq<char>)
    ensures
        find_feed(feeds, name) matches Some(f) ==> f.name == name,
    decreases feeds.len(),
{
    if feeds.len() > 0 && feeds[0].name != name {
        lemma_find_feed_name(feeds.drop_first(), name);
    }
}

/// When position `i` holds the first feed named `name`, the lookup finds it.
pub proof fn lemma_find_feed_at(feeds: Seq<FeedView>, name: Seq<char>, i: int)
    requires
        0 <= i < feeds.len(),
        feeds[i].name == name,
        forall|k: int| 0 <= k < i ==> #[trigger] feeds[k].name != name,
    ensures
        find_feed(feeds, name) == Some(feeds[i]),
    decreases i,
{
    if i > 0 {
        assert(feeds[0].name != name);
        assert forall|k: int| 0 <= k < i - 1 implies #[trigger] feeds.drop_first()[k].name != name by {
            assert(feeds[k + 1].name != name);
        }
        assert(feeds.drop_first()[i - 1] == feeds[i]);
        lemma_find_feed_at(feeds.drop_first(), name, i - 1);
    }
}

/// When no feed bears the name, the lookup finds nothing.
pub proof fn lemma_find_feed_none(feeds: Seq<FeedView>, name: Seq<char>)
    requires
        forall|k: int| 0 <= k < feeds.len() ==> #[trigger] feeds[k].name != name,
    ensures
        find_feed(feeds, name) is None,
    decreases feeds.len(),
{
    if feeds.len() > 0 {
        assert forall|k: int| 0 <= k < feeds.drop_first().len() implies #[trigger] feeds.drop_first()[k].name
            != name by {
            assert(feeds[k + 1].name != name);
        }
        lemma_find_feed_none(feeds.drop_first(), name);
    }
}

/// When position `i` holds the first feed named `name`, replacing rewrites
/// exactly that position.
pub proof fn lemma_replace_feed_at(feeds: Seq<FeedView>, name: Seq<char>, f: FeedView, i: int)
    requires
        0 <= i < feeds.len(),
        feeds[i].name == name,
        forall|k: int| 0 <= k < i ==> #[trigger] feeds[k].name != name,
    ensures
        replace_feed(feeds, name, f) == feeds.update(i, f),
    decreases i,
{
    if i == 0 {
    } else {
        assert(feeds[0].name != name);
        assert forall|k: int| 0 <= k < i - 1 implies #[trigger] feeds.drop_first()[k].name != name by {
            assert(feeds[k + 1].name != name);
        }
        assert(feeds.drop_first()[i - 1] == feeds[i]);
        lemma_replace_feed_at(feeds.drop_first(), name, f, i - 1);
        assert(seq![feeds[0]] + feeds.drop_first().update(i - 1, f) =~= feeds.update(i, f));
    }
}

/// When position `i` holds the first feed named `name`, removal deletes
/// exactly that position.
pub proof fn lemma_remove_feed_at(feeds: Seq<FeedView>, name: Seq<char>, i: int)
    requires
        0 <= i < feeds.len(),
        feeds[i].name == name,
        forall|k: int| 0 <= k < i ==> #[trigger] feeds[k].name != name,
    ensures
        remove_feed_named(feeds, name) == feeds.remove(i),
    decreases i,
{
    if i == 0 {
        assert(remove_feed_named(feeds, name) =~= feeds.remove(0));
    } else {
        assert(feeds[0].name != name);
        assert forall|k: int| 0 <= k < i - 1 implies #[trigger] feeds.drop_first()[k].name != name by {
            assert(feeds[k + 1].name != name);
        }
        assert(feeds.drop_first()[i - 1] == feeds[i]);
        lemma_remove_feed_at(feeds.drop_first(), name, i - 1);
        assert(seq![feeds[0]] + feeds.drop_first().remove(i - 1) =~= feeds.remove(i));
    }
}

/// Replacing a feed by one with the same name keeps every position's name.
pub proof fn lemma_replace_feed_names(feeds: Seq<FeedView>, name: Seq<char>, f: FeedView)
    requires
        f.name == name,
    ensures
        replace_feed(feeds, name, f).len() == feeds.len(),
        forall|m: int|
            0 <= m < feeds.len() ==> #[trigger] replace_feed(feeds, name, f)[m].name
                == feeds[m].name,
        forall|m: int|
            0 <= m < feeds.len() ==> #[trigger] replace_feed(feeds, name, f)[m] == feeds[m]
                || replace_feed(feeds, name, f)[m] == f,
    decreases feeds.len(),
{
    if feeds.len() == 0 {
    } else if feeds[0].name == name {
    } else {
        lemma_replace_feed_names(feeds.drop_first(), name, f);
        let r = seq![feeds[0]] + replace_feed(feeds.drop_first(), name, f);
        assert forall|m: int| 0 <= m < feeds.len() implies #[trigger] r[m].name == feeds[m].name
            && (r[m] == feeds[m] || r[m] == f) by {
            if m > 0 {
                assert(r[m] == replace_feed(feeds.drop_first(), name, f)[m - 1]);
                assert(feeds.drop_first()[m - 1] == feeds[m]);
            }
        }
    }
}

/// After replacing the feed named `name` by `f` (which bears that name),
/// looking `name` up finds `f`, provided the name was present.
pub proof fn lemma_find_replace_same(feeds: Seq<FeedView>, name: Seq<char>, f: FeedView)
    requires
        f.name == name,
        find_feed(feeds, name) is Some,
    ensures
        find_feed(replace_feed(feeds, name, f), name) == Some(f),
    decreases feeds.len(),
{
    if feeds.len() == 0 {
    } else if feeds[0].name == name {
        let r = feeds.update(0, f);
        assert(r[0] == f);
    } else {
        lemma_find_replace_same(feeds.drop_first(), name, f);
        let r = seq![feeds[0]] + replace_feed(feeds.drop_first(), name, f);
        assert(r[0] == feeds[0]);
        assert(r.drop_first() =~= replace_feed(feeds.drop_first(), name, f));
    }
}

/// Replacing the feed named `name` leaves lookups of other names unchanged.
pub proof fn lemma_find_replace_other(
    feeds: Seq<FeedView>,
    name: Seq<char>,
    f: FeedView,
    other: Seq<char>,
)
    requires
        f.name == name,
        other != name,
    ensures
        find_feed(replace_feed(feeds, name, f), other) == find_feed(feeds, other),
    decreases feeds.len(),
{
    if feeds.len() == 0 {
    } else if feeds[0].name == name {
        let r = feeds.update(0, f);
        assert(r[0] == f);
        assert(r.drop_first() =~= feeds.drop_first());
    } else {
        lemma_find_replace_other(feeds.drop_first(), name, f, other);
        let r = seq![feeds[0]] + replace_feed(feeds.drop_first(), name, f);
        assert(r[0] == feeds[0]);
        assert(r.drop_first() =~= replace_feed(feeds.drop_first(), name, f));
    }
}

impl View for Registry {
    type V = StoreView;

    closed spec fn view(&self) -> StoreView {
        StoreView {
            feeds: self.feeds.deep_view(),
            regs: Set::new(
                |p: (Seq<char>, Seq<char>)|
                    exists|i: int|
                        0 <= i < self.registrations.deep_view().len()
                            && #[trigger] self.registrations.deep_view()[i] == (RegistrationView {
                            feed: p.0,
                            guid: p.1,
                        }),
            ),
        }
    }
}

impl Registry {
    /// Creates an empty store: no feeds, no registrations.
    pub fn new() -> (r: Registry)
        ensures
            r@.feeds == Seq::<FeedView>::empty(),
            r@.regs == Set::<(Seq<char>, Seq<char>)>::empty(),
            feeds_wf(r@.feeds),
    {
        let r = Registry { feeds: Vec::new(), registrations: Vec::new() };
        proof {
            assert(r@.feeds =~= Seq::<FeedView>::empty());
            assert(r@.regs =~= Set::<(Seq<char>, Seq<char>)>::empty());
        }
        r
    }

    /// The position of the first feed with the given name, if any.
    fn find_index(&self, name: &str) -> (r: Option<usize>)
        ensures
            match r {
                Some(i) => i < self@.feeds.len() && self@.feeds[i as int].name == name@ && forall|
                    k: int,
                |
                    0 <= k < i ==> #[trigger] self@.feeds[k].name != name@,
                None => forall|k: int|
                    0 <= k < self@.feeds.len() ==> #[trigger] self@.feeds[k].name != name@,
            },
    {
        let mut i: usize = 0;
        while i < self.feeds.len()
            invariant
                0 <= i <= self.feeds.len(),
                self@.feeds.len() == self.feeds.len(),
                forall|k: int| 0 <= k < i ==> #[trigger] self@.feeds[k].name != name@,
            decreases self.feeds.len() - i,
        {
            proof {
                assert(self@.feeds[i as int] == self.feeds[i as int]@);
            }
            if str_eq(self.feeds[i].name.as_str(), name) {
                return Some(i);
            }
            i += 1;
        }
        None
    }

    /// Adds a feed under a fresh name with the given link and the requested
    /// backlog size (1 when none was requested) and no watermark; a feed
    /// with that name must not already exist.
    pub fn add_feed(&mut self, name: &str, link: &str, backlog: Option<u32>) -> (r: Result<
        (),
        StoreError,
    >)
        requires
            feeds_wf(old(self)@.feeds),
            backlog matches Some(n) ==> n >= 1,
        ensures
            feeds_wf(final(self)@.feeds),
            final(self)@.regs == old(self)@.regs,
            match r {
                Ok(()) => find_feed(old(self)@.feeds, name@) is None && final(self)@.feeds == old(
                    self,
                )@.feeds.push(
                    FeedView {
                        name: name@,
                        uri: link@,
                        backlog: spec_effective_backlog(backlog),
                        fetch_since: None,
                    },
                ),
                Err(e) => e == StoreError::DuplicateFeed && find_feed(old(self)@.feeds, name@)
                    is Some && final(self)@.feeds == old(self)@.feeds,
            },
    {
        match self.find_index(name) {
            Some(i) => {
                proof {
                    lemma_find_feed_at(self@.feeds, name@, i as int);
                }
                Err(StoreError::DuplicateFeed)
            },
            None => {
                proof {
                    lemma_find_feed_none(self@.feeds, name@);
                }
                let n = match backlog {
                    Some(n) => n,
                    None => 1,
                };
                let f = Feed {
                    name: name.to_owned(),
                    uri: link.to_owned(),
                    backlog: n,
                    fetch_since: None,
                };
                let ghost pre = self@;
                self.feeds.push(f);
                proof {
                    assert(self@.feeds =~= pre.feeds.push(
                        FeedView {
                            name: name@,
                            uri: link@,
                            backlog: spec_effective_backlog(backlog),
                            fetch_since: None,
                        },
                    ));
                    assert(self@.regs =~= pre.regs);
                    assert forall|i: int, j: int|
                        0 <= i < j < self@.feeds.len() implies #[trigger] self@.feeds[i].name
                        != #[trigger] self@.feeds[j].name by {
                        if j < pre.feeds.len() {
                            assert(pre.feeds[i].name != pre.feeds[j].name);
                        } else {
                            assert(pre.feeds[i].name != name@);
                        }
                    }
                }
                Ok(())
            },
        }
    }

    /// Removes the feed with the given name; its registrations are left in
    /// place and become inert.
    pub fn remove_feed(&mut self, name: &str) -> (r: Result<(), StoreError>)
        requires
            feeds_wf(old(self)@.feeds),
        ensures
            feeds_wf(final(self)@.feeds),
            final(self)@.regs == old(self)@.regs,
            match r {
                Ok(()) => find_feed(old(self)@.feeds, name@) is Some && final(self)@.feeds
                    == remove_feed_named(old(self)@.feeds, name@),
                Err(e) => e == StoreError::NoSuchFeed && find_feed(old(self)@.feeds, name@) is None
                    && final(self)@.feeds == old(self)@.feeds,
            },
    {
        match self.find_index(name) {
            Some(i) => {
                proof {
                    lemma_find_feed_at(self@.feeds, name@, i as int);
                    lemma_remove_feed_at(self@.feeds, name@, i as int);
                }
                let ghost pre = self@;
                let _ = self.feeds.remove(i);
                proof {
                    assert(self@.feeds =~= pre.feeds.remove(i as int));
                    assert(self@.regs =~= pre.regs);
                    pre.feeds.remove_ensures(i as int);
                    assert forall|a: int, b: int|
                        0 <= a < b < self@.feeds.len() implies #[trigger] self@.feeds[a].name
                        != #[trigger] self@.feeds[b].name by {
                        let a0 = if a < i as int {
                            a
                        } else {
                            a + 1
                        };
                        let b0 = if b < i as int {
                            b
                        } else {
                            b + 1
                        };
                        assert(self@.feeds[a] == pre.feeds[a0]);
                        assert(self@.feeds[b] == pre.feeds[b0]);
                        assert(pre.feeds[a0].name != pre.feeds[b0].name);
                    }
                }
                Ok(())
            },
            None => {
                proof {
                    lemma_find_feed_none(self@.feeds, name@);
                }
                Err(StoreError::NoSuchFeed)
            },
        }
    }

    /// Loads feed records: all of them in stored order, or the one with the
    /// given name.
    pub fn get_feeds(&self, which: GetFeeds<'_>) -> (r: Vec<Feed>)
        ensures
            match which {
                GetFeeds::All => r.deep_view() == self@.feeds,
                GetFeeds::One(name) => r.deep_view() == match find_feed(self@.feeds, name@) {
                    Some(f) => seq![f],
                    None => Seq::<FeedView>::empty(),
                },
            },
    {
        match which {
            GetFeeds::All => {
                let mut out: Vec<Feed> = Vec::new();
                let mut i: usize = 0;
                proof {
                    assert(out.deep_view() =~= self@.feeds.take(0));
                }
                while i < self.feeds.len()
                    invariant
                        0 <= i <= self.feeds.len(),
                        self@.feeds.len() == self.feeds.len(),
                        out.deep_view() == self@.feeds.take(i as int),
                    decreases self.feeds.len() - i,
                {
                    let ghost pre = out.deep_view();
                    out.push(self.feeds[i].clone());
                    proof {
                        assert(out.deep_view() =~= pre.push(self@.feeds[i as int]));
                        assert(out.deep_view() =~= self@.feeds.take(i as int + 1));
                    }
                    i += 1;
                }
                proof {
                    assert(self@.feeds.take(i as int) =~= self@.feeds);
                }
                out
            },
            GetFeeds::One(name) => {
                match self.find_index(name) {
                    Some(i) => {
                        proof {
                            lemma_find_feed_at(self@.feeds, name@, i as int);
                        }
                        let mut out: Vec<Feed> = Vec::new();
                        out.push(self.feeds[i].clone());
                        proof {
                            assert(out.deep_view() =~= seq![self@.feeds[i as int]]);
                        }
                        out
                    },
                    None => {
                        proof {
                            lemma_find_feed_none(self@.feeds, name@);
                        }
                        let out: Vec<Feed> = Vec::new();
                        proof {
                            assert(out.deep_view() =~= Seq::<FeedView>::empty());
                        }
                        out
                    },
                }
            },
        }
    }

    /// Replaces the feed record at position `i` (which holds the first feed
    /// named `name`) by `f`, whose name must be unchanged.
    fn replace_at(&mut self, i: usize, f: Feed)
        requires
            feeds_wf(old(self)@.feeds),
            i < old(self)@.feeds.len(),
            f@.name == old(self)@.feeds[i as int].name,
            forall|k: int| 0 <= k < i ==> #[trigger] old(self)@.feeds[k].name != f@.name,
        ensures
            feeds_wf(final(self)@.feeds),
            final(self)@.regs == old(self)@.regs,
            final(self)@.feeds == replace_feed(old(self)@.feeds, f@.name, f@),
            find_feed(final(self)@.feeds, f@.name) == Some(f@),
    {
        let ghost pre = self@;
        let ghost fv = f@;
        let _ = self.feeds.remove(i);
        self.feeds.insert(i, f);
        proof {
            assert(self@.feeds =~= pre.feeds.update(i as int, fv));
            assert(self@.regs =~= pre.regs);
            lemma_replace_feed_at(pre.feeds, fv.name, fv, i as int);
            lemma_replace_feed_names(pre.feeds, fv.name, fv);
            assert forall|a: int, b: int|
                0 <= a < b < self@.feeds.len() implies #[trigger] self@.feeds[a].name
                != #[trigger] self@.feeds[b].name by {
                assert(self@.feeds[a].name == pre.feeds[a].name);
                assert(self@.feeds[b].name == pre.feeds[b].name);
            }
            lemma_find_feed_at(pre.feeds, fv.name, i as int);
            lemma_find_replace_same(pre.feeds, fv.name, fv);
        }
    }

    /// Sets the feed's source link.
    pub fn set_link(&mut self, feed: &str, link: &str) -> (r: Result<(), StoreError>)
        requires
            feeds_wf(old(self)@.feeds),
        ensures
            feeds_wf(final(self)@.feeds),
            final(self)@.regs == old(self)@.regs,
            match r {
                Ok(()) => find_feed(old(self)@.feeds, feed@) matches Some(f) && final(self)@.feeds
                    == replace_feed(
                    old(self)@.feeds,
                    feed@,
                    FeedView { name: f.name, uri: link@, backlog: f.backlog, fetch_since: f.fetch_since },
                ),
                Err(e) => e == StoreError::NoSuchFeed && find_feed(old(self)@.feeds, feed@) is None
                    && final(self)@.feeds == old(self)@.feeds,
            },
    {
        match self.find_index(feed) {
            Some(i) => {
                proof {
                    lemma_find_feed_at(self@.feeds, feed@, i as int);
                }
                let cur = &self.feeds[i];
                let f = Feed {
                    name: cur.name.clone(),
                    uri: link.to_owned(),
                    backlog: cur.backlog,
                    fetch_since: cur.fetch_since,
                };
                self.replace_at(i, f);
                Ok(())
            },
            None => {
                proof {
                    lemma_find_feed_none(self@.feeds, feed@);
                }
                Err(StoreError::NoSuchFeed)
            },
        }
    }

    /// Sets the feed's backlog size.
    pub fn set_backlog(&mut self, feed: &str, n: u32) -> (r: Result<(), StoreError>)
        requires
            feeds_wf(old(self)@.feeds),
            n >= 1,
        ensures
            feeds_wf(final(self)@.feeds),
            final(self)@.regs == old(self)@.regs,
            match r {
                Ok(()) => find_feed(old(self)@.feeds, feed@) matches Some(f) && final(self)@.feeds
                    == replace_feed(
                    old(self)@.feeds,
                    feed@,
                    FeedView { name: f.name, uri: f.uri, backlog: n as int, fetch_since: f.fetch_since },
                ),
                Err(e) => e == StoreError::NoSuchFeed && find_feed(old(self)@.feeds, feed@) is None
                    && final(self)@.feeds == old(self)@.feeds,
            },
    {
        match self.find_index(feed) {
            Some(i) => {
                proof {
                    lemma_find_feed_at(self@.feeds, feed@, i as int);
                }
                let cur = &self.feeds[i];
                let f = Feed {
                    name: cur.name.clone(),
                    uri: cur.uri.clone(),
                    backlog: n,
                    fetch_since: cur.fetch_since,
                };
                self.replace_at(i, f);
                Ok(())
            },
            None => {
                proof {
                    lemma_find_feed_none(self@.feeds, feed@);
                }
                Err(StoreError::NoSuchFeed)
            },
        }
    }

    /// Advances the feed's watermark to the given timestamp.
    pub fn set_fetch_since(&mut self, feed: &str, when: i64) -> (r: Result<(), StoreError>)
        requires
            feeds_wf(old(self)@.feeds),
        ensures
            feeds_wf(final(self)@.feeds),
            final(self)@.regs == old(self)@.regs,
            match r {
                Ok(()) => find_feed(old(self)@.feeds, feed@) matches Some(f) && final(self)@.feeds
                    == replace_feed(
                    old(self)@.feeds,
                    feed@,
                    FeedView {
                        name: f.name,
                        uri: f.uri,
                        backlog: f.backlog,
                        fetch_since: Some(when as int),
                    },
                ),
                Err(e) => e == StoreError::NoSuchFeed && find_feed(old(self)@.feeds, feed@) is None
                    && final(self)@.feeds == old(self)@.feeds,
            },
    {
        match self.find_index(feed) {
            Some(i) => {
                proof {
                    lemma_find_feed_at(self@.feeds, feed@, i as int);
                }
                let cur = &self.feeds[i];
                let f = Feed {
                    name: cur.name.clone(),
                    uri: cur.uri.clone(),
                    backlog: cur.backlog,
                    fetch_since: Some(when),
                };
                self.replace_at(i, f);
                Ok(())
            },
            None => {
                proof {
                    lemma_find_feed_none(self@.feeds, feed@);
                }
                Err(StoreError::NoSuchFeed)
            },
        }
    }

    /// Whether the episode has already been downloaded for the feed.
    pub fn is_episode_registered(&self, feed: &str, guid: &str) -> (r: bool)
        ensures
            r == self@.regs.contains((feed@, guid@)),
    {
        let ghost rv = self.registrations.deep_view();
        let mut i: usize = 0;
        while i < self.registrations.len()
            invariant
                0 <= i <= self.registrations.len(),
                rv == self.registrations.deep_view(),
                rv.len() == self.registrations.len(),
                forall|k: int|
                    0 <= k < i ==> #[trigger] rv[k] != (RegistrationView {
                        feed: feed@,
                        guid: guid@,
                    }),
            decreases self.registrations.len() - i,
        {
            let reg = &self.registrations[i];
            proof {
                assert(rv[i as int] == reg@);
            }
            if str_eq(reg.feed.as_str(), feed) && str_eq(reg.guid.as_str(), guid) {
                proof {
                    assert(rv[i as int] == (RegistrationView { feed: feed@, guid: guid@ }));
                }
                return true;
            }
            i += 1;
        }
        proof {
            assert(!self@.regs.contains((feed@, guid@)));
        }
        false
    }

    /// Records that the episode has been downloaded for the feed.
    pub fn register_episode(&mut self, feed: &str, guid: &str)
        ensures
            final(self)@.feeds == old(self)@.feeds,
            final(self)@.regs == old(self)@.regs.insert((feed@, guid@)),
    {
        let ghost pre = self@;
        let ghost prev = self.registrations.deep_view();
        self.registrations.push(Registration { feed: feed.to_owned(), guid: guid.to_owned() });
        proof {
            let rv = self.registrations.deep_view();
            assert(rv =~= prev.push(RegistrationView { feed: feed@, guid: guid@ }));
            assert(self@.feeds =~= pre.feeds);
            assert forall|p: (Seq<char>, Seq<char>)| #[trigger] self@.regs.contains(p) implies pre.regs.insert(
                (feed@, guid@),
            ).contains(p) by {
                let i = choose|i: int|
                    0 <= i < rv.len() && #[trigger] rv[i] == (RegistrationView {
                        feed: p.0,
                        guid: p.1,
                    });
                if i < prev.len() {
                    assert(prev[i] == rv[i]);
                    assert(pre.regs.contains(p));
                }
            }
            assert forall|p: (Seq<char>, Seq<char>)| pre.regs.insert((feed@, guid@)).contains(p)
                implies #[trigger] self@.regs.contains(p) by {
                if p == (feed@, guid@) {
                    assert(rv[prev.len() as int] == (RegistrationView { feed: p.0, guid: p.1 }));
                } else {
                    assert(pre.regs.contains(p));
                    let i = choose|i: int|
                        0 <= i < prev.len() && #[trigger] prev[i] == (RegistrationView {
                            feed: p.0,
                            guid: p.1,
                        });
                    assert(rv[i] == prev[i]);
                }
            }
            assert(self@.regs =~= pre.regs.insert((feed@, guid@)));
        }
    }

    /// The registration facts, one per recorded (feed name, episode id)
    /// pair; callers that persist the store read them here.
    pub fn get_registrations(&self) -> (r: Vec<Registration>)
        ensures
            forall|i: int|
                0 <= i < r.deep_view().len() ==> self@.regs.contains(
                    ((#[trigger] r.deep_view()[i]).feed, r.deep_view()[i].guid),
                ),
            forall|p: (Seq<char>, Seq<char>)|
                #[trigger] self@.regs.contains(p) ==> exists|i: int|
                    0 <= i < r.deep_view().len() && r.deep_view()[i] == (RegistrationView {
                        feed: p.0,
                        guid: p.1,
                    }),
    {
        let ghost rv = self.registrations.deep_view();
        let mut out: Vec<Registration> = Vec::new();
        let mut i: usize = 0;
        proof {
            assert(out.deep_view() =~= rv.take(0));
        }
        while i < self.registrations.len()
            invariant
                0 <= i <= self.registrations.len(),
                rv == self.registrations.deep_view(),
                rv.len() == self.registrations.len(),
                out.deep_view() == rv.take(i as int),
            decreases self.registrations.len() - i,
        {
            let ghost pre = out.deep_view();
            out.push(self.registrations[i].clone());
            proof {
                assert(out.deep_view() =~= pre.push(rv[i as int]));
                assert(out.deep_view() =~= rv.take(i as int + 1));
            }
            i += 1;
        }
        proof {
            assert(rv.take(i as int) =~= rv);
            assert forall|p: (Seq<char>, Seq<char>)| #[trigger] self@.regs.contains(p) implies exists|
                k: int,
            |
                0 <= k < out.deep_view().len() && out.deep_view()[k] == (RegistrationView {
                    feed: p.0,
                    guid: p.1,
                }) by {
                let k = choose|k: int|
                    0 <= k < rv.len() && #[trigger] rv[k] == (RegistrationView {
                        feed: p.0,
                        guid: p.1,
                    });
                assert(out.deep_view()[k] == rv[k]);
            }
        }
        out
    }

    /// Forgets the feed's fetch progress: deletes all its registrations and
    /// clears its watermark.
    pub fn reset_register(&mut self, feed: &str) -> (r: Result<(), StoreError>)
        requires
            feeds_wf(old(self)@.feeds),
        ensures
            feeds_wf(final(self)@.feeds),
            match r {
                Ok(()) => find_feed(old(self)@.feeds, feed@) matches Some(f) && final(self)@.feeds
                    == replace_feed(
                    old(self)@.feeds,
                    feed@,
                    FeedView { name: f.name, uri: f.uri, backlog: f.backlog, fetch_since: None },
                ) && final(self)@.regs == old(self)@.regs.filter(
                    |p: (Seq<char>, Seq<char>)| p.0 != feed@,
                ),
                Err(e) => e == StoreError::NoSuchFeed && find_feed(old(self)@.feeds, feed@) is None
                    && final(self)@.feeds == old(self)@.feeds && final(self)@.regs == old(
                    self,
                )@.regs,
            },
    {
        match self.find_index(feed) {
            Some(i) => {
                proof {
                    lemma_find_feed_at(self@.feeds, feed@, i as int);
                }
                let cur = &self.feeds[i];
                let f = Feed {
                    name: cur.name.clone(),
                    uri: cur.uri.clone(),
                    backlog: cur.backlog,
                    fetch_since: None,
                };
                self.replace_at(i, f);
                self.drop_registrations_of(feed);
                Ok(())
            },
            None => {
                proof {
                    lemma_find_feed_none(self@.feeds, feed@);
                }
                Err(StoreError::NoSuchFeed)
            },
        }
    }

    /// Deletes every registration of the feed.
    fn drop_registrations_of(&mut self, feed: &str)
        ensures
            final(self)@.feeds == old(self)@.feeds,
            final(self)@.regs == old(self)@.regs.filter(|p: (Seq<char>, Seq<char>)| p.0 != feed@),
    {
        let ghost pre = self@;
        let ghost prev = self.registrations.deep_view();
        let mut kept: Vec<Registration> = Vec::new();
        let mut i: usize = 0;
        let ghost keep = |r: RegistrationView| r.feed != feed@;
        proof {
            assert(kept.deep_view() =~= prev.take(0).filter(keep));
        }
        while i < self.registrations.len()
            invariant
                0 <= i <= self.registrations.len(),
                prev == self.registrations.deep_view(),
                prev.len() == self.registrations.len(),
                kept.deep_view() == prev.take(i as int).filter(keep),
                keep == (|r: RegistrationView| r.feed != feed@),
            decreases self.registrations.len() - i,
        {
            let reg = &self.registrations[i];
            proof {
                assert(prev[i as int] == reg@);
            }
            let ghost prekept = kept.deep_view();
            if !str_eq(reg.feed.as_str(), feed) {
                kept.push(reg.clone());
                proof {
                    assert(kept.deep_view() =~= prekept.push(prev[i as int]));
                }
            }
            proof {
                reveal(Seq::filter);
                assert(prev.take(i as int + 1).drop_last() =~= prev.take(i as int));
                assert(prev.take(i as int + 1).last() == prev[i as int]);
                assert(kept.deep_view() =~= prev.take(i as int + 1).filter(keep));
            }
            i += 1;
        }
        proof {
            assert(prev.take(i as int) =~= prev);
        }
        self.registrations = kept;
        proof {
            let rv = self.registrations.deep_view();
            assert(rv == prev.filter(keep));
            broadcast use vstd::seq_lib::group_filter_ensures;

            assert forall|p: (Seq<char>, Seq<char>)| #[trigger] self@.regs.contains(p) implies pre.regs.filter(
                |q: (Seq<char>, Seq<char>)| q.0 != feed@,
            ).contains(p) by {
                let i = choose|i: int|
                    0 <= i < rv.len() && #[trigger] rv[i] == (RegistrationView {
                        feed: p.0,
                        guid: p.1,
                    });
                assert(keep(rv[i]));
                assert(prev.filter(keep).contains(rv[i]));
                prev.lemma_filter_contains_rev(keep, rv[i]);
                assert(prev.contains(rv[i]));
                let k = choose|k: int| 0 <= k < prev.len() && prev[k] == rv[i];
                assert(pre.regs.contains(p));
            }
            assert forall|p: (Seq<char>, Seq<char>)|
                pre.regs.filter(|q: (Seq<char>, Seq<char>)| q.0 != feed@).contains(p) implies #[trigger] self@.regs.contains(
                p,
            ) by {
                let k = choose|k: int|
                    0 <= k < prev.len() && #[trigger] prev[k] == (RegistrationView {
                        feed: p.0,
                        guid: p.1,
                    });
                assert(keep(prev[k]));
                prev.lemma_filter_contains(keep, k);
                assert(rv.contains(prev[k]));
                let m = choose|m: int| 0 <= m < rv.len() && rv[m] == prev[k];
            }
            assert(self@.regs =~= pre.regs.filter(|q: (Seq<char>, Seq<char>)| q.0 != feed@));
        }
    }
}


/// Applies one modification command to the named feed: sets its link or
/// its backlog size.
pub fn apply_modification(registry: &mut Registry, feed: &str, how: &Modification) -> (r: Result<
    (),
    StoreError,
>)
    requires
        feeds_wf(old(registry)@.feeds),
        *how matches Modification::Backlog { n } ==> n >= 1,
    ensures
        feeds_wf(final(registry)@.feeds),
        final(registry)@.regs == old(registry)@.regs,
        match r {
            Ok(()) => find_feed(old(registry)@.feeds, feed@) matches Some(f)
                && final(registry)@.feeds == replace_feed(
                old(registry)@.feeds,
                feed@,
                match *how {
                    Modification::Link { link } => FeedView {
                        name: f.name,
                        uri: link@,
                        backlog: f.backlog,
                        fetch_since: f.fetch_since,
                    },
                    Modification::Backlog { n } => FeedView {
                        name: f.name,
                        uri: f.uri,
                        backlog: n as int,
                        fetch_since: f.fetch_since,
                    },
                },
            ),
            Err(e) => e == StoreError::NoSuchFeed && find_feed(old(registry)@.feeds, feed@) is None
                && final(registry)@.feeds == old(registry)@.feeds,
        },
{
    match how {
        Modification::Link { link } => registry.set_link(feed, link.as_str()),
        Modification::Backlog { n } => registry.set_backlog(feed, *n),
    }
}

} // verus!
