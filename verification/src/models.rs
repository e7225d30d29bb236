//! Persisted records: feed configurations and download registrations.
//!
//! Timestamps throughout the crate are integers counting seconds since the
//! Unix epoch; comparing two of them compares the instants they denote.

use vstd::prelude::*;

verus! {

/// A subscribed feed's persisted configuration: its unique name, the source
/// URI, how many most-recent episodes to keep caught up to (`backlog`), and
/// the watermark timestamp of the oldest episode already considered fetched
/// (`fetch_since`), if one has been established.
pub struct Feed {
    pub name: String,
    pub uri: String,
    pub backlog: u32,
    pub fetch_since: Option<i64>,
}

/// The mathematical value of a [`Feed`].
pub ghost struct FeedView {
    pub name: Seq<char>,
    pub uri: Seq<char>,
    pub backlog: int,
    pub fetch_since: Option<int>,
}

impl View for Feed {
    type V = FeedView;

    open spec fn view(&self) -> FeedView {
        FeedView {
            name: self.name@,
            uri: self.uri@,
            backlog: self.backlog as int,
            fetch_since: match self.fetch_since {
                Some(t) => Some(t as int),
                None => None,
            },
        }
    }
}

impl DeepView for Feed {
    type V = FeedView;

    open spec fn deep_view(&self) -> FeedView {
        self.view()
    }
}

impl Clone for Feed {
    fn clone(&self) -> (r: Self)
        ensures
            r == *self,
    {
        Feed {
            name: self.name.clone(),
            uri: self.uri.clone(),
            backlog: self.backlog,
            fetch_since: self.fetch_since,
        }
    }
}

/// A persisted fact: the episode with identifier `guid` has already been
/// downloaded for the feed named `feed`.
pub struct Registration {
    pub feed: String,
    pub guid: String,
}

/// The mathematical value of a [`Registration`]: the (feed name, episode id)
/// pair it records.
pub ghost struct RegistrationView {
    pub feed: Seq<char>,
    pub guid: Seq<char>,
}

impl View for Registration {
    type V = RegistrationView;

    open spec fn view(&self) -> RegistrationView {
        RegistrationView { feed: self.feed@, guid: self.guid@ }
    }
}

impl DeepView for Registration {
    type V = RegistrationView;

    open spec fn deep_view(&self) -> RegistrationView {
        self.view()
    }
}

impl Clone for Registration {
    fn clone(&self) -> (r: Self)
        ensures
            r == *self,
    {
        Registration { feed: self.feed.clone(), guid: self.guid.clone() }
    }
}

/// String-slice equality, decided by comparing owned copies.
pub fn str_eq(a: &str, b: &str) -> (r: bool)
    ensures
        r == (a@ == b@),
{
    let x = a.to_owned();
    let y = b.to_owned();
    x == y
}

} // verus!
