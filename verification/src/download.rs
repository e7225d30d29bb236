//! Construction of a downloader invocation: the configured external command
//! receives the episode's audio URL as its sole argument and a fixed set of
//! environment bindings describing the feed and the episode.

use vstd::prelude::*;
use core::fmt::Write;

use crate::index::{Episode, EpisodeView};

verus! {

/// What chrono renders for a UTC timestamp under a strftime-style pattern.
pub uninterp spec fn timestamp_format(when: int, fmt: Seq<char>) -> Seq<char>;

/// Whether chrono can render a UTC timestamp under a strftime-style
/// pattern: the timestamp is within chrono's date range and the pattern
/// holds no invalid specifier.
pub uninterp spec fn timestamp_renderable(when: int, fmt: Seq<char>) -> bool;

/// Relies on chrono's `DateTime::<Utc>::from_timestamp` and
/// `DateTime::format`: renders the UTC instant `when` seconds after the Unix
/// epoch per the strftime-style pattern `fmt`. Both the rendering and
/// whether it succeeds are functions of the timestamp and the pattern
/// alone; the call yields `None` exactly when chrono cannot render
/// (timestamp out of range, or invalid pattern).
#[verifier::external_body]
fn chrono_format_timestamp(when: i64, fmt: &str) -> (r: Option<String>)
    ensures
        r matches Some(s) ==> s@ == timestamp_format(when as int, fmt@),
        r is Some <==> timestamp_renderable(when as int, fmt@),
{
    let dt = chrono::DateTime::<chrono::Utc>::from_timestamp(when, 0)?;
    let mut out = String::new();
    match write!(out, "{}", dt.format(fmt)) {
        Ok(()) => Some(out),
        Err(_) => None,
    }
}

/// One pending downloader invocation: the feed it belongs to and the
/// episode to download.
pub struct DownloadRequest {
    pub feed_name: String,
    pub episode: Episode,
}

impl View for DownloadRequest {
    type V = (Seq<char>, EpisodeView);

    open spec fn view(&self) -> (Seq<char>, EpisodeView) {
        (self.feed_name@, self.episode@)
    }
}

impl DeepView for DownloadRequest {
    type V = (Seq<char>, EpisodeView);

    open spec fn deep_view(&self) -> (Seq<char>, EpisodeView) {
        self.view()
    }
}

impl Clone for DownloadRequest {
    fn clone(&self) -> (r: Self)
        ensures
            r == *self,
    {
        DownloadRequest { feed_name: self.feed_name.clone(), episode: self.episode.clone() }
    }
}

/// The environment bindings of a downloader invocation, given the feed
/// name, the already-rendered publish date, and the optional episode
/// title: the feed name and date always, the title only when the episode
/// has one.
pub open spec fn spec_download_env(
    feed: Seq<char>,
    date: Seq<char>,
    title: Option<Seq<char>>,
) -> Seq<(Seq<char>, Seq<char>)> {
    let base = seq![("PODCHAMP_FEED"@, feed), ("PODCHAMP_DATE"@, date)];
    match title {
        Some(t) => base.push(("PODCHAMP_TITLE"@, t)),
        None => base,
    }
}

/// Builds the environment bindings of a downloader invocation from the feed
/// name, the already-rendered publish date, and the optional episode title.
pub fn download_env_with_date(feed_name: &str, date: &str, title: &Option<String>) -> (r: Vec<
    (String, String),
>)
    ensures
        r.deep_view() == spec_download_env(feed_name@, date@, title.deep_view()),
{
    let mut env: Vec<(String, String)> = Vec::new();
    env.push(("PODCHAMP_FEED".to_owned(), feed_name.to_owned()));
    env.push(("PODCHAMP_DATE".to_owned(), date.to_owned()));
    match title {
        Some(t) => {
            env.push(("PODCHAMP_TITLE".to_owned(), t.clone()));
            proof {
                assert(env.deep_view() =~= spec_download_env(feed_name@, date@, title.deep_view()));
            }
        },
        None => {
            proof {
                assert(env.deep_view() =~= spec_download_env(feed_name@, date@, title.deep_view()));
            }
        },
    }
    env
}

/// Builds the full environment of a downloader invocation for a request,
/// rendering the episode's publish date per the strftime-style pattern;
/// `None` exactly when the date cannot be rendered under that pattern.
pub fn download_env(req: &DownloadRequest, date_format: &str) -> (r: Option<Vec<(String, String)>>)
    ensures
        r matches Some(env) ==> env.deep_view() == spec_download_env(
            req.feed_name@,
            timestamp_format(req.episode@.when, date_format@),
            req.episode@.meta.title,
        ),
        r is Some <==> timestamp_renderable(req.episode@.when, date_format@),
{
    match chrono_format_timestamp(req.episode.when, date_format) {
        Some(date) => Some(
            download_env_with_date(req.feed_name.as_str(), date.as_str(), &req.episode.meta.title),
        ),
        None => None,
    }
}

} // verus!
