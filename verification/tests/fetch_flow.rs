use podchamp::document::{Entry, FeedDocument, Media};
use podchamp::orchestrator::{run_fetch, start_feed, FeedError, FetchOutcome};
use podchamp::registry::{GetFeeds, Registry};

fn audio(url: &str) -> Media {
    Media { mime_type: Some("audio".to_string()), url: Some(url.to_string()) }
}

fn entry(id: &str, published: i64) -> Entry {
    Entry {
        id: id.to_string(),
        title: None,
        published: Some(published),
        media: vec![audio(&format!("http://a/{}.mp3", id))],
    }
}

fn doc(entries: Vec<Entry>) -> FeedDocument {
    FeedDocument { entries }
}

fn registry_with(name: &str, backlog: u32) -> Registry {
    let mut registry = Registry::new();
    registry.add_feed(name, "http://example.test/feed", Some(backlog)).unwrap();
    registry
}

fn fetch_since_of(registry: &Registry, name: &str) -> Option<i64> {
    let feeds = registry.get_feeds(GetFeeds::One(name));
    assert_eq!(feeds.len(), 1);
    feeds[0].fetch_since
}

#[test]
fn second_run_downloads_nothing() {
    let mut registry = registry_with("pod", 2);
    let inputs = vec![(
        "pod".to_string(),
        FetchOutcome::Document(doc(vec![entry("e1", 10), entry("e2", 8), entry("e3", 5)])),
    )];

    let first = run_fetch(&inputs, 50, &mut registry);
    assert!(first.errors.is_empty());
    assert_eq!(first.fetched, 2);
    assert_eq!(fetch_since_of(&registry, "pod"), Some(8));

    let second = run_fetch(&inputs, 50, &mut registry);
    assert!(second.errors.is_empty());
    assert_eq!(second.fetched, 0);
    assert_eq!(fetch_since_of(&registry, "pod"), Some(8));
}

#[test]
fn failed_feed_never_blocks_the_others() {
    let mut registry = Registry::new();
    registry.add_feed("a", "http://example.test/a", Some(1)).unwrap();
    registry.add_feed("b", "http://example.test/b", Some(2)).unwrap();
    let inputs = vec![
        ("a".to_string(), FetchOutcome::Transport),
        (
            "b".to_string(),
            FetchOutcome::Document(doc(vec![entry("b1", 10), entry("b2", 8)])),
        ),
    ];

    let report = run_fetch(&inputs, 50, &mut registry);
    assert_eq!(report.errors.len(), 1);
    assert_eq!(report.errors[0].0, "a");
    assert_eq!(report.errors[0].1, FeedError::Transport);
    assert_eq!(report.fetched, 2);
    assert!(registry.is_episode_registered("b", "b1"));
    assert!(registry.is_episode_registered("b", "b2"));
    assert!(!registry.is_episode_registered("a", "b1"));
}

#[test]
fn empty_index_is_a_feed_error() {
    let mut registry = registry_with("pod", 1);
    let inputs = vec![(
        "pod".to_string(),
        FetchOutcome::Document(doc(vec![Entry {
            id: "undated".to_string(),
            title: None,
            published: None,
            media: vec![audio("http://a/x.mp3")],
        }])),
    )];
    let report = run_fetch(&inputs, 50, &mut registry);
    assert_eq!(report.fetched, 0);
    assert_eq!(report.errors.len(), 1);
    assert_eq!(report.errors[0].1, FeedError::NoEpisodes);
}

#[test]
fn parse_failure_is_a_feed_error() {
    let mut registry = registry_with("pod", 1);
    let inputs = vec![("pod".to_string(), FetchOutcome::Parse)];
    let report = run_fetch(&inputs, 50, &mut registry);
    assert_eq!(report.errors.len(), 1);
    assert_eq!(report.errors[0].1, FeedError::Parse);
}

#[test]
fn unknown_feed_is_a_feed_error() {
    let mut registry = Registry::new();
    let inputs = vec![("ghostly".to_string(), FetchOutcome::Document(doc(vec![entry("e", 1)])))];
    let report = run_fetch(&inputs, 50, &mut registry);
    assert_eq!(report.errors.len(), 1);
    assert_eq!(report.errors[0].0, "ghostly");
    assert_eq!(report.errors[0].1, FeedError::UnknownFeed);
}

#[test]
fn already_registered_episodes_are_skipped() {
    let mut registry = registry_with("pod", 3);
    registry.register_episode("pod", "e2");
    let inputs = vec![(
        "pod".to_string(),
        FetchOutcome::Document(doc(vec![entry("e1", 10), entry("e2", 8), entry("e3", 5)])),
    )];
    let report = run_fetch(&inputs, 50, &mut registry);
    assert_eq!(report.fetched, 2);
    let ids: Vec<&str> = report.downloads.iter().map(|d| d.episode.id.as_str()).collect();
    assert_eq!(ids, vec!["e1", "e3"]);
}

#[test]
fn repeated_id_is_downloaded_once() {
    let mut registry = registry_with("pod", 5);
    let inputs = vec![(
        "pod".to_string(),
        FetchOutcome::Document(doc(vec![entry("dup", 10), entry("dup", 8)])),
    )];
    let report = run_fetch(&inputs, 50, &mut registry);
    assert_eq!(report.fetched, 1);
    assert_eq!(report.downloads[0].episode.when, 10);
}

#[test]
fn widened_backlog_fetches_older_undownloaded_episodes() {
    // a feed caught up under backlog 1: the newest episode is downloaded
    // and the watermark sits at its timestamp
    let mut registry = registry_with("pod", 1);
    let feed_doc = doc(vec![entry("e1", 10), entry("e2", 8), entry("e3", 5)]);
    let inputs = vec![("pod".to_string(), FetchOutcome::Document(feed_doc))];
    let report = run_fetch(&inputs, 50, &mut registry);
    assert_eq!(report.fetched, 1);
    assert_eq!(fetch_since_of(&registry, "pod"), Some(10));

    // the backlog grows to 3: the next run widens the window back to the
    // third-newest boundary date and fetches the two missing episodes
    registry.set_backlog("pod", 3).unwrap();
    let feed_doc = doc(vec![entry("e1", 10), entry("e2", 8), entry("e3", 5)]);
    let inputs = vec![("pod".to_string(), FetchOutcome::Document(feed_doc))];
    let report = run_fetch(&inputs, 50, &mut registry);
    assert_eq!(report.fetched, 2);
    let ids: Vec<&str> = report.downloads.iter().map(|d| d.episode.id.as_str()).collect();
    assert_eq!(ids, vec!["e2", "e3"]);
    assert_eq!(fetch_since_of(&registry, "pod"), Some(5));
}

#[test]
fn download_failure_stops_older_episodes_of_that_feed() {
    let mut registry = registry_with("pod", 3);
    let outcome =
        FetchOutcome::Document(doc(vec![entry("e1", 10), entry("e2", 8), entry("e3", 5)]));
    let mut run = start_feed("pod", &outcome, 50, &mut registry).unwrap();

    // the watermark is persisted before any download happens
    assert_eq!(fetch_since_of(&registry, "pod"), Some(5));

    let first = run.next_request(&registry).unwrap();
    assert_eq!(first.episode.id, "e1");
    run.record_success(&mut registry);

    let second = run.next_request(&registry).unwrap();
    assert_eq!(second.episode.id, "e2");
    run.record_failure();

    // the failed feed hands out no further work this run
    assert!(run.next_request(&registry).is_none());
    assert_eq!(run.fetched, 1);
    assert!(registry.is_episode_registered("pod", "e1"));
    assert!(!registry.is_episode_registered("pod", "e2"));
    assert!(!registry.is_episode_registered("pod", "e3"));
}

#[test]
fn transport_failure_leaves_store_untouched() {
    let mut registry = registry_with("pod", 1);
    let inputs = vec![("pod".to_string(), FetchOutcome::Transport)];
    let report = run_fetch(&inputs, 50, &mut registry);
    assert_eq!(report.fetched, 0);
    assert_eq!(report.errors[0].1, FeedError::Transport);
    assert_eq!(fetch_since_of(&registry, "pod"), None);
}
