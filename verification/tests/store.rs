use podchamp::options::{DatabasePath, Modification, RuntimeDirPath};
use podchamp::registry::{apply_modification, GetFeeds, Registry, StoreError};

#[test]
fn added_feeds_are_listed_in_order() {
    let mut registry = Registry::new();
    registry.add_feed("alpha", "http://example.test/a", None).unwrap();
    registry.add_feed("beta", "http://example.test/b", Some(4)).unwrap();
    let feeds = registry.get_feeds(GetFeeds::All);
    assert_eq!(feeds.len(), 2);
    assert_eq!(feeds[0].name, "alpha");
    assert_eq!(feeds[0].uri, "http://example.test/a");
    assert_eq!(feeds[0].backlog, 1);
    assert_eq!(feeds[0].fetch_since, None);
    assert_eq!(feeds[1].name, "beta");
    assert_eq!(feeds[1].backlog, 4);
}

#[test]
fn adding_an_existing_name_is_refused() {
    let mut registry = Registry::new();
    registry.add_feed("pod", "http://example.test/1", None).unwrap();
    let err = registry.add_feed("pod", "http://example.test/2", None).unwrap_err();
    assert_eq!(err, StoreError::DuplicateFeed);
    let feeds = registry.get_feeds(GetFeeds::All);
    assert_eq!(feeds.len(), 1);
    assert_eq!(feeds[0].uri, "http://example.test/1");
}

#[test]
fn one_feed_lookup_finds_only_that_feed() {
    let mut registry = Registry::new();
    registry.add_feed("alpha", "http://example.test/a", None).unwrap();
    registry.add_feed("beta", "http://example.test/b", None).unwrap();
    let found = registry.get_feeds(GetFeeds::One("beta"));
    assert_eq!(found.len(), 1);
    assert_eq!(found[0].name, "beta");
    assert!(registry.get_feeds(GetFeeds::One("gamma")).is_empty());
}

#[test]
fn removing_a_feed_forgets_it() {
    let mut registry = Registry::new();
    registry.add_feed("pod", "http://example.test/feed", None).unwrap();
    registry.remove_feed("pod").unwrap();
    assert!(registry.get_feeds(GetFeeds::All).is_empty());
    let err = registry.remove_feed("pod").unwrap_err();
    assert_eq!(err, StoreError::NoSuchFeed);
}

#[test]
fn modification_sets_link_and_backlog() {
    let mut registry = Registry::new();
    registry.add_feed("pod", "http://example.test/old", None).unwrap();
    apply_modification(
        &mut registry,
        "pod",
        &Modification::Link { link: "http://example.test/new".to_string() },
    )
    .unwrap();
    apply_modification(&mut registry, "pod", &Modification::Backlog { n: 7 }).unwrap();
    let feeds = registry.get_feeds(GetFeeds::All);
    assert_eq!(feeds[0].uri, "http://example.test/new");
    assert_eq!(feeds[0].backlog, 7);

    let err = apply_modification(&mut registry, "nope", &Modification::Backlog { n: 2 }).unwrap_err();
    assert_eq!(err, StoreError::NoSuchFeed);
}

#[test]
fn registration_is_per_feed_and_episode() {
    let mut registry = Registry::new();
    registry.add_feed("a", "http://example.test/a", None).unwrap();
    registry.add_feed("b", "http://example.test/b", None).unwrap();
    registry.register_episode("a", "e1");
    assert!(registry.is_episode_registered("a", "e1"));
    assert!(!registry.is_episode_registered("a", "e2"));
    assert!(!registry.is_episode_registered("b", "e1"));
}

#[test]
fn reset_forgets_progress_of_one_feed_only() {
    let mut registry = Registry::new();
    registry.add_feed("a", "http://example.test/a", None).unwrap();
    registry.add_feed("b", "http://example.test/b", None).unwrap();
    registry.register_episode("a", "e1");
    registry.register_episode("a", "e2");
    registry.register_episode("b", "e1");
    registry.set_fetch_since("a", 42).unwrap();
    registry.set_fetch_since("b", 43).unwrap();

    registry.reset_register("a").unwrap();

    assert!(!registry.is_episode_registered("a", "e1"));
    assert!(!registry.is_episode_registered("a", "e2"));
    assert!(registry.is_episode_registered("b", "e1"));
    let feeds = registry.get_feeds(GetFeeds::All);
    assert_eq!(feeds[0].fetch_since, None);
    assert_eq!(feeds[1].fetch_since, Some(43));

    let err = registry.reset_register("ghost").unwrap_err();
    assert_eq!(err, StoreError::NoSuchFeed);
}

#[test]
fn path_newtypes_carry_their_strings() {
    let db = DatabasePath("/var/lib/podchamp/podchamp.sqlite".to_string());
    assert_eq!(db.as_str(), "/var/lib/podchamp/podchamp.sqlite");
    let rt = RuntimeDirPath("/run/podchamp".to_string());
    assert_eq!(rt.as_str(), "/run/podchamp");
}
