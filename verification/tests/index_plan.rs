use podchamp::document::{Entry, FeedDocument, Media};
use podchamp::index::build_index;
use podchamp::models::Feed;
use podchamp::plan::plan_fetch;

fn audio(url: &str) -> Media {
    Media { mime_type: Some("audio".to_string()), url: Some(url.to_string()) }
}

fn entry(id: &str, published: Option<i64>, media: Vec<Media>) -> Entry {
    Entry { id: id.to_string(), title: Some(format!("title of {}", id)), published, media }
}

fn feed(backlog: u32, fetch_since: Option<i64>) -> Feed {
    Feed {
        name: "pod".to_string(),
        uri: "http://example.test/feed".to_string(),
        backlog,
        fetch_since,
    }
}

#[test]
fn index_keeps_only_dated_audio_entries_before_now() {
    let doc = FeedDocument {
        entries: vec![
            entry("undated", None, vec![audio("http://a/1.mp3")]),
            entry("no-media", Some(10), vec![]),
            entry(
                "video-only",
                Some(10),
                vec![Media {
                    mime_type: Some("video".to_string()),
                    url: Some("http://a/v.mp4".to_string()),
                }],
            ),
            entry("future", Some(100), vec![audio("http://a/f.mp3")]),
            entry("now-exactly", Some(50), vec![audio("http://a/n.mp3")]),
            entry("good", Some(10), vec![audio("http://a/g.mp3")]),
        ],
    };
    let index = build_index(&doc, 50);
    assert_eq!(index.len(), 1);
    assert_eq!(index[0].id, "good");
    assert_eq!(index[0].url, "http://a/g.mp3");
    assert_eq!(index[0].when, 10);
}

#[test]
fn index_takes_first_audio_media_with_url() {
    let doc = FeedDocument {
        entries: vec![entry(
            "e",
            Some(1),
            vec![
                Media {
                    mime_type: Some("video".to_string()),
                    url: Some("http://a/v.mp4".to_string()),
                },
                Media { mime_type: Some("audio".to_string()), url: None },
                Media { mime_type: None, url: Some("http://a/bare".to_string()) },
                audio("http://a/first.mp3"),
                audio("http://a/second.mp3"),
            ],
        )],
    };
    let index = build_index(&doc, 50);
    assert_eq!(index.len(), 1);
    assert_eq!(index[0].url, "http://a/first.mp3");
}

#[test]
fn index_sorts_newest_first() {
    let doc = FeedDocument {
        entries: vec![
            entry("mid", Some(8), vec![audio("http://a/mid.mp3")]),
            entry("old", Some(5), vec![audio("http://a/old.mp3")]),
            entry("new", Some(10), vec![audio("http://a/new.mp3")]),
        ],
    };
    let index = build_index(&doc, 50);
    let ids: Vec<&str> = index.iter().map(|e| e.id.as_str()).collect();
    assert_eq!(ids, vec!["new", "mid", "old"]);
    for pair in index.windows(2) {
        assert!(pair[0].when >= pair[1].when);
    }
}

#[test]
fn index_keeps_document_order_for_equal_timestamps() {
    let doc = FeedDocument {
        entries: vec![
            entry("first", Some(7), vec![audio("http://a/1.mp3")]),
            entry("second", Some(7), vec![audio("http://a/2.mp3")]),
            entry("newer", Some(9), vec![audio("http://a/3.mp3")]),
        ],
    };
    let index = build_index(&doc, 50);
    let ids: Vec<&str> = index.iter().map(|e| e.id.as_str()).collect();
    assert_eq!(ids, vec!["newer", "first", "second"]);
}

#[test]
fn index_empty_when_nothing_qualifies() {
    let doc = FeedDocument { entries: vec![entry("undated", None, vec![audio("http://a/x.mp3")])] };
    let index = build_index(&doc, 50);
    assert!(index.is_empty());
}

fn three_episode_index() -> podchamp::index::FeedIndex {
    let doc = FeedDocument {
        entries: vec![
            entry("e1", Some(10), vec![audio("http://a/e1.mp3")]),
            entry("e2", Some(8), vec![audio("http://a/e2.mp3")]),
            entry("e3", Some(5), vec![audio("http://a/e3.mp3")]),
        ],
    };
    build_index(&doc, 50)
}

#[test]
fn plan_example_backlog_two_no_watermark() {
    let index = three_episode_index();
    let plan = plan_fetch(&feed(2, None), &index);
    assert_eq!(plan.threshold, 8);
    assert_eq!(plan.set_fetch_since, Some(8));
    let ids: Vec<&str> = plan.episodes.iter().map(|e| e.id.as_str()).collect();
    assert_eq!(ids, vec!["e1", "e2"]);
}

#[test]
fn plan_mature_feed_keeps_watermark() {
    let index = three_episode_index();
    // backlog 1: boundary date is 10; the watermark 8 is no later, so the
    // feed is mature and fetching stays incremental from 8
    let plan = plan_fetch(&feed(1, Some(8)), &index);
    assert_eq!(plan.threshold, 8);
    assert_eq!(plan.set_fetch_since, None);
    let ids: Vec<&str> = plan.episodes.iter().map(|e| e.id.as_str()).collect();
    assert_eq!(ids, vec!["e1", "e2"]);
}

#[test]
fn plan_widens_when_backlog_passes_watermark() {
    let index = three_episode_index();
    // watermark 10 (the newest episode), backlog raised to 3: the boundary
    // date 5 precedes the watermark, so the window widens back to it
    let plan = plan_fetch(&feed(3, Some(10)), &index);
    assert_eq!(plan.threshold, 5);
    assert_eq!(plan.set_fetch_since, Some(5));
    assert_eq!(plan.episodes.len(), 3);
}

#[test]
fn plan_clamps_oversized_backlog() {
    let index = three_episode_index();
    let plan = plan_fetch(&feed(99, None), &index);
    assert_eq!(plan.threshold, 5);
    assert_eq!(plan.set_fetch_since, Some(5));
    assert_eq!(plan.episodes.len(), 3);
}

#[test]
fn plan_clamps_zero_backlog_to_one() {
    let index = three_episode_index();
    let plan = plan_fetch(&feed(0, None), &index);
    assert_eq!(plan.threshold, 10);
    assert_eq!(plan.set_fetch_since, Some(10));
    let ids: Vec<&str> = plan.episodes.iter().map(|e| e.id.as_str()).collect();
    assert_eq!(ids, vec!["e1"]);
}

#[test]
fn plan_includes_episodes_tied_with_threshold() {
    let doc = FeedDocument {
        entries: vec![
            entry("a", Some(9), vec![audio("http://a/a.mp3")]),
            entry("b", Some(8), vec![audio("http://a/b.mp3")]),
            entry("c", Some(8), vec![audio("http://a/c.mp3")]),
            entry("d", Some(3), vec![audio("http://a/d.mp3")]),
        ],
    };
    let index = build_index(&doc, 50);
    let plan = plan_fetch(&feed(2, None), &index);
    // the boundary date 8 is shared by two episodes; both are selected
    assert_eq!(plan.threshold, 8);
    assert_eq!(plan.episodes.len(), 3);
}
