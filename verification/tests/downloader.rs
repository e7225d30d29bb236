use podchamp::download::{download_env, download_env_with_date, DownloadRequest};
use podchamp::index::{Episode, EpisodeMeta};

fn request(when: i64, title: Option<&str>) -> DownloadRequest {
    DownloadRequest {
        feed_name: "pod".to_string(),
        episode: Episode {
            meta: EpisodeMeta { title: title.map(|t| t.to_string()) },
            id: "e1".to_string(),
            url: "http://a/e1.mp3".to_string(),
            when,
        },
    }
}

fn env_value<'a>(env: &'a [(String, String)], key: &str) -> Option<&'a str> {
    env.iter().find(|(k, _)| k == key).map(|(_, v)| v.as_str())
}

#[test]
fn env_holds_feed_date_and_title() {
    let env = download_env_with_date("pod", "2021-01-02", &Some("An Episode".to_string()));
    assert_eq!(env.len(), 3);
    assert_eq!(env[0], ("PODCHAMP_FEED".to_string(), "pod".to_string()));
    assert_eq!(env[1], ("PODCHAMP_DATE".to_string(), "2021-01-02".to_string()));
    assert_eq!(env[2], ("PODCHAMP_TITLE".to_string(), "An Episode".to_string()));
}

#[test]
fn env_omits_missing_title() {
    let env = download_env_with_date("pod", "2021-01-02", &None);
    assert_eq!(env.len(), 2);
    assert!(env_value(&env, "PODCHAMP_TITLE").is_none());
}

#[test]
fn date_renders_per_default_pattern() {
    let env = download_env(&request(0, None), "%F").unwrap();
    assert_eq!(env_value(&env, "PODCHAMP_DATE"), Some("1970-01-01"));

    let env = download_env(&request(1431648000, Some("t")), "%F").unwrap();
    assert_eq!(env_value(&env, "PODCHAMP_DATE"), Some("2015-05-15"));
    assert_eq!(env_value(&env, "PODCHAMP_TITLE"), Some("t"));
}

#[test]
fn date_renders_per_custom_pattern() {
    let env = download_env(&request(1431648000, None), "%Y/%m/%d %H:%M").unwrap();
    assert_eq!(env_value(&env, "PODCHAMP_DATE"), Some("2015/05/15 00:00"));
}

#[test]
fn invalid_pattern_yields_no_invocation() {
    assert!(download_env(&request(0, None), "%!").is_none());
}
