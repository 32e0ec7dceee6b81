use release_watch::codec::{parse_cache_text, render_cache_text};
use release_watch::cycle::{observe_body, run_cycle};
use release_watch::fetch::{release_result, release_url, user_agent, FetchError, FetchParse};
use release_watch::notify::{notification_body, notification_icon, notification_summary};
use release_watch::tagmap::TagMap;

fn map_with(entries: &[(&str, &str)]) -> TagMap {
    let mut m = TagMap::new();
    for (k, v) in entries {
        m.upsert(&k.to_string(), &v.to_string());
    }
    m
}

fn obs(entries: &[(&str, Option<&str>)]) -> Vec<(String, Option<String>)> {
    entries
        .iter()
        .map(|(k, v)| (k.to_string(), v.map(|t| t.to_string())))
        .collect()
}

#[test]
fn new_map_is_empty() {
    let m = TagMap::new();
    assert_eq!(m.len(), 0);
    assert!(m.is_empty());
    assert_eq!(m.get(&"a/b".to_string()), None);
}

#[test]
fn upsert_inserts_and_replaces() {
    let mut m = TagMap::new();
    m.upsert(&"a/b".to_string(), &"v1.0".to_string());
    assert_eq!(m.len(), 1);
    assert_eq!(m.get(&"a/b".to_string()), Some(&"v1.0".to_string()));
    m.upsert(&"a/b".to_string(), &"v2.0".to_string());
    assert_eq!(m.len(), 1);
    assert_eq!(m.get(&"a/b".to_string()), Some(&"v2.0".to_string()));
}

#[test]
fn first_observation_seeds_cache_without_notification() {
    let mut cache = TagMap::new();
    let o = obs(&[("a/b", Some("v1.0"))]);
    let changes = run_cycle(&mut cache, &o);
    assert!(changes.is_empty());
    assert_eq!(cache.get(&"a/b".to_string()), Some(&"v1.0".to_string()));
}

#[test]
fn changed_tag_enters_change_set() {
    let mut cache = map_with(&[("a/b", "v1.0")]);
    let o = obs(&[("a/b", Some("v1.1"))]);
    let changes = run_cycle(&mut cache, &o);
    assert_eq!(changes.len(), 1);
    assert_eq!(changes.get(&"a/b".to_string()), Some(&"v1.1".to_string()));
    assert_eq!(cache.get(&"a/b".to_string()), Some(&"v1.1".to_string()));
}

#[test]
fn same_tag_makes_no_change() {
    let mut cache = map_with(&[("a/b", "v1.0")]);
    let o = obs(&[("a/b", Some("v1.0"))]);
    let changes = run_cycle(&mut cache, &o);
    assert!(changes.is_empty());
    assert_eq!(cache.get(&"a/b".to_string()), Some(&"v1.0".to_string()));
}

#[test]
fn absent_observation_leaves_cache_alone() {
    let mut cache = map_with(&[("a/b", "v1.0")]);
    let o = obs(&[("a/b", None), ("c/d", None)]);
    let changes = run_cycle(&mut cache, &o);
    assert!(changes.is_empty());
    assert_eq!(cache.len(), 1);
    assert_eq!(cache.get(&"a/b".to_string()), Some(&"v1.0".to_string()));
}

#[test]
fn cycle_twice_is_idempotent() {
    let mut cache = map_with(&[("a/b", "v1.0")]);
    let o = obs(&[("a/b", Some("v1.1")), ("c/d", Some("v2.0"))]);
    let first = run_cycle(&mut cache, &o);
    assert_eq!(first.len(), 1);
    let text_after_first = render_cache_text(&cache);
    let second = run_cycle(&mut cache, &o);
    assert!(second.is_empty());
    assert_eq!(render_cache_text(&cache), text_after_first);
}

#[test]
fn round_trip_save_load() {
    let cache = map_with(&[("a/b", "v1.0"), ("c/d", "v2.3"), ("e/f", "2024-01-01")]);
    let text = render_cache_text(&cache);
    let reloaded = parse_cache_text(&text);
    assert_eq!(reloaded.len(), 3);
    assert_eq!(reloaded.get(&"a/b".to_string()), Some(&"v1.0".to_string()));
    assert_eq!(reloaded.get(&"c/d".to_string()), Some(&"v2.3".to_string()));
    assert_eq!(reloaded.get(&"e/f".to_string()), Some(&"2024-01-01".to_string()));
}

#[test]
fn round_trip_with_escaped_characters() {
    let cache = map_with(&[("a\"b", "v\\1"), ("c\\\"d", "\\\\")]);
    let text = render_cache_text(&cache);
    let reloaded = parse_cache_text(&text);
    assert_eq!(reloaded.len(), 2);
    assert_eq!(reloaded.get(&"a\"b".to_string()), Some(&"v\\1".to_string()));
    assert_eq!(reloaded.get(&"c\\\"d".to_string()), Some(&"\\\\".to_string()));
}

#[test]
fn round_trip_empty_cache() {
    let cache = TagMap::new();
    let text = render_cache_text(&cache);
    assert_eq!(text, "{}");
    let reloaded = parse_cache_text(&text);
    assert!(reloaded.is_empty());
}

#[test]
fn render_cache_text_exact() {
    let cache = map_with(&[("a/b", "v1.0")]);
    assert_eq!(render_cache_text(&cache), "{\"a/b\":\"v1.0\"}");
    let two = map_with(&[("a/b", "v1.0"), ("c/d", "v2.0")]);
    assert_eq!(render_cache_text(&two), "{\"a/b\":\"v1.0\",\"c/d\":\"v2.0\"}");
}

#[test]
fn parse_cache_text_reads_object() {
    let cache = parse_cache_text("{\"a/b\":\"v1.0\",\"c/d\":\"v2.0\"}");
    assert_eq!(cache.len(), 2);
    assert_eq!(cache.get(&"a/b".to_string()), Some(&"v1.0".to_string()));
    assert_eq!(cache.get(&"c/d".to_string()), Some(&"v2.0".to_string()));
}

#[test]
fn malformed_cache_text_loads_empty() {
    assert!(parse_cache_text("").is_empty());
    assert!(parse_cache_text("hello").is_empty());
    assert!(parse_cache_text("{\"a/b\":\"v1.0\"").is_empty());
    assert!(parse_cache_text("[\"a/b\"]").is_empty());
    assert!(parse_cache_text("{\"a/b\":3}").is_empty());
    assert!(parse_cache_text("{}x").is_empty());
}

#[test]
fn notification_body_exact() {
    let changes = map_with(&[("a/b", "v1.1"), ("c/d", "v2.0")]);
    assert_eq!(notification_body(&changes), "a/b: v1.1\nc/d: v2.0\n");
    assert_eq!(notification_body(&TagMap::new()), "");
}

#[test]
fn notification_constants() {
    assert_eq!(notification_summary(), "New release");
    assert_eq!(notification_icon(), "librewolf");
}

#[test]
fn observe_body_with_new_tag_updates_cache_and_changes() {
    let mut cache = map_with(&[("a/b", "v1.0")]);
    let mut changes = TagMap::new();
    let r = observe_body(
        &mut cache,
        &mut changes,
        &"a/b".to_string(),
        "[{\"tag_name\":\"v1.1\"},{\"tag_name\":\"v1.0\"}]",
    );
    assert_eq!(r, FetchParse::Tag("v1.1".to_string()));
    assert_eq!(cache.get(&"a/b".to_string()), Some(&"v1.1".to_string()));
    assert_eq!(changes.get(&"a/b".to_string()), Some(&"v1.1".to_string()));
}

#[test]
fn observe_body_first_time_seeds_silently() {
    let mut cache = TagMap::new();
    let mut changes = TagMap::new();
    let r = observe_body(
        &mut cache,
        &mut changes,
        &"c/d".to_string(),
        "[{\"tag_name\":\"v1.0\"}]",
    );
    assert_eq!(r, FetchParse::Tag("v1.0".to_string()));
    assert_eq!(cache.get(&"c/d".to_string()), Some(&"v1.0".to_string()));
    assert!(changes.is_empty());
}

#[test]
fn observe_body_non_list_is_skipped() {
    let mut cache = map_with(&[("a/b", "v1.0")]);
    let mut changes = TagMap::new();
    let r = observe_body(
        &mut cache,
        &mut changes,
        &"a/b".to_string(),
        "{\"message\":\"Not Found\"}",
    );
    assert_eq!(r, FetchParse::NotList);
    assert_eq!(cache.get(&"a/b".to_string()), Some(&"v1.0".to_string()));
    assert!(changes.is_empty());
}

#[test]
fn observe_body_invalid_json_is_skipped() {
    let mut cache = map_with(&[("a/b", "v1.0")]);
    let mut changes = TagMap::new();
    let r = observe_body(&mut cache, &mut changes, &"a/b".to_string(), "<html>oops");
    assert_eq!(r, FetchParse::NotJson);
    assert_eq!(cache.get(&"a/b".to_string()), Some(&"v1.0".to_string()));
    assert!(changes.is_empty());
}

#[test]
fn observe_body_without_tag_is_skipped() {
    let mut cache = map_with(&[("a/b", "v1.0")]);
    let mut changes = TagMap::new();
    assert_eq!(
        observe_body(&mut cache, &mut changes, &"a/b".to_string(), "[]"),
        FetchParse::NoTag
    );
    assert_eq!(
        observe_body(&mut cache, &mut changes, &"a/b".to_string(), "[{\"name\":\"x\"}]"),
        FetchParse::NoTag
    );
    assert_eq!(
        observe_body(&mut cache, &mut changes, &"a/b".to_string(), "[{\"tag_name\":7}]"),
        FetchParse::NoTag
    );
    assert_eq!(cache.get(&"a/b".to_string()), Some(&"v1.0".to_string()));
    assert!(changes.is_empty());
}

#[test]
fn release_url_and_header_exact() {
    assert_eq!(
        release_url(&"a/b".to_string()),
        "https://api.github.com/repos/a/b/releases"
    );
    assert_eq!(user_agent(), "curl/8.11.0");
}

#[test]
fn release_result_maps_outcomes() {
    assert_eq!(release_result(FetchParse::NotJson), Err(FetchError::Parse));
    assert_eq!(release_result(FetchParse::NotList), Ok(None));
    assert_eq!(release_result(FetchParse::NoTag), Ok(None));
    assert_eq!(
        release_result(FetchParse::Tag("v1.0".to_string())),
        Ok(Some("v1.0".to_string()))
    );
}

#[test]
fn poll_scenario_matches_expected_outputs() {
    let mut cache = parse_cache_text("{\"a/b\":\"v1.0\"}");
    assert_eq!(cache.get(&"a/b".to_string()), Some(&"v1.0".to_string()));
    let mut changes = TagMap::new();
    observe_body(
        &mut cache,
        &mut changes,
        &"a/b".to_string(),
        "[{\"tag_name\":\"v1.1\"}]",
    );
    observe_body(
        &mut cache,
        &mut changes,
        &"c/d".to_string(),
        "[{\"tag_name\":\"v1.0\"}]",
    );
    assert_eq!(changes.len(), 1);
    assert_eq!(changes.get(&"a/b".to_string()), Some(&"v1.1".to_string()));
    assert_eq!(notification_body(&changes), "a/b: v1.1\n");
    assert_eq!(
        render_cache_text(&cache),
        "{\"a/b\":\"v1.1\",\"c/d\":\"v1.0\"}"
    );
}
