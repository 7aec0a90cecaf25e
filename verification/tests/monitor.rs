//! The diff engine, cycle planning, configuration and alert composition.

use inflyte_monitor::alert::compose_alert;
use inflyte_monitor::config::{
    blob_name, build_config, campaign_key, dedup_urls, parse_interval, parse_url_list, ConfigError,
};
use inflyte_monitor::cycle::{plan_cycle, CycleClass};
use inflyte_monitor::diff::diff;
use inflyte_monitor::record::{Record, RecordSet};

fn rec(name: &str, comment: Option<&str>, rating: Option<u8>) -> Record {
    Record {
        name: name.to_string(),
        comment: comment.map(|c| c.to_string()),
        rating,
    }
}

fn set_of(records: Vec<Record>) -> RecordSet {
    let mut rs = RecordSet::new();
    for r in records {
        rs.insert(r);
    }
    rs
}

#[test]
fn structural_equality_not_name_equality() {
    let a = rec("Ana", None, None);
    let b = rec("Ana", Some("hey"), None);
    let c = rec("Ana", None, None);
    assert!(!a.eq_rec(&b));
    assert!(a.eq_rec(&c));
}

#[test]
fn insert_collapses_structural_duplicates() {
    let mut rs = RecordSet::new();
    rs.insert(rec("Ana", Some("x"), Some(1)));
    rs.insert(rec("Ana", Some("x"), Some(1)));
    rs.insert(rec("Ana", Some("y"), Some(1)));
    assert_eq!(rs.records.len(), 2);
}

#[test]
fn diff_of_a_set_with_itself_is_empty() {
    let s = set_of(vec![
        rec("Ana", Some("Great!"), Some(2)),
        rec("Ben", None, None),
    ]);
    let d = diff(&s, &s);
    assert_eq!(d.records.len(), 0);
}

#[test]
fn changed_payload_counts_as_new() {
    let previous = set_of(vec![rec("Ana", None, None)]);
    let current = set_of(vec![rec("Ana", Some("Great track!"), Some(3))]);
    let fresh = diff(&current, &previous);
    assert_eq!(fresh.records.len(), 1);
    assert_eq!(fresh.records[0].name, "Ana");
    assert_eq!(fresh.records[0].comment.as_deref(), Some("Great track!"));
    assert_eq!(fresh.records[0].rating, Some(3));
}

#[test]
fn first_run_is_initial_whatever_the_size() {
    let previous = RecordSet::new();
    let current = set_of(vec![
        rec("Ana", None, None),
        rec("Ben", Some("hi"), Some(1)),
        rec("Carl", None, None),
    ]);
    let plan = plan_cycle(&previous, &current);
    assert!(matches!(plan.class, CycleClass::Initial));
    assert_eq!(plan.fresh.records.len(), 0);
}

#[test]
fn quiet_cycle_when_nothing_new() {
    let s = set_of(vec![rec("Ana", None, None)]);
    let plan = plan_cycle(&s, &s);
    assert!(matches!(plan.class, CycleClass::Quiet));
    assert_eq!(plan.fresh.records.len(), 0);
}

#[test]
fn report_cycle_carries_the_delta() {
    let previous = set_of(vec![rec("Ana", None, None)]);
    let current = set_of(vec![rec("Ana", None, None), rec("Ben", None, None)]);
    let plan = plan_cycle(&previous, &current);
    assert!(matches!(plan.class, CycleClass::Report));
    assert_eq!(plan.fresh.records.len(), 1);
    assert_eq!(plan.fresh.records[0].name, "Ben");
}

#[test]
fn campaign_key_examples() {
    assert_eq!(campaign_key("https://inflyteapp.com/r/pmqtne"), "pmqtne");
    assert_eq!(campaign_key("https://inflyteapp.com/r/pmqtne/"), "pmqtne");
    assert_eq!(campaign_key("abc"), "abc");
    assert_eq!(campaign_key(""), "unknown");
    assert_eq!(campaign_key("///"), "unknown");
}

#[test]
fn url_list_skips_comments_and_blanks() {
    let text = "# heading\n\n https://a/one \nhttps://a/two\n   \n# tail\n";
    let urls = parse_url_list(text).unwrap();
    assert_eq!(urls, vec!["https://a/one".to_string(), "https://a/two".to_string()]);
}

#[test]
fn url_list_requires_at_least_one() {
    assert_eq!(parse_url_list("# only\n\n").unwrap_err(), ConfigError::NoUrls);
}

#[test]
fn dedup_keeps_first_seen_order() {
    let urls = vec![
        "b".to_string(),
        "a".to_string(),
        "b".to_string(),
        "c".to_string(),
        "a".to_string(),
    ];
    assert_eq!(
        dedup_urls(urls),
        vec!["b".to_string(), "a".to_string(), "c".to_string()]
    );
}

#[test]
fn interval_default_and_parse() {
    assert_eq!(parse_interval(&None).unwrap(), 60);
    assert_eq!(parse_interval(&Some("90".to_string())).unwrap(), 90);
    assert_eq!(
        parse_interval(&Some("".to_string())).unwrap_err(),
        ConfigError::BadInterval
    );
    assert_eq!(
        parse_interval(&Some("6h".to_string())).unwrap_err(),
        ConfigError::BadInterval
    );
    assert_eq!(
        parse_interval(&Some("99999999999999999999999".to_string())).unwrap_err(),
        ConfigError::BadInterval
    );
}

#[test]
fn config_requires_its_settings_in_order() {
    let urls = vec!["https://x/r/k".to_string()];
    let e = build_config(
        urls.clone(),
        None,
        None,
        None,
        None,
        None,
        None,
        None,
        None,
        None,
        None,
    )
    .unwrap_err();
    assert_eq!(e, ConfigError::MissingStorageAccount);
    let e = build_config(
        urls.clone(),
        Some("acct".to_string()),
        None,
        None,
        None,
        None,
        None,
        None,
        None,
        None,
        None,
    )
    .unwrap_err();
    assert_eq!(e, ConfigError::MissingCredentials);
    let e = build_config(
        urls.clone(),
        Some("acct".to_string()),
        Some("key".to_string()),
        None,
        None,
        None,
        None,
        None,
        None,
        None,
        None,
    )
    .unwrap_err();
    assert_eq!(e, ConfigError::MissingMailKey);
}

#[test]
fn config_defaults_and_campaigns() {
    let urls = vec!["https://x/r/k".to_string(), "https://x/r/m/".to_string()];
    let c = build_config(
        urls,
        Some("acct".to_string()),
        Some("key".to_string()),
        None,
        None,
        None,
        Some("mg-key".to_string()),
        Some("mg.example".to_string()),
        Some("to@example.com".to_string()),
        None,
        Some("15".to_string()),
    )
    .unwrap();
    assert_eq!(c.storage_container, "inflyte-dj-monitor");
    assert_eq!(c.blob_name_prefix, "dj_list");
    assert_eq!(c.from_email, "noreply@inflyte.com");
    assert_eq!(c.check_interval_minutes, 15);
    assert_eq!(c.campaigns.len(), 2);
    assert_eq!(c.campaigns[0].key, "k");
    assert_eq!(c.campaigns[1].key, "m");
    assert!(c.campaigns[0].track_title.is_none());
    let name = blob_name(&c, &c.campaigns[0]);
    assert_eq!(name, "dj_list_k.json");
}

#[test]
fn alert_subject_and_text_are_exact() {
    let fresh = set_of(vec![rec("Ana", Some("Great!"), Some(3))]);
    let msg = compose_alert("Artist - Song", "https://x/r/k", &fresh);
    assert_eq!(
        msg.subject,
        "\u{1f6a8} 1 New DJ Support/Comment for Artist - Song"
    );
    let expected_line = "  \u{2022} Ana (\u{2b50}\u{2b50}\u{2b50}\u{2b50}) - \"Great!\"";
    let expected_text = format!(
        "\u{1f6a8} New DJ support detected on Inflyte!\n\nTrack: Artist - Song\n\n{}\n\nTotal new additions: 1\n\nView at: https://x/r/k",
        expected_line
    );
    assert_eq!(msg.text_body, expected_text);
}

#[test]
fn alert_plural_subject_without_rich_entries() {
    let fresh = set_of(vec![rec("Ana", None, None), rec("Ben", None, None)]);
    let msg = compose_alert("T", "u", &fresh);
    assert_eq!(msg.subject, "\u{1f6a8} 2 New DJs Added for T");
}

#[test]
fn alert_html_carries_the_pieces() {
    let fresh = set_of(vec![rec("Ben", None, None)]);
    let msg = compose_alert("T", "https://x/r/k", &fresh);
    assert!(msg.html_body.starts_with("<!DOCTYPE html>"));
    assert!(msg.html_body.ends_with("</html>"));
    assert!(msg.html_body.contains("Track: T</p>"));
    assert!(msg.html_body.contains("<h3>New Support (1)</h3>"));
    assert!(msg
        .html_body
        .contains("<div class=\"dj-item\"><strong>\u{2728} Ben</strong></div>"));
    assert!(msg
        .html_body
        .contains("<a href=\"https://x/r/k\">https://x/r/k</a>"));
}
