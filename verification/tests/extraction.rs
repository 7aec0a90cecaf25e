//! Extraction scenarios: the tiered heuristics on concrete page text.

use inflyte_monitor::html::{extract_records, extract_title};
use inflyte_monitor::record::{Record, RecordSet};

fn names_of(rs: &RecordSet) -> Vec<String> {
    rs.records.iter().map(|r| r.name.clone()).collect()
}

fn find<'a>(rs: &'a RecordSet, name: &str) -> Option<&'a Record> {
    rs.records.iter().find(|r| r.name == name)
}

#[test]
fn no_heading_means_no_records() {
    let html = "<html><body><h1>Hello</h1><div><img src=\"x\"/>Ana</div>\
                <p>Support from Ben, Carl</p></body></html>";
    let rs = extract_records(html);
    assert_eq!(rs.records.len(), 0);
}

#[test]
fn malformed_markup_never_errors() {
    let html = "<div><<<><b>Support</b><img";
    let rs = extract_records(html);
    assert_eq!(rs.records.len(), 0);
}

#[test]
fn profile_card_with_comment_and_stars() {
    let html = "<html><body><h3>Support</h3>\
                <div><div><img src=\"a.jpg\"/>Ana \u{2b50}\u{2b50}\u{2b50}\nGreat track!</div></div>\
                <h3>Next</h3></body></html>";
    let rs = extract_records(html);
    assert_eq!(rs.records.len(), 1);
    let r = &rs.records[0];
    assert_eq!(r.name, "Ana");
    assert_eq!(r.comment.as_deref(), Some("Great track!"));
    assert_eq!(r.rating, Some(3));
}

#[test]
fn innermost_card_wins_over_wrapper() {
    let html = "<html><body><h3>Support</h3>\
                <div>\
                <div><img src=\"a.jpg\"/>Ana\nLovely</div>\
                <div><img src=\"b.jpg\"/>Ben\nBig fan</div>\
                </div></body></html>";
    let rs = extract_records(html);
    assert_eq!(names_of(&rs), vec!["Ana".to_string(), "Ben".to_string()]);
    assert_eq!(find(&rs, "Ana").unwrap().comment.as_deref(), Some("Lovely"));
    assert_eq!(find(&rs, "Ben").unwrap().comment.as_deref(), Some("Big fan"));
}

#[test]
fn section_stops_at_next_heading() {
    let html = "<html><body><h3>Support</h3>\
                <div><div><img src=\"a\"/>Ana\nYes</div></div>\
                <h3>Elsewhere</h3>\
                <div><div><img src=\"b\"/>Ben\nNo</div></div>\
                </body></html>";
    let rs = extract_records(html);
    assert_eq!(names_of(&rs), vec!["Ana".to_string()]);
}

#[test]
fn fallback_single_entry_needs_two_lines() {
    // Two images in one block: no inner one-image card exists, so the whole
    // sibling is read as a single entry.
    let html = "<html><body><h3>Support</h3>\
                <div><img src=\"a\"/><img src=\"b\"/>Duo Name\nBoth of us approve</div>\
                </body></html>";
    let rs = extract_records(html);
    assert_eq!(rs.records.len(), 1);
    assert_eq!(rs.records[0].name, "Duo Name");
    assert_eq!(rs.records[0].comment.as_deref(), Some("Both of us approve"));
    assert_eq!(rs.records[0].rating, None);

    // With only one non-empty line the fallback does not emit a record.
    let html2 = "<html><body><h3>Support</h3>\
                 <div><img src=\"a\"/><img src=\"b\"/>Duo Name</div>\
                 </body></html>";
    let rs2 = extract_records(html2);
    assert_eq!(rs2.records.len(), 0);
}

#[test]
fn plain_list_tier_splits_names() {
    let html = "<html><body><h3>Support</h3>\
                <div>Support from Ana, Ben and Carl</div>\
                </body></html>";
    let rs = extract_records(html);
    assert_eq!(
        names_of(&rs),
        vec!["Ana".to_string(), "Ben".to_string(), "Carl".to_string()]
    );
    for r in &rs.records {
        assert_eq!(r.comment, None);
        assert_eq!(r.rating, None);
    }
}

#[test]
fn plain_list_drops_noise_phrases() {
    let html = "<html><body><h3>Support</h3>\
                <div>Support from Ana, Get Mad deals now, Currently subscribed readers, Ben</div>\
                </body></html>";
    let rs = extract_records(html);
    assert_eq!(names_of(&rs), vec!["Ana".to_string(), "Ben".to_string()]);
}

#[test]
fn tier_precedence_card_beats_plain_list() {
    let html = "<html><body><h3>Support</h3>\
                <div><div><img src=\"b.jpg\"/>Ben\ncool</div></div>\
                <div>Support from Ben</div>\
                </body></html>";
    let rs = extract_records(html);
    let bens: Vec<&Record> = rs.records.iter().filter(|r| r.name == "Ben").collect();
    assert_eq!(bens.len(), 1);
    assert_eq!(bens[0].comment.as_deref(), Some("cool"));
}

#[test]
fn identical_cards_collapse_to_one() {
    let html = "<html><body><h3>Support</h3>\
                <div><div><img src=\"a\"/>Ana \u{2b50}\nSame words</div>\
                <div><img src=\"b\"/>Ana \u{2b50}\nSame words</div></div>\
                </body></html>";
    let rs = extract_records(html);
    assert_eq!(rs.records.len(), 1);
    assert_eq!(rs.records[0].name, "Ana");
    assert_eq!(rs.records[0].rating, Some(1));
}

#[test]
fn overlong_name_rejected_at_every_tier() {
    let long = "N".repeat(150);
    let html = format!(
        "<html><body><h3>Support</h3>\
         <div><div><img src=\"a\"/>{}\nNice</div></div>\
         <div>Support from {}, Ana</div>\
         </body></html>",
        long, long
    );
    let rs = extract_records(&html);
    assert_eq!(names_of(&rs), vec!["Ana".to_string()]);
}

#[test]
fn name_cut_at_first_star_and_stars_counted_everywhere() {
    let html = "<html><body><h3>Support</h3>\
                <div><div><img src=\"a\"/>Ana \u{2b50}\u{2b50}\nSuper \u{2b50} stuff</div></div>\
                </body></html>";
    let rs = extract_records(html);
    assert_eq!(rs.records.len(), 1);
    let r = &rs.records[0];
    assert_eq!(r.name, "Ana");
    assert_eq!(r.comment.as_deref(), Some("Super \u{2b50} stuff"));
    assert_eq!(r.rating, Some(3));
}

#[test]
fn comment_stops_at_plain_list_phrase() {
    let html = "<html><body><h3>Support</h3>\
                <div><div><img src=\"a\"/>Ana\nFirst line\nSupport from others\nIgnored</div></div>\
                </body></html>";
    let rs = extract_records(html);
    assert_eq!(rs.records.len(), 2);
    let ana = find(&rs, "Ana").unwrap();
    assert_eq!(ana.comment.as_deref(), Some("First line"));
    // The same sibling also carries the plain-list phrase, so the text after
    // it becomes one name-only entry.
    assert!(find(&rs, "others\nIgnored").is_some());
}

#[test]
fn section_found_below_wrappers() {
    let html = "<html><body><div><div><h3>Support</h3>\
                <div><div><img src=\"a\"/>Ana\nYes</div></div>\
                </div></div></body></html>";
    let rs = extract_records(html);
    assert_eq!(names_of(&rs), vec!["Ana".to_string()]);
}

#[test]
fn empty_section_yields_empty_set() {
    let html = "<html><body><h3>Support</h3><h3>Next</h3></body></html>";
    let rs = extract_records(html);
    assert_eq!(rs.records.len(), 0);
}

#[test]
fn title_from_first_usable_heading() {
    let html = "<html><body><h1>Inflyte - the app</h1>\
                <h1>  Artist - Great Song  </h1></body></html>";
    assert_eq!(extract_title(html).as_deref(), Some("Artist - Great Song"));
}

#[test]
fn title_absent_without_dash() {
    let html = "<html><body><h1>Just words</h1></body></html>";
    assert_eq!(extract_title(html), None);
}
