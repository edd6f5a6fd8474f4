use web_diary::query::{entries_for_year, search, year_counts};
use web_diary::store::Store;

const JAN5: u64 = 1672920000;
const JUN14: u64 = 1686744000;
const DEC31_2022: u64 = 1672488000;

fn two_entry_store() -> (Store, u64, u64) {
    let mut s = Store::new();
    let a = s.create(String::from("Alpha one"), JAN5).unwrap();
    let b = s.create(String::from("Beta two"), JUN14).unwrap();
    (s, a, b)
}

#[test]
fn scenario_year_counts_months_and_search() {
    let (s, alpha_id, _beta_id) = two_entry_store();

    let years = year_counts(&s);
    assert_eq!(years.len(), 1);
    assert_eq!(years[0].year, 2023);
    assert_eq!(years[0].count, 2);

    let (months, total) = entries_for_year(&s, 2023);
    assert_eq!(total, 2);
    assert_eq!(months.len(), 2);
    assert_eq!(months[0].month, 1);
    assert_eq!(months[0].entries.len(), 1);
    assert_eq!(months[0].entries[0].body, "Alpha one");
    assert_eq!(months[1].month, 6);
    assert_eq!(months[1].entries.len(), 1);
    assert_eq!(months[1].entries[0].body, "Beta two");

    let hits = search(&s, "Alpha");
    assert_eq!(hits.len(), 1);
    assert_eq!(hits[0].entry_id, alpha_id);
    assert!(hits[0].snippet.contains("Alpha one"));
}

#[test]
fn year_counts_orders_years_descending() {
    let mut s = Store::new();
    s.create(String::from("late"), JUN14).unwrap();
    s.create(String::from("early"), DEC31_2022).unwrap();
    s.create(String::from("late again"), JAN5).unwrap();
    let years = year_counts(&s);
    assert_eq!(years.len(), 2);
    assert_eq!((years[0].year, years[0].count), (2023, 2));
    assert_eq!((years[1].year, years[1].count), (2022, 1));
}

#[test]
fn year_counts_of_empty_store_is_empty() {
    let s = Store::new();
    assert!(year_counts(&s).is_empty());
}

#[test]
fn entries_for_year_orders_within_a_month_by_time() {
    let mut s = Store::new();
    let later = s.create(String::from("second that day"), JAN5 + 3600).unwrap();
    let earlier = s.create(String::from("first that day"), JAN5).unwrap();
    let (months, total) = entries_for_year(&s, 2023);
    assert_eq!(total, 2);
    assert_eq!(months.len(), 1);
    assert_eq!(months[0].month, 1);
    let ids: Vec<u64> = months[0].entries.iter().map(|e| e.id).collect();
    assert_eq!(ids, vec![earlier, later]);
}

#[test]
fn entries_for_an_implausible_year_are_simply_empty() {
    let (s, _, _) = two_entry_store();
    let (months, total) = entries_for_year(&s, 9999);
    assert!(months.is_empty());
    assert_eq!(total, 0);
}

#[test]
fn recent_zero_is_empty_and_limit_caps_results() {
    let (s, _, _) = two_entry_store();
    assert!(s.recent(0).is_empty());
    assert_eq!(s.recent(1).len(), 1);
    assert_eq!(s.recent(2).len(), 2);
    assert_eq!(s.recent(50).len(), 2);
}

#[test]
fn recent_orders_by_creation_instant_descending() {
    let mut s = Store::new();
    let oldest = s.create(String::from("oldest"), DEC31_2022).unwrap();
    let newest = s.create(String::from("newest"), JUN14).unwrap();
    let middle = s.create(String::from("middle"), JAN5).unwrap();
    let r = s.recent(10);
    let ids: Vec<u64> = r.iter().map(|e| e.id).collect();
    assert_eq!(ids, vec![newest, middle, oldest]);
}

#[test]
fn recent_breaks_timestamp_ties_by_insertion_order() {
    let mut s = Store::new();
    let first = s.create(String::from("first"), JAN5).unwrap();
    let second = s.create(String::from("second"), JAN5).unwrap();
    let r = s.recent(10);
    let ids: Vec<u64> = r.iter().map(|e| e.id).collect();
    assert_eq!(ids, vec![first, second]);
}

#[test]
fn empty_search_matches_nothing() {
    let (s, _, _) = two_entry_store();
    assert!(search(&s, "").is_empty());
}

#[test]
fn search_without_a_match_is_empty() {
    let (s, _, _) = two_entry_store();
    assert!(search(&s, "Gamma").is_empty());
}

#[test]
fn search_finds_every_matching_entry_most_recent_first() {
    let mut s = Store::new();
    let a = s.create(String::from("shared word apple"), DEC31_2022).unwrap();
    let _b = s.create(String::from("nothing here"), JAN5).unwrap();
    let c = s.create(String::from("another apple pie"), JUN14).unwrap();
    let hits = search(&s, "apple");
    let ids: Vec<u64> = hits.iter().map(|h| h.entry_id).collect();
    assert_eq!(ids, vec![c, a]);
}

#[test]
fn search_is_matched_against_raw_bodies_not_rendered_html() {
    let mut s = Store::new();
    s.create(String::from("# heading text"), JAN5).unwrap();
    assert_eq!(search(&s, "# heading").len(), 1);
    assert!(search(&s, "<h1>").is_empty());
}

#[test]
fn short_bodies_become_whole_snippets_without_ellipsis() {
    let (s, _, _) = two_entry_store();
    let hits = search(&s, "Alpha");
    assert_eq!(hits[0].snippet, "Alpha one");
}

#[test]
fn long_bodies_are_truncated_with_ellipsis_markers() {
    let mut s = Store::new();
    let mut body = String::new();
    for _ in 0..40 {
        body.push_str("padding words before ");
    }
    body.push_str("needle");
    for _ in 0..40 {
        body.push_str(" padding words after");
    }
    s.create(body, JAN5).unwrap();
    let hits = search(&s, "needle");
    assert_eq!(hits.len(), 1);
    let snippet = &hits[0].snippet;
    assert!(snippet.contains("needle"));
    assert!(snippet.starts_with("..."));
    assert!(snippet.ends_with("..."));
    // The window is bounded: 80 characters of context each side plus the
    // match and the two markers.
    assert!(snippet.len() <= 3 + 80 + "needle".len() + 80 + 3);
}

#[test]
fn snippets_are_html_escaped_for_safe_embedding() {
    let mut s = Store::new();
    s.create(String::from("see <script>alert('x')</script> & \"more\""), JAN5).unwrap();
    let hits = search(&s, "script");
    assert_eq!(hits.len(), 1);
    let snippet = &hits[0].snippet;
    assert!(!snippet.contains("<script>"));
    assert!(snippet.contains("&lt;script&gt;"));
    assert!(snippet.contains("&amp;"));
    assert!(snippet.contains("&quot;more&quot;"));
    assert!(snippet.contains("&#39;x&#39;"));
}
