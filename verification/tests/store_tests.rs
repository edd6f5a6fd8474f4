use web_diary::error::ErrorKind;
use web_diary::store::{RawRow, Store};

const JAN5: u64 = 1672920000;
const JUN14: u64 = 1686744000;

#[test]
fn create_then_fetch_round_trips_body() {
    let mut s = Store::new();
    let id = s.create(String::from("Alpha one"), JAN5).unwrap();
    let e = s.fetch(id).unwrap();
    assert_eq!(e.body, "Alpha one");
    assert_eq!(e.created_at, JAN5);
    assert_eq!(e.date.year, 2023);
    assert_eq!(e.date.month, 1);
    assert_eq!(e.date.day, 5);
}

#[test]
fn create_rejects_blank_bodies() {
    let mut s = Store::new();
    for blank in ["", " ", " \t\r\n  "] {
        let e = s.create(String::from(blank), JAN5).unwrap_err();
        assert_eq!(e.kind(), ErrorKind::Validation);
    }
    assert!(s.fetch(1).is_err());
}

#[test]
fn create_rejects_out_of_range_timestamps() {
    let mut s = Store::new();
    let e = s.create(String::from("x"), u64::MAX).unwrap_err();
    assert_eq!(e.kind(), ErrorKind::InvalidTimestamp);
}

#[test]
fn fetch_of_unknown_id_is_not_found() {
    let mut s = Store::new();
    let id = s.create(String::from("only"), JAN5).unwrap();
    let e = s.fetch(id + 1).unwrap_err();
    assert_eq!(e.kind(), ErrorKind::NotFound);
    let e2 = s.fetch(0).unwrap_err();
    assert_eq!(e2.kind(), ErrorKind::NotFound);
}

#[test]
fn ids_are_assigned_in_increasing_order_and_never_reused() {
    let mut s = Store::new();
    let a = s.create(String::from("a"), JAN5).unwrap();
    let b = s.create(String::from("b"), JAN5).unwrap();
    assert!(b > a);
    // A failed write must not consume or reuse the id it attempted.
    let _ = s.create_with_index_fault(String::from("c"), JAN5).unwrap_err();
    let c = s.create(String::from("c"), JAN5).unwrap();
    assert!(c > b);
}

#[test]
fn failed_index_write_leaves_no_orphaned_row() {
    let mut s = Store::new();
    let keep = s.create(String::from("kept"), JAN5).unwrap();
    let attempted = keep + 1;
    let e = s.create_with_index_fault(String::from("lost"), JUN14).unwrap_err();
    assert_eq!(e.kind(), ErrorKind::Storage);
    // The canonical insert was rolled back: the attempted id does not exist.
    let nf = s.fetch(attempted).unwrap_err();
    assert_eq!(nf.kind(), ErrorKind::NotFound);
    // The earlier entry is untouched.
    assert_eq!(s.fetch(keep).unwrap().body, "kept");
    assert_eq!(s.recent(10).len(), 1);
}

#[test]
fn failed_index_write_still_validates_input() {
    let mut s = Store::new();
    let e = s.create_with_index_fault(String::from("   "), JAN5).unwrap_err();
    assert_eq!(e.kind(), ErrorKind::Validation);
}

#[test]
fn draft_saves_reads_back_and_is_cleared_by_create() {
    let mut s = Store::new();
    assert_eq!(s.get_draft(), None);
    s.save_draft(String::from("x"));
    assert_eq!(s.get_draft().as_deref(), Some("x"));
    s.save_draft(String::from("y"));
    assert_eq!(s.get_draft().as_deref(), Some("y"));
    let _ = s.create(String::from("anything"), JAN5).unwrap();
    assert_eq!(s.get_draft(), None);
}

#[test]
fn clearing_a_draft_is_idempotent() {
    let mut s = Store::new();
    s.clear_draft();
    assert_eq!(s.get_draft(), None);
    s.save_draft(String::from("pending"));
    s.clear_draft();
    assert_eq!(s.get_draft(), None);
    s.clear_draft();
    assert_eq!(s.get_draft(), None);
}

#[test]
fn rejected_create_leaves_the_draft_alone() {
    let mut s = Store::new();
    s.save_draft(String::from("keep me"));
    let _ = s.create(String::from("  "), JAN5).unwrap_err();
    assert_eq!(s.get_draft().as_deref(), Some("keep me"));
}

#[test]
fn from_rows_loads_valid_rows() {
    let rows = vec![
        RawRow {
            id: 3,
            created_at: JAN5,
            date: String::from("2023-01-05"),
            body: String::from("Alpha one"),
        },
        RawRow {
            id: 7,
            created_at: JUN14,
            date: String::from("2023-06-14"),
            body: String::from("Beta two"),
        },
    ];
    let s = Store::from_rows(&rows).unwrap();
    let a = s.fetch(3).unwrap();
    assert_eq!(a.body, "Alpha one");
    assert_eq!(a.date.month, 1);
    let b = s.fetch(7).unwrap();
    assert_eq!(b.created_at, JUN14);
    assert_eq!(s.get_draft(), None);
    // The next assigned id follows the highest stored one.
    let mut s = s;
    let c = s.create(String::from("new"), JUN14).unwrap();
    assert_eq!(c, 8);
}

#[test]
fn from_rows_rejects_malformed_dates() {
    let rows = vec![RawRow {
        id: 1,
        created_at: JAN5,
        date: String::from("2023-1-5"),
        body: String::from("x"),
    }];
    let e = Store::from_rows(&rows).unwrap_err();
    assert_eq!(e.kind(), ErrorKind::Format);
}

#[test]
fn from_rows_rejects_date_timestamp_disagreement() {
    let rows = vec![RawRow {
        id: 1,
        created_at: JAN5,
        date: String::from("2023-06-14"),
        body: String::from("x"),
    }];
    let e = Store::from_rows(&rows).unwrap_err();
    assert_eq!(e.kind(), ErrorKind::Format);
}

#[test]
fn from_rows_rejects_out_of_order_ids() {
    let rows = vec![
        RawRow {
            id: 5,
            created_at: JAN5,
            date: String::from("2023-01-05"),
            body: String::from("a"),
        },
        RawRow {
            id: 5,
            created_at: JUN14,
            date: String::from("2023-06-14"),
            body: String::from("b"),
        },
    ];
    let e = Store::from_rows(&rows).unwrap_err();
    assert_eq!(e.kind(), ErrorKind::Storage);
}

#[test]
fn from_rows_rejects_an_exhausted_id_space() {
    let rows = vec![RawRow {
        id: u64::MAX,
        created_at: JAN5,
        date: String::from("2023-01-05"),
        body: String::from("x"),
    }];
    let e = Store::from_rows(&rows).unwrap_err();
    assert_eq!(e.kind(), ErrorKind::Storage);
}

#[test]
fn from_rows_rejects_out_of_range_timestamps() {
    let rows = vec![RawRow {
        id: 1,
        created_at: u64::MAX,
        date: String::from("2023-01-05"),
        body: String::from("x"),
    }];
    let e = Store::from_rows(&rows).unwrap_err();
    assert_eq!(e.kind(), ErrorKind::InvalidTimestamp);
}
