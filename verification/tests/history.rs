use easysql::history::{ago, load, record_in};

#[test]
fn a_connect_is_stamped_and_counted() {
    let text = record_in("", "pg:prod", 100);
    assert_eq!(text, "100 1 pg:prod\n");
    let text = record_in(&text, "pg:prod", 200);
    assert_eq!(text, "200 2 pg:prod\n");
    let text = record_in(&text, "my:alpha", 50);
    assert_eq!(text, "50 1 my:alpha\n200 2 pg:prod\n");
    let h = load(&text);
    assert_eq!(h.get("pg:prod").map(|e| e.count), Some(2));
    assert_eq!(h.rank("pg:prod"), (-200, "pg:prod".to_string()));
    assert_eq!(h.rank("never"), (0, "never".to_string()));
}

#[test]
fn a_bad_line_is_no_entry_and_a_later_line_wins() {
    let h = load("junk\n5 x pg:a\n1 1 pg:a\n9 3 pg:a\n");
    let e = h.get("pg:a").unwrap();
    assert_eq!((e.last, e.count), (9, 3));
    assert_eq!(h.render(), "9 3 pg:a\n");
}

#[test]
fn a_rename_keeps_the_livelier_record() {
    let mut h = load("10 2 pg:old\n20 1 pg:new\n");
    assert!(h.rename("pg:old", "pg:new"));
    assert_eq!(h.render(), "20 3 pg:new\n");
    assert!(!h.rename("pg:gone", "pg:x"));
    assert!(!h.rename("pg:new", "pg:new"));
}

#[test]
fn an_age_is_said_in_its_largest_unit() {
    assert_eq!(ago(100, 100), "just now");
    assert_eq!(ago(200, 100), "just now");
    assert_eq!(ago(0, 125), "2m ago");
    assert_eq!(ago(0, 7200), "2h ago");
    assert_eq!(ago(0, 86400 * 3), "3d ago");
    assert_eq!(ago(0, 2592000 * 2), "2mo ago");
    assert_eq!(ago(0, 31536000 * 5), "5y ago");
}

#[test]
fn a_stamp_and_a_move_read_back_from_the_written_text() {
    let text = record_in("", "pg:prod", 100);
    let text = record_in(&text, "my:shop", 200);
    let text = record_in(&text, "pg:prod", 300);
    let h = load(&text);
    assert_eq!(h.get("pg:prod").map(|e| (e.last, e.count)), Some((300, 2)));
    assert_eq!(h.get("my:shop").map(|e| (e.last, e.count)), Some((200, 1)));
    let mut h = load(&text);
    assert!(h.rename("pg:prod", "pg:live"));
    let back = load(&h.render());
    assert!(back.get("pg:prod").is_none());
    assert_eq!(back.get("pg:live").map(|e| (e.last, e.count)), Some((300, 2)));
    assert_eq!(back.get("my:shop").map(|e| (e.last, e.count)), Some((200, 1)));
}
