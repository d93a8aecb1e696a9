use easysql::ini::{collapse_tilde, config_dir, expand_tilde, parse, remove, set_key, upsert};

#[test]
fn parses_sections_and_reads_keys_case_insensitively() {
    let sections = parse(
        "\
# a comment nobody may touch
[prod]
host=db.example.com
Port=5432

[staging]
host=stage.example.com
",
    );
    assert_eq!(sections.len(), 2);
    assert_eq!(sections[0].name, "prod");
    assert_eq!(sections[0].get("host"), Some("db.example.com"));
    assert_eq!(sections[0].get("port"), Some("5432"));
    assert_eq!(sections[1].get("host"), Some("stage.example.com"));
}

#[test]
fn duplicate_key_keeps_the_first_and_a_key_before_any_header_is_dropped() {
    let sections = parse("stray=1\n[prod]\nhost=a\nhost=b\n");
    assert_eq!(sections.len(), 1);
    assert_eq!(sections[0].get("host"), Some("a"));
    assert_eq!(sections[0].get("stray"), None);
}

#[test]
fn rest_hands_back_the_keys_no_wizard_field_owns() {
    let sections = parse("[prod]\nhost=a\nsslmode=require\nconnect_timeout=3\n");
    let rest = sections[0].rest(&["host", "port", "dbname", "user"]);
    assert_eq!(
        rest,
        vec![
            ("sslmode".to_string(), "require".to_string()),
            ("connect_timeout".to_string(), "3".to_string()),
        ]
    );
}

#[test]
fn upsert_rewrites_one_section_and_leaves_the_rest_verbatim() {
    let text = "\
# hand-written, and not ours to reformat
[keep]
host = untouched.example.com
connect_timeout=9

[prod]
host=old.example.com
";
    let out = upsert(
        text,
        None,
        "prod",
        &vec![
            ("host".into(), "new.example.com".into()),
            ("port".into(), "5432".into()),
        ],
    );
    assert!(out.contains("# hand-written, and not ours to reformat"));
    assert!(out.contains("host = untouched.example.com"));
    assert!(out.contains("connect_timeout=9"));
    assert!(out.contains("new.example.com"));
    assert!(!out.contains("old.example.com"));
}

#[test]
fn upsert_renames_in_place_rather_than_leaving_both() {
    let out = upsert("[old]\nhost=a\n", Some("old"), "new", &vec![("host".into(), "a".into())]);
    assert!(out.contains("[new]"));
    assert!(!out.contains("[old]"));
}

#[test]
fn remove_takes_the_blank_line_above_it_too() {
    let out = remove("[keep]\nhost=a\n\n[drop]\nhost=b\n", "drop").unwrap();
    assert_eq!(out, "[keep]\nhost=a\n");
}

#[test]
fn set_key_sets_and_clears_without_disturbing_the_group() {
    let out = set_key("[clientprod]\nhost=a\nuser=me\n", "clientprod", "password", Some("s3cret"))
        .unwrap();
    assert!(out.contains("password=s3cret"));
    assert!(out.contains("user=me"));

    let out = set_key(&out, "clientprod", "password", None).unwrap();
    assert!(!out.contains("s3cret"));
    assert!(out.contains("user=me"));
}

#[test]
fn tilde_expands_and_collapses_only_for_the_current_user() {
    let home = dirs::home_dir().unwrap_or_default();
    assert_eq!(
        expand_tilde("~/db.sqlite"),
        home.join("db.sqlite").to_string_lossy()
    );
    assert_eq!(expand_tilde("/srv/db.sqlite"), "/srv/db.sqlite");
    assert_eq!(expand_tilde("~root/db"), "~root/db");
    if !home.as_os_str().is_empty() {
        assert_eq!(
            collapse_tilde(&home.join("db.sqlite").to_string_lossy()),
            "~/db.sqlite"
        );
    }
    assert_eq!(collapse_tilde("/srv/db.sqlite"), "/srv/db.sqlite");
}

#[test]
fn a_missing_section_is_nothing_to_remove_or_set() {
    assert_eq!(remove("[keep]\nhost=a\n", "gone"), None);
    assert_eq!(set_key("[keep]\nhost=a\n", "gone", "password", Some("x")), None);
}

#[test]
fn a_new_section_is_appended_after_a_blank_line() {
    let out = upsert("[a]\nhost=x\n", None, "b", &vec![("flag".into(), "".into())]);
    assert_eq!(out, "[a]\nhost=x\n\n[b]\nflag\n");
    let out = upsert("", None, "b", &vec![("host".into(), "y".into())]);
    assert_eq!(out, "[b]\nhost=y\n");
}

#[test]
fn a_section_added_to_a_file_reads_back_after_the_others() {
    let text = "# mine\n[a]\nhost=x\n; note\n[c]\r\nport = 5\r\n";
    let keys = vec![("host".to_string(), "db".to_string()), ("Flag".to_string(), "".to_string())];
    let out = upsert(text, None, "b", &keys);
    let secs = parse(&out);
    let names: Vec<&str> = secs.iter().map(|s| s.name.as_str()).collect();
    assert_eq!(names, vec!["a", "c", "b"]);
    assert_eq!(secs[0].keys, vec![("host".to_string(), "x".to_string())]);
    assert_eq!(secs[1].keys, vec![("port".to_string(), "5".to_string())]);
    assert_eq!(secs[2].keys, keys);
}

#[test]
fn adding_then_removing_a_section_gives_the_file_back() {
    let text = "# mine\n[a]\nhost=x\n\n[c]\nport=5\n";
    let keys = vec![("host".to_string(), "db".to_string()), ("user".to_string(), "me".to_string())];
    let added = upsert(text, None, "b", &keys);
    assert_eq!(remove(&added, "b"), Some(text.to_string()));
    let added = upsert("", None, "b", &keys);
    assert_eq!(remove(&added, "b"), Some(String::new()));
}

#[test]
fn the_config_directory_is_never_empty() {
    let c = config_dir();
    assert!(!c.is_empty());
    assert!(c.starts_with('/') || c.ends_with(".config"));
}

#[test]
fn sections_come_in_file_order_and_end_on_their_last_written_line() {
    let text = "[a]\nHost=x\nhost=y\n\n\n[ b ]\nport=1\n\n";
    let s = parse(text);
    assert_eq!(s.len(), 2);
    assert_eq!((s[0].name.as_str(), s[0].at, s[0].end), ("a", 0, 3));
    assert_eq!(s[0].keys, vec![("Host".to_string(), "x".to_string())]);
    assert_eq!((s[1].name.as_str(), s[1].at, s[1].end), ("b", 5, 7));
}
