use easysql::engines::pg::{conninfo, read_only, read_only_answer, read_only_pgoptions, set_read_only, ReadOnlyCheck};

fn with_options(options: &str) -> Vec<(String, String)> {
    vec![
        ("sslmode".to_string(), "require".to_string()),
        ("options".to_string(), options.to_string()),
    ]
}

fn options(extra: &[(String, String)]) -> Option<&str> {
    extra
        .iter()
        .find(|(k, _)| k == "options")
        .map(|(_, v)| v.as_str())
}

#[test]
fn read_only_keeps_every_other_option_and_drops_an_empty_key() {
    let mut extra = with_options("-c statement_timeout=5000");
    set_read_only(&mut extra, true);
    assert!(read_only(&extra), "switching it on must read back as on");
    assert!(
        options(&extra).is_some_and(|o| o.contains("statement_timeout=5000")),
        "a setting somebody wrote by hand survives: {extra:?}"
    );

    set_read_only(&mut extra, false);
    assert!(!read_only(&extra));
    assert_eq!(options(&extra), Some("-c statement_timeout=5000"));

    let mut only = with_options("-c default_transaction_read_only=on");
    set_read_only(&mut only, false);
    assert_eq!(
        options(&only),
        None,
        "an emptied `options` key goes: {only:?}"
    );
    assert_eq!(only.len(), 1, "and every other key stays: {only:?}");
}

#[test]
fn every_spelling_and_boolean_the_server_reads_as_on_counts_as_read_only() {
    for on in [
        "-c default_transaction_read_only=on",
        "-cdefault_transaction_read_only=on",
        "--default-transaction-read-only=on",
        "-c DEFAULT_TRANSACTION_READ_ONLY=on",
        "-c default_transaction_read_only=t",
        "-c default_transaction_read_only=y",
        "-c default_transaction_read_only=1",
    ] {
        assert!(read_only(&with_options(on)), "the server enforces `{on}`");
    }
    for off in [
        "-c default_transaction_read_only=off",
        "-c default_transaction_read_only=on -c default_transaction_read_only=off",
        "-c statement_timeout=5000",
    ] {
        assert!(
            !read_only(&with_options(off)),
            "the server allows writes with `{off}`"
        );
    }
}

#[test]
fn service_and_database_names_are_quoted_the_way_libpq_reads_them() {
    assert_eq!(conninfo("prod", None), "service=prod");
    assert_eq!(conninfo("prod", Some("app")), "service=prod dbname=app");
    assert_eq!(
        conninfo("my db", Some("it's")),
        r"service='my db' dbname='it\'s'",
        "a space or a quote would otherwise split libpq's parse"
    );
}

#[test]
fn switching_on_twice_leaves_one_switch() {
    let mut extra = with_options("-c statement_timeout=5000");
    set_read_only(&mut extra, true);
    set_read_only(&mut extra, true);
    assert_eq!(
        options(&extra),
        Some("-c statement_timeout=5000 -c default_transaction_read_only=on")
    );
    let mut none: Vec<(String, String)> = Vec::new();
    set_read_only(&mut none, true);
    assert_eq!(
        none,
        vec![(
            "options".to_string(),
            "-c default_transaction_read_only=on".to_string()
        )]
    );
}

#[test]
fn pgoptions_keeps_what_the_environment_had() {
    assert_eq!(
        read_only_pgoptions(None),
        "-c default_transaction_read_only=on"
    );
    assert_eq!(
        read_only_pgoptions(Some("  -c work_mem=64MB ")),
        "-c work_mem=64MB -c default_transaction_read_only=on"
    );
    assert_eq!(
        read_only_pgoptions(Some("   ")),
        "-c default_transaction_read_only=on"
    );
}

#[test]
fn the_servers_answer_decides_whether_a_read_only_session_goes_in() {
    assert!(matches!(read_only_answer(Some((true, "on\n", ""))), ReadOnlyCheck::Holds));
    assert!(matches!(read_only_answer(Some((true, "off\n", ""))), ReadOnlyCheck::Writable));
    match read_only_answer(Some((
        false,
        "",
        "psql: error: unsupported startup parameter in options: x\nmore\n",
    ))) {
        ReadOnlyCheck::Refused(said) => {
            assert_eq!(said, "psql: error: unsupported startup parameter in options: x")
        }
        _ => panic!("a pooler's refusal is a refusal"),
    }
    assert!(matches!(read_only_answer(None), ReadOnlyCheck::Unknown(_)));
    assert!(ReadOnlyCheck::Holds.refusal("prod").is_none());
    let (head, _) = ReadOnlyCheck::Writable.refusal("prod").unwrap();
    assert!(head.starts_with("`prod` is marked read-only"));
}

#[test]
fn switching_read_only_twice_is_the_same_as_once_and_keeps_the_other_keys() {
    let mut extra = vec![
        ("sslmode".to_string(), "require".to_string()),
        ("options".to_string(), "-c statement_timeout=5000 -c default_transaction_read_only=off".to_string()),
        ("connect_timeout".to_string(), "5".to_string()),
    ];
    set_read_only(&mut extra, true);
    let once = extra.clone();
    set_read_only(&mut extra, true);
    assert_eq!(extra, once);
    assert_eq!(extra[0], ("sslmode".to_string(), "require".to_string()));
    assert_eq!(extra[2], ("connect_timeout".to_string(), "5".to_string()));
    assert_eq!(
        options(&extra),
        Some("-c statement_timeout=5000 -c default_transaction_read_only=on")
    );
}

#[test]
fn a_first_options_key_that_keeps_words_is_the_one_read_after_a_switch() {
    let mut extra = vec![
        ("options".to_string(), "-c statement_timeout=5000".to_string()),
        ("OPTIONS".to_string(), "-c default_transaction_read_only=on".to_string()),
    ];
    set_read_only(&mut extra, false);
    assert!(!read_only(&extra));
    assert_eq!(extra[1].1, "-c default_transaction_read_only=on");
    set_read_only(&mut extra, true);
    assert!(read_only(&extra));
    assert_eq!(extra[0].1, "-c statement_timeout=5000 -c default_transaction_read_only=on");
}
