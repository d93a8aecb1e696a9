use easysql::creds::{delete_pg, list, rekey_pg, set_pg, Source};
use easysql::engines::{Conn, Engine};

fn lines(s: &str) -> Vec<String> {
    s.lines().map(str::to_string).collect()
}

#[test]
fn a_colon_or_backslash_in_a_field_is_escaped() {
    let out = set_pg("", "db.example.com", "5432", "app", "me", r"pa:ss\word");
    assert_eq!(
        lines(&out),
        vec![r"db.example.com:5432:app:me:pa\:ss\\word".to_string()]
    );
}

#[test]
fn an_entry_with_the_same_first_four_fields_is_replaced_in_place() {
    let text = "db.example.com:5432:app:me:old\nother.example.com:5432:app:me:keep\n";
    let out = set_pg(text, "db.example.com", "5432", "app", "me", "new");
    assert_eq!(
        lines(&out),
        vec![
            "db.example.com:5432:app:me:new".to_string(),
            "other.example.com:5432:app:me:keep".to_string(),
        ]
    );
}

#[test]
fn a_different_user_on_the_same_database_appends_instead() {
    let out = set_pg("db.example.com:5432:app:me:mine\n", "db.example.com", "5432", "app", "you", "yours");
    assert_eq!(
        lines(&out),
        vec![
            "db.example.com:5432:app:me:mine".to_string(),
            "db.example.com:5432:app:you:yours".to_string(),
        ]
    );
}

#[test]
fn moving_an_entry_keeps_its_password_and_everything_else_in_the_file() {
    let text = "# mine\n\nold.example.com:5432:app:bob:s3cret\nother:5432:*:eve:hunter2\n";
    let out = rekey_pg(text, 0, "new.example.com", "5433", "*", "bob").unwrap();
    let ls = lines(&out);
    assert!(ls.contains(&"new.example.com:5433:*:bob:s3cret".to_string()));
    assert!(ls.contains(&"# mine".to_string()));
    assert!(ls.contains(&"other:5432:*:eve:hunter2".to_string()));
}

#[test]
fn moving_an_entry_that_is_gone_says_so() {
    let e = rekey_pg("a:1:b:c:d\n", 3, "x", "1", "y", "z").unwrap_err();
    assert_eq!(e.message(), "that entry is no longer in the file (press r to reload)");
}

#[test]
fn entries_are_counted_past_comments_and_a_password_with_a_colon_reads_back() {
    let text = "# c\n\nh:1:d:u:p\\:w\nbroken line\nh2:2:*:u2:x\n";
    let all = list(text, "[clientprod]\nhost=m\npassword=pw\n\n[clientbare]\nhost=n\n");
    assert_eq!(all.len(), 3);
    assert_eq!(all[0].host, "h");
    assert!(matches!(all[0].source, Source::Pgpass(0)));
    assert!(matches!(all[1].source, Source::Pgpass(2)));
    assert_eq!(all[2].engine, Engine::MySql);
    assert_eq!(all[2].port, "3306");
    assert!(matches!(&all[2].source, Source::MyCnf(n) if n == "prod"));
    assert_eq!(delete_pg(text, 0), "# c\n\nbroken line\nh2:2:*:u2:x\n");
}

#[test]
fn a_wildcard_entry_covers_a_whole_cluster() {
    let all = list("*:5432:*:me:pw\n", "");
    let c = Conn {
        engine: Engine::Pg,
        name: "prod".into(),
        host: "db".into(),
        port: String::new(),
        database: String::new(),
        user: "me".into(),
        extra: Vec::new(),
    };
    assert!(all[0].covers(&c));
    let other = Conn { user: "you".into(), ..c };
    assert!(!all[0].covers(&other));
    assert_eq!(
        all[0].describe(),
        "postgres  *:5432                       *              me"
    );
}
