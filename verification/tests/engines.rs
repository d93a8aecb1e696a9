use easysql::engines::pg;
use easysql::engines::{delete, mssql, mysql, save, sqlite, NewConn};
use easysql::engines::{
    find_target_among, hint_line_from, install_argv, install_hint, install_note, speaks_client_flags,
    Conn, Engine, PackageManager,
};
use easysql::settings::Settings;
use easysql::snippets::Snippet;

fn conn(engine: Engine, name: &str) -> Conn {
    Conn {
        engine,
        name: name.to_string(),
        host: "db.example.com".into(),
        port: "5432".into(),
        database: "app".into(),
        user: "me".into(),
        extra: Vec::new(),
    }
}

fn read_only(mut c: Conn) -> Conn {
    match c.engine {
        Engine::Pg => pg::set_read_only(&mut c.extra, true),
        _ => c.extra.push(("readonly".into(), "yes".into())),
    }
    c
}

fn client(engine: Engine, command: &str) -> Settings {
    let mut s = Settings::default();
    s.set(engine.client_setting(), command);
    s
}

#[test]
fn key_is_slug_and_name_so_two_engines_may_share_a_name() {
    assert_eq!(conn(Engine::Pg, "prod").key(), "pg:prod");
    assert_eq!(conn(Engine::MySql, "prod").key(), "my:prod");
    assert_eq!(conn(Engine::Sqlite, "prod").key(), "lite:prod");
    assert_eq!(conn(Engine::MsSql, "prod").key(), "ms:prod");
}

#[test]
fn each_engine_is_opened_through_the_file_its_client_already_reads() {
    let s = Settings::default();
    assert_eq!(
        conn(Engine::Pg, "prod").connect_argv(&s),
        vec!["psql", "service=prod"]
    );
    assert_eq!(
        conn(Engine::MySql, "prod").connect_argv(&s),
        vec!["mysql", "--defaults-group-suffix=prod"]
    );
}

#[test]
fn sqlite_is_handed_an_expanded_path_because_children_run_without_a_shell() {
    let mut c = conn(Engine::Sqlite, "notes");
    c.database = "~/notes.sqlite".into();
    let argv = c.connect_argv(&Settings::default());
    let home = dirs::home_dir().unwrap_or_default();
    assert_eq!(argv[0], "sqlite3");
    assert_eq!(argv[1], home.join("notes.sqlite").to_string_lossy());
    assert!(
        !argv[1].starts_with('~'),
        "a literal ~ reaches sqlite3 as a directory name"
    );
}

#[test]
fn sqlcmd_takes_host_and_port_separated_by_a_comma_not_a_colon() {
    let argv = conn(Engine::MsSql, "prod").connect_argv(&Settings::default());
    assert_eq!(
        argv,
        vec![
            "sqlcmd",
            "-S",
            "db.example.com,5432",
            "-d",
            "app",
            "-U",
            "me"
        ]
    );
    assert!(!argv.iter().any(|a| a == "-P"));
}

#[test]
fn a_wrapper_client_with_its_own_arguments_survives_the_split() {
    let s = Settings {
        psql_command: "docker exec -it db psql".into(),
        ..Settings::default()
    };
    assert_eq!(
        conn(Engine::Pg, "prod").connect_argv(&s),
        vec!["docker", "exec", "-it", "db", "psql", "service=prod"]
    );
}

#[test]
fn only_sql_server_refuses_to_store_a_password() {
    assert!(Engine::Pg.stores_password());
    assert!(Engine::MySql.stores_password());
    assert!(!Engine::MsSql.stores_password());
}

#[test]
fn snippets_are_only_advertised_to_a_client_that_can_expand_them() {
    let snips = vec![Snippet {
        name: "tables".into(),
        sql: "select 1;".into(),
        path: String::new(),
    }];
    let line = |cmd: &str| {
        let s = Settings {
            psql_command: cmd.into(),
            ..Default::default()
        };
        hint_line_from(Engine::Pg, &s, &snips)
    };
    assert!(line("psql").contains(":tables"));
    assert!(line("/usr/bin/psql").contains(":tables"));
    assert!(line("").contains(":tables"));
    assert_eq!(line("pgcli"), Engine::Pg.hint());
    assert_eq!(line("docker exec -it db psql"), Engine::Pg.hint());
    let s = Settings::default();
    for e in [Engine::MySql, Engine::Sqlite, Engine::MsSql] {
        assert_eq!(hint_line_from(e, &s, &snips), e.hint());
    }
}

#[test]
fn from_slug_accepts_both_the_slug_and_the_label() {
    assert_eq!(Engine::from_slug("pg"), Some(Engine::Pg));
    assert_eq!(Engine::from_slug("postgres"), Some(Engine::Pg));
    assert_eq!(Engine::from_slug("nope"), None);
}

#[test]
fn a_wrapper_around_psql_speaks_its_flags_and_pgcli_does_not() {
    for speaks in ["psql", "/usr/bin/psql", "docker exec -it db psql"] {
        assert!(
            speaks_client_flags(Engine::Pg, &client(Engine::Pg, speaks)),
            "`{speaks}` takes psql's -c"
        );
    }
    for foreign in ["pgcli", "usql"] {
        assert!(
            !speaks_client_flags(Engine::Pg, &client(Engine::Pg, foreign)),
            "`{foreign}` would be handed a flag it rejects"
        );
    }
}

#[test]
fn pgoptions_goes_to_a_client_other_than_psql_and_only_on_read_only() {
    let ro = read_only(conn(Engine::Pg, "prod"));
    let env = ro.connect_env(&client(Engine::Pg, "pgcli"), None);
    assert!(
        env.iter()
            .any(|(k, v)| k == "PGOPTIONS" && v.contains("default_transaction_read_only=on")),
        "pgcli drops the service's options, so the setting must travel in PGOPTIONS: {env:?}"
    );
    assert!(
        ro.connect_env(&client(Engine::Pg, "psql"), None).is_empty(),
        "psql applies the service's options itself"
    );
    assert!(
        conn(Engine::Pg, "prod")
            .connect_env(&client(Engine::Pg, "pgcli"), None)
            .is_empty(),
        "a writable connection gets nothing"
    );
}

#[test]
fn a_read_only_sqlite_connection_runs_sqlite3_whatever_client_is_set() {
    let mut c = read_only(conn(Engine::Sqlite, "notes"));
    c.database = "/tmp/notes.db".into();
    let argv = c.connect_argv(&client(Engine::Sqlite, "litecli"));
    assert_eq!(
        argv,
        vec!["sqlite3", "-readonly", "/tmp/notes.db"],
        "litecli rejects -readonly, so it must not be the one handed it"
    );
    let mut writable = conn(Engine::Sqlite, "notes");
    writable.database = "/tmp/notes.db".into();
    assert_eq!(
        writable.connect_argv(&client(Engine::Sqlite, "litecli"))[0],
        "litecli",
        "a writable connection still opens in the configured client"
    );
}

#[test]
fn an_ambiguous_name_is_refused_rather_than_split() {
    let named = |engine, name: &str, host: &str| Conn {
        host: host.into(),
        ..conn(engine, name)
    };
    let all = vec![
        named(Engine::Pg, "team", "other.example"),
        named(Engine::Pg, "team/app", "right.example"),
        named(Engine::Sqlite, "team/app", ""),
    ];
    assert!(
        find_target_among(all.clone(), "team/app").is_err(),
        "two engines own `team/app`, so it must not become `team` plus database `app`"
    );
    let (c, db) = find_target_among(all, "pg:team/app").expect("the engine settles it");
    assert_eq!((c.host.as_str(), db), ("right.example", None));

    let (c, db) = find_target_among(vec![conn(Engine::Pg, "prod")], "prod/reporting")
        .expect("an unambiguous name still takes a database");
    assert_eq!(
        (c.name.as_str(), db.as_deref()),
        ("prod", Some("reporting"))
    );
}

#[test]
fn every_lookup_error_says_what_went_wrong() {
    let all = vec![conn(Engine::Pg, "prod"), conn(Engine::MySql, "prod")];
    let e = find_target_among(all.clone(), "prod").unwrap_err();
    assert_eq!(
        e.message(),
        "'prod' is defined for several engines: pg:prod, my:prod. Name one of them."
    );
    let e = find_target_among(all.clone(), "nothing").unwrap_err();
    assert_eq!(
        e.message(),
        "no saved connection named 'nothing' (try `esql ls`)"
    );
    let e = find_target_among(all, "lite:prod").unwrap_err();
    assert_eq!(e.message(), "no sqlite connection named 'prod'");
}

#[test]
fn the_merged_list_is_by_engine_then_name() {
    let pg = "[zeta]\nhost=a\n\n[alpha]\nhost=b\n";
    let my = "[client]\nuser=x\n\n[clientbeta]\nhost=c\n";
    let lite = "[notes]\npath=/tmp/n.db\n";
    let ms = "";
    let all = easysql::engines::list(pg, my, lite, ms);
    let keys: Vec<String> = all.iter().map(|c| c.key()).collect();
    assert_eq!(keys, vec!["pg:alpha", "pg:zeta", "my:beta", "lite:notes"]);
}

#[test]
fn target_and_url_name_the_server_without_a_password() {
    let c = conn(Engine::Pg, "prod");
    assert_eq!(c.target(), "me@db.example.com:5432/app");
    assert_eq!(c.url(), "postgresql://me@db.example.com:5432/app");
    let mut bare = conn(Engine::MySql, "x");
    bare.host = String::new();
    bare.port = String::new();
    bare.user = String::new();
    bare.database = String::new();
    assert_eq!(bare.target(), "localhost:3306");
    assert_eq!(bare.url(), "mysql://localhost:3306");
}

#[test]
fn install_commands_come_from_the_machines_own_manager() {
    assert_eq!(
        install_argv(Engine::Pg, Some(PackageManager::Apt)),
        Some(vec![
            "sudo".to_string(),
            "apt-get".to_string(),
            "install".to_string(),
            "postgresql-client".to_string()
        ])
    );
    assert_eq!(install_argv(Engine::MsSql, Some(PackageManager::Apt)), None);
    assert_eq!(
        install_hint(Engine::MySql, Some(PackageManager::Pacman)),
        "sudo pacman -S mariadb-clients"
    );
    assert_eq!(
        install_hint(Engine::Sqlite, None),
        "install your distro's sqlite3 package"
    );
    assert!(install_note(Engine::MsSql).is_some());
    assert_eq!(
        PackageManager::detect(&[false, false, true, true, false]),
        Some(PackageManager::Dnf)
    );
    assert_eq!(PackageManager::detect(&[]), None);
}

#[test]
fn a_kept_sqlcmd_password_goes_to_the_environment_only_when_allowed() {
    let c = conn(Engine::MsSql, "reporting");
    let text = "[reporting]\npassword=s3cret\n";
    let on = Settings {
        mssql_passwords: true,
        ..Settings::default()
    };
    assert_eq!(
        c.secret_env(&on, text, true),
        vec![("SQLCMDPASSWORD".to_string(), "s3cret".to_string())]
    );
    assert!(c.secret_env(&on, text, false).is_empty());
    assert!(c.secret_env(&Settings::default(), text, true).is_empty());
}

fn typed(engine: Engine, name: &str) -> NewConn {
    NewConn {
        engine,
        name: format!("  {} ", name),
        host: " db.example ".into(),
        port: "5433".into(),
        database: " shop ".into(),
        user: "app".into(),
        extra: vec![("sslmode".to_string(), "require".to_string())],
    }
}

fn last_of(engine: Engine, text: &str) -> (usize, Conn) {
    let all = match engine {
        Engine::Pg => pg::list_in(text),
        Engine::MySql => mysql::list_in(text),
        Engine::Sqlite => sqlite::list(text),
        Engine::MsSql => mssql::list_in(text),
    };
    (all.len(), all[all.len() - 1].clone())
}

#[test]
fn a_saved_connection_is_listed_as_typed_after_the_others() {
    let texts = [
        (Engine::Pg, "# services\n[old]\nhost=a\n"),
        (Engine::MySql, "[client]\nuser=x\n[clientold]\nhost=a\n"),
        (Engine::Sqlite, "[old]\npath=/tmp/a.db\n"),
        (Engine::MsSql, "[old]\nhost=a\n"),
    ];
    for (engine, text) in texts {
        let out = save(text, None, &typed(engine, "fresh"));
        let (n, c) = last_of(engine, &out);
        assert_eq!(n, 2);
        assert_eq!(c.name, "fresh");
        assert_eq!(c.database, "shop");
        assert_eq!(c.extra, vec![("sslmode".to_string(), "require".to_string())]);
        if engine == Engine::Sqlite {
            assert_eq!(c.host, "");
        } else {
            assert_eq!(c.host, "db.example");
            assert_eq!(c.port, "5433");
            assert_eq!(c.user, "app");
        }
        let (_, first) = last_of(engine, text);
        assert_eq!(first.name, "old");
    }
}

#[test]
fn an_edited_connection_is_listed_in_its_place_with_its_hand_written_keys() {
    let text = "[a]\nhost=x\n\n[old]\nhost=h\nsslmode=require\n\n[z]\nhost=y\n";
    let mut nc = typed(Engine::Pg, "renamed");
    nc.extra = vec![("sslmode".to_string(), "require".to_string())];
    let out = save(text, Some("old"), &nc);
    let all = pg::list_in(&out);
    let names: Vec<&str> = all.iter().map(|c| c.name.as_str()).collect();
    assert_eq!(names, vec!["a", "renamed", "z"]);
    assert_eq!(all[1].host, "db.example");
    assert_eq!(all[1].extra, vec![("sslmode".to_string(), "require".to_string())]);
    assert_eq!(all[2].host, "y");

    let my = "[mysqld]\nport=1\n[clientold]\nhost=h\npassword=pw\n";
    let nc = typed(Engine::MySql, "old");
    let out = save(my, Some("old"), &nc);
    let all = mysql::list_in(&out);
    assert_eq!(all.len(), 1);
    assert_eq!(all[0].host, "db.example");
    assert!(out.contains("password=pw"));
    assert!(out.starts_with("[mysqld]\nport=1\n"));
}

#[test]
fn a_deleted_connection_leaves_the_others_listed_in_order() {
    let text = "[a]\nhost=x\n\n[b]\nhost=y\n\n[c]\nhost=z\n";
    let all = pg::list_in(text);
    let out = delete(text, &all[1]).unwrap();
    let names: Vec<String> = pg::list_in(&out).into_iter().map(|c| c.name).collect();
    assert_eq!(names, vec!["a".to_string(), "c".to_string()]);
    assert_eq!(out, "[a]\nhost=x\n\n[c]\nhost=z\n");
}
