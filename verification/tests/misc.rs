use easysql::connect::{plan, shape, Shape};
use easysql::engines::{mssql, mysql, Conn, Engine, NewConn};
use easysql::probe::{classify, said, Fix};
use easysql::settings::Settings;
use easysql::sshhosts::{aliases_in, hostname_in, is_same_machine};

const SSH: &str = "\
Host *
  ServerAliveInterval 30
Host raspi pi
  HostName 192.168.1.20
Host=bastion
  User me
Host raspi
";

#[test]
fn ssh_aliases_skip_patterns_and_repeats() {
    assert_eq!(aliases_in(SSH), vec!["raspi", "pi", "bastion"]);
    assert_eq!(hostname_in(SSH, "pi"), "192.168.1.20");
    assert_eq!(hostname_in(SSH, "bastion"), "bastion");
    assert!(is_same_machine(SSH, "raspi", "192.168.1.20"));
    assert!(is_same_machine(SSH, "bastion", "BASTION"));
    assert!(!is_same_machine(SSH, "", "x"));
}

#[test]
fn a_failed_connect_is_read_in_the_clients_own_words() {
    let text = "\npsql: error: connection to server failed: FATAL:  password authentication failed for user \"me\"\n";
    assert_eq!(classify(text), Some(Fix::Password));
    assert_eq!(
        said(text),
        Some("password authentication failed for user \"me\"".to_string())
    );
    assert_eq!(classify("ERROR 2003: Can't connect to MySQL server"), Some(Fix::Tunnel));
    assert_eq!(classify("database \"x\" does not exist"), Some(Fix::Name));
    assert_eq!(classify("something else"), None);
    assert_eq!(said("Try 'mysql --help' for more information.\n"), None);
}

fn pg(name: &str) -> Conn {
    Conn {
        engine: Engine::Pg,
        name: name.into(),
        host: String::new(),
        port: String::new(),
        database: String::new(),
        user: String::new(),
        extra: Vec::new(),
    }
}

fn words(v: &[&str]) -> Vec<String> {
    v.iter().map(|s| s.to_string()).collect()
}

#[test]
fn what_follows_the_name_decides_what_runs() {
    let s = Settings::default();
    assert!(matches!(shape(&[]), Shape::Session));
    assert!(matches!(shape(&words(&[":tables"])), Shape::Snippet(n) if n == "tables"));
    assert!(matches!(shape(&words(&["--", "-x"])), Shape::Escape));
    assert!(matches!(shape(&words(&["select 1"])), Shape::Query));
    assert!(matches!(shape(&words(&["-c", "x"])), Shape::Client));

    let p = plan(&pg("prod"), &s, None, &words(&["select 1", "-q"]), None, "/h");
    assert_eq!(p.argv, vec!["psql", "service=prod", "-c", "select 1", "-q"]);
    assert!(!p.hint);
    assert!(p.sync_psqlrc);

    let p = plan(&pg("prod"), &s, Some("app"), &words(&[":t"]), Some("select 2"), "/h");
    assert_eq!(
        p.argv,
        vec!["psql", "service=prod dbname=app", "-c", "select 2"]
    );
    assert!(!p.sync_psqlrc);

    let p = plan(&pg("prod"), &s, None, &[], None, "/h");
    assert_eq!(p.argv, vec!["psql", "service=prod"]);
    assert!(p.hint);
}

#[test]
fn a_mysql_edit_keeps_the_password_it_cannot_show() {
    let text = "[clientprod]\nhost=a\npassword=pw\n";
    let nc = NewConn {
        engine: Engine::MySql,
        name: "prod".into(),
        host: "b".into(),
        port: String::new(),
        database: String::new(),
        user: "me".into(),
        extra: Vec::new(),
    };
    let out = mysql::save(text, Some("prod"), &nc);
    assert_eq!(out, "[clientprod]\nhost=b\nuser=me\npassword=pw\n");
    assert!(mysql::has_password(&out, "prod"));
    let conns = mysql::list_in(&out);
    assert_eq!(conns.len(), 1);
    assert_eq!(conns[0].name, "prod");
    assert!(conns[0].extra.is_empty());
}

#[test]
fn a_saved_trust_cert_reaches_the_sqlcmd_argv() {
    let conns = mssql::list_in(
        "[selfsigned]\nhost=db.example.com\ndatabase=app\nuser=sa\ntrust_cert=yes\n\n[strict]\nhost=db.example.com\n",
    );
    let argv = |name: &str| {
        let c = conns.iter().find(|c| c.name == name).expect(name);
        mssql::flags(c, None)
    };
    assert!(
        argv("selfsigned").contains(&"-C".to_string()),
        "a certificate the file says to trust must be trusted when read back: {:?}",
        argv("selfsigned")
    );
    assert!(!argv("strict").contains(&"-C".to_string()));
}

#[test]
fn a_sql_server_password_is_kept_only_in_a_private_file() {
    let text = mssql::set_password("", "reporting", Some("s3cret")).unwrap();
    assert_eq!(mssql::password(&text, true, "reporting"), Some("s3cret".to_string()));
    assert_eq!(mssql::password(&text, false, "reporting"), None);
    let moved = mssql::rename_password(&text, true, "reporting", "rpt").unwrap();
    assert_eq!(mssql::password(&moved, true, "rpt"), Some("s3cret".to_string()));
    assert_eq!(mssql::password(&moved, true, "reporting"), None);
    let cleared = mssql::set_password(&moved, "rpt", None).unwrap();
    assert!(!mssql::has_password(&cleared, "rpt"));
    assert_eq!(mssql::set_password(&cleared, "rpt", None), None);
}

#[test]
fn a_saved_sql_server_password_replaces_the_one_before() {
    let text = "[other]\npassword=x\n\n[reporting]\npassword=old\nnote=kept?\n";
    let out = mssql::set_password(text, "reporting", Some("n3w")).unwrap();
    assert_eq!(mssql::password(&out, true, "reporting"), Some("n3w".to_string()));
    assert_eq!(mssql::password(&out, true, "other"), Some("x".to_string()));
    assert_eq!(mssql::password(&out, false, "reporting"), None);
}

#[test]
fn each_file_sits_where_the_platform_names_its_directory() {
    assert_eq!(
        easysql::history::path_from(Some("/s".into()), Some("/d".into()), "/home/me".into()),
        "/s/easysql/history"
    );
    assert_eq!(easysql::history::path_from(None, Some("/d".into()), "/home/me".into()), "/d/easysql/history");
    assert_eq!(easysql::history::path_from(None, None, "/home/me".into()), "/home/me/.local/state/easysql/history");
    assert_eq!(easysql::ini::config_dir_from(Some("/x/conf".into()), "/home/me".into()), "/x/conf");
    assert_eq!(easysql::ini::config_dir_from(None, "/home/me".into()), "/home/me/.config");
    assert_eq!(easysql::settings::path_in("/home/me/.config"), "/home/me/.config/easysql/settings");
    assert_eq!(easysql::snippets::dir_in("/home/me/.config"), "/home/me/.config/easysql/snippets");
    assert_eq!(easysql::snippets::psqlrc_path_in("/home/me"), "/home/me/.psqlrc");
}

#[test]
fn a_password_file_others_can_read_is_not_private() {
    assert!(mssql::mode_is_private(0o100600));
    assert!(mssql::mode_is_private(0o400));
    assert!(!mssql::mode_is_private(0o100640));
    assert!(!mssql::mode_is_private(0o604));
}
