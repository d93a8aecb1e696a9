use easysql::creds::{Cred, Source};
use easysql::engines::{Conn, Engine};
use easysql::forms::{conn_fields, forward_target, value_column, Field, Kind, Prompt};
use easysql::settings::Settings;
use easysql::snippets::Snippet;
use easysql::widgets::{shell_join_display, shell_join_display_in};

fn conn(engine: Engine, name: &str, host: &str, database: &str, user: &str) -> Conn {
    Conn {
        engine,
        name: name.into(),
        host: host.into(),
        port: String::new(),
        database: database.into(),
        user: user.into(),
        extra: Vec::new(),
    }
}

#[test]
fn the_form_preview_is_the_argv_enter_runs() {
    let s = Settings::default();
    let file = Conn {
        engine: Engine::Sqlite,
        name: "notes".into(),
        host: String::new(),
        port: String::new(),
        database: "/tmp/notes.db".into(),
        user: String::new(),
        extra: vec![("readonly".into(), "yes".into())],
    };
    let server = Conn {
        engine: Engine::MsSql,
        name: "selfsigned".into(),
        host: "db.example.com".into(),
        port: String::new(),
        database: "app".into(),
        user: "sa".into(),
        extra: vec![("trust_cert".into(), "yes".into())],
    };
    for c in [file, server] {
        let enter = shell_join_display(&c.connect_argv(&s));
        let preview = Prompt::edit_conn(&c)
            .command_preview(&s, None)
            .expect("a named connection has a preview");
        assert!(
            preview.ends_with(&enter),
            "the preview must be what Enter runs\n preview: {preview}\n   enter: {enter}"
        );
    }
}

#[test]
fn a_read_only_postgres_preview_carries_pgoptions_for_another_client() {
    let mut s = Settings::default();
    s.psql_command = "pgcli".into();
    let mut c = conn(Engine::Pg, "prod", "db", "app", "me");
    c.extra = vec![("options".into(), "-c default_transaction_read_only=on".into())];
    let p = Prompt::edit_conn(&c).command_preview_in(&s, None, "/home/me").unwrap();
    assert_eq!(
        p,
        "esql prod   →   PGOPTIONS='-c default_transaction_read_only=on' pgcli service=prod"
    );
}

#[test]
fn stepping_wraps_both_ways_and_back_again() {
    let c = conn(Engine::MySql, "prod", "db", "app", "me");
    let mut p = Prompt::edit_conn(&c);
    assert_eq!(p.fields.len(), 5);
    assert_eq!(p.step(-1), 4);
    assert_eq!(p.step(1), 1);
    assert_eq!(p.step(11), 1);
    assert_eq!(p.step(isize::MIN), 2);
    assert!(!p.on_last_field());
    p.idx = p.step(-1);
    assert!(p.on_last_field());
    let back = p.step(1);
    p.idx = back;
    assert_eq!(p.idx, 0);
}

#[test]
fn resolves_to_spells_out_what_the_service_names() {
    let c = conn(Engine::Pg, "prod", "db.example.com", "app", "me");
    let p = Prompt::edit_conn(&c);
    assert_eq!(
        p.resolves_to(),
        Some(("me@db.example.com:5432/app".to_string(), "5432".to_string()))
    );
    let bare = conn(Engine::MySql, "x", "h", "", "");
    assert_eq!(
        Prompt::edit_conn(&bare).resolves_to(),
        Some(("h:3306".to_string(), "3306".to_string()))
    );
    let file = conn(Engine::Sqlite, "notes", "", "/tmp/n.db", "");
    assert_eq!(Prompt::edit_conn(&file).resolves_to(), None);
    let nohost = conn(Engine::Pg, "prod", "", "app", "me");
    assert_eq!(Prompt::edit_conn(&nohost).resolves_to(), None);
}

#[test]
fn the_encryption_choice_starts_on_what_the_block_says() {
    let mut c = conn(Engine::Pg, "prod", "db", "app", "me");
    c.extra = vec![("SSLMODE".into(), "verify-ca".into())];
    let fields = conn_fields(Engine::Pg, Some(&c));
    assert_eq!(fields.len(), 7);
    assert_eq!(fields[5].label, "Encryption");
    assert_eq!(fields[5].choice, 3);
    assert_eq!(fields[5].display(), "‹ verify-ca ›");
    assert_eq!(fields[6].display(), " no    yes ");
    assert_eq!(fields[2].placeholder(), "5432");
    assert_eq!(fields[0].placeholder(), "what you type after esql");
    let new = conn_fields(Engine::Sqlite, None);
    assert_eq!(new.len(), 3);
    assert!(new[0].required && new[1].required && !new[2].required);
}

#[test]
fn a_secret_is_painted_as_dots_only() {
    let mut f = Field::secret("Password");
    f.value = "s3cret".into();
    assert_eq!(f.display(), "••••••");
    assert!(matches!(f.kind, Kind::Secret));
    assert!(!f.is_choice());
}

#[test]
fn the_forward_preview_defaults_the_local_port_to_the_far_one() {
    let s = Settings {
        tunnel_host: "bastion".into(),
        ..Settings::default()
    };
    let c = conn(Engine::Pg, "prod", "10.0.0.5", "app", "me");
    let p = Prompt::forward(&c, &s, &Vec::new(), "");
    assert_eq!(p.fields[0].value, "bastion");
    assert_eq!(p.fields[1].value, "10.0.0.5");
    assert_eq!(
        p.command_preview(&s, None),
        Some("ssh -N -L 5432:10.0.0.5:5432 bastion".to_string())
    );
    assert_eq!(
        p.note(),
        "ctrl-o picks the ssh host · the database host is what that machine sees"
    );
}

#[test]
fn a_database_on_the_ssh_host_itself_is_reached_on_its_loopback() {
    let config = "Host raspi\n  HostName 192.168.1.20\n";
    assert_eq!(forward_target(config, "raspi", "192.168.1.20"), "127.0.0.1");
    assert_eq!(forward_target(config, "raspi", "10.0.0.9"), "10.0.0.9");
    assert_eq!(forward_target(config, "raspi", ""), "localhost");
}

#[test]
fn password_previews_show_the_line_shape_and_never_the_secret() {
    let s = Settings::default();
    let c = conn(Engine::Pg, "prod", "", "app", "me");
    let p = Prompt::password(&c);
    assert_eq!(p.title, "save the password for 'prod'");
    assert_eq!(
        p.command_preview_in(&s, None, "/h"),
        Some("~/.pgpass   localhost:5432:*:me:••••".to_string())
    );
    let m = conn(Engine::MySql, "prod", "db", "", "me");
    let p = Prompt::password(&m);
    assert_eq!(p.fields.len(), 1);
    assert_eq!(
        p.command_preview_in(&s, None, "/h"),
        Some("~/.my.cnf   [clientprod]  password=••••".to_string())
    );
    assert_eq!(p.note(), "");
    let cred = Cred {
        engine: Engine::Pg,
        host: "h".into(),
        port: "5432".into(),
        database: "*".into(),
        user: "bob".into(),
        source: Source::Pgpass(0),
    };
    let p = Prompt::edit_password(&cred, 0);
    assert_eq!(p.title, "which connection is bob's password for?");
    assert_eq!(
        p.command_preview_in(&s, None, "/h"),
        Some("~/.pgpass   h:5432:*:bob:•••• (kept)".to_string())
    );
}

#[test]
fn a_snippet_form_previews_how_it_is_typed() {
    let s = Settings::default();
    let snip = Snippet {
        name: "tables".into(),
        sql: "-- list\nselect 1\n from t;".into(),
        path: String::new(),
    };
    let p = Prompt::snippet(Some(&snip));
    assert_eq!(p.title, "Edit the snippet 'tables'");
    assert_eq!(p.fields[1].value, "select 1 from t;");
    assert_eq!(
        p.command_preview_in(&s, None, "/h"),
        Some("esql <connection> :tables".to_string())
    );
    let blank = Prompt::snippet(None);
    assert_eq!(blank.title, "New saved query");
    assert_eq!(blank.command_preview_in(&s, None, "/h"), None);
}

#[test]
fn the_add_wizard_names_its_file_under_tilde() {
    let p = Prompt::add_conn_in(Engine::MySql, None, "/home/me", "/home/me/.config");
    assert_eq!(p.title, "Add a mysql connection to ~/.my.cnf");
    assert_eq!(p.command_preview_in(&Settings::default(), None, "/home/me"), None);
}

#[test]
fn a_draft_keeps_only_what_changes_the_argv() {
    let mut c = conn(Engine::Pg, " prod ", "db", "app", "me");
    c.extra = vec![("sslmode".into(), "require".into())];
    let p = Prompt::edit_conn(&c);
    let d = p.draft_conn().unwrap();
    assert_eq!(d.name, "prod");
    assert!(d.extra.is_empty(), "encryption lives only in the block");
    let enter = shell_join_display_in("/h", &d.connect_argv_in(&Settings::default(), None, "/h"));
    assert_eq!(enter, "psql service=prod");
}

#[test]
fn values_start_at_a_fixed_column_unless_a_label_is_long() {
    let short = vec![Field::new("Name", "")];
    assert_eq!(value_column(&short), 14);
    let long = vec![Field::new("A label of twenty chars", "").required()];
    assert_eq!(value_column(&long), 22);
    let mid = vec![Field::new("Tunnel through", "").required()];
    assert_eq!(value_column(&mid), 18);
    assert_eq!(value_column(&[]), 14);
}
