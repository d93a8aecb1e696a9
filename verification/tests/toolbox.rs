use easysql::creds::{Cred, Source};
use easysql::engines::{Conn, Engine, PackageManager};
use easysql::forms::Prompt;
use easysql::probe::{Failure, Fix};
use easysql::settings::Settings;
use easysql::toolbox::{
    clamp, conns_key, fix_offer, install_offer, move_state, nav, passwords_key, resolve, route,
    search, settings_key, snippets_key, tunnel_carrying, tunnels_key, Confirm, ConfirmAction,
    ConfirmStep, Key, KeyPress, Machine, Nav, Outcome, PromptStep, Resolution, Route, SearchStep,
    Submission, Tab, pick_engine, pick_password_target, picked, Picker, PickerAction, PickerStep,
};
use easysql::tunnels::Tunnel;

fn key(code: Key) -> KeyPress {
    KeyPress { code, ctrl: false }
}

fn ctrl(code: Key) -> KeyPress {
    KeyPress { code, ctrl: true }
}

fn conn(engine: Engine, name: &str, host: &str) -> Conn {
    Conn {
        engine,
        name: name.into(),
        host: host.into(),
        port: String::new(),
        database: "app".into(),
        user: "me".into(),
        extra: Vec::new(),
    }
}

fn machine() -> Machine {
    Machine {
        settings: Settings::default(),
        manager: Some(PackageManager::Apt),
        recorded: Vec::new(),
        ssh_config: String::new(),
        pgservicefile: None,
        pgpassfile: None,
        home: "/home/me".into(),
        config_dir: "/home/me/.config".into(),
    }
}

#[test]
fn typing_into_a_field_and_backspace_takes_it_back() {
    let c = conn(Engine::MySql, "prod", "db");
    let mut p = Prompt::edit_conn(&c);
    assert!(matches!(p.on_key(key(Key::Char('x')), ""), PromptStep::Stay));
    assert_eq!(p.fields[0].value, "prodx");
    p.on_key(key(Key::Backspace), "");
    assert_eq!(p.fields[0].value, "prod");
    assert!(matches!(p.on_key(key(Key::Tab), ""), PromptStep::Stay));
    assert_eq!(p.idx, 1);
    p.on_key(key(Key::Up), "");
    p.on_key(key(Key::Up), "");
    assert_eq!(p.idx, 4);
    assert!(matches!(p.on_key(key(Key::Enter), ""), PromptStep::Submit));
    assert!(matches!(p.on_key(ctrl(Key::Char('c')), ""), PromptStep::Cancelled));
}

#[test]
fn a_choice_field_cycles_with_h_and_l_and_types_nothing() {
    let c = conn(Engine::Pg, "prod", "db");
    let mut p = Prompt::edit_conn(&c);
    p.idx = 5;
    p.on_key(key(Key::Char('l')), "");
    p.on_key(key(Key::Char('l')), "");
    assert_eq!(p.fields[5].choice, 2);
    p.on_key(key(Key::Char('h')), "");
    assert_eq!(p.fields[5].choice, 1);
    p.on_key(key(Key::Char('h')), "");
    p.on_key(key(Key::Char('h')), "");
    assert_eq!(p.fields[5].choice, 5, "wraps to the last answer");
    p.on_key(key(Key::Char('z')), "");
    assert_eq!(p.fields[5].value, "");
}

#[test]
fn a_submitted_postgres_form_carries_the_keys_it_did_not_ask_about() {
    let mut c = conn(Engine::Pg, "prod", "db");
    c.extra = vec![
        ("connect_timeout".into(), "3".into()),
        ("SSLMODE".into(), "disable".into()),
    ];
    let conns = vec![c.clone()];
    let mut p = Prompt::edit_conn(&c);
    p.fields[0].value = "  prod2 ".into();
    p.fields[5].choice = 2;
    p.fields[6].choice = 1;
    match p.submission(&conns) {
        Submission::SaveConn { original, conn, renamed } => {
            assert_eq!(original.as_deref(), Some("prod"));
            assert_eq!(conn.name, "prod2");
            assert_eq!(
                conn.extra,
                vec![
                    ("connect_timeout".to_string(), "3".to_string()),
                    ("sslmode".to_string(), "require".to_string()),
                    ("options".to_string(), "-c default_transaction_read_only=on".to_string()),
                ]
            );
            assert_eq!(renamed, Some(("pg:prod".to_string(), "pg:prod2".to_string())));
        }
        _ => panic!("a named connection is saved"),
    }
}

#[test]
fn a_blank_required_field_refuses_the_submit() {
    let c = conn(Engine::Sqlite, "notes", "");
    let mut p = Prompt::edit_conn(&c);
    p.fields[1].value = "   ".into();
    assert!(matches!(p.submission(&vec![]), Submission::Refused(m) if m == "a database file is required"));
    p.fields[0].value = String::new();
    assert!(matches!(p.submission(&vec![]), Submission::Refused(m) if m == "a name is required"));
}

#[test]
fn a_tunnel_submission_defaults_the_local_port() {
    let s = Settings {
        tunnel_host: "bastion".into(),
        ..Settings::default()
    };
    let c = conn(Engine::Pg, "prod", "10.0.0.5");
    let p = Prompt::forward(&c, &s, &Vec::new(), "");
    match p.submission(&vec![]) {
        Submission::OpenTunnel { key, via, target, port, local } => {
            assert_eq!((key.as_str(), via.as_str()), ("pg:prod", "bastion"));
            assert_eq!((target.as_str(), port.as_str(), local.as_str()), ("10.0.0.5", "5432", "5432"));
        }
        _ => panic!("every field is filled"),
    }
    let mut blank = Prompt::forward(&c, &Settings::default(), &Vec::new(), "");
    blank.fields[0].value.clear();
    assert!(matches!(blank.submission(&vec![]),
        Submission::Refused(m) if m == "tunnel: an ssh host to tunnel through is required"));
}

#[test]
fn a_gate_starts_on_no_and_an_offer_on_yes() {
    let mut g = Confirm::new("t".into(), "m".into(), ConfirmAction::DeleteSnippet { name: "x".into() });
    assert_eq!(g.on_key(key(Key::Enter)), ConfirmStep::Cancelled);
    assert_eq!(g.on_key(key(Key::Tab)), ConfirmStep::Stay);
    assert_eq!(g.on_key(key(Key::Enter)), ConfirmStep::Proceed);
    assert_eq!(g.on_key(key(Key::Char('q'))), ConfirmStep::Stay);
    assert_eq!(g.on_key(key(Key::Char('N'))), ConfirmStep::Cancelled);
    let mut o = Confirm::offer("t".into(), "m".into(), ConfirmAction::FixConn { key: "pg:x".into() });
    assert_eq!(o.on_key(key(Key::Enter)), ConfirmStep::Proceed);
}

#[test]
fn a_confirmed_repoint_fills_in_the_loopback_and_the_local_port() {
    let c = conn(Engine::Pg, "prod", "10.0.0.5");
    let conns = vec![c];
    let m = machine();
    match resolve(
        ConfirmAction::RepointConn { key: "pg:prod".into(), local: "6543".into() },
        &conns,
        &m.settings,
        &m.recorded,
        "",
        None,
    ) {
        Resolution::OpenPrompt(p) => {
            assert_eq!(p.fields[1].value, "127.0.0.1");
            assert_eq!(p.fields[2].value, "6543");
        }
        _ => panic!("the connection is there"),
    }
    assert!(matches!(
        resolve(ConfirmAction::DeleteConn { engine: Engine::Pg, name: "gone".into() }, &conns, &m.settings, &m.recorded, "", None),
        Resolution::Status(s) if s == "'gone' is already gone"
    ));
    match resolve(ConfirmAction::InstallClient { engine: Engine::Pg }, &conns, &m.settings, &m.recorded, "", Some(PackageManager::Apt)) {
        Resolution::Run { argv, label } => {
            assert_eq!(argv, vec!["sudo", "apt-get", "install", "postgresql-client"]);
            assert_eq!(label, "sudo apt-get install postgresql-client");
        }
        _ => panic!("apt has the package"),
    }
}

#[test]
fn only_the_default_client_is_offered_for_install() {
    let mut s = Settings::default();
    s.psql_command = "pgcli".into();
    assert!(matches!(install_offer(Engine::Pg, &s, Some(PackageManager::Apt)),
        Outcome::Status(m) if m == "'pgcli' is not on PATH (Settings · postgres with)"));
    match install_offer(Engine::Pg, &Settings::default(), Some(PackageManager::Apt)) {
        Outcome::Confirm(c) => {
            assert_eq!(c.title, "psql is not installed");
            assert!(c.yes && !c.danger);
            assert!(c.message.contains("Run `sudo apt-get install postgresql-client` now?"));
        }
        _ => panic!("apt knows postgresql-client"),
    }
    assert!(matches!(install_offer(Engine::Pg, &Settings::default(), None),
        Outcome::Status(m) if m.starts_with("psql is not installed, and I do not recognise")));
}

#[test]
fn a_failed_open_offers_the_step_that_gets_you_in() {
    let c = conn(Engine::Pg, "prod", "10.0.0.5");
    let f = Failure { said: "FATAL: no password supplied".into(), fix: Fix::Password };
    let o = fix_offer(&c, f, None);
    assert_eq!(o.title, "the server wants a password");
    assert!(o.message.starts_with("FATAL: no password supplied. easysql can save one where ~/.pgpass looks"));
    assert!(matches!(o.action, ConfirmAction::SavePassword { ref key } if key == "pg:prod"));
    let t = Failure { said: "Connection refused".into(), fix: Fix::Tunnel };
    let o = fix_offer(&c, t, Some("6543".into()));
    assert_eq!(o.title, "a tunnel to it is already open");
    assert!(o.message.contains("carrying 10.0.0.5:5432, reachable here as localhost:6543"));
}

#[test]
fn a_forward_to_the_connections_host_and_port_is_the_one_carrying_it() {
    let c = conn(Engine::Pg, "prod", "10.0.0.5");
    let live = vec![
        Tunnel { pid: 1, kind: 'L', spec: "9000:10.0.0.5:80".into(), host: "b".into(), log: String::new() },
        Tunnel { pid: 2, kind: 'L', spec: "6543:10.0.0.5:5432".into(), host: "b".into(), log: String::new() },
    ];
    assert_eq!(tunnel_carrying(&live, &c, ""), Some("6543".to_string()));
    let config = "Host db\n  HostName 10.0.0.5\n";
    let on_host = vec![Tunnel { pid: 3, kind: 'L', spec: "7000:127.0.0.1:5432".into(), host: "db".into(), log: String::new() }];
    assert_eq!(tunnel_carrying(&on_host, &c, config), Some("7000".to_string()));
    assert_eq!(tunnel_carrying(&on_host, &c, ""), None);
}

#[test]
fn the_connections_tab_keys() {
    let m = machine();
    let lite = conn(Engine::Sqlite, "notes", "");
    assert!(matches!(conns_key(Key::Char('p'), Some(&lite), true, &m),
        Outcome::Status(s) if s == "a sqlite file has no password"));
    assert!(matches!(conns_key(Key::Char('t'), Some(&lite), true, &m),
        Outcome::Status(s) if s == "a sqlite file is already local; there is nothing to tunnel"));
    let ms = conn(Engine::MsSql, "reporting", "db");
    match conns_key(Key::Char('p'), Some(&ms), true, &m) {
        Outcome::Confirm(c) => {
            assert!(c.yes && !c.danger);
            assert_eq!(c.title, "keep sqlcmd's password?");
            assert!(c.message.contains("~/.esqlpass"));
            match resolve(c.action, &vec![ms.clone()], &m.settings, &m.recorded, "", None) {
                Resolution::KeepSqlcmdPasswords(p) => assert_eq!(p.title, "save the password for 'reporting'"),
                _ => panic!("accepting turns sqlcmd passwords on and asks for the password"),
            }
        }
        _ => panic!("with sqlcmd passwords off, p makes an offer"),
    }
    let mut on = machine();
    on.settings.mssql_passwords = true;
    match conns_key(Key::Char('p'), Some(&ms), true, &on) {
        Outcome::Prompt(mut p) => {
            assert_eq!(p.title, "save the password for 'reporting'");
            assert_eq!(p.fields.len(), 1);
            p.fields[0].value = "s3cret".into();
            assert!(matches!(p.submission(&vec![]),
                Submission::SetMsPassword { name, password } if name == "reporting" && password == "s3cret"));
        }
        _ => panic!("p offers to keep a sqlcmd password"),
    }
    let my = conn(Engine::MySql, "prod", "db");
    match conns_key(Key::Char('d'), Some(&my), true, &m) {
        Outcome::Confirm(c) => {
            assert!(!c.yes && c.danger);
            assert_eq!(c.message, "Delete 'prod' from ~/.my.cnf? The database itself is untouched; this only forgets how to reach it.");
        }
        _ => panic!("d asks first"),
    }
    match conns_key(Key::Enter, Some(&my), true, &m) {
        Outcome::Open { argv, label, .. } => {
            assert_eq!(argv, vec!["mysql", "--defaults-group-suffix=prod"]);
            assert_eq!(label, "mysql --defaults-group-suffix=prod");
        }
        _ => panic!("Enter opens it"),
    }
    assert!(matches!(conns_key(Key::Enter, Some(&my), false, &m), Outcome::Confirm(_)));
    assert!(matches!(conns_key(Key::Char('y'), Some(&my), true, &m),
        Outcome::Copy(s) if s == "mysql --defaults-group-suffix=prod"));
    assert!(matches!(conns_key(Key::Char('e'), None, true, &m), Outcome::Nothing));
    assert!(matches!(conns_key(Key::Char('c'), None, true, &m), Outcome::PickEngine));
}

#[test]
fn the_other_tabs_keys() {
    let m = machine();
    let my = Cred {
        engine: Engine::MySql,
        host: "db".into(),
        port: "3306".into(),
        database: String::new(),
        user: "me".into(),
        source: Source::MyCnf("prod".into()),
    };
    assert!(matches!(passwords_key(Key::Char('e'), Some(&my), &m),
        Outcome::Status(s) if s == "this password lives in [clientprod]: edit the connection instead"));
    assert!(matches!(passwords_key(Key::Char('o'), Some(&my), &m),
        Outcome::EditFile(p) if p == "/home/me/.my.cnf"));
    match passwords_key(Key::Char('x'), Some(&my), &m) {
        Outcome::Confirm(c) => assert_eq!(
            c.message,
            "Remove the password for me from ~/.my.cnf [clientprod]? easysql never read it and cannot put it back."
        ),
        _ => panic!("forgetting asks first"),
    }
    assert!(matches!(tunnels_key(Key::Char('d'), Some(42)), Outcome::Kill(42)));
    assert!(matches!(snippets_key(Key::Char('c'), None), Outcome::Prompt(_)));
    let rows = Settings::default().rows();
    assert!(matches!(settings_key(Key::Enter, Some(&rows[0])), Outcome::CycleSetting { key } if key == "probe"));
    assert!(matches!(settings_key(Key::Enter, Some(&rows[3])), Outcome::Prompt(_)));
    assert!(matches!(settings_key(Key::Char('d'), Some(&rows[3])), Outcome::ResetSetting { key } if key == "psql_command"));
}

#[test]
fn tabs_lists_and_where_keys_go() {
    assert_eq!(Tab::Connections.cycle(-1), Tab::Settings);
    assert_eq!(Tab::Settings.cycle(1), Tab::Connections);
    assert_eq!(Tab::Tunnels.title(), "Tunnels (ssh -L)");
    assert_eq!(move_state(Some(0), 3, -1), Some(2));
    assert_eq!(move_state(Some(2), 3, 1), Some(0));
    assert_eq!(move_state(None, 0, 1), None);
    assert_eq!(clamp(Some(7), 3), Some(2));
    assert_eq!(clamp(Some(1), 0), None);
    assert_eq!(nav(ctrl(Key::Char('c')), true), Nav::Quit);
    assert_eq!(nav(key(Key::Esc), false), Nav::ClearFilter);
    assert_eq!(nav(key(Key::Esc), true), Nav::TabKey);
    assert_eq!(nav(key(Key::Char('h')), true), Nav::CycleTab(-1));
    assert_eq!(nav(ctrl(Key::Char('x')), true), Nav::Ignore);
    assert_eq!(search(key(Key::Char('q'))), SearchStep::Push('q'));
    assert_eq!(search(key(Key::Enter)), SearchStep::Keep);
    assert_eq!(route(Key::Char('x'), true, true, false, false, false), Route::Ignore);
    assert_eq!(route(Key::Char('x'), false, false, false, true, true), Route::Prompt);
}

#[test]
fn a_picker_moves_round_its_ends_and_picks_the_value_not_the_row() {
    let rows = vec![("shown a".to_string(), "a".to_string()), ("shown b".to_string(), "b".to_string())];
    let mut p = Picker::keyed("t".into(), rows, PickerAction::PasswordFor);
    assert_eq!(p.items, vec!["shown a".to_string(), "shown b".to_string()]);
    assert_eq!(p.on_key(key(Key::Up)), PickerStep::Stay);
    assert_eq!(p.idx, 1);
    assert_eq!(p.on_key(key(Key::Char('j'))), PickerStep::Stay);
    assert_eq!(p.idx, 0);
    assert_eq!(p.on_key(key(Key::Char('j'))), PickerStep::Stay);
    assert_eq!(p.choice(), Some("b".to_string()));
    assert_eq!(p.on_key(key(Key::Enter)), PickerStep::Submit);
    assert_eq!(p.on_key(key(Key::Esc)), PickerStep::Cancelled);
    let mut empty = Picker::plain("t".into(), Vec::new(), PickerAction::NewConnEngine);
    assert_eq!(empty.on_key(key(Key::Enter)), PickerStep::Gone);
}

#[test]
fn the_engine_picker_names_the_package_a_missing_client_needs() {
    let p = pick_engine(&[true, false, true, false], Some(PackageManager::Apt));
    assert_eq!(p.title, "Which database?");
    assert_eq!(p.values, vec!["pg", "my", "lite", "ms"]);
    assert_eq!(p.items[0], "postgres  psql    ");
    assert!(p.items[1].starts_with("mysql     mysql   needs "));
    let p = pick_engine(&[true, false, true, true], None);
    assert_eq!(p.items[1], "mysql     mysql   no mysql on this machine");
}

#[test]
fn a_password_is_only_offered_for_a_client_that_reads_a_file() {
    let conns = vec![conn(Engine::Sqlite, "notes", ""), conn(Engine::Pg, "prod", "db")];
    let p = pick_password_target(&conns, "/home/me").unwrap();
    assert_eq!(p.values, vec!["pg:prod".to_string()]);
    assert!(p.items[0].starts_with("postgres  prod             "));
    assert!(pick_password_target(&vec![conn(Engine::Sqlite, "notes", "")], "/home/me").is_err());
    let opened = picked(PickerAction::PasswordFor, "pg:prod", &conns, None, "/home/me", "/home/me/.config");
    assert_eq!(opened.unwrap().title, "save the password for 'prod'");
    let add = picked(PickerAction::NewConnEngine, "sqlite", &conns, None, "/home/me", "/home/me/.config");
    assert!(add.unwrap().title.starts_with("Add a sqlite connection to "));
    assert!(picked(PickerAction::NewConnEngine, "oracle", &conns, None, "/home/me", "/home/me/.config").is_none());
}

#[test]
fn filling_the_hop_from_a_picker_sets_that_field_and_leaves_the_rest() {
    let c = conn(Engine::Pg, "prod", "db.internal");
    let mut p = Prompt::forward(&c, &Settings::default(), &Vec::new(), "");
    assert_eq!(p.fields[1].value, "db.internal");
    let said = p.fill(0, "db.internal", "");
    assert_eq!(p.fields[0].value, "db.internal");
    assert_eq!(said, None);
    assert_eq!(p.fields[1].value, "db.internal");
}
