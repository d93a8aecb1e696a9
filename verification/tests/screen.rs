use easysql::engines::{Conn, Engine};
use easysql::forms::Prompt;
use easysql::reach::Reach;
use easysql::screen::{
    conn_lines, conn_pane, confirm_lines, confirm_size, counted, detail_fits, fit, fit_end,
    help_lines, nothing_here, prompt_lines, reach_line, row, settings_pane, status, tunnel_pane, ConnFacts,
    Line, Pane, RowFacts, Tone,
};
use easysql::settings::Settings;
use easysql::toolbox::{Confirm, ConfirmAction, Tab};
use easysql::tunnels::Entry;
use easysql::vias::Via;
use easysql::widgets::{box_area, Area};

fn text(l: &Line) -> String {
    l.pieces.iter().map(|p| p.text.as_str()).collect()
}

fn server() -> Conn {
    Conn {
        engine: Engine::Pg,
        name: "prod".into(),
        host: "127.0.0.1".into(),
        port: "6543".into(),
        database: "app".into(),
        user: "me".into(),
        extra: vec![("sslmode".to_string(), "require".to_string())],
    }
}

fn facts() -> ConnFacts {
    ConnFacts {
        reach: Some(Reach::Up(0)),
        sleeping: None,
        opened: Some((1_000, 2)),
        now: 1_000 + 7_200,
        file_exists: false,
        has_password: true,
        via: Some((
            Via {
                host: "bastion".into(),
                target: "10.0.0.5".into(),
                port: "5432".into(),
                local: "6543".into(),
            },
            false,
        )),
        store: "/home/me/.pg_service.conf".into(),
        home: "/home/me".into(),
    }
}

#[test]
fn a_column_is_padded_or_cut_with_an_ellipsis() {
    assert_eq!(fit("abcdef", 4), "abc…");
    assert_eq!(fit("ab", 4), "ab  ");
    assert_eq!(fit("abc", 0), "…");
    assert_eq!(fit_end("abcdef", 4), "abc…");
    assert_eq!(fit_end("abcdef", 1), "");
    assert_eq!(fit_end("abc", 5), "abc");
}

#[test]
fn a_pane_title_counts_what_a_filter_lets_through() {
    assert_eq!(counted("Connections", 2, 5), " Connections (2/5) ");
    assert_eq!(counted("Snippets", 3, 3), " Snippets (3) ");
    assert_eq!(nothing_here(0, 0, "x", "empty"), Some("empty".to_string()));
    assert_eq!(
        nothing_here(4, 0, "zz", "empty"),
        Some("Nothing matches 'zz'.\nEsc clears the filter.".to_string())
    );
    assert_eq!(nothing_here(4, 2, "zz", "empty"), None);
}

#[test]
fn a_label_fills_its_column_and_keeps_a_space_after_it() {
    let l = row("Host", "db".to_string());
    assert_eq!(l.pieces[0].text, "Host       ");
    assert_eq!(l.pieces[0].tone, Tone::Dim);
    let l = row("Needs tunnel", "through b".to_string());
    assert_eq!(text(&l), "Needs tunnel through b");
}

#[test]
fn the_port_line_says_what_the_probe_found() {
    assert_eq!(text(&reach_line(Some(Reach::Up(0)), None)), "● up · answered instantly");
    assert_eq!(text(&reach_line(Some(Reach::Up(12)), None)), "● up · answered in 12 ms");
    let l = reach_line(Some(Reach::Down), Some("bastion"));
    assert_eq!(text(&l), "● tunnel to bastion is not open · Enter reopens it and connects");
    assert_eq!(l.pieces[0].tone, Tone::Yellow);
    assert_eq!(text(&reach_line(None, None)), "○ not checked (r to check)");
}

#[test]
fn the_detail_panel_lists_a_connection_and_what_it_needs() {
    let c = server();
    let lines = conn_lines(Some(&c), &facts(), &[], &Settings::default());
    let all: Vec<String> = lines.iter().map(text).collect();
    assert_eq!(all[0], "prod");
    assert_eq!(all[1], "postgres");
    assert_eq!(all[3], "● up · answered instantly");
    assert_eq!(all[4], "last 2h ago · opened 2 times");
    assert!(all.contains(&"Port       6543".to_string()));
    assert!(all.contains(&"sslmode    require".to_string()));
    assert!(all.contains(&"password on file (the client reads it itself)".to_string()));
    assert!(all.contains(&"Needs tunnel through bastion".to_string()));
    assert!(all.contains(&"Defined in ~/.pg_service.conf".to_string()));
    assert_eq!(all[all.len() - 1], "esql prod");
    assert!(all.iter().all(|l| !l.contains("but this connects to")));
    let none = conn_lines(None, &facts(), &[], &Settings::default());
    assert_eq!(text(&none[0]), "nothing selected");
}

#[test]
fn a_running_forward_to_the_same_port_is_named_in_the_panel() {
    let c = server();
    let t = Entry {
        owner: None,
        kind: 'L',
        spec: "7000:127.0.0.1:6543".into(),
        host: "jump".into(),
        live: None,
    };
    let lines = conn_lines(Some(&c), &facts(), &[t], &Settings::default());
    let all: Vec<String> = lines.iter().map(text).collect();
    assert!(all.contains(&"Tunnels    localhost:7000 via jump".to_string()));
}

#[test]
fn connection_rows_share_their_column_widths() {
    let a = server();
    let mut b = server();
    b.name = "reporting".into();
    b.engine = Engine::MySql;
    let f = RowFacts { reach: None, sleeping: false, last: None, installed: true, has_password: false };
    let pane = conn_pane(&[a, b], &[f, f], 2, "", true, 0, "/home/me", 120);
    match pane {
        Pane::List { title, rows } => {
            assert_eq!(title, " Connections (2) ");
            assert_eq!(rows.len(), 2);
            assert_eq!(rows[0].pieces[2].text, "prod     ");
            assert_eq!(rows[1].pieces[2].text, "reporting");
            assert_eq!(rows[0].pieces[0].text, "○");
        }
        Pane::Message { .. } => panic!("expected rows"),
    }
    match conn_pane(&[], &[], 0, "", false, 0, "/home/me", 120) {
        Pane::Message { title, text } => {
            assert_eq!(title, " Connections (0) ");
            assert!(text.starts_with("No saved connections yet."));
            assert!(text.contains("No database client is installed here yet either."));
        }
        Pane::List { .. } => panic!("expected a message"),
    }
}

#[test]
fn a_setting_chosen_stands_out_and_its_group_is_named_once() {
    let s = Settings::default();
    let rows = s.rows();
    let n = rows.len();
    match settings_pane(&rows, n, "", 200) {
        Pane::List { rows: lines, .. } => {
            assert_eq!(lines[0].pieces[0].text.trim(), "behaviour");
            assert_eq!(lines[1].pieces[0].text.trim(), "");
            assert_eq!(lines[0].pieces[4].tone, Tone::Plain);
        }
        Pane::Message { .. } => panic!("expected rows"),
    }
}

#[test]
fn the_status_line_shows_the_query_or_the_hints() {
    let l = status(true, "pro", 3, None, false, Tab::Connections);
    assert_eq!(text(&l), " /pro█   3 match   ↵ keep · Esc clear");
    let l = status(false, "", 0, Some("saved"), false, Tab::Settings);
    assert_eq!(text(&l), " saved");
    assert_eq!(l.pieces[0].tone, Tone::Green);
    let l = status(false, "pro", 0, None, false, Tab::Tunnels);
    assert_eq!(text(&l), " /pro  (Esc clears) · d kill · r refresh · / find · ? help");
}

#[test]
fn a_yes_no_box_is_sized_to_its_message() {
    assert_eq!(confirm_size(100, 40, "Delete prod?"), (66, 7));
    assert_eq!(confirm_size(20, 40, "x"), (34, 7));
    assert_eq!(confirm_size(200, 5, "x"), (74, 5));
    let c = Confirm::new("Delete".to_string(), "Delete prod?".to_string(), ConfirmAction::DeleteSnippet { name: "x".to_string() });
    let lines = confirm_lines(&c);
    assert_eq!(text(&lines[0]), "Delete prod?");
    assert_eq!(text(&lines[2]), " Yes (y)    No (n)    ←/→ then Enter");
    assert!(detail_fits(96));
    assert!(!detail_fits(95));
}

#[test]
fn a_form_lists_its_fields_the_command_and_its_keys() {
    let c = server();
    let p = Prompt::edit_conn(&c);
    let (lines, texts) = prompt_lines(&p, &[], &Settings::default(), None, "/home/me");
    assert_eq!(lines.len(), texts.len());
    assert!(texts[0].starts_with("▸ Name*:"));
    assert!(texts.iter().any(|t| t.starts_with("  runs  ")));
    assert!(texts[texts.len() - 1].starts_with("↑↓ tab move"));
    assert!(texts[texts.len() - 1].ends_with(" · * required"));
    assert_eq!(lines[lines.len() - 1].pieces[0].tone, Tone::Hint);
}

#[test]
fn the_help_box_ends_with_the_key_that_closes_it() {
    let lines = help_lines();
    assert_eq!(lines.len(), 30);
    assert_eq!(text(&lines[lines.len() - 1]), "? esc close");
    assert_eq!(lines[0].pieces[0].tone, Tone::Bold);
}

#[test]
fn a_box_is_centered_and_never_larger_than_the_screen() {
    let screen = Area { x: 0, y: 0, width: 100, height: 40 };
    assert_eq!(box_area(screen, 60, 10), Area { x: 20, y: 15, width: 60, height: 10 });
    assert_eq!(box_area(screen, 200, 80), screen);
    for w in 1..8usize {
        assert_eq!(fit("abcdefgh", w).chars().count(), w);
        assert!(fit_end("abcdefgh", w).chars().count() <= w);
    }
}

#[test]
fn a_tunnel_row_names_the_connection_it_was_opened_for() {
    let conns = vec![server()];
    let rows = vec![
        ("L 6543:10.0.0.5:5432 via bastion".to_string(), Some("pg:prod".to_string())),
        ("L 7000:db:5432 via hop".to_string(), Some("pg:gone".to_string())),
        ("L 8000:db:80 via hop".to_string(), None),
    ];
    match tunnel_pane(&rows, &conns, 3, "", 120) {
        Pane::List { title, rows } => {
            assert_eq!(title, " Tunnels (3) ");
            assert_eq!(text(&rows[0]), "L 6543:10.0.0.5:5432 via bastion   for prod (postgres)");
            assert_eq!(rows[0].pieces[1].tone, Tone::Dim);
            assert_eq!(text(&rows[1]), "L 7000:db:5432 via hop   for a connection that no longer exists");
            assert_eq!(text(&rows[2]), "L 8000:db:80 via hop");
        }
        _ => panic!("three rows make a list"),
    }
    match tunnel_pane(&rows[..1], &conns, 1, "", 40) {
        Pane::List { rows, .. } => assert_eq!(rows[0].pieces[1].text, "   …"),
        _ => panic!("one row makes a list"),
    }
    assert!(matches!(tunnel_pane(&[], &conns, 0, "", 80), Pane::Message { .. }));
}
