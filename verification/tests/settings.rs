use easysql::settings::{load, ConnOrder, Settings};

#[test]
fn list_order_separates_grouping_by_engine_from_sorting_by_name() {
    let mut s = Settings::default();
    s.set("conn_order", "name");
    assert!(matches!(s.conn_order, ConnOrder::Name));
    s.set("conn_order", "engine");
    assert!(matches!(s.conn_order, ConnOrder::Engine));
    s.set("conn_order", "alphabetical");
    assert!(matches!(s.conn_order, ConnOrder::Engine));
    s.set("conn_order", "nonsense");
    assert!(matches!(s.conn_order, ConnOrder::Recent));
}

#[test]
fn a_saved_file_loads_back_as_the_same_settings() {
    let mut s = Settings::default();
    s.set("psql_command", "pgcli");
    s.set("probe_timeout", "7");
    s.set("mssql_passwords", "on");
    let text = s.save("");
    let back = load(&text);
    assert_eq!(back.psql_command, "pgcli");
    assert_eq!(back.probe_timeout, 7);
    assert!(back.mssql_passwords);
    assert!(back.probe);
}

#[test]
fn reset_puts_back_the_default_and_cycle_walks_the_choices() {
    let mut s = Settings::default();
    s.set("conn_order", "name");
    s.reset("conn_order");
    assert!(matches!(s.conn_order, ConnOrder::Recent));
    s.cycle("conn_order", 1);
    assert!(!matches!(s.conn_order, ConnOrder::Recent));
    s.cycle("conn_order", -1);
    assert!(matches!(s.conn_order, ConnOrder::Recent));
    assert_eq!(s.rows().len(), 10);
}

#[test]
fn an_unknown_line_or_a_bad_number_leaves_the_default() {
    let s = load("nonsense = 1\nprobe_timeout = lots\nhints = off\n");
    assert_eq!(s.probe_timeout, 2);
    assert!(!s.hints);
}

#[test]
fn a_key_this_build_does_not_know_survives_a_save() {
    let old = "# mine\nfuture_key = 1\nprobe = off\n";
    let s = load(old);
    let text = s.save(old);
    assert!(text.contains("\nfuture_key = 1\n"));
    assert!(!text.contains("# mine"));
    let back = load(&text);
    assert!(!back.probe);
    assert_eq!(back.save(&text), text);
}

#[test]
fn cycling_a_timeout_on_one_of_its_answers_and_back_restores_it() {
    let mut s = Settings::default();
    s.set("probe_timeout", "5");
    s.cycle("probe_timeout", 2);
    assert_eq!(s.probe_timeout, 1);
    s.cycle("probe_timeout", -2);
    assert_eq!(s.probe_timeout, 5);
    s.reset("probe_timeout");
    assert_eq!(s.probe_timeout, 2);
    s.set("tunnel_host", "bastion");
    s.reset("tunnel_host");
    assert_eq!(s.tunnel_host, "");
}

#[test]
fn cycling_moves_one_row_round_its_choices_and_no_other() {
    let mut s = Settings::default();
    let before: Vec<String> = s.rows().iter().map(|r| r.value.clone()).collect();
    s.cycle("conn_order", 5);
    let after: Vec<String> = s.rows().iter().map(|r| r.value.clone()).collect();
    assert_eq!(after[2], "name");
    for i in 0..10 {
        if i != 2 {
            assert_eq!(after[i], before[i]);
        }
    }
    let mut t = Settings::default();
    t.cycle("tunnel_host", 1);
    t.cycle("no_such_key", 1);
    assert_eq!(t.rows().iter().map(|r| r.value.clone()).collect::<Vec<String>>(), before);
}
