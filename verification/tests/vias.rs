use easysql::tunnels::Tunnel;
use easysql::vias::{all, default_host, get_in, remove_in, rename, rows_from, set_in, Via};

fn via(local: &str, port: &str) -> Via {
    Via {
        host: "bastion".into(),
        target: "127.0.0.1".into(),
        port: port.into(),
        local: local.into(),
    }
}

fn running(spec: &str) -> Tunnel {
    Tunnel {
        pid: 4242,
        kind: 'L',
        spec: spec.into(),
        host: "bastion".into(),
        log: String::new(),
    }
}

#[test]
fn a_remembered_forward_is_listed_whether_or_not_it_is_running() {
    let recorded = vec![
        ("pg:prod".to_string(), via("5432", "5432")),
        ("pg:metrics".to_string(), via("5433", "5432")),
    ];
    let rows = rows_from(&[running("5432:127.0.0.1:5432")], recorded);
    assert_eq!(rows.len(), 2);
    assert!(rows[0].on());
    assert_eq!(rows[0].owner.as_deref(), Some("pg:prod"));
    assert!(!rows[1].on());
    assert_eq!(rows[1].owner.as_deref(), Some("pg:metrics"));
    assert_eq!(rows[1].spec, "5433:127.0.0.1:5432");
}

#[test]
fn holding_the_port_is_what_counts_as_carrying_it() {
    let recorded = vec![("pg:prod".to_string(), via("5432", "5432"))];
    let rows = rows_from(&[running("5432:10.0.0.9:5432")], recorded);
    assert_eq!(rows.len(), 1);
    assert!(rows[0].on());
    let rows = rows_from(&[running("9000:127.0.0.1:80")], Vec::new());
    assert_eq!(rows.len(), 1);
    assert!(rows[0].owner.is_none());
}

#[test]
fn a_via_is_remembered_carried_across_a_rename_and_forgotten() {
    let text = set_in("", "pg:prod", &via("5433", "5432"));
    assert_eq!(get_in(&text, "pg:prod"), Some(via("5433", "5432")));
    assert_eq!(via("5433", "5432").command(), "ssh -N -L 5433:127.0.0.1:5432 bastion");
    let moved = rename(&text, "pg:prod", "pg:live").unwrap();
    assert_eq!(get_in(&moved, "pg:prod"), None);
    assert_eq!(get_in(&moved, "pg:live"), Some(via("5433", "5432")));
    assert_eq!(rename(&moved, "pg:prod", "pg:x"), None);
    let gone = remove_in(&moved, "pg:live").unwrap();
    assert!(all(&gone).is_empty());
    assert_eq!(remove_in(&gone, "pg:live"), None);
}

#[test]
fn the_wizard_starts_on_the_one_bastion_everything_uses() {
    let one = vec![
        ("pg:a".to_string(), via("1", "1")),
        ("pg:b".to_string(), via("2", "2")),
    ];
    assert_eq!(default_host(&one, "pg:c"), Some("bastion".to_string()));
    let mut two = one.clone();
    two.push((
        "pg:d".to_string(),
        Via {
            host: "other".into(),
            ..via("3", "3")
        },
    ));
    assert_eq!(default_host(&two, "pg:c"), None);
    assert_eq!(default_host(&two, "pg:d"), Some("other".to_string()));
    assert_eq!(default_host(&Vec::new(), "pg:d"), None);
}

#[test]
fn a_via_set_for_a_new_key_reads_back_and_the_others_stay() {
    let text = set_in("# tunnels\n", "pg:a", &via("6000", "5432"));
    let text = set_in(&text, "my:b", &via("6001", "3306"));
    assert_eq!(get_in(&text, "my:b"), Some(via("6001", "3306")));
    assert_eq!(get_in(&text, "pg:a"), Some(via("6000", "5432")));
    let listed = all(&text);
    assert_eq!(listed.len(), 2);
    assert_eq!(listed[0].0, "pg:a");
    assert_eq!(listed[1], ("my:b".to_string(), via("6001", "3306")));
}

#[test]
fn a_via_set_again_for_the_same_key_replaces_it() {
    let text = set_in("", "pg:a", &via("6000", "5432"));
    let text = set_in(&text, "pg:b", &via("6001", "5432"));
    let text = set_in(&text, "pg:a", &via("7000", "5433"));
    assert_eq!(get_in(&text, "pg:a"), Some(via("7000", "5433")));
    assert_eq!(get_in(&text, "pg:b"), Some(via("6001", "5432")));
    assert_eq!(all(&text).len(), 2);
}

#[test]
fn remembering_one_via_leaves_every_other_key_as_it_read() {
    let text = set_in("", "pg:prod", &via("5433", "5432"));
    let text = set_in(&text, "my:shop", &via("3307", "3306"));
    let again = set_in(&text, "pg:prod", &via("6000", "5432"));
    assert_eq!(get_in(&again, "my:shop"), Some(via("3307", "3306")));
    assert_eq!(get_in(&again, "pg:prod"), Some(via("6000", "5432")));
    assert_eq!(get_in(&again, "lite:x"), None);
}
