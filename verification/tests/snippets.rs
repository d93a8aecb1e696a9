use easysql::snippets::{get, list, psqlrc_block, save, splice, Snippet, START};

fn snip(name: &str, sql: &str) -> Snippet {
    Snippet {
        name: name.into(),
        sql: sql.into(),
        path: String::new(),
    }
}

#[test]
fn a_name_that_would_escape_the_directory_is_refused() {
    for bad in ["../../.bashrc", "a/b", "", "  ", ".hidden"] {
        assert!(save(bad, "select 1;").is_err(), "should have refused {bad:?}");
    }
    assert!(save("fine", "select 1;").is_ok());
}

#[test]
fn a_saved_snippet_is_a_file_ending_in_a_newline() {
    let (file, body) = save(" tables ", "select 1;").unwrap();
    assert_eq!(file, "tables.sql");
    assert_eq!(body, "select 1;\n");
    let (_, body) = save("x", "select 2;\n").unwrap();
    assert_eq!(body, "select 2;\n");
}

#[test]
fn the_psqlrc_block_is_one_set_per_snippet_with_quotes_escaped() {
    let snips = vec![
        snip("quoted", "select 'it''s fine';"),
        snip("multi", "select 1\n -- a comment\n from x;"),
    ];
    let block = psqlrc_block(&snips);
    assert!(
        block.contains(r"\set quoted 'select \'it\'\'s fine\';'"),
        "{block}"
    );
    assert!(block.contains(r"\set multi 'select 1 from x;'"), "{block}");
    assert!(
        !block.contains("-- a comment"),
        "comments are stripped: {block}"
    );
}

#[test]
fn splicing_keeps_the_users_own_lines_and_replaces_only_our_block() {
    let mine = "\\set PROMPT1 mine\n\\timing on\n";
    let first = splice(mine, &psqlrc_block(&[snip("a", "select 1;")]));
    assert!(first.contains("\\set PROMPT1 mine"));
    assert!(first.contains("\\timing on"));
    assert!(first.contains("\\set a 'select 1;'"));

    let second = splice(&first, &psqlrc_block(&[snip("b", "select 2;")]));
    assert_eq!(second.matches(START).count(), 1, "{second}");
    assert!(second.contains("\\set b 'select 2;'"));
    assert!(
        !second.contains("\\set a "),
        "the old block is gone: {second}"
    );
    assert!(
        second.contains("\\timing on"),
        "and the user's lines survive"
    );

    let again = splice(&second, &psqlrc_block(&[snip("b", "select 2;")]));
    assert_eq!(again, second);
}

#[test]
fn snippets_list_by_name_and_are_found_by_it() {
    let found = vec![snip("zeta", "select 26;"), snip("alpha", "select 1;"), snip("mid", "x")];
    let l = list(found);
    let names: Vec<&str> = l.iter().map(|s| s.name.as_str()).collect();
    assert_eq!(names, vec!["alpha", "mid", "zeta"]);
    assert_eq!(get(&l, "mid").map(|s| s.sql), Some("x".to_string()));
    assert!(get(&l, "nope").is_none());
    assert_eq!(snip("s", "-- note\n  select 1\n\n  from t  \n").summary(), "select 1 from t");
}
