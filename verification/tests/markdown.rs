use easysql::markdown::{render, unescape, Rows};

fn cells(row: &str) -> usize {
    let mut prev = ' ';
    let mut n = 0;
    for c in row.chars() {
        if c == '|' && prev != '\\' {
            n += 1;
        }
        prev = c;
    }
    n - 1
}

#[test]
fn a_quoted_comma_or_newline_stays_in_one_cell() {
    let csv = "a,b\r\n\"x,y\",\"one\n  two | three\"\r\n";
    let tsv = "a\tb\nx,y\tone\\n  two | three\n";
    for (out, rows) in [(csv, Rows::Csv), (tsv, Rows::Tsv)] {
        let md = render(out, rows);
        let lines: Vec<&str> = md.lines().collect();
        assert_eq!(lines.len(), 3, "a header, a rule and one row, got:\n{md}");
        assert_eq!(
            cells(lines[2]),
            2,
            "the row should still be two cells, got:\n{md}"
        );
    }
}

#[test]
fn a_change_in_field_count_starts_a_new_table() {
    let md = render("a,b\n1,2\nc\n3\n", Rows::Csv);
    let rules = md.lines().filter(|l| l.starts_with("| -")).count();
    assert_eq!(rules, 2, "two results should draw two tables, got:\n{md}");
}

#[test]
fn a_table_is_padded_to_its_widest_cell() {
    let md = render("id,name\n1,alice\n", Rows::Csv);
    assert_eq!(md, "| id  | name  |\n| --- | ----- |\n| 1   | alice |\n");
    let two = render("a\n1\nb,c\n2,3\n", Rows::Csv);
    assert_eq!(
        two,
        "| a   |\n| --- |\n| 1   |\n\n| b   | c   |\n| --- | --- |\n| 2   | 3   |\n"
    );
    assert_eq!(render("", Rows::Csv), "");
}

#[test]
fn mysql_escapes_are_undone() {
    let u = |s: &str| -> String { unescape(&s.chars().collect::<Vec<char>>()).into_iter().collect() };
    assert_eq!(u("a\\nb"), "a\nb");
    assert_eq!(u("a\\tb"), "a\tb");
    assert_eq!(u("a\\0b"), "ab");
    assert_eq!(u("a\\\\b"), "a\\b");
    assert_eq!(u("end\\"), "end\\");
}
