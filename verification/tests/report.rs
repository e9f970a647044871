use elf_diff::report::{
    generate_report, i64_to_signed_decimal, report_rows, shorten_name, sort_by_size_diff, ChangeType,
    OutputType, ReportError, ReportOutput, SymbolDiff,
};

fn csv_text(r: Result<ReportOutput, ReportError>) -> String {
    match r {
        Ok(ReportOutput::Csv(b)) => String::from_utf8(b).unwrap(),
        _ => panic!("expected CSV"),
    }
}

fn line(name: &str, change_type: ChangeType, size_diff: i64) -> SymbolDiff {
    SymbolDiff { name: name.to_string(), change_type, size_diff }
}

#[test]
fn change_type_labels() {
    assert_eq!(ChangeType::Added.label(), "ADDED");
    assert_eq!(ChangeType::Removed.label(), "REMOVED");
    assert_eq!(ChangeType::Changed.label(), "CHANGED");
}

#[test]
fn csv_report_sorted_by_size_diff() {
    let diffs = vec![
        line("new_function()", ChangeType::Added, 128),
        line("old_function()", ChangeType::Removed, -64),
        line("modified_function()", ChangeType::Changed, 16),
    ];
    let text = csv_text(generate_report(diffs, OutputType::Csv, None));
    assert_eq!(
        text,
        "name,change_type,size_diff\nold_function(),REMOVED,-64\nmodified_function(),CHANGED,16\nnew_function(),ADDED,128\n"
    );
}

#[test]
fn csv_quotes_names_with_commas_and_does_not_cut() {
    let diffs = vec![line("f(int, long)", ChangeType::Added, 1)];
    let text = csv_text(generate_report(diffs, OutputType::Csv, Some(4)));
    assert_eq!(text, "name,change_type,size_diff\n\"f(int, long)\",ADDED,1\n");
}

#[test]
fn table_report_rows() {
    let diffs = vec![
        line("new_function()", ChangeType::Added, 128),
        line("old_function()", ChangeType::Removed, -64),
        line("modified_function()", ChangeType::Changed, 16),
    ];
    let t = match generate_report(diffs, OutputType::Table, Some(100)).unwrap() {
        ReportOutput::Table(t) => t,
        _ => panic!("expected a table"),
    };
    assert_eq!(t.header.symbol, "Symbol Name");
    assert_eq!(t.header.change, "Change");
    assert_eq!(t.header.size, "Size Difference");
    let rows: Vec<(&str, &str, &str)> =
        t.rows.iter().map(|r| (r.symbol.as_str(), r.change.as_str(), r.size.as_str())).collect();
    assert_eq!(
        rows,
        vec![
            ("old_function()", "REMOVED", "-64"),
            ("modified_function()", "CHANGED", "+16"),
            ("new_function()", "ADDED", "+128"),
        ]
    );
}

#[test]
fn signed_sizes() {
    assert_eq!(i64_to_signed_decimal(128), "+128");
    assert_eq!(i64_to_signed_decimal(0), "0");
    assert_eq!(i64_to_signed_decimal(-64), "-64");
}

#[test]
fn sort_is_stable_by_size_diff() {
    let v = vec![
        line("b", ChangeType::Added, 3),
        line("a", ChangeType::Added, 3),
        line("c", ChangeType::Removed, -1),
    ];
    let s = sort_by_size_diff(v);
    let names: Vec<&str> = s.iter().map(|d| d.name.as_str()).collect();
    assert_eq!(names, vec!["c", "b", "a"]);
}

#[test]
fn names_are_cut_to_the_width() {
    let long = "abcdefghij".to_string();
    assert_eq!(shorten_name(&long, Some(8)), "abcde...");
    assert_eq!(shorten_name(&long, Some(10)), "abcdefghij");
    assert_eq!(shorten_name(&long, Some(3)), "abcdefghij");
    assert_eq!(shorten_name(&long, None), "abcdefghij");
    // width counts bytes: "é" takes two
    let accented = "éééé".to_string();
    assert_eq!(shorten_name(&accented, Some(7)), "éé...");
}

#[test]
fn rows_show_label_decimal_and_name() {
    let diffs = vec![
        line("abcdefghij", ChangeType::Removed, i64::MIN),
        line("x", ChangeType::Added, 0),
    ];
    let rows = report_rows(&diffs, Some(6));
    assert_eq!(rows[0].change, "REMOVED");
    assert_eq!(rows[0].size, "-9223372036854775808");
    assert_eq!(rows[0].symbol, "abc...");
    assert_eq!(rows[1].change, "ADDED");
    assert_eq!(rows[1].size, "0");
    assert_eq!(rows[1].symbol, "x");
}

#[test]
fn report_error_carries_text() {
    let e = ReportError::Csv("boom".to_string());
    match e {
        ReportError::Csv(m) => assert_eq!(m, "boom"),
    }
}
