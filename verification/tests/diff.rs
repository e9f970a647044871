use elf_diff::definitions::{Symbol, SymbolKind};
use elf_diff::diff::{diff_fits_exactly, run_diff, sizes_fit_i64};
use elf_diff::report::{ChangeType, SymbolDiff};

fn sym(name: &str, size: usize, kind: SymbolKind) -> Symbol {
    Symbol { name: name.to_string(), size, kind, address: 0 }
}

fn line(name: &str, change_type: ChangeType, size_diff: i64) -> SymbolDiff {
    SymbolDiff { name: name.to_string(), change_type, size_diff }
}

#[test]
fn diff_added_removed_changed() {
    let from = vec![
        sym("old_function()", 64, SymbolKind::Code),
        sym("modified_function()", 100, SymbolKind::Code),
        sym("same", 5, SymbolKind::Data),
    ];
    let to = vec![
        sym("same", 5, SymbolKind::Data),
        sym("new_function()", 128, SymbolKind::Code),
        sym("modified_function()", 116, SymbolKind::Code),
    ];
    assert!(sizes_fit_i64(&from, &to));
    let d = run_diff(from, to, false);
    assert_eq!(
        d,
        vec![
            line("modified_function()", ChangeType::Changed, 16),
            line("new_function()", ChangeType::Added, 128),
            line("old_function()", ChangeType::Removed, -64),
        ]
    );
}

#[test]
fn diff_hides_read_only() {
    let from = vec![sym("code", 1, SymbolKind::Code), sym("ro", 1, SymbolKind::RoData)];
    let to = vec![
        sym("code", 2, SymbolKind::Code),
        sym("data", 3, SymbolKind::Data),
        sym("table", 4, SymbolKind::RoData),
    ];
    let d = run_diff(from.clone(), to.clone(), true);
    assert_eq!(d, vec![line("data", ChangeType::Added, 3)]);
    let full = run_diff(from, to, false);
    assert_eq!(full.len(), 4);
}

#[test]
fn diff_last_occurrence_counts() {
    let from = vec![sym("x", 1, SymbolKind::Data), sym("x", 10, SymbolKind::Data)];
    let to = vec![sym("x", 10, SymbolKind::Data), sym("x", 3, SymbolKind::Data)];
    let d = run_diff(from, to, false);
    assert_eq!(d, vec![line("x", ChangeType::Changed, -7)]);
}

#[test]
fn diff_with_itself_is_empty() {
    let s = vec![sym("a", 1, SymbolKind::Data), sym("b", 2, SymbolKind::Code)];
    assert!(run_diff(s.clone(), s, false).is_empty());
}

#[test]
fn diff_reversed_swaps_added_and_removed() {
    let a = vec![sym("a", 1, SymbolKind::Data), sym("b", 2, SymbolKind::Code)];
    let b = vec![sym("b", 5, SymbolKind::Code), sym("c", 3, SymbolKind::Data)];
    let fwd = run_diff(a.clone(), b.clone(), false);
    let bwd = run_diff(b, a, false);
    assert_eq!(
        fwd,
        vec![
            line("a", ChangeType::Removed, -1),
            line("b", ChangeType::Changed, 3),
            line("c", ChangeType::Added, 3)
        ]
    );
    assert_eq!(
        bwd,
        vec![
            line("a", ChangeType::Added, 1),
            line("b", ChangeType::Changed, -3),
            line("c", ChangeType::Removed, -3)
        ]
    );
}

#[test]
fn diff_orders_by_code_point() {
    let to = vec![
        sym("b", 1, SymbolKind::Data),
        sym("B", 1, SymbolKind::Data),
        sym("é", 1, SymbolKind::Data),
        sym("a", 1, SymbolKind::Data),
        sym("ab", 1, SymbolKind::Data),
    ];
    let d = run_diff(vec![], to, false);
    let names: Vec<&str> = d.iter().map(|x| x.name.as_str()).collect();
    assert_eq!(names, vec!["B", "a", "ab", "b", "é"]);
}

#[test]
fn sizes_that_do_not_fit() {
    let big = vec![sym("x", usize::MAX, SymbolKind::Data)];
    assert!(!sizes_fit_i64(&big, &vec![]));
}

#[test]
fn exact_fit_check() {
    let big = vec![sym("x", usize::MAX, SymbolKind::Data)];
    // equal sizes give no difference to compute
    assert!(diff_fits_exactly(&big, &big, false));
    // hidden kinds are never compared
    let big_code = vec![sym("x", usize::MAX, SymbolKind::Code)];
    assert!(diff_fits_exactly(&big_code, &vec![], true));
    assert!(diff_fits_exactly(&vec![sym("y", 1, SymbolKind::Data)], &vec![], false));
    // (usize::MAX as i64) is -1; removing it gives 1, which fits
    assert!(diff_fits_exactly(&big, &vec![], false));
    // 0 - (2^63 as i64) overflows
    let min = vec![sym("m", 1usize << 63, SymbolKind::Data)];
    assert!(!diff_fits_exactly(&min, &vec![], false));
    // (2^63 - 1) - (-1) overflows
    let a = vec![sym("z", usize::MAX, SymbolKind::Data)];
    let b = vec![sym("z", (1usize << 63) - 1, SymbolKind::Data)];
    assert!(!diff_fits_exactly(&a, &b, false));
}

#[test]
fn size_differences_add_up() {
    let from = vec![sym("a", 10, SymbolKind::Data), sym("b", 20, SymbolKind::Code), sym("c", 5, SymbolKind::Data)];
    let to = vec![sym("b", 25, SymbolKind::Code), sym("c", 5, SymbolKind::Data), sym("d", 7, SymbolKind::Bss)];
    let d = run_diff(from.clone(), to.clone(), false);
    let sum: i64 = d.iter().map(|x| x.size_diff).sum();
    let old: i64 = from.iter().map(|s| s.size as i64).sum();
    let new: i64 = to.iter().map(|s| s.size as i64).sum();
    assert_eq!(sum, new - old);
}

#[test]
fn hiding_filters_the_full_report() {
    let from = vec![sym("code", 1, SymbolKind::Code), sym("data", 1, SymbolKind::Data)];
    let to = vec![sym("code", 3, SymbolKind::Code), sym("data", 2, SymbolKind::Data), sym("ro", 4, SymbolKind::RoData)];
    let full = run_diff(from.clone(), to.clone(), false);
    let hidden = run_diff(from, to, true);
    let filtered: Vec<SymbolDiff> = full.into_iter().filter(|d| d.name == "data").collect();
    assert_eq!(hidden, filtered);
}
