use cargo_llvm_lines::{build_report, rank, tabulate, Aggregate, NameFilter, Report, SortOrder};

fn sample() -> Aggregate {
    let mut agg = Aggregate::new();
    // name, copies, lines of each copy
    for (name, lines) in [
        ("alpha", 10),
        ("beta", 5),
        ("beta", 5),
        ("gamma", 3),
        ("gamma", 3),
        ("gamma", 4),
        ("delta", 12),
        ("epsilon", 4),
        ("epsilon", 4),
    ] {
        agg.add(name.to_string(), lines);
    }
    agg
}

fn names(report: &Report) -> Vec<String> {
    report.rows.iter().map(|r| r.name.clone()).collect()
}

#[test]
fn sorted_by_lines_then_copies_then_name() {
    let report = build_report(&sample(), SortOrder::Lines, None);
    assert_eq!(names(&report), ["delta", "gamma", "beta", "alpha", "epsilon"]);
    assert_eq!(report.total_lines, 50);
    assert_eq!(report.total_copies, 9);
}

#[test]
fn sorted_by_copies_then_lines_then_name() {
    let report = build_report(&sample(), SortOrder::Copies, None);
    assert_eq!(names(&report), ["gamma", "beta", "epsilon", "delta", "alpha"]);
}

#[test]
fn sorted_by_name() {
    let report = build_report(&sample(), SortOrder::Name, None);
    assert_eq!(names(&report), ["alpha", "beta", "delta", "epsilon", "gamma"]);
}

#[test]
fn cumulative_totals_reach_the_grand_total() {
    let report = build_report(&sample(), SortOrder::Lines, None);
    let lines: Vec<usize> = report.rows.iter().map(|r| r.lines).collect();
    let cumul: Vec<usize> = report.rows.iter().map(|r| r.lines_cumulative).collect();
    let copies: Vec<usize> = report.rows.iter().map(|r| r.copies).collect();
    let copies_cumul: Vec<usize> = report.rows.iter().map(|r| r.copies_cumulative).collect();
    assert_eq!(lines, [12, 10, 10, 10, 8]);
    assert_eq!(cumul, [12, 22, 32, 42, 50]);
    assert_eq!(copies, [1, 3, 2, 1, 2]);
    assert_eq!(copies_cumul, [1, 4, 6, 7, 9]);
    assert_eq!(lines.iter().sum::<usize>(), report.total_lines);
    let last = report.rows.last().unwrap();
    let pct = last.lines_cumulative as f64 / report.total_lines as f64 * 100.0;
    assert!((pct - 100.0).abs() < 1e-9);
}

#[test]
fn widths_follow_the_totals() {
    let report = build_report(&sample(), SortOrder::Lines, None);
    assert_eq!(report.lines_width, 2);
    assert_eq!(report.copies_width, 1);
    let mut agg = Aggregate::new();
    agg.add("big".to_string(), 123456);
    let report = build_report(&agg, SortOrder::Lines, None);
    assert_eq!(report.lines_width, 6);
    assert_eq!(report.copies_width, 1);
}

#[test]
fn filter_hides_rows_but_not_totals() {
    let filter = NameFilter::new("^(beta|gamma)$").ok().unwrap();
    let report = build_report(&sample(), SortOrder::Lines, Some(&filter));
    assert_eq!(names(&report), ["gamma", "beta"]);
    assert_eq!(report.total_lines, 50);
    assert_eq!(report.total_copies, 9);
    assert_eq!(report.rows[0].lines_cumulative, 10);
    assert_eq!(report.rows[1].lines_cumulative, 20);
    assert_eq!(report.rows[0].copies_cumulative, 3);
    assert_eq!(report.rows[1].copies_cumulative, 5);
}

#[test]
fn filter_matching_everything_keeps_every_row() {
    let filter = NameFilter::new("").ok().unwrap();
    let report = build_report(&sample(), SortOrder::Lines, Some(&filter));
    assert_eq!(report.rows.len(), 5);
    let sum: usize = report.rows.iter().map(|r| r.lines).sum();
    assert_eq!(sum, report.total_lines);
    assert_eq!(report.rows[4].lines_cumulative, report.total_lines);
    assert_eq!(report.rows[4].copies_cumulative, report.total_copies);
}

#[test]
fn filter_matches_anywhere_in_the_name() {
    let filter = NameFilter::new("lt").ok().unwrap();
    let report = build_report(&sample(), SortOrder::Name, Some(&filter));
    assert_eq!(names(&report), ["delta"]);
    assert_eq!(filter.pattern(), "lt");
}

#[test]
fn invalid_pattern_is_an_error() {
    let err = NameFilter::new("foo(").err().unwrap();
    assert!(!err.message.is_empty());
}

#[test]
fn empty_aggregate_gives_only_totals() {
    let report = build_report(&Aggregate::new(), SortOrder::Lines, None);
    assert_eq!(report.rows.len(), 0);
    assert_eq!(report.total_lines, 0);
    assert_eq!(report.total_copies, 0);
    assert_eq!(report.lines_width, 1);
    assert_eq!(report.copies_width, 1);
}

#[test]
fn ranking_is_reproducible() {
    let agg = sample();
    let first = rank(&agg, SortOrder::Lines);
    for _ in 0..3 {
        assert_eq!(rank(&agg, SortOrder::Lines), first);
    }
    let mut reversed = Aggregate::new();
    for (name, lines) in [
        ("epsilon", 4),
        ("epsilon", 4),
        ("delta", 12),
        ("gamma", 4),
        ("gamma", 3),
        ("gamma", 3),
        ("beta", 5),
        ("beta", 5),
        ("alpha", 10),
    ] {
        reversed.add(name.to_string(), lines);
    }
    let a = build_report(&agg, SortOrder::Lines, None);
    let b = build_report(&reversed, SortOrder::Lines, None);
    assert_eq!(names(&a), names(&b));
}

#[test]
fn names_order_by_bytes() {
    let mut agg = Aggregate::new();
    agg.add("b".to_string(), 1);
    agg.add("B".to_string(), 1);
    agg.add("ab".to_string(), 1);
    agg.add("a".to_string(), 1);
    agg.add("é".to_string(), 1);
    let report = build_report(&agg, SortOrder::Lines, None);
    assert_eq!(names(&report), ["B", "a", "ab", "b", "é"]);
}

#[test]
fn flags_select_rows_by_name_order() {
    // names in ascending order: alpha, beta, delta, epsilon, gamma
    let keep = vec![true, false, true, false, true];
    let report = tabulate(&sample(), SortOrder::Lines, &keep);
    assert_eq!(names(&report), ["delta", "gamma", "alpha"]);
    let cumul: Vec<usize> = report.rows.iter().map(|r| r.lines_cumulative).collect();
    assert_eq!(cumul, [12, 22, 32]);
    let copies_cumul: Vec<usize> = report.rows.iter().map(|r| r.copies_cumulative).collect();
    assert_eq!(copies_cumul, [1, 4, 5]);
    assert_eq!(report.total_lines, 50);
}

#[test]
fn no_flags_set_shows_no_rows() {
    let report = tabulate(&sample(), SortOrder::Copies, &vec![false; 5]);
    assert!(report.rows.is_empty());
    assert_eq!(report.total_copies, 9);
}
