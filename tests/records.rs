use callgrind_differ::args::{SortBy, SortByField, SortByOrder};
use callgrind_differ::runs::{parse_records, Records, Run, SortError};

fn run(name: &str, total: u64, syms: &[(&str, u64)]) -> Run {
    let mut r = Run::new_named(name.to_string());
    r.total_ir = total;
    for (s, ir) in syms {
        r.add_ir(s, *ir);
    }
    r
}

fn row<'a>(records: &'a Records, name: &str) -> &'a Vec<u64> {
    &records.symbols.iter().find(|s| s.name == name).unwrap().irs
}

fn names(records: &Records) -> Vec<String> {
    records.symbols.iter().map(|s| s.name.clone()).collect()
}

fn two_runs() -> Records {
    let mut records = Records::new();
    records.add_run(run("run1", 100, &[("foo", 60), ("bar", 40)]));
    records.add_run(run("run2", 90, &[("foo", 60), ("baz", 30)]));
    records
}

#[test]
fn scenario_two_runs_aggregated() {
    let records = two_runs();
    assert_eq!(records.n_runs(), 2);
    assert_eq!(records.run_names, vec!["run1".to_string(), "run2".to_string()]);
    assert_eq!(records.runs_total_irs, vec![100, 90]);
    assert_eq!(names(&records), vec!["foo", "bar", "baz"]);
    assert_eq!(row(&records, "foo"), &vec![60, 60]);
    assert_eq!(row(&records, "bar"), &vec![40, 0]);
    assert_eq!(row(&records, "baz"), &vec![0, 30]);
}

#[test]
fn every_row_has_one_count_per_run() {
    let mut records = Records::new();
    let runs = vec![
        run("a", 1, &[("x", 1)]),
        run("b", 2, &[("y", 2), ("z", 3)]),
        run("c", 3, &[]),
        run("d", 4, &[("x", 4), ("w", 5)]),
    ];
    for (k, r) in runs.into_iter().enumerate() {
        records.add_run(r);
        assert_eq!(records.n_runs(), k + 1);
        assert_eq!(records.runs_total_irs.len(), k + 1);
        for s in &records.symbols {
            assert_eq!(s.irs.len(), k + 1);
        }
        records.assert_invariants();
    }
    assert_eq!(row(&records, "x"), &vec![1, 0, 0, 4]);
    assert_eq!(row(&records, "w"), &vec![0, 0, 0, 5]);
}

#[test]
fn missing_symbol_is_zero_filled() {
    let mut records = Records::new();
    records.add_run(run("A", 10, &[("foo", 7)]));
    records.add_run(run("B", 10, &[("qux", 3)]));
    assert_eq!(row(&records, "foo"), &vec![7, 0]);
    assert_eq!(row(&records, "qux"), &vec![0, 3]);
}

#[test]
fn parse_records_adds_runs_in_order() {
    let records = parse_records(vec![
        run("run1", 100, &[("foo", 60), ("bar", 40)]),
        run("run2", 90, &[("foo", 60), ("baz", 30)]),
    ]);
    assert_eq!(records.run_names, vec!["run1".to_string(), "run2".to_string()]);
    assert_eq!(row(&records, "bar"), &vec![40, 0]);
    assert_eq!(row(&records, "baz"), &vec![0, 30]);
}

fn tied() -> Records {
    let mut records = Records::new();
    records.add_run(run("r0", 0, &[("a", 5), ("b", 1), ("c", 5), ("d", 1), ("e", 3)]));
    records
}

#[test]
fn sort_is_stable_on_ties() {
    let mut records = tied();
    let by = SortBy { field: SortByField::FirstIR, order: SortByOrder::Ascending };
    assert_eq!(records.sort(by), Ok(()));
    assert_eq!(names(&records), vec!["b", "d", "e", "a", "c"]);
}

#[test]
fn descending_sort_is_reversed_ascending() {
    let mut records = tied();
    let by = SortBy { field: SortByField::ColumnIR(0), order: SortByOrder::Descending };
    assert_eq!(records.sort(by), Ok(()));
    assert_eq!(names(&records), vec!["c", "a", "e", "d", "b"]);
}

#[test]
fn sort_by_symbol() {
    let mut records = two_runs();
    assert_eq!(records.sort(SortBy::default()), Ok(()));
    assert_eq!(names(&records), vec!["bar", "baz", "foo"]);
    let by = SortBy { field: SortByField::Symbol, order: SortByOrder::Descending };
    assert_eq!(records.sort(by), Ok(()));
    assert_eq!(names(&records), vec!["foo", "baz", "bar"]);
}

#[test]
fn sort_by_last_column() {
    let mut records = two_runs();
    let by = SortBy { field: SortByField::LastIR, order: SortByOrder::Ascending };
    assert_eq!(records.sort(by), Ok(()));
    assert_eq!(names(&records), vec!["bar", "baz", "foo"]);
}

#[test]
fn sort_by_descending_second_column_of_three() {
    let mut records = Records::new();
    records.add_run(run("r0", 0, &[("a", 1), ("b", 2), ("c", 3)]));
    records.add_run(run("r1", 0, &[("a", 20), ("b", 30), ("c", 10)]));
    records.add_run(run("r2", 0, &[("a", 0), ("b", 0), ("c", 0)]));
    let by = SortBy::parse("-column1").unwrap();
    assert_eq!(records.sort(by), Ok(()));
    assert_eq!(names(&records), vec!["b", "a", "c"]);
}

#[test]
fn sort_by_column_out_of_range_fails() {
    let mut records = two_runs();
    let by = SortBy { field: SortByField::ColumnIR(2), order: SortByOrder::Ascending };
    assert_eq!(records.sort(by), Err(SortError::InvalidColumn { column: 2, n_columns: 2 }));
    assert_eq!(names(&records), vec!["foo", "bar", "baz"]);
}

#[test]
fn parse_records_matches_adding_runs_in_turn() {
    let make = || {
        vec![
            run("r0", 5, &[("c", 1), ("a", 2)]),
            run("r1", 6, &[("b", 3), ("a", 4), ("d", 5)]),
            run("r2", 7, &[("e", 6), ("c", 7)]),
        ]
    };
    let gathered = parse_records(make());
    let mut one_by_one = Records::new();
    for r in make() {
        one_by_one.add_run(r);
    }
    assert_eq!(names(&gathered), vec!["c", "a", "b", "d", "e"]);
    assert_eq!(names(&gathered), names(&one_by_one));
    for s in &one_by_one.symbols {
        assert_eq!(row(&gathered, &s.name), &s.irs);
    }
    assert_eq!(gathered.runs_total_irs, one_by_one.runs_total_irs);
    assert_eq!(gathered.run_names, one_by_one.run_names);
}
