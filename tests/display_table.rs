use callgrind_differ::args::{Args, RelativeTo, Show, SortBy};
use callgrind_differ::display::{
    decimal_of, display, get_highest_total_ir_length, get_max_symbol_length, ir_diff,
    is_ref_column, percent_diff_milli, ratio_diff_milli, resolve_reference, Displayer, Reference,
};
use callgrind_differ::runs::{Records, Run};

fn run(name: &str, total: u64, syms: &[(&str, u64)]) -> Run {
    let mut r = Run::new_named(name.to_string());
    r.total_ir = total;
    for (s, ir) in syms {
        r.add_ir(s, *ir);
    }
    r
}

fn config(all: bool, relative_to: RelativeTo, show: Vec<Show>) -> Args {
    Args {
        all,
        sort_by: SortBy::default(),
        csv_export: String::new(),
        csv_names: vec![],
        export_graph: String::new(),
        relative_to,
        show,
        inputs: vec!["a".to_string()],
    }
}

fn default_show() -> Vec<Show> {
    vec![Show::IRCountDiff, Show::PercentageDiff, Show::IRCount]
}

fn two_runs() -> Records {
    let mut records = Records::new();
    records.add_run(run("run1", 100, &[("foo", 60), ("bar", 40)]));
    records.add_run(run("run2", 90, &[("foo", 60), ("baz", 30)]));
    records
}

#[test]
fn unchanged_rows_are_hidden() {
    let text = display(&config(false, RelativeTo::First, default_show()), &two_runs());
    let lines: Vec<&str> = text.lines().collect();
    assert_eq!(lines.len(), 6);
    assert!(lines[4].starts_with("bar      | "));
    assert!(lines[5].starts_with("baz      | "));
    assert!(!text.contains("foo"));
}

#[test]
fn all_rows_shown_on_request() {
    let text = display(&config(true, RelativeTo::First, default_show()), &two_runs());
    let lines: Vec<&str> = text.lines().collect();
    assert_eq!(lines.len(), 7);
    assert_eq!(lines[4], "foo      |  60 |    -        -   60");
}

#[test]
fn exact_table_text() {
    let text = display(&config(false, RelativeTo::First, default_show()), &two_runs());
    let expected = "Symbol   | run |        run2       \n\
                    ---------+-----+-------------------\n\
                    Total IR | 100 | \x1B[32m- 10\x1B[0m \x1B[32m- 10.000%\x1B[0m  90\n\
                    ---------+-----+-------------------\n\
                    bar      |  40 | \x1B[32m- 40\x1B[0m \x1B[32m-100.000%\x1B[0m   0\n\
                    baz      |   0 | \x1B[31m+ 30\x1B[0m \x1B[31m+100.000%\x1B[0m  30\n";
    assert_eq!(text, expected);
}

#[test]
fn previous_reference_compares_each_column_to_the_one_before() {
    let mut records = Records::new();
    records.add_run(run("a", 10, &[("s", 10)]));
    records.add_run(run("b", 20, &[("s", 20)]));
    records.add_run(run("c", 20, &[("s", 25)]));
    let text = display(&config(false, RelativeTo::Previous, vec![Show::IRCountDiff]), &records);
    let lines: Vec<&str> = text.lines().collect();
    assert_eq!(lines[2], "Total IR | 10 | \x1B[31m+10\x1B[0m |   -");
    assert_eq!(lines[4], "s        | 10 | \x1B[31m+10\x1B[0m | \x1B[31m+ 5\x1B[0m");
}

#[test]
fn reference_resolution() {
    assert_eq!(resolve_reference(RelativeTo::First, 3), Reference::Fixed(0));
    assert_eq!(resolve_reference(RelativeTo::Last, 3), Reference::Fixed(2));
    assert_eq!(resolve_reference(RelativeTo::Column(1), 3), Reference::Fixed(1));
    let prev = resolve_reference(RelativeTo::Previous, 3);
    assert_eq!(prev, Reference::Previous);
    assert!(is_ref_column(prev, 0));
    assert!(!is_ref_column(prev, 1));
    assert!(!is_ref_column(prev, 2));
    assert!(is_ref_column(Reference::Fixed(2), 2));
    assert!(!is_ref_column(Reference::Fixed(2), 0));
}

#[test]
fn zero_reference_is_a_full_increase() {
    assert_eq!(ir_diff(5, 0), 5);
    assert_eq!(percent_diff_milli(5, 0), 100_000);
    assert_eq!(ratio_diff_milli(5, 0), 1_000);
}

#[test]
fn percent_and_ratio_values() {
    assert_eq!(ir_diff(90, 100), 10);
    assert_eq!(percent_diff_milli(90, 100), 10_000);
    assert_eq!(percent_diff_milli(1, 3), 66_667);
    assert_eq!(ratio_diff_milli(300, 10), 29_000);
    assert_eq!(ir_diff(u64::MAX, 0), u64::MAX);
}

#[test]
fn decimal_digits() {
    assert_eq!(decimal_of(0), vec!['0']);
    assert_eq!(decimal_of(1234567), "1234567".chars().collect::<Vec<char>>());
}

#[test]
fn widths() {
    let records = two_runs();
    assert_eq!(get_max_symbol_length(&records, false), 8);
    let mut long = two_runs();
    long.add_run(run("run3", 5, &[("a_rather_long_symbol", 1)]));
    assert_eq!(get_max_symbol_length(&long, true), 20);
    assert_eq!(get_highest_total_ir_length(&records), 3);
    assert_eq!(get_highest_total_ir_length(&Records::new()), 1);
    let d = Displayer::new(&config(false, RelativeTo::Last, default_show()), &records);
    assert_eq!(d.max_symbol_width, 8);
    assert_eq!(d.max_total_ir_width, 3);
    assert_eq!(d.run_width, 3 + 4 + 9 + 2);
    assert_eq!(d.reference, Reference::Fixed(1));
}

#[test]
fn large_increase_shown_as_ratio() {
    let mut records = Records::new();
    records.add_run(run("x", 10, &[]));
    records.add_run(run("y", 300, &[]));
    let text = display(&config(false, RelativeTo::First, vec![Show::PercentageDiff]), &records);
    let lines: Vec<&str> = text.lines().collect();
    assert_eq!(lines[2], "Total IR |  10 | \x1B[31;1m  29.000x\x1B[0m");
}

fn percent_line(reference: u64, value: u64) -> String {
    let mut records = Records::new();
    records.add_run(run("x", reference, &[]));
    records.add_run(run("y", value, &[]));
    let text = display(&config(false, RelativeTo::First, vec![Show::PercentageDiff]), &records);
    text.lines().nth(2).unwrap().to_string()
}

#[test]
fn ratio_from_exactly_ten_times_the_reference() {
    assert_eq!(percent_line(10, 110), "Total IR |  10 | \x1B[31;1m  10.000x\x1B[0m");
    assert_eq!(percent_line(10, 109), "Total IR |  10 | \x1B[31m+990.000%\x1B[0m");
}

#[test]
fn percentage_just_under_ten_times_stays_a_percentage() {
    let line = percent_line(10_000_000, 109_999_996);
    assert!(line.ends_with("\x1B[31m+1000.000\x1B[0m"), "{line:?}");
}

#[test]
fn reference_lookups() {
    let mut records = Records::new();
    records.add_run(run("a", 10, &[]));
    records.add_run(run("b", 20, &[]));
    records.add_run(run("c", 30, &[]));
    let d = Displayer::new(&config(false, RelativeTo::Previous, default_show()), &records);
    assert_eq!(d.get_reference_ir_for(1, &vec![7, 8, 9]), 7);
    assert_eq!(d.get_reference_ir_for(2, &vec![7, 8, 9]), 8);
    assert_eq!(d.get_reference_total_ir_for(2, &records), 20);
    let f = Displayer::new(&config(false, RelativeTo::Column(1), default_show()), &records);
    assert_eq!(f.get_reference_ir_for(0, &vec![7, 8, 9]), 8);
    assert_eq!(f.get_reference_total_ir_for(2, &records), 20);
}
