use callgrind_differ::args::{
    is_csv_input, parse_u32, Args, ArgsError, ParseError, RelativeTo, Show, SortBy, SortByField, SortByOrder,
};

fn args(inputs: &[&str], csv_names: &[&str], show: Vec<Show>) -> Args {
    Args {
        all: false,
        sort_by: SortBy::default(),
        csv_export: String::new(),
        csv_names: csv_names.iter().map(|s| s.to_string()).collect(),
        export_graph: String::new(),
        relative_to: RelativeTo::default(),
        show,
        inputs: inputs.iter().map(|s| s.to_string()).collect(),
    }
}

#[test]
fn sort_by_values() {
    assert_eq!(
        SortBy::parse("symbol"),
        Ok(SortBy { field: SortByField::Symbol, order: SortByOrder::Ascending })
    );
    assert_eq!(
        SortBy::parse("+symbol"),
        Ok(SortBy { field: SortByField::Symbol, order: SortByOrder::Ascending })
    );
    assert_eq!(
        SortBy::parse("-first-ir"),
        Ok(SortBy { field: SortByField::FirstIR, order: SortByOrder::Descending })
    );
    assert_eq!(
        SortBy::parse("last-ir"),
        Ok(SortBy { field: SortByField::LastIR, order: SortByOrder::Ascending })
    );
    assert_eq!(
        SortBy::parse("-column3"),
        Ok(SortBy { field: SortByField::ColumnIR(3), order: SortByOrder::Descending })
    );
    assert_eq!(
        SortBy::parse("column0"),
        Ok(SortBy { field: SortByField::ColumnIR(0), order: SortByOrder::Ascending })
    );
}

#[test]
fn sort_by_errors() {
    assert_eq!(SortBy::parse(""), Err(ParseError::Empty));
    assert_eq!(SortBy::parse("column"), Err(ParseError::MissingColumnIndex));
    assert_eq!(SortBy::parse("columnx"), Err(ParseError::InvalidColumnNumber));
    assert_eq!(SortBy::parse("column99999999999"), Err(ParseError::InvalidColumnNumber));
    assert_eq!(SortBy::parse("name"), Err(ParseError::InvalidValue));
    assert_eq!(SortBy::parse("-"), Err(ParseError::InvalidValue));
}

#[test]
fn relative_to_values() {
    assert_eq!(RelativeTo::parse("first"), Ok(RelativeTo::First));
    assert_eq!(RelativeTo::parse("last"), Ok(RelativeTo::Last));
    assert_eq!(RelativeTo::parse("previous"), Ok(RelativeTo::Previous));
    assert_eq!(RelativeTo::parse("column2"), Ok(RelativeTo::Column(2)));
    assert_eq!(RelativeTo::parse("column"), Err(ParseError::InvalidColumnNumber));
    assert_eq!(RelativeTo::parse("second"), Err(ParseError::InvalidValue));
    assert_eq!(RelativeTo::default(), RelativeTo::First);
}

#[test]
fn show_values() {
    assert_eq!(Show::parse("all"), Ok(Show::All));
    assert_eq!(Show::parse("ircount"), Ok(Show::IRCount));
    assert_eq!(Show::parse("percentagediff"), Ok(Show::PercentageDiff));
    assert_eq!(Show::parse("ircountdiff"), Ok(Show::IRCountDiff));
    assert_eq!(Show::parse("IRCOUNT"), Err(ParseError::InvalidValue));
    assert_eq!(Show::default(), Show::All);
}

#[test]
fn show_all_expands() {
    let a = args(&["x"], &[], vec![Show::IRCount, Show::All]).validated().unwrap();
    assert_eq!(a.show, vec![Show::IRCountDiff, Show::PercentageDiff, Show::IRCount]);
    let b = args(&["x"], &[], vec![]).validated().unwrap();
    assert_eq!(b.show, vec![Show::IRCountDiff, Show::PercentageDiff, Show::IRCount]);
}

#[test]
fn show_duplicates_removed_in_first_order() {
    let a = args(
        &["x"],
        &[],
        vec![Show::PercentageDiff, Show::IRCount, Show::PercentageDiff, Show::IRCount],
    )
    .validated()
    .unwrap();
    assert_eq!(a.show, vec![Show::PercentageDiff, Show::IRCount]);
}

#[test]
fn no_input_is_refused() {
    assert_eq!(args(&[], &[], vec![]).validated().err(), Some(ArgsError::NoInput));
}

#[test]
fn csv_names_must_match_runs() {
    let err = args(&["a.out", "b.CSV", "c.txt"], &["one"], vec![]).validated().err();
    assert_eq!(err, Some(ArgsError::CsvNamesMismatch { names: 1, runs: 2 }));
    let ok = args(&["a.out", "b.CSV", "c.txt"], &["one", "two"], vec![]).validated();
    assert!(ok.is_ok());
}

#[test]
fn csv_inputs_by_extension() {
    assert!(is_csv_input(&"runs.csv".to_string()));
    assert!(is_csv_input(&"dir/runs.CsV".to_string()));
    assert!(!is_csv_input(&"runs.csvx".to_string()));
    assert!(!is_csv_input(&"callgrind.out".to_string()));
    assert!(!is_csv_input(&"noext".to_string()));
    assert!(!is_csv_input(&".csv".to_string()));
}

#[test]
fn u32_values() {
    assert_eq!(parse_u32("0"), Some(0));
    assert_eq!(parse_u32("+7"), Some(7));
    assert_eq!(parse_u32("4294967295"), Some(u32::MAX));
    assert_eq!(parse_u32("4294967296"), None);
    assert_eq!(parse_u32("99999999999999999999999"), None);
    assert_eq!(parse_u32(""), None);
    assert_eq!(parse_u32("+"), None);
    assert_eq!(parse_u32("-1"), None);
    assert_eq!(parse_u32("1a"), None);
    assert_eq!(parse_u32(" 1"), None);
}
