use callgrind_differ::callgrind::{parse, parse_fn_ir_line, parse_total_ir_line};
use callgrind_differ::runs::Run;

fn lines(text: &str) -> Vec<String> {
    text.lines().map(|l| l.to_string()).collect()
}

fn ir_of(run: &Run, name: &str) -> Option<u64> {
    run.symbols.iter().find(|s| s.name == name).map(|s| s.ir)
}

const REPORT: &str = "\
--------------------------------------------------------------------------------
Profile data file 'callgrind.out.1234'
--------------------------------------------------------------------------------
Ir
--------------------------------------------------------------------------------
14,418,621,168 (100.0%)  PROGRAM TOTALS

--------------------------------------------------------------------------------
Ir                     file:function
--------------------------------------------------------------------------------
3,000,000 (20.81%)  src/main.rs:app::main [/bin/app]
  1,500 ( 0.01%)  src/lib.rs:<app::Event as core::cmp::PartialEq>::eq [/bin/app]
 2,000,000 (13.87%)  src/other.rs:app::main [/bin/app]
       12 ( 0.00%)  ???:memcpy [/lib/libc.so]

--------------------------------------------------------------------------------
-- Auto-annotated source: src/main.rs
";

#[test]
fn parser_round_trip_total_and_repeated_symbol() {
    let run = parse(&lines(REPORT));
    assert_eq!(run.total_ir, 14_418_621_168);
    assert_eq!(run.symbols.len(), 3);
    assert_eq!(ir_of(&run, "app::main"), Some(5_000_000));
    assert_eq!(ir_of(&run, "<app::Event as core::cmp::PartialEq>::eq"), Some(1_500));
    assert_eq!(ir_of(&run, "memcpy"), Some(12));
    assert!(run.name.is_empty());
}

#[test]
fn parser_keeps_first_appearance_order() {
    let run = parse(&lines(REPORT));
    let names: Vec<&str> = run.symbols.iter().map(|s| s.name.as_str()).collect();
    assert_eq!(names, vec!["app::main", "<app::Event as core::cmp::PartialEq>::eq", "memcpy"]);
}

#[test]
fn parser_without_headers_gives_empty_run() {
    let run = parse(&lines("nothing here\n12 (1%) a:b [c]\n"));
    assert_eq!(run.total_ir, 0);
    assert!(run.symbols.is_empty());
}

#[test]
fn parser_with_no_symbol_block() {
    let run = parse(&lines("Ir\n----\n1,000 (100.0%)  PROGRAM TOTALS\n"));
    assert_eq!(run.total_ir, 1000);
    assert!(run.symbols.is_empty());
}

#[test]
fn parser_on_empty_input() {
    let run = parse(&Vec::new());
    assert_eq!(run.total_ir, 0);
    assert!(run.symbols.is_empty());
}

#[test]
fn total_line_strips_separators() {
    assert_eq!(parse_total_ir_line("  14,418,621,168 (100.0%)  PROGRAM TOTALS"), 14_418_621_168);
    assert_eq!(parse_total_ir_line("no digits here"), 0);
    assert_eq!(parse_total_ir_line(""), 0);
}

#[test]
fn symbol_line_with_spaces_in_symbol() {
    let (sym, ir) = parse_fn_ir_line(
        "   1,234 ( 0.01%)  src/parser.rs:<yaml_rust2::parser::Event as core::cmp::PartialEq>::eq [/bin/x]",
    );
    assert_eq!(sym, "<yaml_rust2::parser::Event as core::cmp::PartialEq>::eq");
    assert_eq!(ir, 1234);
}

#[test]
fn symbol_line_with_spaces_in_percentage() {
    let (sym, ir) = parse_fn_ir_line("77 ( 1.00%) ???:foo [lib]");
    assert_eq!(sym, "foo");
    assert_eq!(ir, 77);
}

#[test]
fn symbol_line_without_colon_gives_empty_symbol() {
    let (sym, ir) = parse_fn_ir_line("5 (1%) nocolon [f]");
    assert_eq!(sym, "");
    assert_eq!(ir, 5);
}

#[test]
fn add_ir_sums_counts() {
    let mut run = Run::new();
    run.add_ir("foo", 12);
    run.add_ir("foo", 24);
    assert_eq!(run.symbols.iter().find(|sym| sym.name == "foo").unwrap().ir, 36);
    assert_eq!(run.symbols.len(), 1);
}

#[test]
fn add_ir_keeps_distinct_symbols() {
    let mut run = Run::new_named("r".to_string());
    run.add_ir("a", 1);
    run.add_ir("b", 2);
    run.add_ir("a", 3);
    assert_eq!(run.name, "r");
    assert_eq!(run.symbols.len(), 2);
    assert_eq!(ir_of(&run, "a"), Some(4));
    assert_eq!(ir_of(&run, "b"), Some(2));
}

#[test]
fn parser_symbols_in_first_appearance_order() {
    let text = "Ir\n--\n1,000 (100.0%)  PROGRAM TOTALS\n\nIr  file:function\n--\n\
                600 (60.00%)  a.rs:foo [/bin/x]\n300 (30.00%)  b.rs:bar [/bin/x]\n\
                100 (10.00%)  c.rs:foo [/bin/x]\n";
    let run = parse(&lines(text));
    assert_eq!(run.total_ir, 1000);
    assert_eq!(run.symbols.len(), 2);
    assert_eq!(run.symbols[0].name, "foo");
    assert_eq!(run.symbols[0].ir, 700);
    assert_eq!(run.symbols[1].name, "bar");
    assert_eq!(run.symbols[1].ir, 300);
}

#[test]
fn parser_stops_at_first_non_digit_line() {
    let text = "Ir\n--\n10 (100.0%)  PROGRAM TOTALS\nIr\n--\n5 (50%) a:x [f]\n\n4 (40%) a:y [f]\n";
    let run = parse(&lines(text));
    assert_eq!(run.total_ir, 10);
    assert_eq!(run.symbols.len(), 1);
    assert_eq!(run.symbols[0].name, "x");
}
