use sheet_filter::CellCoordinate;
use sheet_filter::CellRange;
use sheet_filter::ComparisonKind;
use sheet_filter::FilterError;
use sheet_filter::FilterSpec;
use sheet_filter::Number;
use sheet_filter::Table;
use sheet_filter::filter_rows;
use sheet_filter::join_comma;
use sheet_filter::render_header;
use sheet_filter::run_filters;

fn cell(s: &str) -> Option<String> {
    Some(s.to_string())
}

/// A 3-column, 4-row sheet: row 1 is the header, rows 2-4 hold
/// (5, "a"), (15, "b"), (20, "c"); the third column stays empty.
fn sample_table() -> Table {
    Table {
        cells: vec![
            vec![cell("amount"), cell("name"), None],
            vec![cell("5"), cell("a"), None],
            vec![cell("15"), cell("b"), None],
            vec![cell("20"), cell("c"), None],
        ],
    }
}

#[test]
fn one_filter_keeps_matching_rows_in_order() {
    let table = sample_table();
    let spec = FilterSpec::new(
        1,
        "\\d+".to_string(),
        ComparisonKind::GreaterThan(Number { mantissa: 10, scale: 0 }),
    )
    .unwrap();
    let range = CellRange {
        start: CellCoordinate { col: 0, row: 0 },
        end: CellCoordinate { col: 2, row: 3 },
    };
    let rows = filter_rows(&range, &vec![1], &vec![spec], 2, &table);
    assert_eq!(rows, vec!["b".to_string(), "c".to_string()]);
}

#[test]
fn whole_pass_through_run_filters() {
    let table = sample_table();
    let r = run_filters(
        "A1:C4",
        &vec![1],
        &vec!["\\d+".to_string()],
        &vec![">10".to_string()],
        2,
        &table,
    );
    let (header, rows) = r.unwrap();
    assert_eq!(header, "more than 10");
    assert_eq!(rows, vec!["b".to_string(), "c".to_string()]);
}

#[test]
fn no_filters_keep_every_data_row() {
    let table = sample_table();
    let r = run_filters("A1:C4", &vec![], &vec![], &vec![], 2, &table);
    let (header, rows) = r.unwrap();
    assert_eq!(header, "");
    assert_eq!(
        rows,
        vec!["a".to_string(), "b".to_string(), "c".to_string()]
    );
}

#[test]
fn absent_output_cell_yields_placeholder() {
    let table = sample_table();
    // Column 3 is empty in every row: each kept row contributes " - ".
    let r = run_filters("A1:C4", &vec![], &vec![], &vec![], 3, &table);
    let (_, rows) = r.unwrap();
    assert_eq!(
        rows,
        vec![" - ".to_string(), " - ".to_string(), " - ".to_string()]
    );
}

#[test]
fn malformed_range_fails_before_rows() {
    let table = sample_table();
    let r = run_filters(
        "1A:B2",
        &vec![1],
        &vec!["\\d+".to_string()],
        &vec![">10".to_string()],
        2,
        &table,
    );
    assert_eq!(r.err(), Some(FilterError::InvalidAddress));
    let r2 = run_filters(
        "A1C4",
        &vec![1],
        &vec!["\\d+".to_string()],
        &vec![">10".to_string()],
        2,
        &table,
    );
    assert_eq!(r2.err(), Some(FilterError::InvalidAddress));
}

#[test]
fn construction_errors_come_in_order() {
    let table = sample_table();
    // A bad pattern is reported even though a filter text is bad too.
    let r = run_filters(
        "A1:C4",
        &vec![1],
        &vec!["(".to_string()],
        &vec!["nonsense".to_string()],
        2,
        &table,
    );
    assert_eq!(r.err(), Some(FilterError::RegexCompileError));
    // With patterns fine, the first bad filter text decides.
    let r2 = run_filters(
        "A1:C4",
        &vec![1, 2],
        &vec!["\\d+".to_string(), "\\d+".to_string()],
        &vec!["nonsense".to_string(), ">".to_string()],
        2,
        &table,
    );
    assert_eq!(r2.err(), Some(FilterError::InvalidFilterSyntax));
}

#[test]
fn conjunction_across_columns() {
    let table = Table {
        cells: vec![
            vec![cell("n"), cell("tag"), cell("out")],
            vec![cell("12"), cell("keep"), cell("first")],
            vec![cell("30"), cell("drop"), cell("second")],
            vec![cell("25"), cell("keep"), cell("third")],
        ],
    };
    let r = run_filters(
        "A1:C4",
        &vec![1, 2],
        &vec!["\\d+".to_string(), "keep".to_string()],
        &vec![">10".to_string(), "=".to_string()],
        3,
        &table,
    );
    let (header, rows) = r.unwrap();
    assert_eq!(header, "more than 10, keep");
    assert_eq!(rows, vec!["first".to_string(), "third".to_string()]);
}

#[test]
fn inverted_range_yields_nothing() {
    let table = sample_table();
    let r = run_filters("A4:C1", &vec![], &vec![], &vec![], 1, &table);
    let (_, rows) = r.unwrap();
    assert_eq!(rows, Vec::<String>::new());
}

#[test]
fn missing_cells_never_match() {
    let table = sample_table();
    // Column 3 is absent everywhere, so even Exists keeps nothing.
    let r = run_filters(
        "A1:C4",
        &vec![3],
        &vec![".*".to_string()],
        &vec!["=".to_string()],
        1,
        &table,
    );
    let (_, rows) = r.unwrap();
    assert_eq!(rows, Vec::<String>::new());
}

#[test]
fn join_comma_spaces() {
    assert_eq!(join_comma(&vec![]), "");
    assert_eq!(join_comma(&vec!["a".to_string()]), "a");
    assert_eq!(
        join_comma(&vec!["a".to_string(), "b".to_string(), "c".to_string()]),
        "a, b, c"
    );
}

#[test]
fn header_renders_all_rules() {
    let s1 = FilterSpec::new(1, "\\d+".to_string(), ComparisonKind::Exists).unwrap();
    let s2 = FilterSpec::new(
        2,
        "x".to_string(),
        ComparisonKind::LessOrEqual(Number { mantissa: 7, scale: 0 }),
    )
    .unwrap();
    assert_eq!(render_header(&vec![s1, s2]), "\\d+, up to 7");
}

#[test]
fn header_row_is_never_emitted() {
    // The header row holds a large number; it must not appear even
    // though it would pass the filter.
    let table = Table {
        cells: vec![
            vec![cell("999"), cell("head")],
            vec![cell("1"), cell("only")],
        ],
    };
    let r = run_filters(
        "A1:B2",
        &vec![1],
        &vec!["\\d+".to_string()],
        &vec![">100".to_string()],
        2,
        &table,
    );
    let (_, rows) = r.unwrap();
    assert_eq!(rows, Vec::<String>::new());
}
