use sheet_filter::CellCoordinate;
use sheet_filter::CellRange;
use sheet_filter::FilterError;
use sheet_filter::parse_side;
use sheet_filter::to_coords;

#[test]
fn parse_side_a1() {
    assert_eq!(parse_side("A1"), Ok(CellCoordinate { col: 0, row: 0 }));
}

#[test]
fn parse_side_z1() {
    assert_eq!(parse_side("Z1"), Ok(CellCoordinate { col: 25, row: 0 }));
}

#[test]
fn parse_side_aa1() {
    assert_eq!(parse_side("AA1"), Ok(CellCoordinate { col: 26, row: 0 }));
}

#[test]
fn parse_side_ab12() {
    assert_eq!(parse_side("AB12"), Ok(CellCoordinate { col: 27, row: 11 }));
}

#[test]
fn parse_side_distinct_letter_runs_distinct_columns() {
    let a = parse_side("Z9").unwrap();
    let b = parse_side("AA9").unwrap();
    let c = parse_side("AZ9").unwrap();
    let d = parse_side("BA9").unwrap();
    assert_ne!(a.col, b.col);
    assert_ne!(c.col, d.col);
    assert_eq!(c.col + 1, d.col);
}

#[test]
fn parse_side_rejects_interleaved() {
    assert_eq!(parse_side("1A"), Err(FilterError::InvalidAddress));
    assert_eq!(parse_side("A1B"), Err(FilterError::InvalidAddress));
    assert_eq!(parse_side("a1"), Err(FilterError::InvalidAddress));
}

#[test]
fn parse_side_rejects_empty_halves() {
    assert_eq!(parse_side(""), Err(FilterError::InvalidAddress));
    assert_eq!(parse_side("A"), Err(FilterError::InvalidAddress));
    assert_eq!(parse_side("12"), Err(FilterError::InvalidAddress));
}

#[test]
fn parse_side_rejects_row_zero() {
    assert_eq!(parse_side("A0"), Err(FilterError::InvalidAddress));
    assert_eq!(parse_side("B000"), Err(FilterError::InvalidAddress));
}

#[test]
fn parse_side_accepts_leading_zero_rows() {
    assert_eq!(parse_side("A07"), Ok(CellCoordinate { col: 0, row: 6 }));
}

#[test]
fn parse_side_rejects_huge_columns() {
    // Seven letters exceed the coordinate type.
    assert_eq!(parse_side("ZZZZZZZ1"), Err(FilterError::InvalidAddress));
    assert_eq!(
        parse_side("A99999999999"),
        Err(FilterError::InvalidAddress)
    );
}

#[test]
fn to_coords_a1_c10() {
    assert_eq!(
        to_coords("A1:C10"),
        Ok(CellRange {
            start: CellCoordinate { col: 0, row: 0 },
            end: CellCoordinate { col: 2, row: 9 },
        })
    );
}

#[test]
fn to_coords_rejects_malformed() {
    assert_eq!(to_coords("1A:B2"), Err(FilterError::InvalidAddress));
    assert_eq!(to_coords("A1B2"), Err(FilterError::InvalidAddress));
    assert_eq!(to_coords("A1:"), Err(FilterError::InvalidAddress));
    assert_eq!(to_coords(":B2"), Err(FilterError::InvalidAddress));
    assert_eq!(to_coords("A1:B2:C3"), Err(FilterError::InvalidAddress));
}

#[test]
fn to_coords_keeps_writing_order() {
    // No normalization: an inverted range comes back as written.
    assert_eq!(
        to_coords("C10:A1"),
        Ok(CellRange {
            start: CellCoordinate { col: 2, row: 9 },
            end: CellCoordinate { col: 0, row: 0 },
        })
    );
}
