//! The row-filtering engine.
//!
//! Given the parsed corners of a rectangular region, the chosen relative
//! columns with one rule each, and an output column, the engine walks
//! the data rows (everything after the region's first row, which is the
//! header), keeps the rows that satisfy every rule, and collects the
//! output column's text for each kept row — the placeholder `" - "`
//! standing in for an absent output cell.

use vstd::prelude::*;

use crate::address::CellRange;
use crate::address::range_ref_ok;
use crate::address::range_of;
use crate::address::to_coords;
use crate::errors::FilterError;
use crate::filter::ComparisonKind;
use crate::filter::FilterSpec;
use crate::filter::label_text;
use crate::filter::parse_comparison;
use crate::filter::spec_comparison;
use crate::filter::spec_matches;
use crate::filter::pattern_valid;

verus! {

// ------------------------------------------------------------------
// The in-memory table.
// ------------------------------------------------------------------

/// A rectangular snapshot of cell texts: rows of optional cells, `None`
/// for an absent cell. Anything outside the stored rows is absent too,
/// so rows of different widths are fine.
pub struct Table {
    pub cells: Vec<Vec<Option<String>>>,
}

impl Table {
    /// The cell at zero-based `(row, col)`, absent when out of bounds.
    pub open spec fn spec_cell(self, row: int, col: int) -> Option<Seq<char>> {
        if 0 <= row < self.cells@.len() && 0 <= col < self.cells@[row]@.len() {
            match self.cells@[row]@[col] {
                Some(s) => Some(s@),
                None => None,
            }
        } else {
            None
        }
    }

    /// Look one cell up.
    pub fn get_cell(&self, row: u32, col: u32) -> (r: Option<&String>)
        ensures
            match r {
                Some(s) => self.spec_cell(row as int, col as int) == Some(s@),
                None => self.spec_cell(row as int, col as int) is None,
            },
    {
        let ri = row as usize;
        if ri < self.cells.len() {
            let row_vec = &self.cells[ri];
            let ci = col as usize;
            if ci < row_vec.len() {
                match &row_vec[ci] {
                    Some(s) => Some(s),
                    None => None,
                }
            } else {
                None
            }
        } else {
            None
        }
    }
}

// ------------------------------------------------------------------
// What the engine computes.
// ------------------------------------------------------------------

/// The absolute sheet column that 1-based relative column `rel` names
/// within `range`.
pub open spec fn abs_col(range: CellRange, rel: u32) -> int {
    range.start.col + rel - 1
}

/// Whether data row `y` satisfies every rule: rule `i` is checked
/// against the cell in the column that `chosen[i]` names. No rules
/// means every row passes.
pub open spec fn row_included(
    range: CellRange,
    chosen: Seq<u32>,
    specs: Seq<FilterSpec>,
    table: Table,
    y: int,
) -> bool {
    forall|i: int|
        0 <= i < specs.len() ==> spec_matches(
            #[trigger] specs[i],
            table.spec_cell(y, abs_col(range, chosen[i])),
        )
}

/// The text an included row contributes: its output cell, or the
/// literal placeholder `" - "` when that cell is absent.
pub open spec fn row_output(range: CellRange, out_col: u32, table: Table, y: int) -> Seq<char> {
    match table.spec_cell(y, abs_col(range, out_col)) {
        Some(s) => s,
        None => " - "@,
    }
}

/// The outputs of the included rows among `y ..= y_end`, in row order.
pub open spec fn outputs_from(
    range: CellRange,
    chosen: Seq<u32>,
    specs: Seq<FilterSpec>,
    out_col: u32,
    table: Table,
    y: int,
    y_end: int,
) -> Seq<Seq<char>>
    decreases y_end + 1 - y,
{
    if y > y_end {
        Seq::empty()
    } else {
        (if row_included(range, chosen, specs, table, y) {
            seq![row_output(range, out_col, table, y)]
        } else {
            Seq::empty()
        }) + outputs_from(range, chosen, specs, out_col, table, y + 1, y_end)
    }
}

/// The engine's whole answer: the header row (`range.start.row`) is
/// skipped, the data rows run from `range.start.row + 1` through
/// `range.end.row`, and an inverted range yields nothing.
pub open spec fn filter_output(
    range: CellRange,
    chosen: Seq<u32>,
    specs: Seq<FilterSpec>,
    out_col: u32,
    table: Table,
) -> Seq<Seq<char>> {
    outputs_from(
        range,
        chosen,
        specs,
        out_col,
        table,
        range.start.row + 1,
        range.end.row as int,
    )
}

// ------------------------------------------------------------------
// The engine.
// ------------------------------------------------------------------

/// Whether data row `y` passes every rule (in the rules' given order,
/// stopping at the first failure — which cannot change the conjunctive
/// answer).
#[verifier::loop_isolation(false)]
fn row_passes(
    range: &CellRange,
    chosen: &Vec<u32>,
    specs: &Vec<FilterSpec>,
    table: &Table,
    y: u32,
) -> (r: bool)
    requires
        chosen@.len() == specs@.len(),
        forall|i: int| 0 <= i < specs@.len() ==> (#[trigger] specs@[i]).wf(),
        forall|i: int|
            0 <= i < chosen@.len() ==> 1 <= #[trigger] chosen@[i] && range.start.col + chosen@[i]
                - 1 <= u32::MAX,
    ensures
        r == row_included(*range, chosen@, specs@, *table, y as int),
{
    let n = specs.len();
    let mut i: usize = 0;
    while i < n
        invariant
            0 <= i <= n,
            forall|t: int|
                0 <= t < i ==> spec_matches(
                    #[trigger] specs@[t],
                    table.spec_cell(y as int, abs_col(*range, chosen@[t])),
                ),
        decreases n - i,
    {
        let col_abs: u32 = ((range.start.col as u64) + (chosen[i] as u64) - 1) as u32;
        let cell = table.get_cell(y, col_abs);
        let cell_str: Option<&str> = match cell {
            Some(s) => Some(s.as_str()),
            None => None,
        };
        if !specs[i].matches(cell_str) {
            assert(!spec_matches(
                specs@[i as int],
                table.spec_cell(y as int, abs_col(*range, chosen@[i as int])),
            ));
            return false;
        }
        i = i + 1;
    }
    true
}

/// Filter the data rows of `range` and collect the output column.
///
/// The first row of the range is the header and is never filtered or
/// emitted. A row is kept exactly when every rule accepts its cell in
/// the rule's chosen column; a kept row contributes its output cell's
/// text, or `" - "` when that cell is absent. Order is row order;
/// nothing is re-sorted or deduplicated, and the table is only read.
#[verifier::loop_isolation(false)]
pub fn filter_rows(
    range: &CellRange,
    chosen: &Vec<u32>,
    specs: &Vec<FilterSpec>,
    out_col: u32,
    table: &Table,
) -> (r: Vec<String>)
    requires
        chosen@.len() == specs@.len(),
        forall|i: int| 0 <= i < specs@.len() ==> (#[trigger] specs@[i]).wf(),
        forall|i: int|
            0 <= i < chosen@.len() ==> 1 <= #[trigger] chosen@[i] && range.start.col + chosen@[i]
                - 1 <= u32::MAX,
        1 <= out_col,
        range.start.col + out_col - 1 <= u32::MAX,
    ensures
        r.deep_view() == filter_output(*range, chosen@, specs@, out_col, *table),
{
    proof {
        reveal_strlit(" - ");
    }
    let out_abs: u32 = ((range.start.col as u64) + (out_col as u64) - 1) as u32;
    let mut out: Vec<String> = Vec::new();
    let y_end: u64 = range.end.row as u64;
    let mut y: u64 = range.start.row as u64 + 1;
    proof {
        assert(out.deep_view() + outputs_from(
            *range,
            chosen@,
            specs@,
            out_col,
            *table,
            y as int,
            y_end as int,
        ) =~= filter_output(*range, chosen@, specs@, out_col, *table));
    }
    while y <= y_end
        invariant
            range.start.row + 1 <= y,
            y <= y_end + 1 || y == range.start.row + 1,
            out.deep_view() + outputs_from(
                *range,
                chosen@,
                specs@,
                out_col,
                *table,
                y as int,
                y_end as int,
            ) == filter_output(*range, chosen@, specs@, out_col, *table),
        decreases y_end + 1 - y,
    {
        let yr: u32 = y as u32;
        let ghost before = out.deep_view();
        if row_passes(range, chosen, specs, table, yr) {
            let item: String = match table.get_cell(yr, out_abs) {
                Some(s) => s.clone(),
                None => String::from_str(" - "),
            };
            proof {
                assert(item@ == row_output(*range, out_col, *table, y as int));
            }
            out.push(item);
            proof {
                assert(out.deep_view() =~= before.push(row_output(
                    *range,
                    out_col,
                    *table,
                    y as int,
                )));
                assert(before.push(row_output(*range, out_col, *table, y as int))
                    + outputs_from(
                    *range,
                    chosen@,
                    specs@,
                    out_col,
                    *table,
                    y + 1,
                    y_end as int,
                ) =~= before + outputs_from(
                    *range,
                    chosen@,
                    specs@,
                    out_col,
                    *table,
                    y as int,
                    y_end as int,
                ));
            }
        } else {
            proof {
                assert(before + outputs_from(
                    *range,
                    chosen@,
                    specs@,
                    out_col,
                    *table,
                    y + 1,
                    y_end as int,
                ) =~= before + outputs_from(
                    *range,
                    chosen@,
                    specs@,
                    out_col,
                    *table,
                    y as int,
                    y_end as int,
                ));
            }
        }
        y = y + 1;
    }
    proof {
        assert(out.deep_view() + outputs_from(
            *range,
            chosen@,
            specs@,
            out_col,
            *table,
            y as int,
            y_end as int,
        ) =~= out.deep_view());
    }
    out
}

/// Helper for [`lemma_no_rules_keeps_every_row`]: over any row span,
/// an empty rule list keeps every row.
proof fn lemma_outputs_unfiltered(
    range: CellRange,
    chosen: Seq<u32>,
    specs: Seq<FilterSpec>,
    out_col: u32,
    table: Table,
    y: int,
    y_end: int,
)
    requires
        specs.len() == 0,
    ensures
        outputs_from(range, chosen, specs, out_col, table, y, y_end) == Seq::new(
            (if y <= y_end {
                y_end + 1 - y
            } else {
                0
            }) as nat,
            |i: int| row_output(range, out_col, table, y + i),
        ),
    decreases (if y <= y_end {
        y_end + 1 - y
    } else {
        0
    }),
{
    if y > y_end {
        assert(outputs_from(range, chosen, specs, out_col, table, y, y_end) =~= Seq::new(
            0,
            |i: int| row_output(range, out_col, table, y + i),
        ));
    } else {
        lemma_outputs_unfiltered(range, chosen, specs, out_col, table, y + 1, y_end);
        assert(row_included(range, chosen, specs, table, y));
        assert(outputs_from(range, chosen, specs, out_col, table, y, y_end) =~= Seq::new(
            (y_end + 1 - y) as nat,
            |i: int| row_output(range, out_col, table, y + i),
        ));
    }
}

/// With no rules chosen, nothing is filtered out: the engine's answer
/// is exactly every data row's output text, in row order — one entry
/// per row from `start.row + 1` through `end.row`.
pub proof fn lemma_no_rules_keeps_every_row(
    range: CellRange,
    chosen: Seq<u32>,
    specs: Seq<FilterSpec>,
    out_col: u32,
    table: Table,
)
    requires
        specs.len() == 0,
    ensures
        filter_output(range, chosen, specs, out_col, table) == Seq::new(
            (if range.start.row + 1 <= range.end.row {
                range.end.row - range.start.row
            } else {
                0
            }) as nat,
            |i: int| row_output(range, out_col, table, range.start.row + 1 + i),
        ),
{
    lemma_outputs_unfiltered(
        range,
        chosen,
        specs,
        out_col,
        table,
        range.start.row + 1,
        range.end.row as int,
    );
}

// ------------------------------------------------------------------
// Joining and the header.
// ------------------------------------------------------------------

/// `items` joined with `sep` between neighbours.
pub open spec fn joined(items: Seq<Seq<char>>, sep: Seq<char>) -> Seq<char>
    decreases items.len(),
{
    if items.len() == 0 {
        Seq::empty()
    } else if items.len() == 1 {
        items[0]
    } else {
        joined(items.drop_last(), sep) + sep + items.last()
    }
}

/// Join texts with `", "`, as both document paragraphs are assembled.
#[verifier::loop_isolation(false)]
pub fn join_comma(items: &Vec<String>) -> (r: String)
    ensures
        r@ == joined(items.deep_view(), ", "@),
{
    proof {
        reveal_strlit(", ");
    }
    let mut s = String::new();
    let mut i: usize = 0;
    while i < items.len()
        invariant
            0 <= i <= items@.len(),
            s@ == joined(items.deep_view().subrange(0, i as int), ", "@),
        decreases items@.len() - i,
    {
        if i > 0 {
            s.append(", ");
        }
        s.append(items[i].as_str());
        proof {
            let dv = items.deep_view();
            assert(dv.subrange(0, i + 1).drop_last() =~= dv.subrange(0, i as int));
            assert(dv.subrange(0, i + 1).last() == dv[i as int]);
            assert(dv[i as int] == items@[i as int]@);
            assert(s@ =~= joined(dv.subrange(0, i + 1), ", "@));
        }
        i = i + 1;
    }
    proof {
        assert(items.deep_view().subrange(0, items@.len() as int) =~= items.deep_view());
    }
    s
}

/// The header paragraph's text: every rule's written form, joined with
/// `", "`.
pub open spec fn header_text(specs: Seq<FilterSpec>) -> Seq<char> {
    joined(specs.map_values(|sp: FilterSpec| label_text(sp)), ", "@)
}

/// Write the rules out, comma-joined, for the document header.
#[verifier::loop_isolation(false)]
pub fn render_header(specs: &Vec<FilterSpec>) -> (r: String)
    requires
        forall|i: int| 0 <= i < specs@.len() ==> (#[trigger] specs@[i]).wf(),
    ensures
        r@ == header_text(specs@),
{
    let mut labels: Vec<String> = Vec::new();
    let mut i: usize = 0;
    while i < specs.len()
        invariant
            0 <= i <= specs@.len(),
            labels@.len() == i,
            forall|t: int| 0 <= t < i ==> (#[trigger] labels@[t])@ == label_text(specs@[t]),
        decreases specs@.len() - i,
    {
        let label = specs[i].render_label();
        labels.push(label);
        i = i + 1;
    }
    proof {
        assert(labels.deep_view() =~= specs@.map_values(|sp: FilterSpec| label_text(sp)));
    }
    join_comma(&labels)
}

// ------------------------------------------------------------------
// The whole pass.
// ------------------------------------------------------------------

/// The rules that the raw inputs build: entry `i` pairs `chosen[i]`
/// with `patterns[i]` and the comparison that `filter_texts[i]`
/// denotes.
pub open spec fn built_specs(
    chosen: Seq<u32>,
    patterns: Seq<String>,
    filter_texts: Seq<String>,
) -> Seq<FilterSpec> {
    Seq::new(
        chosen.len(),
        |i: int|
            FilterSpec {
                column_index: chosen[i],
                pattern: patterns[i],
                comparison: spec_comparison(filter_texts[i]@)->Ok_0,
            },
    )
}

/// The error of the first filter text that parses to none, if any.
pub open spec fn first_comparison_error(filter_texts: Seq<String>, i: int) -> Option<FilterError>
    decreases filter_texts.len() - i,
{
    if 0 <= i < filter_texts.len() {
        match spec_comparison(filter_texts[i]@) {
            Err(e) => Some(e),
            Ok(_) => first_comparison_error(filter_texts, i + 1),
        }
    } else {
        None
    }
}

/// Every chosen column and the output column land on an absolute
/// column that the coordinate type can hold.
pub open spec fn cols_fit(range: CellRange, chosen: Seq<u32>, out_col: u32) -> bool {
    &&& forall|i: int|
        0 <= i < chosen.len() ==> range.start.col + #[trigger] chosen[i] - 1 <= u32::MAX
    &&& range.start.col + out_col - 1 <= u32::MAX
}

/// The range a valid range reference describes.
pub open spec fn spec_range(range_text: Seq<char>) -> CellRange {
    CellRange { start: range_of(range_text).0, end: range_of(range_text).1 }
}

/// Whether one whole pass constructs, and the first error when it does
/// not: the range reference is checked first, then that every column
/// fits, then every pattern, then every filter text in order.
pub open spec fn spec_run(
    range_text: Seq<char>,
    chosen: Seq<u32>,
    patterns: Seq<String>,
    filter_texts: Seq<String>,
    out_col: u32,
) -> Result<(), FilterError> {
    if !range_ref_ok(range_text) {
        Err(FilterError::InvalidAddress)
    } else if !cols_fit(spec_range(range_text), chosen, out_col) {
        Err(FilterError::InvalidAddress)
    } else if !(forall|i: int| 0 <= i < patterns.len() ==> pattern_valid(#[trigger] patterns[i]@)) {
        Err(FilterError::RegexCompileError)
    } else {
        match first_comparison_error(filter_texts, 0) {
            Some(e) => Err(e),
            None => Ok(()),
        }
    }
}

proof fn lemma_first_comparison_error_is(filter_texts: Seq<String>, i: int, k: int)
    requires
        0 <= i <= k <= filter_texts.len(),
        forall|j: int| i <= j < k ==> #[trigger] spec_comparison(filter_texts[j]@) is Ok,
        k == filter_texts.len() || spec_comparison(filter_texts[k]@) is Err,
    ensures
        first_comparison_error(filter_texts, i) == if k == filter_texts.len() {
            Option::<FilterError>::None
        } else {
            Option::<FilterError>::Some(spec_comparison(filter_texts[k]@)->Err_0)
        },
    decreases k - i,
{
    if i < k {
        lemma_first_comparison_error_is(filter_texts, i + 1, k);
    }
}

/// One whole pass, fail-fast: parse the range reference, check that
/// every column fits, compile-check every pattern, parse every filter
/// text, and only then filter the rows — so a construction error means
/// no row was ever consulted. Returns the header text describing the
/// rules, and the kept rows' output texts.
#[verifier::loop_isolation(false)]
pub fn run_filters(
    range_text: &str,
    chosen: &Vec<u32>,
    patterns: &Vec<String>,
    filter_texts: &Vec<String>,
    out_col: u32,
    table: &Table,
) -> (r: Result<(String, Vec<String>), FilterError>)
    requires
        chosen@.len() == patterns@.len(),
        chosen@.len() == filter_texts@.len(),
        forall|i: int| 0 <= i < chosen@.len() ==> 1 <= #[trigger] chosen@[i],
        1 <= out_col,
    ensures
        r is Ok <==> spec_run(range_text@, chosen@, patterns@, filter_texts@, out_col) is Ok,
        r is Err ==> spec_run(range_text@, chosen@, patterns@, filter_texts@, out_col) == Err::<
            (),
            FilterError,
        >(r->Err_0),
        r is Ok ==> r->Ok_0.0@ == header_text(
            built_specs(chosen@, patterns@, filter_texts@),
        ) && r->Ok_0.1.deep_view() == filter_output(
            spec_range(range_text@),
            chosen@,
            built_specs(chosen@, patterns@, filter_texts@),
            out_col,
            *table,
        ),
{
    // The range reference comes first: nothing else is looked at when
    // it is malformed.
    let range = match to_coords(range_text) {
        Ok(rg) => rg,
        Err(e) => {
            return Err(e);
        },
    };
    // Every chosen column and the output column must land inside the
    // coordinate type.
    let mut i: usize = 0;
    while i < chosen.len()
        invariant
            0 <= i <= chosen@.len(),
            forall|t: int|
                0 <= t < i ==> range.start.col + #[trigger] chosen@[t] - 1 <= u32::MAX,
        decreases chosen@.len() - i,
    {
        if (range.start.col as u64) + (chosen[i] as u64) - 1 > u32::MAX as u64 {
            return Err(FilterError::InvalidAddress);
        }
        i = i + 1;
    }
    if (range.start.col as u64) + (out_col as u64) - 1 > u32::MAX as u64 {
        return Err(FilterError::InvalidAddress);
    }
    // Every pattern must compile before any filter text is read.
    let mut comps: Vec<ComparisonKind> = Vec::new();
    let mut specs: Vec<FilterSpec> = Vec::new();
    let mut i2: usize = 0;
    while i2 < patterns.len()
        invariant
            0 <= i2 <= patterns@.len(),
            forall|t: int| 0 <= t < i2 ==> pattern_valid(#[trigger] patterns@[t]@),
        decreases patterns@.len() - i2,
    {
        if !crate::filter::pattern_compiles(patterns[i2].as_str()) {
            return Err(FilterError::RegexCompileError);
        }
        i2 = i2 + 1;
    }
    // Parse every filter text, in order; the first failure wins.
    let mut i3: usize = 0;
    while i3 < filter_texts.len()
        invariant
            0 <= i3 <= filter_texts@.len(),
            comps@.len() == i3,
            forall|t: int| 0 <= t < i3 ==> #[trigger] spec_comparison(filter_texts@[t]@) is Ok,
            forall|t: int|
                0 <= t < i3 ==> #[trigger] comps@[t] == spec_comparison(filter_texts@[t]@)->Ok_0
                    && comps@[t].wf(),
        decreases filter_texts@.len() - i3,
    {
        match parse_comparison(filter_texts[i3].as_str()) {
            Ok(c) => {
                comps.push(c);
            },
            Err(e) => {
                proof {
                    lemma_first_comparison_error_is(filter_texts@, 0, i3 as int);
                }
                return Err(e);
            },
        }
        i3 = i3 + 1;
    }
    proof {
        lemma_first_comparison_error_is(filter_texts@, 0, filter_texts@.len() as int);
    }
    // Assemble the rules.
    let mut i4: usize = 0;
    while i4 < chosen.len()
        invariant
            0 <= i4 <= chosen@.len(),
            specs@ =~= built_specs(chosen@, patterns@, filter_texts@).subrange(0, i4 as int),
            forall|t: int| 0 <= t < i4 ==> (#[trigger] specs@[t]).wf(),
        decreases chosen@.len() - i4,
    {
        match FilterSpec::new(chosen[i4], patterns[i4].clone(), comps[i4]) {
            Ok(sp) => {
                specs.push(sp);
                proof {
                    assert(specs@ =~= built_specs(chosen@, patterns@, filter_texts@).subrange(
                        0,
                        i4 + 1,
                    ));
                }
            },
            Err(e) => {
                return Err(e);
            },
        }
        i4 = i4 + 1;
    }
    proof {
        assert(built_specs(chosen@, patterns@, filter_texts@).subrange(
            0,
            chosen@.len() as int,
        ) =~= built_specs(chosen@, patterns@, filter_texts@));
    }
    let rows = filter_rows(&range, chosen, &specs, out_col, table);
    let header = render_header(&specs);
    Ok((header, rows))
}

} // verus!
