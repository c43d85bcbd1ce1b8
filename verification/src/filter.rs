//! Per-column filter rules: a search pattern plus a comparison.
//!
//! A rule matches a cell when the pattern is found somewhere in the
//! cell's text and the comparison accepts the number extracted from the
//! matched substring alone (not the whole cell). An absent cell, a cell
//! the pattern misses, and a matched substring without a usable number
//! all simply fail the rule — per-row evaluation never errors.

use vstd::prelude::*;

use crate::errors::FilterError;
use crate::number::Number;
use crate::number::extract_model;
use crate::number::extract_number;
use crate::number::num_le;
use crate::number::num_lt;
use crate::number::number_text;
use crate::number::token_fits;
use crate::number::token_number;

verus! {

/// What to do with the text a pattern matched.
#[derive(Clone, Copy, Debug, PartialEq, Eq, Structural)]
pub enum ComparisonKind {
    /// The pattern's presence alone decides.
    Exists,
    /// The matched number must be strictly greater than the threshold.
    GreaterThan(Number),
    /// The matched number must be strictly less than the threshold.
    LessThan(Number),
    /// The matched number must be at least the threshold.
    GreaterOrEqual(Number),
    /// The matched number must be at most the threshold.
    LessOrEqual(Number),
}

impl ComparisonKind {
    /// Every embedded threshold is well-formed.
    pub open spec fn wf(self) -> bool {
        match self {
            ComparisonKind::Exists => true,
            ComparisonKind::GreaterThan(n) => n.wf(),
            ComparisonKind::LessThan(n) => n.wf(),
            ComparisonKind::GreaterOrEqual(n) => n.wf(),
            ComparisonKind::LessOrEqual(n) => n.wf(),
        }
    }
}

// ------------------------------------------------------------------
// The pattern engine, trusted at its two entry points.
// ------------------------------------------------------------------

/// Whether the pattern engine accepts `p` as a pattern. A fixed pattern
/// text always compiles or always fails, so this is a function of the
/// text alone.
pub uninterp spec fn pattern_valid(p: Seq<char>) -> bool;

/// The substring of `t` that pattern `p` first matches, or `None` when
/// `p` matches nowhere in `t`. For a fixed pattern and text the engine
/// always finds the same (leftmost) match, so this too is a function of
/// the two texts alone.
pub uninterp spec fn find_match(p: Seq<char>, t: Seq<char>) -> Option<Seq<char>>;

/// Relies on regex::Regex::new: whether a pattern compiles depends on
/// the pattern text alone.
#[verifier::external_body]
pub(crate) fn pattern_compiles(pattern: &str) -> (r: bool)
    ensures
        r == pattern_valid(pattern@),
{
    regex::Regex::new(pattern).is_ok()
}

/// Relies on regex::Regex::new and regex::Regex::find: `find` returns
/// the leftmost match of the compiled pattern, and `Match::as_str` is
/// the matched substring of the haystack; both are determined by the
/// pattern and the haystack.
#[verifier::external_body]
fn regex_find_first(pattern: &str, text: &str) -> (r: Option<String>)
    requires
        pattern_valid(pattern@),
    ensures
        match r {
            Some(m) => find_match(pattern@, text@) == Some(m@),
            None => find_match(pattern@, text@) is None,
        },
{
    match regex::Regex::new(pattern) {
        Ok(re) => re.find(text).map(|m| m.as_str().to_string()),
        Err(_) => None,
    }
}

// ------------------------------------------------------------------
// One column's rule.
// ------------------------------------------------------------------

/// One column's rule: search `pattern` within the cell's text and apply
/// `comparison` to the number extracted from the matched substring.
pub struct FilterSpec {
    /// Which entry of the chosen-column list this rule was written for
    /// (1-based, relative to the range's first column).
    pub column_index: u32,
    /// The regular expression searched for in the cell's text.
    pub pattern: String,
    /// The test applied to the matched substring.
    pub comparison: ComparisonKind,
}

impl FilterSpec {
    /// The pattern compiles and the comparison's threshold is
    /// well-formed.
    pub open spec fn wf(self) -> bool {
        &&& pattern_valid(self.pattern@)
        &&& self.comparison.wf()
    }

    /// Build one rule. Fails with `RegexCompileError` exactly when the
    /// pattern does not compile.
    pub fn new(column_index: u32, pattern: String, comparison: ComparisonKind) -> (r: Result<
        FilterSpec,
        FilterError,
    >)
        requires
            comparison.wf(),
        ensures
            r is Ok <==> pattern_valid(pattern@),
            r is Ok ==> r->Ok_0 == (FilterSpec { column_index, pattern, comparison })
                && r->Ok_0.wf(),
            r is Err ==> r->Err_0 == FilterError::RegexCompileError,
    {
        if pattern_compiles(pattern.as_str()) {
            Ok(FilterSpec { column_index, pattern, comparison })
        } else {
            Err(FilterError::RegexCompileError)
        }
    }
}

// ------------------------------------------------------------------
// Parsing a filter string into a comparison.
// ------------------------------------------------------------------

/// The number a threshold text denotes, or why it has none.
pub open spec fn spec_threshold(rest: Seq<char>) -> Result<Number, FilterError> {
    match extract_model(rest) {
        None => Err(FilterError::NoNumericMatch),
        Some(t) => if token_fits(t) {
            Ok(token_number(t))
        } else {
            Err(FilterError::NumericOverflow)
        },
    }
}

/// The comparison a filter string denotes: one of the operator prefixes
/// `=`, `>=`, `<=`, `>`, `<` (longest first), with the threshold
/// extracted from the rest of the string. `=` alone asks for existence
/// and takes no threshold.
pub open spec fn spec_comparison(s: Seq<char>) -> Result<ComparisonKind, FilterError> {
    if s.len() >= 1 && s[0] == '=' {
        Ok(ComparisonKind::Exists)
    } else if s.len() >= 2 && s[0] == '>' && s[1] == '=' {
        match spec_threshold(s.subrange(2, s.len() as int)) {
            Ok(n) => Ok(ComparisonKind::GreaterOrEqual(n)),
            Err(e) => Err(e),
        }
    } else if s.len() >= 2 && s[0] == '<' && s[1] == '=' {
        match spec_threshold(s.subrange(2, s.len() as int)) {
            Ok(n) => Ok(ComparisonKind::LessOrEqual(n)),
            Err(e) => Err(e),
        }
    } else if s.len() >= 1 && s[0] == '>' {
        match spec_threshold(s.subrange(1, s.len() as int)) {
            Ok(n) => Ok(ComparisonKind::GreaterThan(n)),
            Err(e) => Err(e),
        }
    } else if s.len() >= 1 && s[0] == '<' {
        match spec_threshold(s.subrange(1, s.len() as int)) {
            Ok(n) => Ok(ComparisonKind::LessThan(n)),
            Err(e) => Err(e),
        }
    } else {
        Err(FilterError::InvalidFilterSyntax)
    }
}

/// Parse a user-typed filter string such as `">=10"` into a comparison.
/// Fails with `InvalidFilterSyntax` when the string starts with none of
/// the five operators, and with the threshold's own error when its
/// number cannot be extracted.
pub fn parse_comparison(s: &str) -> (r: Result<ComparisonKind, FilterError>)
    ensures
        r == spec_comparison(s@),
        r is Ok ==> r->Ok_0.wf(),
{
    let n = s.unicode_len();
    if n == 0 {
        return Err(FilterError::InvalidFilterSyntax);
    }
    let c0 = s.get_char(0);
    if c0 == '=' {
        Ok(ComparisonKind::Exists)
    } else if c0 == '>' && n >= 2 && s.get_char(1) == '=' {
        match extract_number(s.substring_char(2, n)) {
            Ok(v) => Ok(ComparisonKind::GreaterOrEqual(v)),
            Err(e) => Err(e),
        }
    } else if c0 == '<' && n >= 2 && s.get_char(1) == '=' {
        match extract_number(s.substring_char(2, n)) {
            Ok(v) => Ok(ComparisonKind::LessOrEqual(v)),
            Err(e) => Err(e),
        }
    } else if c0 == '>' {
        match extract_number(s.substring_char(1, n)) {
            Ok(v) => Ok(ComparisonKind::GreaterThan(v)),
            Err(e) => Err(e),
        }
    } else if c0 == '<' {
        match extract_number(s.substring_char(1, n)) {
            Ok(v) => Ok(ComparisonKind::LessThan(v)),
            Err(e) => Err(e),
        }
    } else {
        Err(FilterError::InvalidFilterSyntax)
    }
}

// ------------------------------------------------------------------
// Evaluating a rule against a cell.
// ------------------------------------------------------------------

/// Whether a comparison accepts a matched substring: `Exists` accepts
/// outright; the others extract the first number from the matched text
/// and compare it with the threshold. A matched substring without an
/// extractable, representable number fails.
pub open spec fn comparison_holds(cmp: ComparisonKind, m: Seq<char>) -> bool {
    match cmp {
        ComparisonKind::Exists => true,
        ComparisonKind::GreaterThan(n) => match extract_model(m) {
            Some(t) => token_fits(t) && num_lt(n, token_number(t)),
            None => false,
        },
        ComparisonKind::LessThan(n) => match extract_model(m) {
            Some(t) => token_fits(t) && num_lt(token_number(t), n),
            None => false,
        },
        ComparisonKind::GreaterOrEqual(n) => match extract_model(m) {
            Some(t) => token_fits(t) && num_le(n, token_number(t)),
            None => false,
        },
        ComparisonKind::LessOrEqual(n) => match extract_model(m) {
            Some(t) => token_fits(t) && num_le(token_number(t), n),
            None => false,
        },
    }
}

/// Whether one cell satisfies one rule: an absent cell never does; a
/// present cell does when the pattern matches somewhere in its text and
/// the comparison accepts the matched substring.
pub open spec fn spec_matches(spec: FilterSpec, cell: Option<Seq<char>>) -> bool {
    match cell {
        None => false,
        Some(text) => match find_match(spec.pattern@, text) {
            None => false,
            Some(m) => comparison_holds(spec.comparison, m),
        },
    }
}

/// Apply a comparison to an already-matched substring.
pub fn compare_match(m: &str, cmp: &ComparisonKind) -> (r: bool)
    requires
        cmp.wf(),
    ensures
        r == comparison_holds(*cmp, m@),
{
    match cmp {
        ComparisonKind::Exists => true,
        ComparisonKind::GreaterThan(n) => match extract_number(m) {
            Ok(v) => v.gt(n),
            Err(_) => false,
        },
        ComparisonKind::LessThan(n) => match extract_number(m) {
            Ok(v) => v.lt(n),
            Err(_) => false,
        },
        ComparisonKind::GreaterOrEqual(n) => match extract_number(m) {
            Ok(v) => v.ge(n),
            Err(_) => false,
        },
        ComparisonKind::LessOrEqual(n) => match extract_number(m) {
            Ok(v) => v.le(n),
            Err(_) => false,
        },
    }
}

impl FilterSpec {
    /// Whether this rule accepts the given cell (`None` for an absent
    /// cell).
    pub fn matches(&self, cell: Option<&str>) -> (r: bool)
        requires
            self.wf(),
        ensures
            r == spec_matches(*self, cell.deep_view()),
    {
        match cell {
            None => false,
            Some(text) => match regex_find_first(self.pattern.as_str(), text) {
                None => false,
                Some(m) => compare_match(m.as_str(), &self.comparison),
            },
        }
    }
}

// ------------------------------------------------------------------
// The written form of a rule.
// ------------------------------------------------------------------

/// How one rule reads in the document header: the bare pattern for an
/// existence check, otherwise a wording for the comparison with its
/// threshold.
pub open spec fn label_text(spec: FilterSpec) -> Seq<char> {
    match spec.comparison {
        ComparisonKind::Exists => spec.pattern@,
        ComparisonKind::GreaterThan(n) => "more than "@ + number_text(n),
        ComparisonKind::LessThan(n) => "less than "@ + number_text(n),
        ComparisonKind::GreaterOrEqual(n) => "from "@ + number_text(n),
        ComparisonKind::LessOrEqual(n) => "up to "@ + number_text(n),
    }
}

impl FilterSpec {
    /// Write this rule out as the document header shows it.
    pub fn render_label(&self) -> (r: String)
        requires
            self.wf(),
        ensures
            r@ == label_text(*self),
    {
        match &self.comparison {
            ComparisonKind::Exists => self.pattern.clone(),
            ComparisonKind::GreaterThan(n) => {
                let mut s = String::from_str("more than ");
                s.append(n.to_text().as_str());
                s
            },
            ComparisonKind::LessThan(n) => {
                let mut s = String::from_str("less than ");
                s.append(n.to_text().as_str());
                s
            },
            ComparisonKind::GreaterOrEqual(n) => {
                let mut s = String::from_str("from ");
                s.append(n.to_text().as_str());
                s
            },
            ComparisonKind::LessOrEqual(n) => {
                let mut s = String::from_str("up to ");
                s.append(n.to_text().as_str());
                s
            },
        }
    }
}

} // verus!
