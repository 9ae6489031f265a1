//! Validation of a calculation's parameters and the summary of its outliers.

use crate::envelope::{estimate, is_envelope_high, is_envelope_low, MAX_SERIES_LEN};
use crate::index::{index_text, index_value, parse_index};
use vstd::prelude::*;

verus! {

/// Why a calculation was refused. Earlier gates take precedence.
#[derive(Clone, Copy, Debug, PartialEq, Eq)]
pub enum ValidationError {
    /// The start record index is missing or not an unsigned integer.
    StartRecError,
    /// The end record index is missing or not an unsigned integer.
    EndRecError,
    /// The end index is less than three past the start index.
    RangeTooSmallError,
    /// The outlier threshold is missing, not a number, or negative.
    ThresholdError,
    /// The series holds fewer values than the end index.
    DatasetTooSmallError,
}

/// The half-open sub-range `[start, end)` of the series under test.
#[derive(Clone, Copy, Debug, PartialEq, Eq)]
pub struct SubRange {
    pub start: usize,
    pub end: usize,
}

/// The outcome of a calculation.
#[derive(Clone, Copy, Debug, PartialEq, Eq)]
pub struct CalculationResult {
    /// Outliers over the whole series.
    pub population_outlier_total: usize,
    /// Outliers within the sub-range.
    pub subrange_outlier_count: usize,
    /// Values in the sub-range.
    pub trial_count: usize,
    /// Lower end of the expected count, `floor(mean - sd)`.
    pub expected_low: i128,
    /// Upper end of the expected count, `ceil(mean + sd)`.
    pub expected_high: i128,
    /// Whether the sub-range count lies within the expected range.
    pub hypothesis_holds: bool,
}

/// How many of the flags are set.
pub open spec fn flagged_count(s: Seq<bool>) -> nat
    decreases s.len(),
{
    if s.len() == 0 {
        0
    } else {
        flagged_count(s.drop_last()) + if s.last() {
            1nat
        } else {
            0nat
        }
    }
}

/// Where every value of the series is flagged as an outlier, every value of
/// a range counts.
pub proof fn lemma_all_flagged_count_all(flags: Seq<bool>, lo: int, hi: int)
    requires
        0 <= lo <= hi <= flags.len(),
        forall|i: int| 0 <= i < flags.len() ==> #[trigger] flags[i],
    ensures
        flagged_count(flags.subrange(lo, hi)) == hi - lo,
    decreases hi - lo,
{
    if hi > lo {
        assert(flags.subrange(lo, hi).drop_last() =~= flags.subrange(lo, hi - 1));
        lemma_all_flagged_count_all(flags, lo, hi - 1);
    }
}

/// The validation gates in order: the start index, the end index, the
/// minimum width of three, the threshold, then the length of the series.
pub open spec fn gate_outcome(
    start_text: Seq<char>,
    end_text: Seq<char>,
    threshold_ok: bool,
    series_len: nat,
) -> Result<SubRange, ValidationError> {
    if !index_text(start_text) {
        Err(ValidationError::StartRecError)
    } else if !index_text(end_text) {
        Err(ValidationError::EndRecError)
    } else if index_value(end_text) < index_value(start_text) + 3 {
        Err(ValidationError::RangeTooSmallError)
    } else if !threshold_ok {
        Err(ValidationError::ThresholdError)
    } else if series_len < index_value(end_text) {
        Err(ValidationError::DatasetTooSmallError)
    } else {
        Ok(
            SubRange {
                start: index_value(start_text) as usize,
                end: index_value(end_text) as usize,
            },
        )
    }
}

/// A set flag marks an outlier: a value whose normalized magnitude reaches
/// the threshold. Counts the set flags in `[lo, hi)`.
pub fn count_outliers(flags: &Vec<bool>, lo: usize, hi: usize) -> (r: usize)
    requires
        lo <= hi <= flags.len(),
    ensures
        r == flagged_count(flags@.subrange(lo as int, hi as int)),
        r <= hi - lo,
{
    let mut r: usize = 0;
    let mut i: usize = lo;
    while i < hi
        invariant
            lo <= i <= hi <= flags.len(),
            r == flagged_count(flags@.subrange(lo as int, i as int)),
            r <= i - lo,
        decreases hi - i,
    {
        assert(flags@.subrange(lo as int, i + 1).drop_last() =~= flags@.subrange(
            lo as int,
            i as int,
        ));
        if flags[i] {
            r = r + 1;
        }
        i = i + 1;
    }
    r
}

/// Runs the validation gates. `threshold_ok` tells whether the threshold
/// text is a non-negative number; `series_len` is the length of the parsed
/// series.
pub fn validate(start_text: &str, end_text: &str, threshold_ok: bool, series_len: usize) -> (r:
    Result<SubRange, ValidationError>)
    ensures
        r == gate_outcome(start_text@, end_text@, threshold_ok, series_len as nat),
{
    let start = match parse_index(start_text) {
        Some(v) => v,
        None => {
            return Err(ValidationError::StartRecError);
        },
    };
    let end = match parse_index(end_text) {
        Some(v) => v,
        None => {
            return Err(ValidationError::EndRecError);
        },
    };
    if end < start || end - start < 3 {
        return Err(ValidationError::RangeTooSmallError);
    }
    if !threshold_ok {
        return Err(ValidationError::ThresholdError);
    }
    if series_len < end {
        return Err(ValidationError::DatasetTooSmallError);
    }
    Ok(SubRange { start, end })
}

/// Summarizes the outliers of a validated sub-range: `flags` marks the
/// outliers of the whole series.
pub fn conclude(range: SubRange, flags: &Vec<bool>) -> (r: CalculationResult)
    requires
        range.start + 3 <= range.end <= flags.len(),
        flags.len() <= MAX_SERIES_LEN,
    ensures
        r.population_outlier_total == flagged_count(flags@),
        r.subrange_outlier_count == flagged_count(
            flags@.subrange(range.start as int, range.end as int),
        ),
        r.trial_count == range.end - range.start,
        is_envelope_low(
            r.trial_count as int,
            r.population_outlier_total as int,
            flags.len() as int,
            r.expected_low as int,
        ),
        is_envelope_high(
            r.trial_count as int,
            r.population_outlier_total as int,
            flags.len() as int,
            r.expected_high as int,
        ),
        r.hypothesis_holds == (r.expected_low <= r.subrange_outlier_count <= r.expected_high),
{
    let total = count_outliers(flags, 0, flags.len());
    assert(flags@.subrange(0, flags.len() as int) =~= flags@);
    let count = count_outliers(flags, range.start, range.end);
    let trials = range.end - range.start;
    let env = estimate(trials, total, flags.len());
    CalculationResult {
        population_outlier_total: total,
        subrange_outlier_count: count,
        trial_count: trials,
        expected_low: env.low,
        expected_high: env.high,
        hypothesis_holds: env.contains(count),
    }
}

} // verus!
