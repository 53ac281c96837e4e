//! The catalog of scoring formulas over a tally's counters.
//!
//! Scores are exact and kept in hundredths, as the aged counters are: a
//! formula such as `newest_age * aged_freq_counter` is the product of an age
//! and a counter in hundredths; plain counts and ages are scaled by 100.
use vstd::prelude::*;
use crate::stats::{FileStats, FunctionStats, Tally, TallyView};

verus! {

/// Number of formulas in the catalog; fields are `0..FIELD_COUNT`.
pub const FIELD_COUNT: u64 = 26;

/// The score of a field outside the catalog (every formula is non-negative).
pub const INVALID_SCORE: i128 = -100;

/// The score, in hundredths, of formula `field` on tally `t`.
pub open spec fn score_of(t: TallyView, field: u64) -> int {
    let freq = t.freq_counter;
    let bug = t.bug_counter;
    let oldest = t.oldest_age;
    let newest = t.newest_age;
    let aged = t.aged_freq_counter;
    let aged_bug = t.aged_bug_freq_counter;
    match field {
        0 => 100 * freq,
        1 => 100 * bug,
        2 => 100 * oldest,
        3 => 100 * newest,
        4 => aged,
        5 => aged_bug,
        6 => 100 * freq * newest,
        7 => 100 * bug * newest,
        8 => 100 * freq * oldest,
        9 => 100 * bug * oldest,
        10 => newest * aged,
        11 => newest * aged_bug,
        12 => newest * aged + newest * aged_bug,
        13 => 2 * newest * aged + newest * aged_bug,
        14 => 10 * newest * aged + newest * aged_bug,
        15 => newest * aged + 2 * newest * aged_bug,
        16 => newest * aged + 10 * newest * aged_bug,
        17 => newest * aged + 100 * newest,
        18 => newest * aged_bug + 100 * newest,
        19 => 100 * newest + newest * aged + newest * aged_bug,
        20 => 100 * newest + 2 * newest * aged + newest * aged_bug,
        21 => 100 * newest + 10 * newest * aged + newest * aged_bug,
        22 => 100 * newest + newest * aged + 2 * newest * aged_bug,
        23 => 100 * newest + newest * aged + 10 * newest * aged_bug,
        24 => 200 * newest + newest * aged,
        25 => 200 * newest + newest * aged_bug,
        _ => INVALID_SCORE as int,
    }
}

proof fn lemma_product_bounds(x: int, y: int)
    requires
        0 <= x <= u64::MAX,
        0 <= y <= u32::MAX,
    ensures
        0 <= x * y <= u64::MAX * u32::MAX,
{
    assert(0 <= x * y <= u64::MAX * u32::MAX) by (nonlinear_arith)
        requires
            0 <= x <= u64::MAX,
            0 <= y <= u32::MAX,
    ;
}

/// The score, in hundredths, of formula `field` on tally `t`; a field outside
/// the catalog scores `INVALID_SCORE`.
pub fn score(t: &Tally, field: u64) -> (r: i128)
    ensures
        r == score_of(t@, field),
        field < FIELD_COUNT ==> r >= 0,
        field >= FIELD_COUNT ==> r == INVALID_SCORE,
{
    let freq = t.freq_counter as i128;
    let bug = t.bug_counter as i128;
    let oldest = t.oldest_age as i128;
    let newest = t.newest_age as i128;
    let aged = t.aged_freq_counter as i128;
    let aged_bug = t.aged_bug_freq_counter as i128;
    proof {
        lemma_product_bounds(freq as int, newest as int);
        lemma_product_bounds(bug as int, newest as int);
        lemma_product_bounds(freq as int, oldest as int);
        lemma_product_bounds(bug as int, oldest as int);
        lemma_product_bounds(aged as int, newest as int);
        lemma_product_bounds(aged_bug as int, newest as int);
    }
    let freq_newest = freq * newest;
    let bug_newest = bug * newest;
    let freq_oldest = freq * oldest;
    let bug_oldest = bug * oldest;
    let newest_aged = newest * aged;
    let newest_aged_bug = newest * aged_bug;
    proof {
        assert(freq_newest == freq * newest && 100 * freq * newest == 100 * freq_newest)
            by (nonlinear_arith)
            requires
                freq_newest == freq * newest,
        ;
        assert(100 * bug * newest == 100 * bug_newest) by (nonlinear_arith)
            requires
                bug_newest == bug * newest,
        ;
        assert(100 * freq * oldest == 100 * freq_oldest) by (nonlinear_arith)
            requires
                freq_oldest == freq * oldest,
        ;
        assert(100 * bug * oldest == 100 * bug_oldest) by (nonlinear_arith)
            requires
                bug_oldest == bug * oldest,
        ;
        assert(2 * newest * aged == 2 * newest_aged && 10 * newest * aged == 10 * newest_aged)
            by (nonlinear_arith)
            requires
                newest_aged == newest * aged,
        ;
        assert(2 * newest * aged_bug == 2 * newest_aged_bug && 10 * newest * aged_bug == 10
            * newest_aged_bug) by (nonlinear_arith)
            requires
                newest_aged_bug == newest * aged_bug,
        ;
    }
    match field {
        0 => 100 * freq,
        1 => 100 * bug,
        2 => 100 * oldest,
        3 => 100 * newest,
        4 => aged,
        5 => aged_bug,
        6 => 100 * freq_newest,
        7 => 100 * bug_newest,
        8 => 100 * freq_oldest,
        9 => 100 * bug_oldest,
        10 => newest_aged,
        11 => newest_aged_bug,
        12 => newest_aged + newest_aged_bug,
        13 => 2 * newest_aged + newest_aged_bug,
        14 => 10 * newest_aged + newest_aged_bug,
        15 => newest_aged + 2 * newest_aged_bug,
        16 => newest_aged + 10 * newest_aged_bug,
        17 => newest_aged + 100 * newest,
        18 => newest_aged_bug + 100 * newest,
        19 => 100 * newest + newest_aged + newest_aged_bug,
        20 => 100 * newest + 2 * newest_aged + newest_aged_bug,
        21 => 100 * newest + 10 * newest_aged + newest_aged_bug,
        22 => 100 * newest + newest_aged + 2 * newest_aged_bug,
        23 => 100 * newest + newest_aged + 10 * newest_aged_bug,
        24 => 200 * newest + newest_aged,
        25 => 200 * newest + newest_aged_bug,
        _ => INVALID_SCORE,
    }
}

impl FileStats {
    /// The score, in hundredths, of formula `field` on this file.
    pub fn score(&self, field: u64) -> (r: i128)
        ensures
            r == score_of(self.tally@, field),
    {
        score(&self.tally, field)
    }
}

impl FunctionStats {
    /// The score, in hundredths, of formula `field` on this function.
    pub fn score(&self, field: u64) -> (r: i128)
        ensures
            r == score_of(self.tally@, field),
    {
        score(&self.tally, field)
    }
}

/// The label of formula `field`.
pub open spec fn field_label(field: u64) -> Seq<char> {
    match field {
        0 => "frequency"@,
        1 => "fixed bugs"@,
        2 => "oldest change"@,
        3 => "newest change"@,
        4 => "frequency aged by commit ages"@,
        5 => "fixed bugs aged by commit ages"@,
        6 => "frequency aged by most recent newest file change"@,
        7 => "fixed bugs aged by most recent newest file change"@,
        8 => "frequency aged by most recent oldest file change"@,
        9 => "fixed bugs aged by most recent oldest file change"@,
        10 => "frequency aged by commit ages * newest change"@,
        11 => "fixed bugs aged by commit ages * newest change"@,
        12 => "custom formula"@,
        13 => "custom formula freq1"@,
        14 => "custom formula freq2"@,
        15 => "custom formula bug1"@,
        16 => "custom formula bug2"@,
        17 => "custom formula freqonly"@,
        18 => "custom formula bugonly"@,
        19 => "custom formula more newest change"@,
        20 => "custom formula freq1 more newest change"@,
        21 => "custom formula freq2 more newest change"@,
        22 => "custom formula bug1 more newest change"@,
        23 => "custom formula bug2 more newest change"@,
        24 => "custom formula freqonly more newest change"@,
        25 => "custom formula bugonly more newest change"@,
        _ => "unknown field"@,
    }
}

/// The label of formula `field`.
pub fn field_name(field: u64) -> (r: &'static str)
    ensures
        r@ == field_label(field),
{
    match field {
        0 => "frequency",
        1 => "fixed bugs",
        2 => "oldest change",
        3 => "newest change",
        4 => "frequency aged by commit ages",
        5 => "fixed bugs aged by commit ages",
        6 => "frequency aged by most recent newest file change",
        7 => "fixed bugs aged by most recent newest file change",
        8 => "frequency aged by most recent oldest file change",
        9 => "fixed bugs aged by most recent oldest file change",
        10 => "frequency aged by commit ages * newest change",
        11 => "fixed bugs aged by commit ages * newest change",
        12 => "custom formula",
        13 => "custom formula freq1",
        14 => "custom formula freq2",
        15 => "custom formula bug1",
        16 => "custom formula bug2",
        17 => "custom formula freqonly",
        18 => "custom formula bugonly",
        19 => "custom formula more newest change",
        20 => "custom formula freq1 more newest change",
        21 => "custom formula freq2 more newest change",
        22 => "custom formula bug1 more newest change",
        23 => "custom formula bug2 more newest change",
        24 => "custom formula freqonly more newest change",
        25 => "custom formula bugonly more newest change",
        _ => "unknown field",
    }
}

} // verus!
