//! Backtesting a scoring formula: rank the files by score and measure what
//! share of the post-cutoff bug fixes the top of the ranking holds.
//!
//! Shares are in hundredths of a percent: a file holding `c` of `t` fixes
//! adds `round(10000 * c / t)`.
use vstd::prelude::*;
use crate::history::CommitChanges;
use crate::pattern::Pattern;
use crate::score::{FIELD_COUNT, score_of};
use crate::stats::{
    FileStatsView,
    ModelView,
    StatisticsModel,
    aggregate,
    aggregated,
    file_wf,
    history_weight,
};

verus! {

// ---------------------------------------------------------------------------
// Ranking
/// Whether index `x` ranks ahead of index `y`: a higher key, or an equal key
/// and an earlier index.
pub open spec fn ranks_before(keys: Seq<int>, x: int, y: int) -> bool {
    keys[x] > keys[y] || (keys[x] == keys[y] && x < y)
}

/// `order` holds the indices of `keys` in ranking order.
pub open spec fn is_ranking(keys: Seq<int>, order: Seq<usize>) -> bool {
    &&& order.len() == keys.len()
    &&& forall|q: int| 0 <= q < order.len() ==> #[trigger] order[q] < keys.len()
    &&& forall|a: int, b: int|
        0 <= a < b < order.len() ==> ranks_before(keys, #[trigger] order[a] as int, #[trigger] order[b] as int)
}

/// How many entries at the front of `order` have a key of at least `v`.
pub open spec fn leading_at_least(order: Seq<usize>, keys: Seq<int>, v: int) -> int
    decreases order.len(),
{
    if order.len() == 0 {
        0
    } else if keys[order[0] as int] < v {
        0
    } else {
        1 + leading_at_least(order.drop_first(), keys, v)
    }
}

/// The first `n` indices of `keys` by descending key, ties by ascending index.
pub open spec fn ranked(keys: Seq<int>, n: nat) -> Seq<usize>
    decreases n,
{
    if n == 0 {
        seq![]
    } else {
        let prev = ranked(keys, (n - 1) as nat);
        let i = n - 1;
        prev.insert(leading_at_least(prev, keys, keys[i]), i as usize)
    }
}

pub open spec fn key_values(keys: Seq<i128>) -> Seq<int> {
    keys.map_values(|k: i128| k as int)
}

proof fn lemma_leading(order: Seq<usize>, keys: Seq<int>, v: int)
    requires
        forall|q: int| 0 <= q < order.len() ==> #[trigger] order[q] < keys.len(),
    ensures
        0 <= leading_at_least(order, keys, v) <= order.len(),
        forall|q: int| 0 <= q < leading_at_least(order, keys, v) ==> keys[#[trigger] order[q] as int] >= v,
        leading_at_least(order, keys, v) < order.len() ==> keys[order[leading_at_least(order, keys, v)] as int] < v,
    decreases order.len(),
{
    if order.len() > 0 && keys[order[0] as int] >= v {
        let rest = order.drop_first();
        assert forall|q: int| 0 <= q < rest.len() implies #[trigger] rest[q] < keys.len() by {
            assert(rest[q] == order[q + 1]);
        }
        lemma_leading(rest, keys, v);
        assert forall|q: int| 0 <= q < leading_at_least(order, keys, v) implies keys[#[trigger] order[q] as int] >= v by {
            if q > 0 {
                assert(order[q] == rest[q - 1]);
            }
        }
    }
}

proof fn lemma_ranked(keys: Seq<int>, n: nat)
    requires
        n <= keys.len(),
        keys.len() <= usize::MAX,
    ensures
        ranked(keys, n).len() == n,
        forall|q: int| 0 <= q < n ==> #[trigger] ranked(keys, n)[q] < n,
        forall|a: int, b: int|
            0 <= a < b < n ==> ranks_before(keys, #[trigger] ranked(keys, n)[a] as int, #[trigger] ranked(keys, n)[b] as int),
    decreases n,
{
    if n > 0 {
        let prev = ranked(keys, (n - 1) as nat);
        lemma_ranked(keys, (n - 1) as nat);
        let i = n - 1;
        let v = keys[i];
        assert forall|q: int| 0 <= q < prev.len() implies #[trigger] prev[q] < keys.len() by {}
        lemma_leading(prev, keys, v);
        let p = leading_at_least(prev, keys, v);
        let cur = ranked(keys, n);
        assert(cur == prev.insert(p, i as usize));
        assert forall|q: int| 0 <= q < n implies #[trigger] cur[q] < n by {
            if q < p {
                assert(cur[q] == prev[q]);
            } else if q > p {
                assert(cur[q] == prev[q - 1]);
            }
        }
        assert forall|q: int| p <= q < prev.len() implies keys[#[trigger] prev[q] as int] < v by {
            if q > p {
                assert(ranks_before(keys, prev[p] as int, prev[q] as int));
            }
        }
        assert forall|a: int, b: int| 0 <= a < b < n implies ranks_before(
            keys,
            #[trigger] cur[a] as int,
            #[trigger] cur[b] as int,
        ) by {
            if b < p {
                assert(cur[a] == prev[a] && cur[b] == prev[b]);
            } else if b == p {
                assert(cur[a] == prev[a]);
                assert(keys[prev[a] as int] >= v);
            } else if a < p {
                assert(cur[a] == prev[a] && cur[b] == prev[b - 1]);
            } else if a == p {
                assert(cur[b] == prev[b - 1]);
                assert(keys[prev[b - 1] as int] < v);
            } else {
                assert(cur[a] == prev[a - 1] && cur[b] == prev[b - 1]);
            }
        }
    }
}

/// The indices of `keys` by descending key; equal keys keep their order.
pub fn rank_descending(keys: &Vec<i128>) -> (r: Vec<usize>)
    ensures
        r@ == ranked(key_values(keys@), keys@.len()),
        is_ranking(key_values(keys@), r@),
{
    let ghost kv = key_values(keys@);
    let mut order: Vec<usize> = Vec::new();
    let mut i: usize = 0;
    while i < keys.len()
        invariant
            i <= keys@.len(),
            kv == key_values(keys@),
            order@ == ranked(kv, i as nat),
        decreases keys@.len() - i,
    {
        let v = keys[i];
        proof {
            lemma_ranked(kv, i as nat);
        }
        let mut p: usize = 0;
        proof {
            assert(order@.subrange(0, order@.len() as int) =~= order@);
        }
        while p < order.len() && keys[order[p]] >= v
            invariant
                p <= order@.len(),
                kv == key_values(keys@),
                order@ == ranked(kv, i as nat),
                i < keys@.len(),
                v == keys@[i as int],
                order@.len() == i,
                forall|q: int| 0 <= q < i ==> #[trigger] order@[q] < i,
                leading_at_least(order@, kv, v as int) == p + leading_at_least(
                    order@.subrange(p as int, order@.len() as int),
                    kv,
                    v as int,
                ),
            decreases order@.len() - p,
        {
            proof {
                let rest = order@.subrange(p as int, order@.len() as int);
                assert(rest.drop_first() =~= order@.subrange(p + 1, order@.len() as int));
                assert(rest[0] == order@[p as int]);
            }
            p += 1;
        }
        proof {
            let rest = order@.subrange(p as int, order@.len() as int);
            if p < order@.len() {
                assert(rest[0] == order@[p as int]);
            }
            assert(order@.subrange(0, order@.len() as int) =~= order@);
        }
        order.insert(p, i);
        i += 1;
    }
    proof {
        lemma_ranked(kv, keys@.len());
    }
    order
}

// ---------------------------------------------------------------------------
// Capture curve
/// The share, in hundredths of a percent, of `count` among `total` fixes.
pub open spec fn capture_term(count: int, total: int) -> int {
    (20000 * count + total) / (2 * total)
}

/// The share of all fixes held by the first `k` entries of `counts`.
pub open spec fn captured(counts: Seq<int>, total: int, k: int) -> int
    decreases k,
{
    if k <= 0 {
        0
    } else {
        captured(counts, total, k - 1) + capture_term(counts[k - 1], total)
    }
}

/// The number of files in the top `p` percent of `n`.
pub open spec fn rank_cut(n: int, p: int) -> int {
    n * p / 100
}

pub open spec fn score_keys(m: ModelView, field: u64) -> Seq<int> {
    m.files.map_values(|f: FileStatsView| score_of(f.tally, field))
}

pub open spec fn fix_counts_in_order(m: ModelView, order: Seq<usize>) -> Seq<int> {
    order.map_values(|i: usize| m.files[i as int].post_cutoff_bugfix_commit_count)
}

/// For each breakpoint `p`, the share of post-cutoff bug fixes held by the
/// top `p` percent of files ranked by formula `field`.
pub open spec fn capture_curve(m: ModelView, field: u64, breakpoints: Seq<u32>) -> Seq<int> {
    let n = m.files.len();
    let counts = fix_counts_in_order(m, ranked(score_keys(m, field), n));
    breakpoints.map_values(|p: u32| captured(counts, m.total_post_cutoff_bugfixes, rank_cut(n as int, p as int)))
}

/// The outcome of a backtest.
pub enum Capture {
    /// No post-cutoff bug fix was observed: there is nothing to capture.
    NoSignal,
    /// The captured share, in hundredths of a percent, at each breakpoint.
    Curve(Vec<u128>),
}

pub open spec fn curve_values(v: Seq<u128>) -> Seq<int> {
    v.map_values(|x: u128| x as int)
}

proof fn lemma_capture_term(count: int, total: int)
    requires
        0 <= count <= total,
        0 < total,
    ensures
        0 <= capture_term(count, total) <= 10000,
{
    assert(20000 * count + total <= 20001 * total) by (nonlinear_arith)
        requires
            count <= total,
    ;
    assert((20000 * count + total) / (2 * total) <= 10000) by (nonlinear_arith)
        requires
            20000 * count + total <= 20001 * total,
            0 < total,
    ;
    assert((20000 * count + total) / (2 * total) >= 0) by (nonlinear_arith)
        requires
            0 <= count,
            0 < total,
    ;
}

/// Inspecting more of the ranking never captures less.
pub proof fn lemma_captured_monotone(counts: Seq<int>, total: int, k1: int, k2: int)
    requires
        0 < total,
        0 <= k1 <= k2 <= counts.len(),
        forall|q: int| 0 <= q < counts.len() ==> 0 <= #[trigger] counts[q],
    ensures
        captured(counts, total, k1) <= captured(counts, total, k2),
    decreases k2 - k1,
{
    if k1 < k2 {
        lemma_captured_monotone(counts, total, k1, k2 - 1);
        let c = counts[k2 - 1];
        assert((20000 * c + total) / (2 * total) >= 0) by (nonlinear_arith)
            requires
                0 <= c,
                0 < total,
        ;
    }
}

/// A larger breakpoint cuts the ranking no earlier.
pub proof fn lemma_rank_cut_monotone(n: int, low: int, high: int)
    requires
        0 <= n,
        0 <= low <= high <= 100,
    ensures
        0 <= rank_cut(n, low) <= rank_cut(n, high) <= n,
{
    assert(0 <= n * low <= n * high <= n * 100) by (nonlinear_arith)
        requires
            0 <= n,
            0 <= low <= high <= 100,
    ;
    assert(n * low / 100 <= n * high / 100) by (nonlinear_arith)
        requires
            n * low <= n * high,
    ;
}

/// Along non-decreasing breakpoints, the captured share never decreases.
pub proof fn lemma_capture_curve_monotone(m: ModelView, field: u64, breakpoints: Seq<u32>, a: int, b: int)
    requires
        m.wf(),
        m.total_post_cutoff_bugfixes > 0,
        m.files.len() <= usize::MAX,
        0 <= a < b < breakpoints.len(),
        breakpoints[a] <= breakpoints[b] <= 100,
    ensures
        capture_curve(m, field, breakpoints)[a] <= capture_curve(m, field, breakpoints)[b],
{
    let n = m.files.len();
    let keys = score_keys(m, field);
    lemma_ranked(keys, n);
    let order = ranked(keys, n);
    let counts = fix_counts_in_order(m, order);
    assert forall|q: int| 0 <= q < counts.len() implies 0 <= #[trigger] counts[q] by {
        assert(order[q] < n);
        assert(file_wf(m.files[order[q] as int], m.max_age, m.total_post_cutoff_bugfixes));
    }
    lemma_rank_cut_monotone(n as int, breakpoints[a] as int, breakpoints[b] as int);
    lemma_captured_monotone(
        counts,
        m.total_post_cutoff_bugfixes,
        rank_cut(n as int, breakpoints[a] as int),
        rank_cut(n as int, breakpoints[b] as int),
    );
}

/// The scores of every file under formula `field`, in model order.
pub fn file_scores(model: &StatisticsModel, field: u64) -> (r: Vec<i128>)
    ensures
        key_values(r@) == score_keys(model@, field),
{
    let mut keys: Vec<i128> = Vec::new();
    let mut i: usize = 0;
    while i < model.files.len()
        invariant
            i <= model.files@.len(),
            key_values(keys@) == score_keys(model@, field).take(i as int),
        decreases model.files@.len() - i,
    {
        let s = model.files[i].score(field);
        proof {
            assert(model@.files[i as int] == model.files@[i as int]@);
        }
        let ghost before = keys@;
        keys.push(s);
        i += 1;
        proof {
            assert(score_keys(model@, field)[i - 1] == s as int);
            assert(key_values(keys@) =~= key_values(before).push(s as int));
            assert(key_values(keys@) =~= score_keys(model@, field).take(i as int));
        }
    }
    proof {
        assert(score_keys(model@, field).take(i as int) =~= score_keys(model@, field));
    }
    keys
}

/// Ranks the files of `model` by formula `field` and reports, for each
/// breakpoint `p`, the share of post-cutoff bug fixes held by the top `p`
/// percent of files; `NoSignal` where the model saw no post-cutoff bug fix.
pub fn backtest(model: &StatisticsModel, field: u64, breakpoints: &Vec<u32>) -> (r: Capture)
    requires
        model@.wf(),
        forall|k: int| 0 <= k < breakpoints@.len() ==> #[trigger] breakpoints@[k] <= 100,
    ensures
        model.total_post_cutoff_bugfixes == 0 <==> r is NoSignal,
        r matches Capture::Curve(v) ==> curve_values(v@) == capture_curve(model@, field, breakpoints@),
        r matches Capture::Curve(v) ==> forall|a: int, b: int|
            0 <= a < b < breakpoints@.len() && breakpoints@[a] <= breakpoints@[b] ==> v@[a] <= v@[b],
        r matches Capture::Curve(v) ==> v@.len() == breakpoints@.len(),
        r matches Capture::Curve(v) ==> forall|k: int|
            0 <= k < v@.len() ==> #[trigger] v@[k] <= 10000 * model.files@.len(),
{
    let total = model.total_post_cutoff_bugfixes;
    if total == 0 {
        return Capture::NoSignal;
    }
    let ghost m = model@;
    let n = model.files.len();
    let keys = file_scores(model, field);
    let order = rank_descending(&keys);
    let ghost counts = fix_counts_in_order(m, order@);
    proof {
        lemma_ranked(score_keys(m, field), n as nat);
    }
    // prefix[k] is the share held by the first k files of the ranking.
    let mut prefix: Vec<u128> = Vec::new();
    prefix.push(0);
    let mut k: usize = 0;
    while k < n
        invariant
            k <= n,
            n == m.files.len(),
            n == model.files@.len(),
            m == model@,
            m.wf(),
            total == m.total_post_cutoff_bugfixes,
            total > 0,
            order@ == ranked(score_keys(m, field), n as nat),
            is_ranking(score_keys(m, field), order@),
            counts == fix_counts_in_order(m, order@),
            prefix@.len() == k + 1,
            forall|q: int| 0 <= q <= k ==> #[trigger] prefix@[q] == captured(counts, total as int, q),
            forall|q: int| 0 <= q <= k ==> #[trigger] prefix@[q] <= 10000 * q,
        decreases n - k,
    {
        let f = order[k];
        let c = model.files[f].post_cutoff_bugfix_commit_count;
        proof {
            assert(order@[k as int] < n);
            assert(file_wf(m.files[f as int], m.max_age, m.total_post_cutoff_bugfixes));
            assert(m.files[f as int] == model.files@[f as int]@);
            lemma_capture_term(c as int, total as int);
        }
        let term = (20000 * c as u128 + total as u128) / (2 * total as u128);
        let next = prefix[k] + term;
        prefix.push(next);
        k += 1;
        proof {
            assert(counts[k - 1] == c);
        }
    }
    let mut curve: Vec<u128> = Vec::new();
    let mut j: usize = 0;
    while j < breakpoints.len()
        invariant
            j <= breakpoints@.len(),
            n == m.files.len(),
            m == model@,
            prefix@.len() == n + 1,
            forall|q: int| 0 <= q <= n ==> #[trigger] prefix@[q] == captured(counts, total as int, q),
            counts == fix_counts_in_order(m, order@),
            order@ == ranked(score_keys(m, field), n as nat),
            total == m.total_post_cutoff_bugfixes,
            forall|k: int| 0 <= k < breakpoints@.len() ==> #[trigger] breakpoints@[k] <= 100,
            curve_values(curve@) == capture_curve(m, field, breakpoints@).take(j as int),
            forall|q: int| 0 <= q <= n ==> #[trigger] prefix@[q] <= 10000 * q,
            forall|q: int| 0 <= q < curve@.len() ==> #[trigger] curve@[q] <= 10000 * n,
        decreases breakpoints@.len() - j,
    {
        let p = breakpoints[j];
        proof {
            lemma_rank_cut_monotone(n as int, 0, p as int);
        }
        let cut = (n as u128 * p as u128 / 100) as usize;
        proof {
            assert(prefix@[cut as int] <= 10000 * cut);
            assert(10000 * cut <= 10000 * n);
        }
        let ghost before = curve@;
        curve.push(prefix[cut]);
        j += 1;
        proof {
            assert(cut as int == rank_cut(n as int, p as int));
            assert(capture_curve(m, field, breakpoints@)[j - 1] == captured(
                counts,
                total as int,
                cut as int,
            ));
            assert(curve_values(curve@) =~= curve_values(before).push(prefix@[cut as int] as int));
            assert(curve_values(curve@) =~= capture_curve(m, field, breakpoints@).take(j as int));
        }
    }
    proof {
        assert(capture_curve(m, field, breakpoints@).take(j as int) =~= capture_curve(m, field, breakpoints@));
        assert forall|a: int, b: int|
            0 <= a < b < breakpoints@.len() && breakpoints@[a] <= breakpoints@[b] implies curve@[a] <= curve@[b] by {
            assert(curve_values(curve@)[a] == curve@[a] as int);
            assert(curve_values(curve@)[b] == curve@[b] as int);
            lemma_capture_curve_monotone(m, field, breakpoints@, a, b);
        }
    }
    Capture::Curve(curve)
}

// ---------------------------------------------------------------------------
// Comparing formulas
/// The sum over the first `k` breakpoints of the captured share minus the
/// breakpoint itself, both in hundredths of a percent.
pub open spec fn deviation_upto(curve: Seq<int>, breakpoints: Seq<u32>, k: int) -> int
    decreases k,
{
    if k <= 0 {
        0
    } else {
        deviation_upto(curve, breakpoints, k - 1) + curve[k - 1] - 100 * breakpoints[k - 1]
    }
}

/// How far a capture curve lies above the diagonal, summed over the
/// breakpoints.
pub open spec fn curve_deviation(curve: Seq<int>, breakpoints: Seq<u32>) -> int {
    deviation_upto(curve, breakpoints, breakpoints.len() as int)
}

/// The deviation of formula `field` at one cutoff, 0 where that cutoff
/// leaves no signal.
pub open spec fn cutoff_deviation(
    h: Seq<CommitChanges>,
    cutoff_percent: u32,
    breakpoints: Seq<u32>,
    bugfix: Seq<Pattern>,
    exclusions: Seq<Pattern>,
    field: u64,
) -> int {
    let m = aggregated(h, cutoff_percent as int, bugfix, exclusions);
    if m.total_post_cutoff_bugfixes > 0 {
        curve_deviation(capture_curve(m, field, breakpoints), breakpoints)
    } else {
        0
    }
}

/// The deviation of formula `field`, summed over `cutoffs`.
pub open spec fn total_deviation(
    h: Seq<CommitChanges>,
    cutoffs: Seq<u32>,
    breakpoints: Seq<u32>,
    bugfix: Seq<Pattern>,
    exclusions: Seq<Pattern>,
    field: u64,
) -> int
    decreases cutoffs.len(),
{
    if cutoffs.len() == 0 {
        0
    } else {
        total_deviation(h, cutoffs.drop_last(), breakpoints, bugfix, exclusions, field)
            + cutoff_deviation(h, cutoffs.last(), breakpoints, bugfix, exclusions, field)
    }
}

/// The number of `cutoffs` that leave a signal.
pub open spec fn signal_count(
    h: Seq<CommitChanges>,
    cutoffs: Seq<u32>,
    bugfix: Seq<Pattern>,
    exclusions: Seq<Pattern>,
) -> int
    decreases cutoffs.len(),
{
    if cutoffs.len() == 0 {
        0
    } else {
        signal_count(h, cutoffs.drop_last(), bugfix, exclusions) + if aggregated(
            h,
            cutoffs.last() as int,
            bugfix,
            exclusions,
        ).total_post_cutoff_bugfixes > 0 {
            1int
        } else {
            0int
        }
    }
}

/// The summed deviation of every formula of the catalog, by field.
pub open spec fn field_deviations(
    h: Seq<CommitChanges>,
    cutoffs: Seq<u32>,
    breakpoints: Seq<u32>,
    bugfix: Seq<Pattern>,
    exclusions: Seq<Pattern>,
) -> Seq<int> {
    Seq::new(
        FIELD_COUNT as nat,
        |f: int| total_deviation(h, cutoffs, breakpoints, bugfix, exclusions, f as u64),
    )
}

/// How one formula fared over all cutoffs. Its average deviation from the
/// diagonal, in hundredths of a percent, is
/// `deviation_sum / (samples * number of breakpoints)`.
pub struct FormulaReport {
    pub field: u64,
    pub deviation_sum: i128,
    /// The number of cutoffs that left a signal.
    pub samples: u64,
}

/// The largest distance of a captured share from a breakpoint.
pub open spec fn deviation_step_bound() -> int {
    10000 * (usize::MAX + 1)
}

fn deviation_of_curve(curve: &Vec<u128>, breakpoints: &Vec<u32>, Ghost(n): Ghost<int>) -> (r: i128)
    requires
        curve@.len() == breakpoints@.len(),
        breakpoints@.len() <= u32::MAX,
        0 <= n <= usize::MAX,
        forall|k: int| 0 <= k < curve@.len() ==> #[trigger] curve@[k] <= 10000 * n,
        forall|k: int| 0 <= k < breakpoints@.len() ==> #[trigger] breakpoints@[k] <= 100,
    ensures
        r == curve_deviation(curve_values(curve@), breakpoints@),
        -(breakpoints@.len() * deviation_step_bound()) <= r <= breakpoints@.len() * deviation_step_bound(),
{
    let ghost d = deviation_step_bound();
    let mut acc: i128 = 0;
    let mut k: usize = 0;
    while k < curve.len()
        invariant
            k <= curve@.len(),
            curve@.len() == breakpoints@.len(),
            breakpoints@.len() <= u32::MAX,
            0 <= n <= usize::MAX,
            forall|q: int| 0 <= q < curve@.len() ==> #[trigger] curve@[q] <= 10000 * n,
            forall|q: int| 0 <= q < breakpoints@.len() ==> #[trigger] breakpoints@[q] <= 100,
            acc == deviation_upto(curve_values(curve@), breakpoints@, k as int),
            -(k * d) <= acc <= k * d,
            d == deviation_step_bound(),
        decreases curve@.len() - k,
    {
        let v = curve[k];
        let p = breakpoints[k];
        proof {
            assert(v <= 10000 * n);
            assert(k * d + d <= u32::MAX * d) by (nonlinear_arith)
                requires
                    k < u32::MAX,
                    d > 0,
            ;
            assert(curve_values(curve@)[k as int] == v as int);
        }
        acc = acc + (v as i128 - 100 * p as i128);
        proof {
            assert((k + 1) * d == k * d + d) by (nonlinear_arith);
        }
        k += 1;
    }
    acc
}

fn add_cutoff_deviations(
    devs: &mut Vec<i128>,
    model: &StatisticsModel,
    breakpoints: &Vec<u32>,
    Ghost(c): Ghost<int>,
)
    requires
        old(devs)@.len() == FIELD_COUNT,
        model@.wf(),
        model.total_post_cutoff_bugfixes > 0,
        breakpoints@.len() <= u32::MAX,
        0 <= c,
        (c + 1) * breakpoints@.len() <= u32::MAX,
        forall|k: int| 0 <= k < breakpoints@.len() ==> #[trigger] breakpoints@[k] <= 100,
        forall|f: int|
            0 <= f < FIELD_COUNT ==> -(c * (breakpoints@.len() * deviation_step_bound())) <= #[trigger] old(
                devs,
            )@[f] <= c * (breakpoints@.len() * deviation_step_bound()),
    ensures
        final(devs)@.len() == FIELD_COUNT,
        forall|f: int|
            0 <= f < FIELD_COUNT ==> #[trigger] final(devs)@[f] == old(devs)@[f] + curve_deviation(
                capture_curve(model@, f as u64, breakpoints@),
                breakpoints@,
            ),
        forall|f: int|
            0 <= f < FIELD_COUNT ==> -((c + 1) * (breakpoints@.len() * deviation_step_bound()))
                <= #[trigger] final(devs)@[f] <= (c + 1) * (breakpoints@.len() * deviation_step_bound()),
{
    let ghost start = devs@;
    let ghost e = breakpoints@.len() * deviation_step_bound();
    proof {
        assert((c + 1) * e == c * e + e) by (nonlinear_arith);
        assert((c + 1) * e <= u32::MAX * deviation_step_bound()) by (nonlinear_arith)
            requires
                e == breakpoints@.len() * deviation_step_bound(),
                (c + 1) * breakpoints@.len() <= u32::MAX,
                deviation_step_bound() > 0,
        ;
    }
    let mut f: u64 = 0;
    while f < FIELD_COUNT
        invariant
            f <= FIELD_COUNT,
            devs@.len() == FIELD_COUNT,
            model@.wf(),
            model.total_post_cutoff_bugfixes > 0,
            breakpoints@.len() <= u32::MAX,
            forall|k: int| 0 <= k < breakpoints@.len() ==> #[trigger] breakpoints@[k] <= 100,
            e == breakpoints@.len() * deviation_step_bound(),
            (c + 1) * e == c * e + e,
            (c + 1) * e <= u32::MAX * deviation_step_bound(),
            start.len() == FIELD_COUNT,
            forall|g: int|
                0 <= g < f ==> #[trigger] devs@[g] == start[g] + curve_deviation(
                    capture_curve(model@, g as u64, breakpoints@),
                    breakpoints@,
                ),
            forall|g: int| f <= g < FIELD_COUNT ==> #[trigger] devs@[g] == start[g],
            forall|g: int| 0 <= g < FIELD_COUNT ==> -(c * e) <= #[trigger] start[g] <= c * e,
            forall|g: int| 0 <= g < f ==> -((c + 1) * e) <= #[trigger] devs@[g] <= (c + 1) * e,
        decreases FIELD_COUNT - f,
    {
        match backtest(model, f, breakpoints) {
            Capture::Curve(curve) => {
                let n = model.files.len();
                let d = deviation_of_curve(&curve, breakpoints, Ghost(n as int));
                let old_value = devs[f as usize];
                proof {
                    assert(old_value == start[f as int]);
                }
                devs.set(f as usize, old_value + d);
            },
            Capture::NoSignal => {},
        }
        f += 1;
    }
}

/// Backtests every formula of the catalog at each of `cutoffs` and ranks the
/// formulas by their summed deviation above the diagonal, best first; equal
/// sums keep catalog order. Cutoffs that leave no signal are skipped.
pub fn compare_formulas(
    history: &Vec<CommitChanges>,
    cutoffs: &Vec<u32>,
    breakpoints: &Vec<u32>,
    bugfix: &Vec<Pattern>,
    exclusions: &Vec<Pattern>,
) -> (r: Vec<FormulaReport>)
    requires
        history@.len() <= u32::MAX,
        2 * history_weight(history@) <= u64::MAX,
        cutoffs@.len() * breakpoints@.len() <= u32::MAX,
        cutoffs@.len() <= u32::MAX,
        forall|k: int| 0 <= k < cutoffs@.len() ==> #[trigger] cutoffs@[k] <= 100,
        forall|k: int| 0 <= k < breakpoints@.len() ==> #[trigger] breakpoints@[k] <= 100,
    ensures
        r@.len() == FIELD_COUNT,
        forall|k: int|
            0 <= k < FIELD_COUNT ==> (#[trigger] r@[k]).field == ranked(
                field_deviations(history@, cutoffs@, breakpoints@, bugfix@, exclusions@),
                FIELD_COUNT as nat,
            )[k],
        forall|k: int|
            0 <= k < FIELD_COUNT ==> (#[trigger] r@[k]).deviation_sum == field_deviations(
                history@,
                cutoffs@,
                breakpoints@,
                bugfix@,
                exclusions@,
            )[r@[k].field as int],
        forall|k: int|
            0 <= k < FIELD_COUNT ==> (#[trigger] r@[k]).samples == signal_count(
                history@,
                cutoffs@,
                bugfix@,
                exclusions@,
            ),
{
    let ghost h = history@;
    let ghost e = breakpoints@.len() * deviation_step_bound();
    let mut devs: Vec<i128> = Vec::new();
    let mut f: u64 = 0;
    while f < FIELD_COUNT
        invariant
            f <= FIELD_COUNT,
            devs@.len() == f,
            forall|g: int| 0 <= g < f ==> #[trigger] devs@[g] == 0,
        decreases FIELD_COUNT - f,
    {
        devs.push(0);
        f += 1;
    }
    let mut samples: u64 = 0;
    let mut c: usize = 0;
    while c < cutoffs.len()
        invariant
            c <= cutoffs@.len(),
            h == history@,
            devs@.len() == FIELD_COUNT,
            history@.len() <= u32::MAX,
            2 * history_weight(history@) <= u64::MAX,
            cutoffs@.len() * breakpoints@.len() <= u32::MAX,
            cutoffs@.len() <= u32::MAX,
            forall|k: int| 0 <= k < cutoffs@.len() ==> #[trigger] cutoffs@[k] <= 100,
            forall|k: int| 0 <= k < breakpoints@.len() ==> #[trigger] breakpoints@[k] <= 100,
            e == breakpoints@.len() * deviation_step_bound(),
            forall|g: int|
                0 <= g < FIELD_COUNT ==> #[trigger] devs@[g] == total_deviation(
                    h,
                    cutoffs@.take(c as int),
                    breakpoints@,
                    bugfix@,
                    exclusions@,
                    g as u64,
                ),
            forall|g: int| 0 <= g < FIELD_COUNT ==> -(c * e) <= #[trigger] devs@[g] <= c * e,
            samples == signal_count(h, cutoffs@.take(c as int), bugfix@, exclusions@),
            samples <= c,
        decreases cutoffs@.len() - c,
    {
        let model = aggregate(history, cutoffs[c], bugfix, exclusions);
        let ghost before = devs@;
        proof {
            assert(cutoffs@.take(c + 1).drop_last() =~= cutoffs@.take(c as int));
            assert(cutoffs@.take(c + 1).last() == cutoffs@[c as int]);
            assert((c + 1) * breakpoints@.len() <= cutoffs@.len() * breakpoints@.len()) by (nonlinear_arith)
                requires
                    c + 1 <= cutoffs@.len(),
            ;
            assert(breakpoints@.len() <= (c + 1) * breakpoints@.len()) by (nonlinear_arith)
                requires
                    c >= 0,
            ;
        }
        if model.total_post_cutoff_bugfixes > 0 {
            add_cutoff_deviations(&mut devs, &model, breakpoints, Ghost(c as int));
            samples = samples + 1;
        } else {
            proof {
                assert((c + 1) * e == c * e + e) by (nonlinear_arith);
                assert(e >= 0) by (nonlinear_arith)
                    requires
                        e == breakpoints@.len() * deviation_step_bound(),
                ;
            }
        }
        c += 1;
        proof {
            assert forall|g: int| 0 <= g < FIELD_COUNT implies #[trigger] devs@[g] == total_deviation(
                h,
                cutoffs@.take(c as int),
                breakpoints@,
                bugfix@,
                exclusions@,
                g as u64,
            ) by {
                assert(before[g] == devs@[g] || model.total_post_cutoff_bugfixes > 0);
            }
        }
    }
    proof {
        assert(cutoffs@.take(c as int) =~= cutoffs@);
        assert(key_values(devs@) =~= field_deviations(h, cutoffs@, breakpoints@, bugfix@, exclusions@));
    }
    let order = rank_descending(&devs);
    let mut reports: Vec<FormulaReport> = Vec::new();
    let mut k: usize = 0;
    while k < order.len()
        invariant
            k <= order@.len(),
            order@.len() == FIELD_COUNT,
            order@ == ranked(key_values(devs@), FIELD_COUNT as nat),
            is_ranking(key_values(devs@), order@),
            key_values(devs@) == field_deviations(h, cutoffs@, breakpoints@, bugfix@, exclusions@),
            devs@.len() == FIELD_COUNT,
            reports@.len() == k,
            samples == signal_count(h, cutoffs@, bugfix@, exclusions@),
            forall|q: int| 0 <= q < k ==> (#[trigger] reports@[q]).field == order@[q],
            forall|q: int| 0 <= q < k ==> (#[trigger] reports@[q]).deviation_sum == devs@[order@[q] as int],
            forall|q: int| 0 <= q < k ==> (#[trigger] reports@[q]).samples == samples,
        decreases order@.len() - k,
    {
        let field = order[k];
        proof {
            assert(order@[k as int] < FIELD_COUNT);
        }
        reports.push(FormulaReport { field: field as u64, deviation_sum: devs[field], samples });
        k += 1;
    }
    proof {
        assert forall|q: int| 0 <= q < FIELD_COUNT implies (#[trigger] reports@[q]).deviation_sum
            == field_deviations(h, cutoffs@, breakpoints@, bugfix@, exclusions@)[reports@[q].field as int] by {
            assert(order@[q] < FIELD_COUNT);
            assert(key_values(devs@)[order@[q] as int] == devs@[order@[q] as int] as int);
        }
    }
    reports
}

} // verus!
