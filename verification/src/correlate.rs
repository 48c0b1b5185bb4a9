//! The search for the period of a sample window.
//!
//! A window is compared with itself moved by an offset: the sum of the
//! squared differences between the two is the error of that offset. The
//! offset with the least error is the period of the signal, in samples.

use vstd::prelude::*;

verus! {

/// The amplitude of the signal at one moment.
pub type Sample = i16;

/// A number of samples: the length of one cycle of a tone.
pub type Phase = usize;

/// The largest squared difference between two samples.
pub const MAX_SQUARE: u64 = 4294836225;

/// The most terms that an error is summed over: with that many, the sum
/// stays below `u64::MAX`.
pub const MAX_TERMS: u64 = 0x1_0000_0000;

/// The square of the difference between two numbers.
pub open spec fn squared_difference(a: int, b: int) -> int {
    (a - b) * (a - b)
}

/// The error of `offset` over the first `n` samples: the sum, over
/// `i < n`, of the squared difference between sample `i` and sample
/// `i + offset`.
pub open spec fn error_sum(data: Seq<Sample>, offset: int, n: nat) -> int
    decreases n,
{
    if n == 0 {
        0
    } else {
        error_sum(data, offset, (n - 1) as nat) + squared_difference(
            data[n - 1] as int,
            data[n - 1 + offset] as int,
        )
    }
}

/// How many terms a sum over at most `n` terms takes in when it stops
/// as soon as it has reached `limit`. A term is added before the sum is
/// tested, so the first one is always taken in.
pub open spec fn scan_length(data: Seq<Sample>, offset: int, limit: int, n: nat) -> nat
    decreases n,
{
    if n == 0 {
        0
    } else {
        let k = scan_length(data, offset, limit, (n - 1) as nat);
        if 0 < k && error_sum(data, offset, k) >= limit {
            k
        } else {
            n
        }
    }
}

/// Whether `r` is the offset in `[phase_min, phase_max)` of the least
/// error over `phase_max` samples, and the first of those that have it.
/// Where the range is empty `r` is `phase_min`.
pub open spec fn is_best_phase(data: Seq<Sample>, phase_min: int, phase_max: int, r: int) -> bool {
    &&& phase_min <= r
    &&& r < phase_max || r == phase_min
    &&& forall|o: int|
        phase_min <= o < phase_max ==> error_sum(data, r, phase_max as nat) <= #[trigger] error_sum(
            data,
            o,
            phase_max as nat,
        )
    &&& forall|o: int|
        phase_min <= o < r ==> error_sum(data, r, phase_max as nat) < #[trigger] error_sum(
            data,
            o,
            phase_max as nat,
        )
}

/// Whether the first `n` samples come again `k` samples later.
pub open spec fn repeats_after(data: Seq<Sample>, k: int, n: nat) -> bool {
    forall|i: int| 0 <= i < n ==> data[i] == #[trigger] data[i + k]
}

proof fn lemma_square_bound(a: Sample, b: Sample)
    ensures
        0 <= squared_difference(a as int, b as int) <= MAX_SQUARE,
{
    let d = a as int - b as int;
    assert(-65535 <= d <= 65535);
    assert(0 <= d * d <= 65535 * 65535) by (nonlinear_arith)
        requires
            -65535 <= d <= 65535,
    ;
}

/// An error grows with the number of terms, and each term is at most
/// `MAX_SQUARE`.
pub proof fn lemma_error_sum_grows(data: Seq<Sample>, offset: int, m: nat, n: nat)
    requires
        m <= n,
    ensures
        0 <= error_sum(data, offset, m) <= error_sum(data, offset, n) <= n * MAX_SQUARE,
    decreases n,
{
    if n == 0 {
    } else {
        lemma_square_bound(data[n - 1], data[n - 1 + offset]);
        if m < n {
            lemma_error_sum_grows(data, offset, m, (n - 1) as nat);
        } else {
            lemma_error_sum_grows(data, offset, (n - 1) as nat, (n - 1) as nat);
        }
        assert((n - 1) * MAX_SQUARE + MAX_SQUARE == n * MAX_SQUARE) by (nonlinear_arith);
    }
}

/// Over at most `MAX_TERMS` terms an error stays below `u64::MAX`.
pub proof fn lemma_error_sum_fits(data: Seq<Sample>, offset: int, n: nat)
    requires
        n <= MAX_TERMS,
    ensures
        0 <= error_sum(data, offset, n) < u64::MAX,
{
    lemma_error_sum_grows(data, offset, n, n);
    assert(n * MAX_SQUARE <= MAX_TERMS * MAX_SQUARE) by (nonlinear_arith)
        requires
            n <= MAX_TERMS,
    ;
}

/// What `scan_length` is: the least count, from one on, at which the sum
/// has reached the limit, and `n` where there is none below `n`.
pub proof fn lemma_scan_length(data: Seq<Sample>, offset: int, limit: int, n: nat)
    ensures
        scan_length(data, offset, limit, n) <= n,
        n > 0 ==> scan_length(data, offset, limit, n) > 0,
        scan_length(data, offset, limit, n) < n ==> error_sum(
            data,
            offset,
            scan_length(data, offset, limit, n),
        ) >= limit,
        forall|j: nat|
            0 < j < scan_length(data, offset, limit, n) ==> #[trigger] error_sum(data, offset, j)
                < limit,
    decreases n,
{
    if n > 0 {
        lemma_scan_length(data, offset, limit, (n - 1) as nat);
    }
}

/// A sum that never reaches the limit takes in every term.
pub proof fn lemma_scan_without_stop(data: Seq<Sample>, offset: int, limit: int, n: nat)
    requires
        error_sum(data, offset, n) < limit,
    ensures
        scan_length(data, offset, limit, n) == n,
{
    lemma_scan_length(data, offset, limit, n);
    let k = scan_length(data, offset, limit, n);
    lemma_error_sum_grows(data, offset, k, n);
}

/// With `u64::MAX` for a limit a sum over at most `MAX_TERMS` terms
/// takes in every term.
pub proof fn lemma_scan_without_limit(data: Seq<Sample>, offset: int, n: nat)
    requires
        n <= MAX_TERMS,
    ensures
        scan_length(data, offset, u64::MAX as int, n) == n,
{
    lemma_error_sum_fits(data, offset, n);
    lemma_scan_without_stop(data, offset, u64::MAX as int, n);
}

/// A sum that reaches the limit stops there, at the least count of terms
/// that reaches it: what it returns is at least the limit, no shorter
/// sum is, and where it reached the limit before the last term, it has
/// taken in fewer than `n` terms.
pub proof fn lemma_scan_with_stop(data: Seq<Sample>, offset: int, limit: int, n: nat, j: nat)
    requires
        0 < j <= n,
        error_sum(data, offset, j) >= limit,
    ensures
        0 < scan_length(data, offset, limit, n) <= j,
        error_sum(data, offset, scan_length(data, offset, limit, n)) >= limit,
        forall|i: nat|
            0 < i < scan_length(data, offset, limit, n) ==> #[trigger] error_sum(data, offset, i)
                < limit,
    decreases n,
{
    lemma_scan_length(data, offset, limit, n);
    if j < n {
        lemma_scan_with_stop(data, offset, limit, (n - 1) as nat, j);
    }
}

/// The squared difference of two samples.
pub fn error_squared(a: Sample, b: Sample) -> (r: u64)
    ensures
        r == squared_difference(a as int, b as int),
        r <= MAX_SQUARE,
{
    proof {
        lemma_square_bound(a, b);
    }
    let d: i64 = a as i64 - b as i64;
    (d * d) as u64
}

/// The error of `offset` over the first `phase_max` samples, summed
/// until it has reached `error_limit`: the sum of the terms that
/// `scan_length` counts.
pub fn window_error(data: &[Sample], offset: usize, error_limit: u64, phase_max: Phase) -> (r: u64)
    requires
        phase_max == 0 || offset + phase_max <= data@.len(),
        phase_max <= MAX_TERMS,
    ensures
        r == error_sum(
            data@,
            offset as int,
            scan_length(data@, offset as int, error_limit as int, phase_max as nat),
        ),
        r <= error_sum(data@, offset as int, phase_max as nat),
        error_sum(data@, offset as int, phase_max as nat) < error_limit ==> r == error_sum(
            data@,
            offset as int,
            phase_max as nat,
        ),
        error_sum(data@, offset as int, phase_max as nat) >= error_limit ==> r >= error_limit,
        error_limit == u64::MAX ==> r == error_sum(data@, offset as int, phase_max as nat),
{
    let mut error: u64 = 0;
    let mut i: usize = 0;
    proof {
        lemma_error_sum_fits(data@, offset as int, phase_max as nat);
    }
    while i < phase_max
        invariant
            i <= phase_max,
            phase_max == 0 || offset + phase_max <= data@.len(),
            phase_max <= MAX_TERMS,
            error == error_sum(data@, offset as int, i as nat),
            scan_length(data@, offset as int, error_limit as int, i as nat) == i,
            i > 0 ==> error < error_limit,
            error_sum(data@, offset as int, phase_max as nat) < u64::MAX,
        decreases phase_max - i,
    {
        proof {
            lemma_error_sum_grows(data@, offset as int, (i + 1) as nat, phase_max as nat);
            assert(scan_length(data@, offset as int, error_limit as int, (i + 1) as nat) == i + 1);
        }
        error = error + error_squared(data[i], data[i + offset]);
        i = i + 1;
        if error >= error_limit {
            proof {
                lemma_scan_stays(
                    data@,
                    offset as int,
                    error_limit as int,
                    i as nat,
                    phase_max as nat,
                );
            }
            return error;
        }
    }
    error
}

/// Once a sum has reached the limit at its last term, more terms change
/// nothing.
proof fn lemma_scan_stays(data: Seq<Sample>, offset: int, limit: int, k: nat, n: nat)
    requires
        0 < k <= n,
        scan_length(data, offset, limit, k) == k,
        error_sum(data, offset, k) >= limit,
    ensures
        scan_length(data, offset, limit, n) == k,
    decreases n,
{
    if k < n {
        lemma_scan_stays(data, offset, limit, k, (n - 1) as nat);
    }
}

/// The period of the window: the offset from `phase_min` up to, and not
/// including, `phase_max` whose error over `phase_max` samples is the
/// least. Of several with the least error it is the first. Where
/// `phase_min` is `phase_max` there is nothing to choose from, and the
/// period is `phase_min`. The window holds at least twice `phase_max`
/// samples.
pub fn autocorrelate(phase_min: Phase, phase_max: Phase, data: &[Sample]) -> (r: Phase)
    requires
        phase_min <= phase_max,
        2 * phase_max <= data@.len(),
        phase_max <= MAX_TERMS,
    ensures
        is_best_phase(data@, phase_min as int, phase_max as int, r as int),
{
    let mut min_error: u64 = window_error(data, phase_min, u64::MAX, phase_max);
    let mut min_phase: Phase = phase_min;
    if phase_min == phase_max {
        return min_phase;
    }
    let mut phase: Phase = phase_min + 1;
    while phase < phase_max
        invariant
            phase_min <= min_phase < phase <= phase_max,
            2 * phase_max <= data@.len(),
            phase_max <= MAX_TERMS,
            min_error == error_sum(data@, min_phase as int, phase_max as nat),
            forall|o: int|
                phase_min <= o < phase ==> min_error <= #[trigger] error_sum(
                    data@,
                    o,
                    phase_max as nat,
                ),
            forall|o: int|
                phase_min <= o < min_phase ==> min_error < #[trigger] error_sum(
                    data@,
                    o,
                    phase_max as nat,
                ),
        decreases phase_max - phase,
    {
        let error: u64 = window_error(data, phase, min_error, phase_max);
        if error < min_error {
            min_error = error;
            min_phase = phase;
        }
        phase = phase + 1;
    }
    min_phase
}

/// Two offsets that are both the best are one and the same.
pub proof fn lemma_best_phase_is_unique(
    data: Seq<Sample>,
    phase_min: int,
    phase_max: int,
    r1: int,
    r2: int,
)
    requires
        is_best_phase(data, phase_min, phase_max, r1),
        is_best_phase(data, phase_min, phase_max, r2),
    ensures
        r1 == r2,
{
    let e1 = error_sum(data, r1, phase_max as nat);
    let e2 = error_sum(data, r2, phase_max as nat);
    if r1 < r2 {
        assert(e1 <= e2 && e2 < e1);
    }
    if r2 < r1 {
        assert(e2 <= e1 && e1 < e2);
    }
}

/// A window that comes again after `k` samples has the error zero at
/// `k`; where no offset before `k` has it, `k` is the best offset.
pub proof fn lemma_period_is_best(
    data: Seq<Sample>,
    phase_min: int,
    phase_max: int,
    k: int,
    r: int,
)
    requires
        phase_min <= k < phase_max,
        repeats_after(data, k, phase_max as nat),
        forall|j: int|
            phase_min <= j < k ==> #[trigger] error_sum(data, j, phase_max as nat) != 0,
        is_best_phase(data, phase_min, phase_max, r),
    ensures
        r == k,
        error_sum(data, k, phase_max as nat) == 0,
{
    lemma_repeat_has_no_error(data, k, phase_max as nat, phase_max as nat);
    lemma_error_sum_grows(data, r, 0, phase_max as nat);
}

/// A window that comes again after `k` samples has the error zero at `k`.
pub proof fn lemma_repeat_has_no_error(data: Seq<Sample>, k: int, n: nat, m: nat)
    requires
        repeats_after(data, k, n),
        m <= n,
    ensures
        error_sum(data, k, m) == 0,
    decreases m,
{
    if m > 0 {
        lemma_repeat_has_no_error(data, k, n, (m - 1) as nat);
        assert(data[m - 1] == data[m - 1 + k]);
    }
}

/// A window whose error at `k` is zero comes again after `k` samples.
pub proof fn lemma_no_error_repeats(data: Seq<Sample>, k: int, n: nat)
    requires
        error_sum(data, k, n) == 0,
    ensures
        repeats_after(data, k, n),
    decreases n,
{
    if n > 0 {
        let a = data[n - 1] as int;
        let b = data[n - 1 + k] as int;
        lemma_error_sum_grows(data, k, (n - 1) as nat, (n - 1) as nat);
        lemma_square_bound(data[n - 1], data[n - 1 + k]);
        assert(a == b) by (nonlinear_arith)
            requires
                (a - b) * (a - b) == 0,
        ;
        lemma_no_error_repeats(data, k, (n - 1) as nat);
        assert forall|i: int| 0 <= i < n implies data[i] == #[trigger] data[i + k] by {
            if i == n - 1 {
                assert(data[n - 1] == data[n - 1 + k]);
            }
        }
    }
}

/// Where the window comes again after some offset of the range, the
/// best offset has the error zero, the window comes again after it, and
/// it is not above that offset.
pub proof fn lemma_best_phase_repeats(
    data: Seq<Sample>,
    phase_min: int,
    phase_max: int,
    k: int,
    r: int,
)
    requires
        phase_min <= k < phase_max,
        repeats_after(data, k, phase_max as nat),
        is_best_phase(data, phase_min, phase_max, r),
    ensures
        error_sum(data, r, phase_max as nat) == 0,
        repeats_after(data, r, phase_max as nat),
        r <= k,
{
    lemma_repeat_has_no_error(data, k, phase_max as nat, phase_max as nat);
    lemma_error_sum_grows(data, r, 0, phase_max as nat);
    assert(error_sum(data, r, phase_max as nat) <= error_sum(data, k, phase_max as nat));
    lemma_no_error_repeats(data, r, phase_max as nat);
}

} // verus!
