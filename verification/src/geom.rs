use vstd::prelude::*;

verus! {

/// Largest magnitude a single coordinate may have. Keeping every
/// coordinate within this range lets squared distances, accumulated
/// path costs and the sampling transform stay inside `i64`/`i128`
/// arithmetic without overflow.
pub const COORD_LIMIT: i64 = 1_000_000;

/// Largest number of axes a configuration space may have.
pub const MAX_DIM: usize = 16;

/// Largest possible distance between two in-range points:
/// `isqrt(MAX_DIM * (2 * COORD_LIMIT)^2) = 8_000_000`.
pub const MAX_EDGE: i64 = 8_000_000;

/// Largest number of nodes a tree may hold; with edges bounded by
/// `MAX_EDGE`, every accumulated cost then stays below
/// `NODE_LIMIT * MAX_EDGE = 8 * 10^15`, far from `i64` overflow.
pub const NODE_LIMIT: usize = 1_000_000_000;

/// Every coordinate of `p` lies in `[-COORD_LIMIT, COORD_LIMIT]`.
pub open spec fn in_limits(p: Seq<i64>) -> bool {
    forall|k: int| 0 <= k < p.len() ==> -COORD_LIMIT <= #[trigger] p[k] <= COORD_LIMIT
}

/// Squared Euclidean distance between two coordinate sequences of
/// equal length: the sum over all axes of the squared difference.
pub open spec fn sq_dist(a: Seq<i64>, b: Seq<i64>) -> int
    decreases a.len(),
{
    if a.len() == 0 {
        0
    } else {
        (a.last() - b.last()) * (a.last() - b.last()) + sq_dist(a.drop_last(), b.drop_last())
    }
}

/// `r` is the integer square root (rounded down) of `n`.
pub open spec fn is_sqrt(n: int, r: int) -> bool {
    &&& 0 <= r
    &&& r * r <= n
    &&& n < (r + 1) * (r + 1)
}

/// The integer square root of `n`, rounded down.
pub open spec fn isqrt(n: int) -> int {
    choose|r: int| is_sqrt(n, r)
}

/// The distance between two points: the integer square root of the
/// squared Euclidean distance, i.e. the Euclidean distance rounded
/// down to a whole number of coordinate units.
pub open spec fn dist(a: Seq<i64>, b: Seq<i64>) -> int {
    isqrt(sq_dist(a, b))
}

/// Magnitude bound of a product from magnitude bounds of its
/// factors.
pub proof fn lemma_abs_mul_le(a: int, b: int, aa: int, bb: int)
    requires
        -aa <= a <= aa,
        -bb <= b <= bb,
        0 <= aa,
        0 <= bb,
    ensures
        -(aa * bb) <= a * b <= aa * bb,
{
    assert(-(aa * bb) <= a * b <= aa * bb) by (nonlinear_arith)
        requires
            -aa <= a <= aa,
            -bb <= b <= bb,
            0 <= aa,
            0 <= bb,
    ;
}

pub proof fn lemma_square_nonneg(x: int)
    ensures
        x * x >= 0,
{
    assert(x * x >= 0) by (nonlinear_arith);
}

pub proof fn lemma_sq_dist_nonneg(a: Seq<i64>, b: Seq<i64>)
    ensures
        sq_dist(a, b) >= 0,
    decreases a.len(),
{
    if a.len() == 0 {
    } else {
        lemma_square_nonneg(a.last() - b.last());
        lemma_sq_dist_nonneg(a.drop_last(), b.drop_last());
    }
}

pub proof fn lemma_sq_dist_sym(a: Seq<i64>, b: Seq<i64>)
    requires
        a.len() == b.len(),
    ensures
        sq_dist(a, b) == sq_dist(b, a),
    decreases a.len(),
{
    if a.len() == 0 {
    } else {
        lemma_sq_dist_sym(a.drop_last(), b.drop_last());
        let x = a.last() as int;
        let y = b.last() as int;
        assert((x - y) * (x - y) == (y - x) * (y - x)) by (nonlinear_arith);
    }
}

pub proof fn lemma_sq_dist_zero(a: Seq<i64>, b: Seq<i64>)
    requires
        a.len() == b.len(),
    ensures
        sq_dist(a, b) == 0 <==> a == b,
    decreases a.len(),
{
    if a.len() == 0 {
        assert(a =~= b);
    } else {
        lemma_sq_dist_nonneg(a.drop_last(), b.drop_last());
        lemma_square_nonneg(a.last() - b.last());
        lemma_sq_dist_zero(a.drop_last(), b.drop_last());
        if sq_dist(a, b) == 0 {
            let x = (a.last() - b.last()) as int;
            assert(x == 0) by (nonlinear_arith)
                requires
                    x * x <= 0,
            ;
            assert(a.last() == b.last());
            assert(a =~= a.drop_last().push(a.last()));
            assert(b =~= b.drop_last().push(b.last()));
        } else {
            if a == b {
                assert(a.drop_last() == b.drop_last());
            }
        }
    }
}

/// Each axis contributes at most `(2 * COORD_LIMIT)^2` to the squared
/// distance of two in-range points.
pub proof fn lemma_sq_dist_bound(a: Seq<i64>, b: Seq<i64>)
    requires
        a.len() == b.len(),
        in_limits(a),
        in_limits(b),
    ensures
        sq_dist(a, b) <= a.len() * 4_000_000_000_000,
    decreases a.len(),
{
    if a.len() == 0 {
    } else {
        assert(in_limits(a.drop_last())) by {
            assert(forall|k: int|
                0 <= k < a.len() - 1 ==> a.drop_last()[k] == #[trigger] a[k]);
        }
        assert(in_limits(b.drop_last())) by {
            assert(forall|k: int|
                0 <= k < b.len() - 1 ==> b.drop_last()[k] == #[trigger] b[k]);
        }
        lemma_sq_dist_bound(a.drop_last(), b.drop_last());
        let d = a.last() - b.last();
        assert(-2_000_000 <= d <= 2_000_000);
        assert(d * d <= 4_000_000_000_000) by (nonlinear_arith)
            requires
                -2_000_000 <= d <= 2_000_000,
        ;
    }
}

pub proof fn lemma_is_sqrt_unique(n: int, r1: int, r2: int)
    requires
        is_sqrt(n, r1),
        is_sqrt(n, r2),
    ensures
        r1 == r2,
{
    if r1 < r2 {
        assert((r1 + 1) * (r1 + 1) <= r2 * r2) by (nonlinear_arith)
            requires
                0 <= r1,
                r1 + 1 <= r2,
        ;
    }
    if r2 < r1 {
        assert((r2 + 1) * (r2 + 1) <= r1 * r1) by (nonlinear_arith)
            requires
                0 <= r2,
                r2 + 1 <= r1,
        ;
    }
}

/// For every non-negative `n` the rounded-down square root exists,
/// so `isqrt(n)` denotes it.
pub proof fn lemma_isqrt_exists(n: int)
    requires
        n >= 0,
    ensures
        is_sqrt(n, isqrt(n)),
    decreases n,
{
    if n == 0 {
        assert(is_sqrt(0, 0));
    } else {
        lemma_isqrt_exists(n - 1);
        let r = isqrt(n - 1);
        if n < (r + 1) * (r + 1) {
            assert(is_sqrt(n, r));
        } else {
            assert(n == (r + 1) * (r + 1));
            assert((r + 2) * (r + 2) > n) by (nonlinear_arith)
                requires
                    0 <= r,
                    n == (r + 1) * (r + 1),
            ;
            assert(is_sqrt(n, r + 1));
        }
    }
}

/// Whoever exhibits a rounded-down square root of `n` has computed
/// `isqrt(n)` itself.
pub proof fn lemma_isqrt_of(n: int, r: int)
    requires
        is_sqrt(n, r),
    ensures
        isqrt(n) == r,
{
    lemma_square_nonneg(r);
    lemma_isqrt_exists(n);
    lemma_is_sqrt_unique(n, isqrt(n), r);
}

pub proof fn lemma_isqrt_monotone(m: int, n: int)
    requires
        0 <= m <= n,
    ensures
        isqrt(m) <= isqrt(n),
{
    lemma_isqrt_exists(m);
    lemma_isqrt_exists(n);
    let rm = isqrt(m);
    let rn = isqrt(n);
    if rn < rm {
        assert((rn + 1) * (rn + 1) <= rm * rm) by (nonlinear_arith)
            requires
                0 <= rn,
                rn + 1 <= rm,
        ;
    }
}

/// The distance of two points is non-negative, zero exactly on equal
/// points, and symmetric.
pub proof fn lemma_dist_basic(a: Seq<i64>, b: Seq<i64>)
    requires
        a.len() == b.len(),
    ensures
        dist(a, b) >= 0,
        dist(a, b) == 0 <==> a == b,
        dist(a, b) == dist(b, a),
{
    lemma_sq_dist_nonneg(a, b);
    lemma_sq_dist_sym(a, b);
    lemma_sq_dist_zero(a, b);
    lemma_isqrt_exists(sq_dist(a, b));
    let r = isqrt(sq_dist(a, b));
    if sq_dist(a, b) == 0 {
        lemma_isqrt_of(0, 0);
    }
    if sq_dist(a, b) > 0 && r == 0 {
        assert((0int + 1) * (0int + 1) == 1);
        assert(false);
    }
}

/// Two in-range points of equal dimension at most `MAX_DIM` lie at
/// distance at most `MAX_EDGE` from each other.
pub proof fn lemma_dist_le_max_edge(a: Seq<i64>, b: Seq<i64>)
    requires
        a.len() == b.len(),
        a.len() <= MAX_DIM,
        in_limits(a),
        in_limits(b),
    ensures
        0 <= dist(a, b) <= MAX_EDGE,
{
    lemma_sq_dist_nonneg(a, b);
    lemma_sq_dist_bound(a, b);
    lemma_isqrt_exists(sq_dist(a, b));
    assert(sq_dist(a, b) <= 64_000_000_000_000);
    lemma_isqrt_monotone(sq_dist(a, b), 64_000_000_000_000);
    assert(8_000_000 * 8_000_000 == 64_000_000_000_000int);
    assert(8_000_001 * 8_000_001 == 64_000_016_000_001int);
    assert(is_sqrt(64_000_000_000_000, 8_000_000));
    lemma_isqrt_of(64_000_000_000_000, 8_000_000);
}

/// Binary search for the rounded-down square root of a non-negative
/// 64-bit value.
pub fn isqrt64(n: i64) -> (r: i64)
    requires
        n >= 0,
    ensures
        is_sqrt(n as int, r as int),
        r as int == isqrt(n as int),
{
    let mut lo: i64 = 0;
    let mut hi: i64 = 3_037_000_500;
    // Invariant: lo * lo <= n < hi * hi.
    assert(3_037_000_500int * 3_037_000_500int == 9_223_372_037_000_250_000int);
    while lo + 1 < hi
        invariant
            0 <= lo < hi <= 3_037_000_500,
            lo * lo <= n,
            n < hi * hi,
        decreases hi - lo,
    {
        let mid: i64 = lo + (hi - lo) / 2;
        assert(lo < mid < hi);
        assert((mid as int) * (mid as int) <= 9_223_372_030_926_249_001) by (nonlinear_arith)
            requires
                0 <= mid <= 3_037_000_499,
        ;
        if mid * mid <= n {
            lo = mid;
        } else {
            hi = mid;
        }
    }
    proof {
        lemma_isqrt_of(n as int, lo as int);
    }
    lo
}

/// Binary search for the rounded-down square root of a 128-bit value.
pub fn isqrt128(n: u128) -> (r: u128)
    ensures
        is_sqrt(n as int, r as int),
        r as int == isqrt(n as int),
        r < 0x1_0000_0000_0000_0000,
{
    let mut lo: u128 = 0;
    let mut hi: u128 = 0x1_0000_0000_0000_0000;
    assert(0x1_0000_0000_0000_0000int * 0x1_0000_0000_0000_0000int
        == 0x1_0000_0000_0000_0000_0000_0000_0000_0000int);
    while lo + 1 < hi
        invariant
            0 <= lo < hi <= 0x1_0000_0000_0000_0000,
            lo * lo <= n,
            (n as int) < (hi as int) * (hi as int),
        decreases hi - lo,
    {
        let mid: u128 = lo + (hi - lo) / 2;
        assert(lo < mid < hi);
        assert((mid as int) * (mid as int) < 0x1_0000_0000_0000_0000_0000_0000_0000_0000) by (nonlinear_arith)
            requires
                0 <= mid < 0x1_0000_0000_0000_0000,
        ;
        if mid * mid <= n {
            lo = mid;
        } else {
            hi = mid;
        }
    }
    proof {
        lemma_isqrt_of(n as int, lo as int);
    }
    lo
}

/// The square of a 64-bit value, computed in 128-bit arithmetic.
pub fn square_i128(x: i64) -> (r: i128)
    ensures
        r == (x as int) * (x as int),
{
    assert((x as int) * (x as int) < 0x8000_0000_0000_0000_0000_0000_0000_0000int) by (nonlinear_arith)
        requires
            -0x8000_0000_0000_0000 <= x < 0x8000_0000_0000_0000,
    ;
    assert((x as int) * (x as int) >= 0) by (nonlinear_arith);
    (x as i128) * (x as i128)
}

/// Squared Euclidean norm of a coordinate sequence.
pub open spec fn sq_norm(s: Seq<i64>) -> int
    decreases s.len(),
{
    if s.len() == 0 {
        0
    } else {
        s.last() * s.last() + sq_norm(s.drop_last())
    }
}

/// Integer division rounded toward zero, for a positive divisor.
pub open spec fn div_toward_zero(a: int, b: int) -> int {
    if a >= 0 {
        a / b
    } else {
        -((-a) / b)
    }
}

/// The square root of `n`, rounded up.
pub open spec fn ceil_sqrt(n: int) -> int {
    if isqrt(n) * isqrt(n) == n {
        isqrt(n)
    } else {
        isqrt(n) + 1
    }
}

/// The exact per-axis move of the steering function: the axis
/// difference `d` scaled by `step / ceil_sqrt(sq)` and rounded
/// toward zero, where `sq` is the squared distance between source
/// and target.
pub open spec fn steer_offset(d: int, step: int, sq: int) -> int {
    div_toward_zero(d * step, ceil_sqrt(sq))
}

/// Truncating division of a bounded 128-bit value by a positive
/// divisor: exactly `div_toward_zero`, so the quotient never exceeds
/// the dividend in magnitude.
pub fn div_trunc_i128(a: i128, b: i128) -> (r: i128)
    requires
        b >= 1,
        -0x4000_0000_0000_0000_0000_0000_0000_0000 <= a
            <= 0x4000_0000_0000_0000_0000_0000_0000_0000,
    ensures
        r as int == div_toward_zero(a as int, b as int),
        a >= 0 ==> 0 <= r <= a,
        a < 0 ==> a <= r <= 0,
{
    if a >= 0 {
        proof {
            vstd::arithmetic::div_mod::lemma_div_basics_5(a as int, b as int);
            vstd::arithmetic::div_mod::lemma_div_pos_is_pos(a as int, b as int);
        }
        a / b
    } else {
        proof {
            vstd::arithmetic::div_mod::lemma_div_basics_5(-(a as int), b as int);
            vstd::arithmetic::div_mod::lemma_div_pos_is_pos(-(a as int), b as int);
        }
        -((-a) / b)
    }
}

/// Half of an in-range doubled coordinate, rounded toward zero; the
/// result is a valid coordinate.
pub fn half_coord(m: i64) -> (r: i64)
    requires
        -2_000_000 <= m <= 2_000_000,
    ensures
        r as int == div_toward_zero(m as int, 2),
        -COORD_LIMIT <= r <= COORD_LIMIT,
{
    if m >= 0 {
        proof {
            vstd::arithmetic::div_mod::lemma_div_pos_is_pos(m as int, 2);
            vstd::arithmetic::div_mod::lemma_div_is_ordered(m as int, 2_000_000, 2);
            assert(2_000_000int / 2 == 1_000_000);
        }
        m / 2
    } else {
        proof {
            vstd::arithmetic::div_mod::lemma_div_pos_is_pos(-(m as int), 2);
            vstd::arithmetic::div_mod::lemma_div_is_ordered(-(m as int), 2_000_000, 2);
            assert(2_000_000int / 2 == 1_000_000);
        }
        -((-m) / 2)
    }
}

/// A squared distance below the square of a non-negative bound puts
/// the distance itself below the bound.
pub proof fn lemma_sq_le_dist_le(a: Seq<i64>, b: Seq<i64>, bound: int)
    requires
        bound >= 0,
        sq_dist(a, b) <= bound * bound,
    ensures
        dist(a, b) <= bound,
{
    lemma_sq_dist_nonneg(a, b);
    assert(bound * bound < (bound + 1) * (bound + 1)) by (nonlinear_arith)
        requires
            bound >= 0,
    ;
    assert(is_sqrt(bound * bound, bound));
    lemma_isqrt_of(bound * bound, bound);
    lemma_isqrt_monotone(sq_dist(a, b), bound * bound);
}

/// A point reached from `from` by moving toward `toward` for (at
/// most) `step` coordinate units. Each axis moves by the per-axis
/// difference scaled with `step / ceil_sqrt(sq_dist)`, rounded toward
/// zero, so the steered point never ends up farther than `step` from
/// `from` and stays inside the coordinate range spanned by the two
/// points.
pub fn steer_points(from: &Vec<i64>, toward: &Vec<i64>, step: i64) -> (r: Vec<i64>)
    requires
        from@.len() == toward@.len(),
        from@.len() <= MAX_DIM,
        in_limits(from@),
        in_limits(toward@),
        1 <= step,
        sq_dist(from@, toward@) > step * step,
    ensures
        r@.len() == from@.len(),
        in_limits(r@),
        sq_dist(from@, r@) <= step * step,
        dist(from@, r@) <= step,
        forall|k: int|
            0 <= k < r@.len() ==> (from@[k] <= #[trigger] r@[k] <= toward@[k]) || (toward@[k]
                <= r@[k] <= from@[k]),
        forall|k: int|
            0 <= k < r@.len() ==> #[trigger] r@[k] == from@[k] + steer_offset(
                toward@[k] - from@[k],
                step as int,
                sq_dist(from@, toward@),
            ),
{
    let sq = sq_dist_points(from, toward);
    let rt = isqrt64(sq);
    proof {
        assert(8_000_000 * 8_000_000 == 64_000_000_000_000int);
        assert(8_000_001 * 8_000_001 == 64_000_016_000_001int);
        assert(is_sqrt(64_000_000_000_000, 8_000_000));
        lemma_isqrt_of(64_000_000_000_000, 8_000_000);
        lemma_isqrt_monotone(sq as int, 64_000_000_000_000);
        assert(step * step >= 1) by (nonlinear_arith)
            requires
                step >= 1,
        ;
    }
    assert(0 <= rt <= 8_000_000);
    // Round the divisor up, so the move can only fall short of `step`,
    // never overshoot it.
    let rc: i64 = if rt * rt == sq {
        rt
    } else {
        rt + 1
    };
    proof {
        assert(sq <= rc * rc);
        assert(rc >= 1) by (nonlinear_arith)
            requires
                1 <= sq,
                sq <= rc * rc,
                rc >= 0,
        ;
    }
    assert(rc as int == ceil_sqrt(sq as int));
    assert(1 <= rc <= 8_000_001 && sq <= rc * rc);
    assert(step < rc) by (nonlinear_arith)
        requires
            step * step < sq <= rc * rc,
            step >= 1,
            rc >= 1,
    ;
    let n = from.len();
    let mut r: Vec<i64> = Vec::new();
    let mut ssq: i64 = 0;
    let mut k: usize = 0;
    while k < n
        invariant
            0 <= k <= n,
            n == from@.len() == toward@.len(),
            n <= MAX_DIM,
            in_limits(from@),
            in_limits(toward@),
            1 <= step < rc <= 8_000_001,
            r@.len() == k,
            in_limits(r@),
            sq == sq_dist(from@, toward@),
            rc as int == ceil_sqrt(sq as int),
            forall|j: int|
                0 <= j < k ==> (from@[j] <= #[trigger] r@[j] <= toward@[j]) || (toward@[j]
                    <= r@[j] <= from@[j]),
            forall|j: int|
                0 <= j < k ==> #[trigger] r@[j] == from@[j] + steer_offset(
                    toward@[j] - from@[j],
                    step as int,
                    sq as int,
                ),
            ssq == sq_dist(from@.take(k as int), r@),
            0 <= ssq <= (k as int) * 4_000_000_000_000,
            ssq * (rc * rc) <= sq_dist(from@.take(k as int), toward@.take(k as int)) * (step
                * step),
        decreases n - k,
    {
        let d: i64 = toward[k] - from[k];
        assert(-2_000_000 <= d <= 2_000_000);
        let dd: u64 = if d >= 0 {
            d as u64
        } else {
            (-d) as u64
        };
        assert((dd as int) * (step as int) <= 2_000_000 * 8_000_001) by (nonlinear_arith)
            requires
                0 <= dd <= 2_000_000,
                0 <= step <= 8_000_001,
        ;
        let prod: u64 = dd * (step as u64);
        let mag_u: u64 = prod / (rc as u64);
        proof {
            vstd::arithmetic::div_mod::lemma_fundamental_div_mod(prod as int, rc as int);
            vstd::arithmetic::div_mod::lemma_mod_bound(prod as int, rc as int);
            assert(prod as int == (dd as int) * (step as int));
            assert(mag_u as int == (prod as int) / (rc as int));
            assert((rc as int) * ((prod as int) / (rc as int)) + ((prod as int) % (rc as int))
                == prod as int);
            assert((prod as int) % (rc as int) >= 0);
            assert((rc as int) * (mag_u as int) <= prod as int);
            assert((mag_u as int) * (rc as int) == (rc as int) * (mag_u as int))
                by (nonlinear_arith);
        }
        assert((mag_u as int) * (rc as int) <= (dd as int) * (step as int));
        assert(mag_u <= dd) by (nonlinear_arith)
            requires
                (mag_u as int) * (rc as int) <= (dd as int) * (step as int),
                0 <= step < rc,
                0 <= mag_u,
                0 <= dd,
        ;
        let c: i64 = if d >= 0 {
            mag_u as i64
        } else {
            -(mag_u as i64)
        };
        proof {
            let di = d as int;
            let si = step as int;
            let rci = rc as int;
            assert((-di) * si == -(di * si)) by (nonlinear_arith);
            if d >= 0 {
                assert(mag_u as int == (di * si) / rci);
                assert(c as int == div_toward_zero(di * si, rci));
            } else {
                assert(mag_u as int == ((-di) * si) / rci);
                assert(c as int == -((-(di * si)) / rci));
                assert(c as int == div_toward_zero(di * si, rci));
            }
            assert(c as int == steer_offset(di, si, sq as int));
        }
        let x: i64 = from[k] + c;
        assert(-COORD_LIMIT <= x <= COORD_LIMIT);
        proof {
            let fk = from@.take(k + 1);
            let tk = toward@.take(k + 1);
            let rk = r@.push(x);
            assert(fk.drop_last() =~= from@.take(k as int));
            assert(tk.drop_last() =~= toward@.take(k as int));
            assert(rk.drop_last() =~= r@);
            assert(fk.last() == from@[k as int]);
            assert(tk.last() == toward@[k as int]);
            assert(rk.last() == x);
            let m = mag_u as int;
            let di = d as int;
            assert((fk.last() - rk.last()) * (fk.last() - rk.last()) == m * m) by (nonlinear_arith)
                requires
                    fk.last() - rk.last() == m || fk.last() - rk.last() == -m,
            ;
            assert(sq_dist(fk, rk) == m * m + ssq);
            assert(sq_dist(fk, tk) == di * di + sq_dist(
                from@.take(k as int),
                toward@.take(k as int),
            )) by {
                assert((fk.last() - tk.last()) * (fk.last() - tk.last()) == di * di)
                    by (nonlinear_arith)
                    requires
                        fk.last() - tk.last() == -di,
                ;
            }
            assert(m * m * (rc * rc) <= (di * di) * (step * step)) by (nonlinear_arith)
                requires
                    m * (rc as int) <= (dd as int) * (step as int),
                    dd as int == di || dd as int == -di,
                    0 <= m,
                    0 <= dd,
                    0 <= step,
                    0 <= rc,
            ;
            assert((ssq + m * m) * (rc * rc) <= (sq_dist(
                from@.take(k as int),
                toward@.take(k as int),
            ) + di * di) * (step * step)) by (nonlinear_arith)
                requires
                    ssq * (rc * rc) <= sq_dist(from@.take(k as int), toward@.take(k as int)) * (
                    step * step),
                    m * m * (rc * rc) <= (di * di) * (step * step),
            ;
            assert(m * m <= 4_000_000_000_000) by (nonlinear_arith)
                requires
                    0 <= m <= 2_000_000,
            ;
        }
        r.push(x);
        ssq = ssq + (mag_u as i64) * (mag_u as i64);
        k = k + 1;
    }
    proof {
        assert(from@.take(n as int) =~= from@);
        assert(toward@.take(n as int) =~= toward@);
        assert(ssq <= step * step) by (nonlinear_arith)
            requires
                ssq * (rc * rc) <= sq_dist(from@, toward@) * (step * step),
                sq_dist(from@, toward@) <= rc * rc,
                0 <= ssq,
                0 <= step,
                1 <= rc,
                sq_dist(from@, toward@) >= 0,
        ;
        assert(step * step < (step + 1) * (step + 1)) by (nonlinear_arith)
            requires
                step >= 1,
        ;
        assert(is_sqrt(step * step, step as int));
        lemma_isqrt_of((step as int) * (step as int), step as int);
        lemma_sq_dist_nonneg(from@, r@);
        lemma_isqrt_monotone(sq_dist(from@, r@), (step as int) * (step as int));
    }
    r
}

/// The squared Euclidean distance between two points.
pub fn sq_dist_points(a: &Vec<i64>, b: &Vec<i64>) -> (s: i64)
    requires
        a@.len() == b@.len(),
        a@.len() <= MAX_DIM,
        in_limits(a@),
        in_limits(b@),
    ensures
        s == sq_dist(a@, b@),
        0 <= s <= 64_000_000_000_000,
{
    let n = a.len();
    let mut s: i64 = 0;
    let mut k: usize = 0;
    while k < n
        invariant
            0 <= k <= n,
            n == a@.len() == b@.len(),
            n <= MAX_DIM,
            in_limits(a@),
            in_limits(b@),
            s == sq_dist(a@.take(k as int), b@.take(k as int)),
            0 <= s <= (k as int) * 4_000_000_000_000,
        decreases n - k,
    {
        let d: i64 = a[k] - b[k];
        assert(-2_000_000 <= d <= 2_000_000);
        assert(d * d <= 4_000_000_000_000) by (nonlinear_arith)
            requires
                -2_000_000 <= d <= 2_000_000,
        ;
        assert(d * d >= 0) by (nonlinear_arith);
        proof {
            let ak = a@.take(k + 1);
            let bk = b@.take(k + 1);
            assert(ak.drop_last() =~= a@.take(k as int));
            assert(bk.drop_last() =~= b@.take(k as int));
            assert(ak.last() == a@[k as int]);
            assert(bk.last() == b@[k as int]);
        }
        s = s + d * d;
        k = k + 1;
    }
    proof {
        assert(a@.take(n as int) =~= a@);
        assert(b@.take(n as int) =~= b@);
        lemma_sq_dist_nonneg(a@, b@);
    }
    s
}

/// The Euclidean distance between two points, rounded down to whole
/// coordinate units.
pub fn dist_points(a: &Vec<i64>, b: &Vec<i64>) -> (d: i64)
    requires
        a@.len() == b@.len(),
        a@.len() <= MAX_DIM,
        in_limits(a@),
        in_limits(b@),
    ensures
        d == dist(a@, b@),
        0 <= d <= MAX_EDGE,
{
    let s = sq_dist_points(a, b);
    let d = isqrt64(s);
    proof {
        lemma_dist_le_max_edge(a@, b@);
    }
    d
}

} // verus!
