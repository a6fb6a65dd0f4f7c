//! The three root-finding algorithms: single-root bisection, multi-root
//! bisection over equal-width chunks, and safeguarded Newton iteration.

use crate::epsilon::Epsilon;
use crate::epsilon::close_units;
use crate::epsilon::near_zero_units;
use crate::scalar::SCALE;
use crate::scalar::Scalar;
use crate::scalar::lemma_mul_in_range;
use crate::scalar::abs_lt;
use crate::scalar::div_trunc;
use crate::scalar::div_trunc_i128;
use crate::scalar::mid_units;
use crate::scalar::midpoint;
use crate::scalar::product_nonpos;
use crate::scalar::product_pos;
use vstd::arithmetic::div_mod::lemma_div_pos_is_pos;
use vstd::arithmetic::div_mod::lemma_fundamental_div_mod;
use vstd::arithmetic::div_mod::lemma_mod_pos_bound;
use vstd::arithmetic::mul::lemma_mul_inequality;
use vstd::arithmetic::mul::lemma_mul_nonnegative;
use vstd::math::abs;
use vstd::prelude::*;

verus! {

/// Configuration structure for the bisection method (one root version).
#[derive(Debug, Clone, Copy)]
pub struct OneRootBisectCfg {
    /// The real root, if any, will be no further than this from the reported
    /// root. Read as a magnitude; must not be zero.
    pub precision: Scalar,
    /// A limit on the number of iterations to perform. Pass `None` if you
    /// don't want a limit.
    pub max_iters: Option<u32>,
}

/// Configuration structure for the bisection method (multiple roots version).
#[derive(Debug, Clone, Copy)]
pub struct MultiRootBisectCfg {
    /// Real roots will be no further than that from reported roots. Read as
    /// a magnitude; must not be zero.
    pub precision: Scalar,
    /// A limit on the number of iterations to perform. Pass `None` if you
    /// don't want a limit.
    pub max_iters: Option<u32>,
    /// The requested interval will be split into this many chunks, and each
    /// chunk will be tried for a root.
    pub num_intervals: usize,
}

/// Configuration structure for the Newton's method (one root version).
#[derive(Debug, Clone, Copy)]
pub struct OneRootNewtonCfg {
    /// The real root, if any, is most likely to be within this distance from
    /// the reported root, but this is not guaranteed. Read as a magnitude;
    /// must not be zero.
    pub precision: Scalar,
    /// A limit on the number of iterations to perform. Pass `None` if you
    /// don't want a limit.
    pub max_iters: Option<u32>,
}

/// Whether `x` lies between `l` and `r`, whichever order the two come in.
pub open spec fn in_hull(l: Scalar, r: Scalar, x: Scalar) -> bool {
    (l.units <= x.units && x.units <= r.units) || (r.units <= x.units && x.units <= l.units)
}

/// The midpoint of `l` and `r` as a scalar, rounded toward the lower of the
/// two.
pub open spec fn mid_scalar(l: Scalar, r: Scalar) -> Scalar {
    (Scalar { units: mid_units(l.units as int, r.units as int) as i64 })
}

/// The target admits a sign change over the pair `(l, r)`: some evaluation of
/// it at `l` and some evaluation at `r` have a non-positive product (opposite
/// signs, or one exactly zero).
pub open spec fn bracket_sign_change<F: Fn(Scalar) -> Scalar>(target: F, l: Scalar, r: Scalar) -> bool {
    exists|yl: Scalar, yr: Scalar|
        #[trigger] call_ensures(target, (l,), yl) && #[trigger] call_ensures(target, (r,), yr)
            && (yl.units as int) * (yr.units as int) <= 0
}

/// The refinement rule of single-root bisection: of the final left endpoint,
/// right endpoint and midpoint, report whichever has the smallest magnitude
/// of target value.
pub open spec fn refined_pick(
    l: Scalar,
    r: Scalar,
    m: Scalar,
    yl: Scalar,
    yr: Scalar,
    ym: Scalar,
) -> Scalar {
    if abs(yl.units as int) < abs(ym.units as int) {
        l
    } else if abs(yr.units as int) < abs(ym.units as int) {
        r
    } else {
        m
    }
}

/// How a root reported by single-root bisection relates to the interval the
/// search started from: some bracket inside the original interval still shows
/// a sign change, its width has fallen to the precision unless an iteration
/// cap could have stopped the loop early, and the root is the refinement pick
/// among the bracket's endpoints and midpoint.
pub open spec fn bisect_exit<F: Fn(Scalar) -> Scalar>(
    target: F,
    precision: Scalar,
    cap_set: bool,
    left: Scalar,
    right: Scalar,
    root: Scalar,
) -> bool {
    exists|l: Scalar, r: Scalar, yl: Scalar, yr: Scalar, ym: Scalar|
        {
            &&& in_hull(left, right, l)
            &&& in_hull(left, right, r)
            &&& #[trigger] call_ensures(target, (l,), yl)
            &&& #[trigger] call_ensures(target, (r,), yr)
            &&& #[trigger] call_ensures(target, (mid_scalar(l, r),), ym)
            &&& (yl.units as int) * (yr.units as int) <= 0
            &&& (l.units <= r.units || (l == left && r == right))
            &&& (r.units - l.units <= abs(precision.units as int) || cap_set)
            &&& root == refined_pick(l, r, mid_scalar(l, r), yl, yr, ym)
        }
}

/// The full contract of [`bisect_one`]: absence is reported exactly when the
/// target's values at the two endpoints showed strictly the same sign; a
/// reported root lies in the searched interval and satisfies [`bisect_exit`].
pub open spec fn bisect_one_post<F: Fn(Scalar) -> Scalar>(
    target: F,
    config: OneRootBisectCfg,
    left: Scalar,
    right: Scalar,
    res: Option<Scalar>,
) -> bool {
    match res {
        Option::None => exists|yl: Scalar, yr: Scalar|
            #[trigger] call_ensures(target, (left,), yl) && #[trigger] call_ensures(
                target,
                (right,),
                yr,
            ) && (yl.units as int) * (yr.units as int) > 0,
        Option::Some(root) => {
            &&& bracket_sign_change(target, left, right)
            &&& in_hull(left, right, root)
            &&& bisect_exit(target, config.precision, config.max_iters is Some, left, right, root)
        },
    }
}

/// Find a root for a given function in a given interval, assuming there is
/// only one root there.
///
/// The target is evaluated at both endpoints first; if both values have
/// strictly the same sign, no sign change is guaranteed and absence is
/// returned. Otherwise the bracket is halved until its width no longer
/// exceeds the magnitude of the precision (or the iteration cap is reached),
/// and whichever of the final left endpoint, right endpoint and midpoint has
/// the smallest target magnitude is reported.
pub fn bisect_one<F: Fn(Scalar) -> Scalar>(
    config: OneRootBisectCfg,
    left: Scalar,
    right: Scalar,
    target: &F,
) -> (res: Option<Scalar>)
    requires
        config.precision.units != 0,
        forall|x: Scalar| in_hull(left, right, x) ==> #[trigger] call_requires(*target, (x,)),
    ensures
        bisect_one_post(*target, config, left, right, res),
{
    let mut l = left;
    let mut r = right;
    let mut left_val = (*target)(l);
    let mut right_val = (*target)(r);
    let ghost y_left0 = left_val;
    let ghost y_right0 = right_val;

    if product_pos(left_val.units, right_val.units) {
        return Option::None;
    }

    let mut m = midpoint(l, r);
    let mut mid_val = (*target)(m);
    let p_wide: i128 = config.precision.units as i128;
    let pm: i128 = if p_wide < 0 {
        -p_wide
    } else {
        p_wide
    };
    let cap: u64 = match config.max_iters {
        Option::None => 0,
        Option::Some(mx) => mx as u64,
    };
    let mut iter: u64 = 0;

    while r.units as i128 - l.units as i128 > pm && (config.max_iters.is_none() || iter < cap)
        invariant
            forall|x: Scalar| in_hull(left, right, x) ==> #[trigger] call_requires(*target, (x,)),
            pm == abs(config.precision.units as int),
            pm >= 1,
            in_hull(left, right, l),
            in_hull(left, right, r),
            l.units <= r.units || (l == left && r == right),
            m.units == mid_units(l.units as int, r.units as int),
            in_hull(l, r, m),
            call_ensures(*target, (l,), left_val),
            call_ensures(*target, (r,), right_val),
            call_ensures(*target, (m,), mid_val),
            (left_val.units as int) * (right_val.units as int) <= 0,
            call_ensures(*target, (left,), y_left0),
            call_ensures(*target, (right,), y_right0),
            (y_left0.units as int) * (y_right0.units as int) <= 0,
            iter as int <= (right.units as int - left.units as int) - (r.units as int
                - l.units as int),
        decreases r.units as int - l.units as int,
    {
        if product_nonpos(left_val.units, mid_val.units) {
            r = m;
            right_val = mid_val;
        } else if product_nonpos(mid_val.units, right_val.units) {
            l = m;
            left_val = mid_val;
        } else {
            // Safety net for a numerically inconsistent sign pattern. The
            // bracket invariant proves it cannot be reached: strict same-sign
            // products across the midpoint on both sides would force the
            // endpoint values' product to be strictly positive.
            proof {
                assert(false) by (nonlinear_arith)
                    requires
                        (left_val.units as int) * (mid_val.units as int) > 0,
                        (mid_val.units as int) * (right_val.units as int) > 0,
                        (left_val.units as int) * (right_val.units as int) <= 0,
                ;
            }
            return Option::None;
        }
        iter = iter + 1;
        m = midpoint(l, r);
        mid_val = (*target)(m);
    }

    let root = if abs_lt(left_val.units, mid_val.units) {
        l
    } else if abs_lt(right_val.units, mid_val.units) {
        r
    } else {
        m
    };
    proof {
        assert(root == refined_pick(l, r, mid_scalar(l, r), left_val, right_val, mid_val));
        assert(bisect_exit(
            *target,
            config.precision,
            config.max_iters is Some,
            left,
            right,
            root,
        ));
        assert(bracket_sign_change(*target, left, right));
    }
    Option::Some(root)
}

/// The [`OneRootBisectCfg`] that the enumerator hands to each chunk: the same
/// precision and iteration cap.
pub open spec fn one_cfg(cfg: MultiRootBisectCfg) -> OneRootBisectCfg {
    (OneRootBisectCfg { precision: cfg.precision, max_iters: cfg.max_iters })
}

/// Width, in units, of one chunk when the interval is split into
/// `num_intervals` equal parts, rounded toward zero.
pub open spec fn chunk_width(left: Scalar, right: Scalar, num_intervals: usize) -> int {
    div_trunc(right.units - left.units, num_intervals as int)
}

/// Left endpoint of chunk `k`; chunk `k`'s right endpoint is the left
/// endpoint of chunk `k + 1`.
pub open spec fn chunk_point(left: Scalar, right: Scalar, num_intervals: usize, k: int) -> Scalar {
    (Scalar { units: (left.units + chunk_width(left, right, num_intervals) * k) as i64 })
}

/// Whether a freshly found root counts as a duplicate of the most recently
/// emitted one: the two are close under twice the configured precision.
pub open spec fn duplicate_of(last: Option<Scalar>, root: Scalar, precision: Scalar) -> bool {
    match last {
        Option::None => false,
        Option::Some(lr) => close_units(
            lr.units as int,
            root.units as int,
            2 * (precision.units as int),
        ),
    }
}

/// The outcome of running single-root bisection on chunk `k` of the outer
/// interval.
pub open spec fn chunk_outcome<F: Fn(Scalar) -> Scalar>(
    target: F,
    cfg: MultiRootBisectCfg,
    left: Scalar,
    right: Scalar,
    k: int,
    res: Option<Scalar>,
) -> bool {
    bisect_one_post(
        target,
        one_cfg(cfg),
        chunk_point(left, right, cfg.num_intervals, k),
        chunk_point(left, right, cfg.num_intervals, k + 1),
        res,
    )
}

/// Chunk `k` produced nothing to emit: its bisection either found no root, or
/// found one that duplicates the most recently emitted root `last`.
pub open spec fn chunk_skipped<F: Fn(Scalar) -> Scalar>(
    target: F,
    cfg: MultiRootBisectCfg,
    left: Scalar,
    right: Scalar,
    last: Option<Scalar>,
    k: int,
) -> bool {
    exists|res: Option<Scalar>|
        #[trigger] chunk_outcome(target, cfg, left, right, k, res) && match res {
            Option::None => true,
            Option::Some(root) => duplicate_of(last, root, cfg.precision),
        }
}

/// Bounds on a chunk offset: `div_trunc(d, n) * k` never overshoots `d` and
/// never changes sign, for any chunk index `k` up to `n`.
proof fn lemma_chunk_offset_bounds(d: int, n: int, k: int)
    requires
        n >= 1,
        0 <= k <= n,
    ensures
        d >= 0 ==> 0 <= div_trunc(d, n) * k && div_trunc(d, n) * k <= d,
        d < 0 ==> d <= div_trunc(d, n) * k && div_trunc(d, n) * k <= 0,
{
    if d >= 0 {
        let w = d / n;
        assert(div_trunc(d, n) == w);
        lemma_div_pos_is_pos(d, n);
        lemma_fundamental_div_mod(d, n);
        lemma_mod_pos_bound(d, n);
        assert(n * w <= d);
        lemma_mul_nonnegative(w, k);
        lemma_mul_inequality(k, n, w);
        assert(w * k <= w * n == n * w);
    } else {
        let dd = -d;
        let w = dd / n;
        assert(div_trunc(d, n) == -w);
        lemma_div_pos_is_pos(dd, n);
        lemma_fundamental_div_mod(dd, n);
        lemma_mod_pos_bound(dd, n);
        assert(n * w <= dd);
        lemma_mul_nonnegative(w, k);
        lemma_mul_inequality(k, n, w);
        assert(w * k <= w * n == n * w);
        assert((-w) * k == -(w * k)) by (nonlinear_arith);
    }
}

/// Transient cursor state of the multi-root enumerator: the next chunk to
/// try, and the most recently emitted root, against which the next find is
/// checked for duplication. Produced by [`bisect_multi`]; pull roots from it
/// with [`MultiRootBisectState::next`].
#[derive(Debug, Clone, Copy)]
pub struct MultiRootBisectState<'a, F> {
    /// Configuration shared by every chunk.
    pub cfg: MultiRootBisectCfg,
    /// Left endpoint of the outer interval.
    pub left: Scalar,
    /// Right endpoint of the outer interval.
    pub right: Scalar,
    /// The target function whose roots are sought.
    pub target: &'a F,
    /// Index of the next chunk to hand to single-root bisection.
    pub cur_interval: usize,
    /// The most recently emitted root, if any.
    pub last_root: Option<Scalar>,
}

/// Find the roots of a function on an interval, assuming there are several.
///
/// Returns a pull-based enumerator: the interval is split into
/// `config.num_intervals` equal-width chunks, and each call of
/// [`MultiRootBisectState::next`] advances through them, handing each chunk
/// to [`bisect_one`] until one yields a root that does not duplicate the
/// previously emitted one, or the chunks run out.
pub fn bisect_multi<'a, F: Fn(Scalar) -> Scalar>(
    config: MultiRootBisectCfg,
    left: Scalar,
    right: Scalar,
    target: &'a F,
) -> (s: MultiRootBisectState<'a, F>)
    ensures
        s.cfg == config,
        s.left == left,
        s.right == right,
        s.target == target,
        s.cur_interval == 0,
        s.last_root is None,
{
    MultiRootBisectState {
        cfg: config,
        left,
        right,
        target,
        cur_interval: 0,
        last_root: Option::None,
    }
}

impl<'a, F: Fn(Scalar) -> Scalar> MultiRootBisectState<'a, F> {
    /// Advance the cursor until a chunk yields a fresh (non-duplicate) root,
    /// and emit it; return `None` once every chunk has been examined.
    #[verifier::loop_isolation(false)]
    pub fn next(&mut self) -> (res: Option<Scalar>)
        requires
            old(self).cfg.precision.units != 0,
            forall|x: Scalar|
                in_hull(old(self).left, old(self).right, x) ==> #[trigger] call_requires(
                    *old(self).target,
                    (x,),
                ),
        ensures
            final(self).cfg == old(self).cfg,
            final(self).left == old(self).left,
            final(self).right == old(self).right,
            final(self).target == old(self).target,
            match res {
                Option::None => final(self).last_root == old(self).last_root && ((
                old(self).cur_interval > old(self).cfg.num_intervals && final(self).cur_interval == old(
                    self,
                ).cur_interval) || (final(self).cur_interval == old(self).cfg.num_intervals && old(
                    self,
                ).cur_interval <= old(self).cfg.num_intervals && forall|j: int|
                    old(self).cur_interval <= j < old(self).cfg.num_intervals
                        ==> chunk_skipped(
                        *old(self).target,
                        old(self).cfg,
                        old(self).left,
                        old(self).right,
                        old(self).last_root,
                        j,
                    ))),
                Option::Some(root) => exists|k: int|
                    {
                        &&& old(self).cur_interval <= k < old(self).cfg.num_intervals
                        &&& #[trigger] chunk_outcome(
                            *old(self).target,
                            old(self).cfg,
                            old(self).left,
                            old(self).right,
                            k,
                            Option::Some(root),
                        )
                        &&& !duplicate_of(old(self).last_root, root, old(self).cfg.precision)
                        &&& in_hull(old(self).left, old(self).right, root)
                        &&& final(self).cur_interval == k + 1
                        &&& final(self).last_root == Option::Some(root)
                        &&& forall|j: int|
                            old(self).cur_interval <= j < k ==> chunk_skipped(
                                *old(self).target,
                                old(self).cfg,
                                old(self).left,
                                old(self).right,
                                old(self).last_root,
                                j,
                            )
                    },
            },
    {
        let ghost s0 = *self;
        if self.cur_interval > self.cfg.num_intervals {
            return Option::None;
        }
        let n: usize = self.cfg.num_intervals;
        if n == 0 {
            return Option::None;
        }
        let d: i128 = self.right.units as i128 - self.left.units as i128;
        let w: i128 = div_trunc_i128(d, n as i128);
        while self.cur_interval < n
            invariant
                *self == (MultiRootBisectState {
                    cur_interval: self.cur_interval,
                    ..s0
                }),
                n == s0.cfg.num_intervals,
                1 <= n,
                self.cur_interval <= n,
                s0.cur_interval <= self.cur_interval,
                s0.cfg.precision.units != 0,
                d == s0.right.units as int - s0.left.units as int,
                w == chunk_width(s0.left, s0.right, n),
                forall|x: Scalar|
                    in_hull(s0.left, s0.right, x) ==> #[trigger] call_requires(*s0.target, (x,)),
                forall|j: int|
                    s0.cur_interval <= j < self.cur_interval ==> chunk_skipped(
                        *s0.target,
                        s0.cfg,
                        s0.left,
                        s0.right,
                        s0.last_root,
                        j,
                    ),
            decreases n - self.cur_interval,
        {
            let k: usize = self.cur_interval;
            proof {
                lemma_chunk_offset_bounds(d as int, n as int, k as int);
                lemma_chunk_offset_bounds(d as int, n as int, k as int + 1);
            }
            let cl_w: i128 = self.left.units as i128 + w * (k as i128);
            let cr_w: i128 = cl_w + w;
            let cl = Scalar { units: cl_w as i64 };
            let cr = Scalar { units: cr_w as i64 };
            proof {
                assert(w * (k as int) + w == w * (k as int + 1)) by (nonlinear_arith);
                assert(cl == chunk_point(s0.left, s0.right, n, k as int));
                assert(cr == chunk_point(s0.left, s0.right, n, k as int + 1));
                assert(in_hull(s0.left, s0.right, cl));
                assert(in_hull(s0.left, s0.right, cr));
                assert(forall|x: Scalar|
                    in_hull(cl, cr, x) ==> in_hull(s0.left, s0.right, x));
            }
            let one = OneRootBisectCfg {
                precision: self.cfg.precision,
                max_iters: self.cfg.max_iters,
            };
            let res = bisect_one(one, cl, cr, self.target);
            self.cur_interval = k + 1;
            match res {
                Option::Some(root) => {
                    let dup: bool = match self.last_root {
                        Option::None => false,
                        Option::Some(lr) => {
                            let diff: i128 = root.units as i128 - lr.units as i128;
                            let dm: i128 = if diff < 0 {
                                -diff
                            } else {
                                diff
                            };
                            let p2: i128 = 2 * (self.cfg.precision.units as i128);
                            let pm2: i128 = if p2 < 0 {
                                -p2
                            } else {
                                p2
                            };
                            dm < pm2
                        },
                    };
                    proof {
                        assert(dup == duplicate_of(s0.last_root, root, s0.cfg.precision));
                        assert(chunk_outcome(
                            *s0.target,
                            s0.cfg,
                            s0.left,
                            s0.right,
                            k as int,
                            Option::Some(root),
                        ));
                    }
                    if !dup {
                        self.last_root = Option::Some(root);
                        return Option::Some(root);
                    }
                },
                Option::None => {
                    proof {
                        assert(chunk_outcome(
                            *s0.target,
                            s0.cfg,
                            s0.left,
                            s0.right,
                            k as int,
                            Option::<Scalar>::None,
                        ));
                    }
                },
            }
        }
        Option::None
    }
}

/// What one raw Newton update decides, given the target value `y` and the
/// derivative value `d` at the current estimate `old`: when the derivative is
/// near zero under the tolerance the update is unsafe, and when the updated
/// estimate `old - y / d` leaves `[left, right]` it is discarded; otherwise
/// it is the next estimate.
pub open spec fn newton_step_spec(
    precision: Scalar,
    left: Scalar,
    right: Scalar,
    old: Scalar,
    y: Scalar,
    d: Scalar,
) -> Option<Scalar> {
    if near_zero_units(d.units as int, precision.units as int) {
        Option::None
    } else {
        let res = old.units - div_trunc(y.units * (SCALE as int), d.units as int);
        if res < left.units || res > right.units {
            Option::None
        } else {
            Option::Some((Scalar { units: res as i64 }))
        }
    }
}

/// What the linear-interpolation (secant-style) fallback decides from the
/// endpoint values: the estimate `x1 - (x2 - x1) * y1 / (y2 - y1)`, discarded
/// when it leaves `[x1, x2]` or when the endpoint values coincide (no line to
/// interpolate along).
pub open spec fn linear_fallback_spec(x1: Scalar, x2: Scalar, y1: Scalar, y2: Scalar) -> Option<
    Scalar,
> {
    if y2.units == y1.units {
        Option::None
    } else {
        let res = x1.units - div_trunc(
            (x2.units - x1.units) * (y1.units as int),
            y2.units - y1.units,
        );
        if res < x1.units || res > x2.units {
            Option::None
        } else {
            Option::Some((Scalar { units: res as i64 }))
        }
    }
}

/// One attempted Newton update from estimate `old`, as a relation over the
/// possible evaluations of the target and the derivative there.
pub open spec fn newton_attempt<F: Fn(Scalar) -> Scalar, D: Fn(Scalar) -> Scalar>(
    target: F,
    derivative: D,
    precision: Scalar,
    left: Scalar,
    right: Scalar,
    old: Scalar,
    res: Option<Scalar>,
) -> bool {
    exists|d: Scalar|
        #[trigger] call_ensures(derivative, (old,), d) && {
            if near_zero_units(d.units as int, precision.units as int) {
                res is None
            } else {
                exists|y: Scalar|
                    #[trigger] call_ensures(target, (old,), y) && res == newton_step_spec(
                        precision,
                        left,
                        right,
                        old,
                        y,
                        d,
                    )
            }
        }
}

/// One attempted fallback step over the bracket `[left, right]`, as a
/// relation over the possible evaluations of the target at its endpoints.
pub open spec fn fallback_attempt<F: Fn(Scalar) -> Scalar>(
    target: F,
    left: Scalar,
    right: Scalar,
    res: Option<Scalar>,
) -> bool {
    exists|yl: Scalar, yr: Scalar|
        #[trigger] call_ensures(target, (left,), yl) && #[trigger] call_ensures(target, (right,), yr)
            && res == linear_fallback_spec(left, right, yl, yr)
}

/// The safeguarded iteration accepted `root` as the next estimate after
/// `prev`, inside the bracket `[l, r]`: either the Newton update itself was
/// safe and in bracket, or it was not and the linear fallback was.
pub open spec fn newton_accepted_step<F: Fn(Scalar) -> Scalar, D: Fn(Scalar) -> Scalar>(
    target: F,
    derivative: D,
    precision: Scalar,
    l: Scalar,
    r: Scalar,
    prev: Scalar,
    root: Scalar,
) -> bool {
    newton_attempt(target, derivative, precision, l, r, prev, Option::Some(root)) || (newton_attempt(
        target,
        derivative,
        precision,
        l,
        r,
        prev,
        Option::None,
    ) && fallback_attempt(target, l, r, Option::Some(root)))
}

/// The full contract of [`newton_one`]: a reported root is either the seed
/// returned untouched (an iteration cap of zero), or the estimate accepted by
/// the last Newton or fallback step, taken inside a bracket that never left
/// the original interval. Absence is reported only when, at some reached
/// state, the Newton update was unsafe or out of bracket and the fallback
/// also fell outside the bracket — the sole hard failure path.
/// A witness that `root` was accepted as the next estimate after `prev` in
/// the bracket `[l, r]`, all of it inside the original interval (but for the
/// seed, which may start outside it).
pub open spec fn newton_some_witness<F: Fn(Scalar) -> Scalar, D: Fn(Scalar) -> Scalar>(
    target: F,
    derivative: D,
    config: OneRootNewtonCfg,
    left: Scalar,
    right: Scalar,
    first_approx: Scalar,
    l: Scalar,
    r: Scalar,
    prev: Scalar,
    root: Scalar,
) -> bool {
    &&& in_hull(left, right, l)
    &&& in_hull(left, right, r)
    &&& (in_hull(left, right, prev) || prev == first_approx)
    &&& in_hull(l, r, root)
    &&& newton_accepted_step(target, derivative, config.precision, l, r, prev, root)
}

/// A witness that at estimate `cur` in the bracket `[l, r]` both the Newton
/// update and the linear fallback failed to stay in bracket.
pub open spec fn newton_none_witness<F: Fn(Scalar) -> Scalar, D: Fn(Scalar) -> Scalar>(
    target: F,
    derivative: D,
    config: OneRootNewtonCfg,
    left: Scalar,
    right: Scalar,
    first_approx: Scalar,
    l: Scalar,
    r: Scalar,
    cur: Scalar,
) -> bool {
    &&& in_hull(left, right, l)
    &&& in_hull(left, right, r)
    &&& (in_hull(left, right, cur) || cur == first_approx)
    &&& newton_attempt(target, derivative, config.precision, l, r, cur, Option::<Scalar>::None)
    &&& fallback_attempt(target, l, r, Option::<Scalar>::None)
}

pub open spec fn newton_one_post<F: Fn(Scalar) -> Scalar, D: Fn(Scalar) -> Scalar>(
    target: F,
    derivative: D,
    config: OneRootNewtonCfg,
    left: Scalar,
    right: Scalar,
    first_approx: Scalar,
    res: Option<Scalar>,
) -> bool {
    match res {
        Option::Some(root) => (config.max_iters == Option::Some(0u32) && root == first_approx) || (
        exists|l: Scalar, r: Scalar, prev: Scalar|
            #[trigger] newton_some_witness(
                target,
                derivative,
                config,
                left,
                right,
                first_approx,
                l,
                r,
                prev,
                root,
            )),
        Option::None => exists|l: Scalar, r: Scalar, cur: Scalar|
            #[trigger] newton_none_witness(
                target,
                derivative,
                config,
                left,
                right,
                first_approx,
                l,
                r,
                cur,
            ),
    }
}

/// A pair of points bracketing a sign change within `precision` of each
/// other, with the reported root among them: every point of the bracket — in
/// particular any true root it contains — is within the precision's magnitude
/// of the reported root.
pub open spec fn accuracy_witness<F: Fn(Scalar) -> Scalar>(
    target: F,
    precision: Scalar,
    left: Scalar,
    right: Scalar,
    root: Scalar,
    lo: Scalar,
    hi: Scalar,
) -> bool {
    &&& in_hull(left, right, lo)
    &&& in_hull(left, right, hi)
    &&& lo.units <= hi.units
    &&& bracket_sign_change(target, lo, hi)
    &&& hi.units - lo.units <= abs(precision.units as int)
    &&& in_hull(lo, hi, root)
    &&& forall|t: Scalar|
        #[trigger] in_hull(lo, hi, t) ==> abs(root.units - t.units) <= abs(precision.units as int)
}

/// Law: when the iteration cap is unset, a root reported by [`bisect_one`]
/// comes with a bracket no wider than the precision's magnitude that still
/// shows a sign change and contains the root — so the root is within the
/// precision of every point of that bracket.
pub proof fn lemma_bisect_one_uncapped_accuracy<F: Fn(Scalar) -> Scalar>(
    target: F,
    config: OneRootBisectCfg,
    left: Scalar,
    right: Scalar,
    root: Scalar,
)
    requires
        config.max_iters is None,
        left.units <= right.units,
        bisect_one_post(target, config, left, right, Option::Some(root)),
    ensures
        exists|lo: Scalar, hi: Scalar|
            #[trigger] accuracy_witness(target, config.precision, left, right, root, lo, hi),
{
    assert(Option::Some(root)->Some_0 == root);
    let (l, r, yl, yr, ym) = choose|l: Scalar, r: Scalar, yl: Scalar, yr: Scalar, ym: Scalar|
        {
            &&& in_hull(left, right, l)
            &&& in_hull(left, right, r)
            &&& #[trigger] call_ensures(target, (l,), yl)
            &&& #[trigger] call_ensures(target, (r,), yr)
            &&& #[trigger] call_ensures(target, (mid_scalar(l, r),), ym)
            &&& (yl.units as int) * (yr.units as int) <= 0
            &&& (l.units <= r.units || (l == left && r == right))
            &&& (r.units - l.units <= abs(config.precision.units as int) || config.max_iters
                is Some)
            &&& root == refined_pick(l, r, mid_scalar(l, r), yl, yr, ym)
        };
    assert(l.units <= r.units);
    assert(in_hull(l, r, root));
    assert(bracket_sign_change(target, l, r));
    assert(accuracy_witness(target, config.precision, left, right, root, l, r));
}

/// Law: success is owed wherever a sign change is certain. If every pair of
/// target values at the two endpoints has a non-positive product, a call of
/// [`bisect_one`] cannot report absence.
pub proof fn lemma_bisect_one_success_owed<F: Fn(Scalar) -> Scalar>(
    target: F,
    config: OneRootBisectCfg,
    left: Scalar,
    right: Scalar,
    res: Option<Scalar>,
)
    requires
        bisect_one_post(target, config, left, right, res),
        forall|yl: Scalar, yr: Scalar|
            (#[trigger] call_ensures(target, (left,), yl) && #[trigger] call_ensures(
                target,
                (right,),
                yr,
            )) ==> (yl.units as int) * (yr.units as int) <= 0,
    ensures
        res is Some,
{
    if res is None {
        let (yl, yr) = choose|yl: Scalar, yr: Scalar|
            #[trigger] call_ensures(target, (left,), yl) && #[trigger] call_ensures(
                target,
                (right,),
                yr,
            ) && (yl.units as int) * (yr.units as int) > 0;
        assert((yl.units as int) * (yr.units as int) <= 0);
    }
}

/// Law: absence is owed wherever no sign change can appear. If every pair of
/// target values at the two endpoints has a strictly positive product, a call
/// of [`bisect_one`] cannot report a root.
pub proof fn lemma_bisect_one_no_sign_change_absent<F: Fn(Scalar) -> Scalar>(
    target: F,
    config: OneRootBisectCfg,
    left: Scalar,
    right: Scalar,
    res: Option<Scalar>,
)
    requires
        bisect_one_post(target, config, left, right, res),
        forall|yl: Scalar, yr: Scalar|
            (#[trigger] call_ensures(target, (left,), yl) && #[trigger] call_ensures(
                target,
                (right,),
                yr,
            )) ==> (yl.units as int) * (yr.units as int) > 0,
    ensures
        res is None,
{
    if res is Some {
        let root = res->Some_0;
        assert(Option::Some(root)->Some_0 == root);
        let (yl, yr) = choose|yl: Scalar, yr: Scalar|
            #[trigger] call_ensures(target, (left,), yl) && #[trigger] call_ensures(
                target,
                (right,),
                yr,
            ) && (yl.units as int) * (yr.units as int) <= 0;
        assert((yl.units as int) * (yr.units as int) > 0);
    }
}

/// Law: a target all of whose values share one strict sign yields no root
/// from any chunk of the multi-root enumerator; consuming the enumerator over
/// such a target therefore produces the empty sequence.
pub proof fn lemma_same_sign_chunk_yields_none<F: Fn(Scalar) -> Scalar>(
    target: F,
    cfg: MultiRootBisectCfg,
    left: Scalar,
    right: Scalar,
    k: int,
    res: Option<Scalar>,
)
    requires
        chunk_outcome(target, cfg, left, right, k, res),
        forall|x: Scalar, yx: Scalar, y: Scalar, yy: Scalar|
            (#[trigger] call_ensures(target, (x,), yx) && #[trigger] call_ensures(target, (y,), yy))
                ==> (yx.units as int) * (yy.units as int) > 0,
    ensures
        res is None,
{
    let cl = chunk_point(left, right, cfg.num_intervals, k);
    let cr = chunk_point(left, right, cfg.num_intervals, k + 1);
    if res is Some {
        let root = res->Some_0;
        assert(Option::Some(root)->Some_0 == root);
        let (yl, yr) = choose|yl: Scalar, yr: Scalar|
            #[trigger] call_ensures(target, (cl,), yl) && #[trigger] call_ensures(target, (cr,), yr)
                && (yl.units as int) * (yr.units as int) <= 0;
        assert((yl.units as int) * (yr.units as int) > 0);
    }
}

/// Law: roots emitted by the multi-root enumerator come in ascending order.
/// For an ordered outer interval, a root found in an earlier chunk is no
/// larger than a root found in any later chunk, because each chunk's root
/// stays inside that chunk and the chunks tile the interval left to right.
pub proof fn lemma_emitted_roots_ascend<F: Fn(Scalar) -> Scalar>(
    target: F,
    cfg: MultiRootBisectCfg,
    left: Scalar,
    right: Scalar,
    k1: int,
    root1: Scalar,
    k2: int,
    root2: Scalar,
)
    requires
        left.units <= right.units,
        0 <= k1 < k2 < cfg.num_intervals as int,
        chunk_outcome(target, cfg, left, right, k1, Option::Some(root1)),
        chunk_outcome(target, cfg, left, right, k2, Option::Some(root2)),
    ensures
        root1.units <= root2.units,
{
    let n = cfg.num_intervals as int;
    let d = right.units - left.units;
    let w = div_trunc(d, n);
    lemma_div_pos_is_pos(d, n);
    lemma_chunk_offset_bounds(d, n, k1);
    lemma_chunk_offset_bounds(d, n, k1 + 1);
    lemma_chunk_offset_bounds(d, n, k2);
    lemma_chunk_offset_bounds(d, n, k2 + 1);
    assert(Option::Some(root1)->Some_0 == root1);
    assert(Option::Some(root2)->Some_0 == root2);
    assert(in_hull(
        chunk_point(left, right, cfg.num_intervals, k1),
        chunk_point(left, right, cfg.num_intervals, k1 + 1),
        root1,
    ));
    assert(in_hull(
        chunk_point(left, right, cfg.num_intervals, k2),
        chunk_point(left, right, cfg.num_intervals, k2 + 1),
        root2,
    ));
    assert(0 <= w);
    assert(w * k1 <= w * (k1 + 1)) by (nonlinear_arith)
        requires
            0 <= w,
            k1 < k1 + 1,
    ;
    assert(w * (k1 + 1) <= w * k2) by (nonlinear_arith)
        requires
            0 <= w,
            k1 + 1 <= k2,
    ;
    assert(w * k2 <= w * (k2 + 1)) by (nonlinear_arith)
        requires
            0 <= w,
            k2 < k2 + 1,
    ;
    assert(root1.units <= chunk_point(left, right, cfg.num_intervals, k1 + 1).units);
    assert(chunk_point(left, right, cfg.num_intervals, k2).units <= root2.units);
}

/// Law: for a target that is a function of its argument (any two evaluations
/// at one point agree), the contract of [`bisect_one`] decides success or
/// absence deterministically — two results both permitted by the contract on
/// identical inputs are either both roots or both absences.
pub proof fn lemma_bisect_one_decision_deterministic<F: Fn(Scalar) -> Scalar>(
    target: F,
    config: OneRootBisectCfg,
    left: Scalar,
    right: Scalar,
    res1: Option<Scalar>,
    res2: Option<Scalar>,
)
    requires
        forall|x: Scalar, y1: Scalar, y2: Scalar|
            (#[trigger] call_ensures(target, (x,), y1) && #[trigger] call_ensures(target, (x,), y2))
                ==> y1 == y2,
        bisect_one_post(target, config, left, right, res1),
        bisect_one_post(target, config, left, right, res2),
    ensures
        res1 is Some <==> res2 is Some,
{
    if res1 is None && res2 is Some {
        assert(Option::Some(res2->Some_0)->Some_0 == res2->Some_0);
        let (yl1, yr1) = choose|yl: Scalar, yr: Scalar|
            #[trigger] call_ensures(target, (left,), yl) && #[trigger] call_ensures(
                target,
                (right,),
                yr,
            ) && (yl.units as int) * (yr.units as int) > 0;
        let (yl2, yr2) = choose|yl: Scalar, yr: Scalar|
            #[trigger] call_ensures(target, (left,), yl) && #[trigger] call_ensures(
                target,
                (right,),
                yr,
            ) && (yl.units as int) * (yr.units as int) <= 0;
        assert(yl1 == yl2 && yr1 == yr2);
    }
    if res2 is None && res1 is Some {
        assert(Option::Some(res1->Some_0)->Some_0 == res1->Some_0);
        let (yl1, yr1) = choose|yl: Scalar, yr: Scalar|
            #[trigger] call_ensures(target, (left,), yl) && #[trigger] call_ensures(
                target,
                (right,),
                yr,
            ) && (yl.units as int) * (yr.units as int) > 0;
        let (yl2, yr2) = choose|yl: Scalar, yr: Scalar|
            #[trigger] call_ensures(target, (left,), yl) && #[trigger] call_ensures(
                target,
                (right,),
                yr,
            ) && (yl.units as int) * (yr.units as int) <= 0;
        assert(yl1 == yl2 && yr1 == yr2);
    }
}

/// A single witness establishes the success case of [`newton_one_post`].
proof fn lemma_newton_post_some<F: Fn(Scalar) -> Scalar, D: Fn(Scalar) -> Scalar>(
    target: F,
    derivative: D,
    config: OneRootNewtonCfg,
    left: Scalar,
    right: Scalar,
    first_approx: Scalar,
    l: Scalar,
    r: Scalar,
    prev: Scalar,
    root: Scalar,
)
    requires
        newton_some_witness(target, derivative, config, left, right, first_approx, l, r, prev, root),
    ensures
        newton_one_post(target, derivative, config, left, right, first_approx, Option::Some(root)),
{
    assert(Option::Some(root)->Some_0 == root);
}

/// A single witness establishes the failure case of [`newton_one_post`].
proof fn lemma_newton_post_none<F: Fn(Scalar) -> Scalar, D: Fn(Scalar) -> Scalar>(
    target: F,
    derivative: D,
    config: OneRootNewtonCfg,
    left: Scalar,
    right: Scalar,
    first_approx: Scalar,
    l: Scalar,
    r: Scalar,
    cur: Scalar,
)
    requires
        newton_none_witness(target, derivative, config, left, right, first_approx, l, r, cur),
    ensures
        newton_one_post(
            target,
            derivative,
            config,
            left,
            right,
            first_approx,
            Option::<Scalar>::None,
        ),
{
}

/// An iteration cap of zero establishes the seed case of
/// [`newton_one_post`].
proof fn lemma_newton_post_seed<F: Fn(Scalar) -> Scalar, D: Fn(Scalar) -> Scalar>(
    target: F,
    derivative: D,
    config: OneRootNewtonCfg,
    left: Scalar,
    right: Scalar,
    first_approx: Scalar,
)
    requires
        config.max_iters == Option::Some(0u32),
    ensures
        newton_one_post(
            target,
            derivative,
            config,
            left,
            right,
            first_approx,
            Option::Some(first_approx),
        ),
{
    assert(Option::Some(first_approx)->Some_0 == first_approx);
}

/// One raw Newton update: evaluate the derivative at `old`; when it is near
/// zero under the tolerance, or the updated estimate leaves `[left, right]`,
/// report the step unsafe.
fn next_newton_iter<F: Fn(Scalar) -> Scalar, D: Fn(Scalar) -> Scalar>(
    prec: Scalar,
    left: Scalar,
    right: Scalar,
    old: Scalar,
    target: &F,
    derivative: &D,
) -> (res: Option<Scalar>)
    requires
        prec.units != 0,
        call_requires(*target, (old,)),
        call_requires(*derivative, (old,)),
    ensures
        newton_attempt(*target, *derivative, prec, left, right, old, res),
        res matches Option::Some(next) ==> left.units <= next.units <= right.units,
{
    let d = (*derivative)(old);
    if d.near_zero(prec) {
        return Option::None;
    }
    let y = (*target)(old);
    let yw: i128 = y.units as i128;
    proof {
        lemma_mul_in_range(
            yw as int,
            SCALE as int,
            0x8000_0000_0000_0000,
            0x1_0000_0000_0000,
        );
    }
    let num: i128 = yw * (SCALE as i128);
    let q: i128 = crate::scalar::div_trunc_i128(num, d.units as i128);
    let res_w: i128 = old.units as i128 - q;
    if res_w < left.units as i128 {
        return Option::None;
    }
    if res_w > right.units as i128 {
        return Option::None;
    }
    Option::Some(Scalar { units: res_w as i64 })
}

/// The linear-interpolation fallback: interpolate the segment through
/// `(x1, y1)` and `(x2, y2)` to its zero crossing, discarding the estimate
/// when it leaves `[x1, x2]`.
fn linear_fallback(x1: Scalar, x2: Scalar, y1: Scalar, y2: Scalar) -> (res: Option<Scalar>)
    ensures
        res == linear_fallback_spec(x1, x2, y1, y2),
        res matches Option::Some(fb) ==> x1.units <= fb.units <= x2.units,
{
    let den: i128 = y2.units as i128 - y1.units as i128;
    if den == 0 {
        return Option::None;
    }
    let dx: i128 = x2.units as i128 - x1.units as i128;
    proof {
        lemma_mul_in_range(
            dx as int,
            y1.units as int,
            0xFFFF_FFFF_FFFF_FFFF,
            0x8000_0000_0000_0000,
        );
    }
    let num: i128 = dx * (y1.units as i128);
    let q: i128 = crate::scalar::div_trunc_i128(num, den);
    if q > 20_000_000_000_000_000_000 {
        return Option::None;
    }
    if q < -20_000_000_000_000_000_000 {
        return Option::None;
    }
    let res_w: i128 = x1.units as i128 - q;
    if res_w < x1.units as i128 {
        return Option::None;
    }
    if res_w > x2.units as i128 {
        return Option::None;
    }
    Option::Some(Scalar { units: res_w as i64 })
}

/// Whether the iteration should continue: it stops once the newest estimate
/// is within the tolerance of the previous one.
fn keep_iterating(prev_root: Option<Scalar>, root: Scalar, precision: Scalar) -> (r: bool)
    ensures
        r == match prev_root {
            Option::None => true,
            Option::Some(p) => !close_units(root.units as int, p.units as int, precision.units as int),
        },
{
    match prev_root {
        Option::None => true,
        Option::Some(p) => !root.close(p, precision),
    }
}

/// Find a root of a function in a given interval by the safeguarded Newton's
/// method, starting from a first approximation.
///
/// Each step tries the Newton update at the current estimate and, when that
/// is unsafe (derivative near zero, or the update out of bracket), falls back
/// to linear interpolation from the bracket's endpoint values; if the
/// fallback also leaves the bracket, absence is reported. After each accepted
/// step the bracket is re-tightened around the new estimate so that it keeps
/// showing the sign change. The iteration stops once two consecutive
/// estimates are within the tolerance of each other, or the iteration cap is
/// reached — a capped exit carries no precision guarantee.
#[verifier::loop_isolation(false)]
pub fn newton_one<F: Fn(Scalar) -> Scalar, D: Fn(Scalar) -> Scalar>(
    config: OneRootNewtonCfg,
    left: Scalar,
    right: Scalar,
    first_approx: Scalar,
    target: &F,
    derivative: &D,
) -> (res: Option<Scalar>)
    requires
        config.precision.units != 0,
        forall|x: Scalar| in_hull(left, right, x) ==> #[trigger] call_requires(*target, (x,)),
        forall|x: Scalar| in_hull(left, right, x) ==> #[trigger] call_requires(*derivative, (x,)),
        call_requires(*target, (first_approx,)),
        call_requires(*derivative, (first_approx,)),
    ensures
        newton_one_post(*target, *derivative, config, left, right, first_approx, res),
        config.max_iters == Option::Some(0u32) ==> res == Option::Some(first_approx),
{
    let mut l = left;
    let mut r = right;
    let mut root = first_approx;
    let mut prev_root: Option<Scalar> = Option::None;
    let mut iter: u64 = 0;
    let fuel: u64 = match config.max_iters {
        Option::None => u64::MAX,
        Option::Some(mx) => mx as u64,
    };
    let ghost mut g_l = left;
    let ghost mut g_r = right;
    let ghost mut g_prev = first_approx;

    while keep_iterating(prev_root, root, config.precision) && iter < fuel
        invariant
            in_hull(left, right, l),
            in_hull(left, right, r),
            l.units <= r.units || (l == left && r == right),
            in_hull(left, right, root) || root == first_approx,
            iter <= fuel,
            (prev_root is None && iter == 0 && root == first_approx && l == left && r == right) || (
            iter >= 1 && prev_root == Option::Some(g_prev) && in_hull(left, right, g_l) && in_hull(
                left,
                right,
                g_r,
            ) && (in_hull(left, right, g_prev) || g_prev == first_approx) && in_hull(g_l, g_r, root)
                && newton_accepted_step(
                *target,
                *derivative,
                config.precision,
                g_l,
                g_r,
                g_prev,
                root,
            )),
        decreases fuel - iter,
    {
        iter = iter + 1;
        let left_val = (*target)(l);
        let right_val = (*target)(r);
        let step = next_newton_iter(config.precision, l, r, root, target, derivative);
        match step {
            Option::Some(next) => {
                proof {
                    g_l = l;
                    g_r = r;
                    g_prev = root;
                }
                prev_root = Option::Some(root);
                root = next;
            },
            Option::None => {
                match linear_fallback(l, r, left_val, right_val) {
                    Option::Some(fb) => {
                        proof {
                            g_l = l;
                            g_r = r;
                            g_prev = root;
                        }
                        prev_root = Option::Some(root);
                        root = fb;
                    },
                    Option::None => {
                        proof {
                            assert(fallback_attempt(*target, l, r, Option::<Scalar>::None));
                            lemma_newton_post_none(
                                *target,
                                *derivative,
                                config,
                                left,
                                right,
                                first_approx,
                                l,
                                r,
                                root,
                            );
                        }
                        return Option::None;
                    },
                }
            },
        }
        let val_at_root = (*target)(root);
        if product_nonpos(left_val.units, val_at_root.units) {
            r = root;
        } else {
            l = root;
        }
    }
    proof {
        if prev_root is None {
            assert(config.max_iters == Option::Some(0u32) && root == first_approx);
            lemma_newton_post_seed(*target, *derivative, config, left, right, first_approx);
        } else {
            lemma_newton_post_some(
                *target,
                *derivative,
                config,
                left,
                right,
                first_approx,
                g_l,
                g_r,
                g_prev,
                root,
            );
        }
    }
    Option::Some(root)
}

} // verus!
