//! Scenario tests for the root-finding algorithms over the fixed-point
//! scalar domain: one unit is `1 / SCALE`, so `2.0` is `2 * SCALE` units.

use rootfind::epsilon::Epsilon;
use rootfind::roots::{
    bisect_multi, bisect_one, newton_one, MultiRootBisectCfg, OneRootBisectCfg, OneRootNewtonCfg,
};
use rootfind::scalar::{Scalar, SCALE};

const T: i64 = SCALE;
const TW: i128 = SCALE as i128;

fn s(units: i64) -> Scalar {
    Scalar { units }
}

/// `target(x) = x`.
fn identity(x: Scalar) -> Scalar {
    x
}

/// `target(x) = (x - 2)(x + 2)`.
fn two_pm(x: Scalar) -> Scalar {
    let xu = x.units as i128;
    s((((xu - 2 * TW) * (xu + 2 * TW)) / TW) as i64)
}

/// `target(x) = (x - 1)(x - 2)`.
fn one_two(x: Scalar) -> Scalar {
    let xu = x.units as i128;
    s((((xu - TW) * (xu - 2 * TW)) / TW) as i64)
}

/// `target(x) = (x - 1)(x - 2)(x - 3)`.
fn cubic(x: Scalar) -> Scalar {
    let xu = x.units as i128;
    let a = (xu - TW) * (xu - 2 * TW) / TW;
    s((a * (xu - 3 * TW) / TW) as i64)
}

/// Derivative of the cubic: `3x^2 - 12x + 11`.
fn cubic_deriv(x: Scalar) -> Scalar {
    let xu = x.units as i128;
    s((3 * xu * xu / TW - 12 * xu + 11 * TW) as i64)
}

fn collect_roots(cfg: MultiRootBisectCfg, left: Scalar, right: Scalar, f: &impl Fn(Scalar) -> Scalar) -> Vec<Scalar> {
    let mut state = bisect_multi(cfg, left, right, f);
    let mut found = Vec::new();
    while let Some(root) = state.next() {
        found.push(root);
    }
    found
}

#[test]
fn bisect_one_pos_1() {
    let prec = s(1_000_000); // 1e-6
    let cfg = OneRootBisectCfg { precision: prec, max_iters: None };
    let root = bisect_one(cfg, s(-T), s(T), &identity);
    assert!(root.unwrap().close(s(0), prec));
}

#[test]
fn bisect_one_pos_2() {
    let prec = s(1_000); // 1e-9
    let cfg = OneRootBisectCfg { precision: prec, max_iters: None };
    let root1 = bisect_one(cfg, s(18 * T / 10), s(21 * T / 10), &two_pm);
    let root2 = bisect_one(cfg, s(-10 * T), s(0), &two_pm);
    assert!(root1.unwrap().close(s(2 * T), prec));
    assert!(root2.unwrap().close(s(-2 * T), prec));
}

#[test]
fn bisect_one_neg_1() {
    let prec = s(1_000_000);
    let cfg = OneRootBisectCfg { precision: prec, max_iters: None };
    let root = bisect_one(cfg, s(T), s(2 * T), &identity);
    assert!(root.is_none());
}

#[test]
fn bisect_multi_pos_1() {
    let prec = s(1_000_000);
    let cfg = MultiRootBisectCfg { precision: prec, max_iters: None, num_intervals: 20 };
    let roots = collect_roots(cfg, s(-3 * T), s(3 * T), &two_pm);
    assert_eq!(roots.len(), 2);
    assert!(roots[0].close(s(-2 * T), prec));
    assert!(roots[1].close(s(2 * T), prec));
    assert!(roots[0].units < roots[1].units);
}

#[test]
fn bisect_multi_pos_2() {
    let prec = s(1_000_000);
    let cfg = MultiRootBisectCfg { precision: prec, max_iters: None, num_intervals: 2 };
    let roots = collect_roots(cfg, s(-T), s(T), &identity);
    assert_eq!(roots.len(), 1);
    assert!(roots[0].close(s(0), prec));
}

#[test]
fn bisect_multi_neg_1() {
    let prec = s(1_000_000);
    let cfg = MultiRootBisectCfg { precision: prec, max_iters: None, num_intervals: 10 };
    let roots = collect_roots(cfg, s(3 * T), s(4 * T), &one_two);
    assert_eq!(roots, vec![]);
}

#[test]
fn bisect_multi_zero_chunks_is_empty() {
    let prec = s(1_000_000);
    let cfg = MultiRootBisectCfg { precision: prec, max_iters: None, num_intervals: 0 };
    let roots = collect_roots(cfg, s(-T), s(T), &identity);
    assert!(roots.is_empty());
}

#[test]
fn newton_one_pos_1() {
    let prec = s(1_000_000);
    let cfg = OneRootNewtonCfg { precision: prec, max_iters: None };
    let root = newton_one(cfg, s(T / 2), s(3 * T / 2), s(55 * T / 100), &cubic, &cubic_deriv);
    assert!(root.unwrap().close(s(T), prec));
    let root = newton_one(cfg, s(3 * T / 2), s(5 * T / 2), s(155 * T / 100), &cubic, &cubic_deriv);
    assert!(root.unwrap().close(s(2 * T), prec));
    let root = newton_one(cfg, s(5 * T / 2), s(4 * T), s(315 * T / 100), &cubic, &cubic_deriv);
    assert!(root.unwrap().close(s(3 * T), prec));
}

#[test]
fn newton_one_neg_1() {
    let prec = s(1_000_000);
    let cfg = OneRootNewtonCfg { precision: prec, max_iters: None };
    let root = newton_one(cfg, s(5 * T), s(6 * T), s(55 * T / 10), &cubic, &cubic_deriv);
    assert!(root.is_none());
}

#[test]
fn newton_zero_cap_returns_seed() {
    let prec = s(1_000_000);
    let cfg = OneRootNewtonCfg { precision: prec, max_iters: Some(0) };
    let seed = s(55 * T / 100);
    let root = newton_one(cfg, s(T / 2), s(3 * T / 2), seed, &cubic, &cubic_deriv);
    assert_eq!(root, Some(seed));
}

#[test]
fn bisect_zero_cap_picks_best_of_three() {
    // With no iterations allowed, the refinement rule still reports the best
    // of {left, right, midpoint}: the identity's midpoint of [-1, 1] is 0.
    let prec = s(1_000_000);
    let cfg = OneRootBisectCfg { precision: prec, max_iters: Some(0) };
    let root = bisect_one(cfg, s(-T), s(T), &identity);
    assert_eq!(root, Some(s(0)));
}

#[test]
fn close_and_near_zero_exact_values() {
    let p = s(1_000);
    assert!(s(0).close(s(999), p));
    assert!(!s(0).close(s(1_000), p));
    assert!(s(5).close(s(-80), s(100)));
    assert!(s(-999).near_zero(p));
    assert!(!s(1_000).near_zero(p));
    assert!(!s(0).near_zero(s(0)));
}

#[test]
fn tolerance_sign_is_ignored() {
    // `close` and `near_zero` with +precision and -precision decide alike.
    let cases: [(i64, i64, i64); 5] =
        [(0, 999, 1_000), (0, 1_000, 1_000), (7, -80, 100), (-3, -3, 1), (50, 49, 2)];
    for (a, b, p) in cases {
        assert_eq!(s(a).close(s(b), s(p)), s(a).close(s(b), s(-p)));
        assert_eq!(s(a).near_zero(s(p)), s(a).near_zero(s(-p)));
    }
}

#[test]
fn rerun_is_deterministic() {
    let prec = s(1_000_000);
    let one = OneRootBisectCfg { precision: prec, max_iters: None };
    assert_eq!(
        bisect_one(one, s(-10 * T), s(0), &two_pm),
        bisect_one(one, s(-10 * T), s(0), &two_pm)
    );
    let multi = MultiRootBisectCfg { precision: prec, max_iters: None, num_intervals: 20 };
    assert_eq!(
        collect_roots(multi, s(-3 * T), s(3 * T), &two_pm),
        collect_roots(multi, s(-3 * T), s(3 * T), &two_pm)
    );
    let newton = OneRootNewtonCfg { precision: prec, max_iters: None };
    assert_eq!(
        newton_one(newton, s(T / 2), s(3 * T / 2), s(55 * T / 100), &cubic, &cubic_deriv),
        newton_one(newton, s(T / 2), s(3 * T / 2), s(55 * T / 100), &cubic, &cubic_deriv)
    );
}

#[test]
fn root_on_chunk_boundary_emitted_once() {
    // The identity's only root sits exactly on the boundary of two chunks;
    // the duplicate-suppression window (twice the precision) drops the second
    // find.
    let prec = s(1_000_000);
    let cfg = MultiRootBisectCfg { precision: prec, max_iters: None, num_intervals: 4 };
    let roots = collect_roots(cfg, s(-2 * T), s(2 * T), &identity);
    assert_eq!(roots.len(), 1);
    assert!(roots[0].close(s(0), prec));
}
