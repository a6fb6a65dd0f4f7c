//! A numerical root-finding library: given a scalar function over a bounded
//! interval, locate points where the function crosses zero.
//!
//! The search domain is the fixed-point scalar type of [`scalar`]; the three
//! algorithms live in [`roots`], and the approximate-equality primitive they
//! share in [`epsilon`].

pub mod epsilon;
pub mod roots;
pub mod scalar;
