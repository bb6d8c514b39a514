//! Discovery of repeated translated patterns in a two-dimensional point set,
//! and exact matching of a query pattern against such a set.
//!
//! Both axes are held as integers: the exact axis in ticks (a rational
//! coordinate scaled by a common denominator), the real axis in fixed units.
pub mod point;
pub mod point_set;
pub mod pattern;
pub mod matcher;
pub mod discovery;
