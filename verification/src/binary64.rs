//! Double-precision numbers, held as bit patterns.
//!
//! A finite double is a whole number of units of 2^-1074.  An operation yields the double
//! nearest to the exact result; of two that are equally near, the one with the even
//! pattern.

pub mod model;
pub mod rounding;
pub mod arithmetic;
pub mod order;
pub mod convert;
pub mod root;
pub mod facts;
pub mod nearness;
