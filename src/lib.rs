//! A bounded worker pool whose dispatch rules are proved, a line search over text,
//! and a few small arithmetic and shape helpers.

pub mod basics;
pub mod mgrep;
pub mod summary;
pub mod tpool;

pub use basics::adds_two;
