//! Removes the zero elements from a sequence of integers, keeping the order of
//! the rest.
use vstd::prelude::*;

pub mod compact;

pub use crate::compact::compact;
