//! Verified base64 decoding and space counting, each in several strategies
//! that are proved to compute the same results.

use vstd::prelude::*;

pub mod base64;
pub mod count_spaces;
pub mod lanes;
pub mod words;
