//! Table structure recovery for PDF pages, with verified contracts.
pub mod error;
pub mod connect;
pub mod geometry;
pub mod order;
pub mod text;
pub mod layout;
pub mod elements;
pub mod structure;
pub mod cli;
pub mod pipeline;

use vstd::prelude::*;

verus! {

} // verus!
