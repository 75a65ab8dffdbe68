//! Carpool trip ledger: parses pipe-delimited trip rows and aggregates,
//! per family, how often it rode out, rode back and drove, together with a
//! fairness score that credits drivers and debits passengers in proportion
//! to the size of the group they travelled in.
//!
//! All text is handled as bytes; the delimiters of the table format
//! (`|`, `,`, `'`) are ASCII, so byte-level splitting is exact on UTF-8 input.

pub mod laws;
pub mod report;
pub mod rows;
pub mod stat;
pub mod stats_map;
pub mod text;

use vstd::prelude::*;

verus! {

/// Least common multiple of the supported group sizes (1, 2 and 3 families
/// per trip), the base unit in which fairness scores are kept so that
/// credits and debits stay in whole numbers.
pub const TOTAL_FAMILIES_LCM: u32 = 6;

} // verus!
