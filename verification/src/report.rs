//! Fixed column widths for the echoed row table; the actual printing is
//! the caller's business.

use vstd::prelude::*;

verus! {

/// Print widths of the four echoed columns: date, going, returning,
/// driver.
pub struct RecordWidth(pub usize, pub usize, pub usize, pub usize);

/// The fixed widths of the echo table: ten characters for a date such as
/// `2023.10.10`, eighteen for each name list.
pub fn get_record_print_width() -> (r: RecordWidth)
    ensures
        r.0 == 10,
        r.1 == 18,
        r.2 == 18,
        r.3 == 18,
{
    let date_width: usize = 10;
    let go_width: usize = 18;
    let back_width: usize = go_width;
    let driver_width: usize = go_width;
    RecordWidth(date_width, go_width, back_width, driver_width)
}

} // verus!
