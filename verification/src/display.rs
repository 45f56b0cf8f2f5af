//! Small display computations the panels need: a human-readable byte
//! count and the summary panel's height.
use crate::strutil::{dec_str, u64_to_string};
use vstd::prelude::*;

verus! {

/// The rendered byte count: bytes below a kilobyte, whole kilobytes below
/// a megabyte, whole megabytes above.
pub open spec fn spec_fmt_bytes(bytes: u64) -> Seq<char> {
    if bytes < 1024 {
        dec_str(bytes as int) + " B"@
    } else if bytes < 1048576 {
        dec_str(bytes as int / 1024) + " KB"@
    } else {
        dec_str(bytes as int / 1048576) + " MB"@
    }
}

/// Renders a byte count for the summary panel.
pub fn fmt_bytes(bytes: u64) -> (r: String)
    ensures
        r@ == spec_fmt_bytes(bytes),
{
    if bytes < 1024 {
        let mut s = u64_to_string(bytes);
        s.append(" B");
        s
    } else if bytes < 1048576 {
        let mut s = u64_to_string(bytes / 1024);
        s.append(" KB");
        s
    } else {
        let mut s = u64_to_string(bytes / 1048576);
        s.append(" MB");
        s
    }
}

/// The summary panel's height: ten fixed rows, up to five exclude rows
/// and up to three manual-include rows.
pub fn calc_summary_h(excl_count: usize, manual_count: usize) -> (r: u16)
    ensures
        r == 10 + (if excl_count < 5 {
            excl_count as int
        } else {
            5
        }) + (if manual_count < 3 {
            manual_count as int
        } else {
            3
        }),
{
    let excl_rows: u16 = if excl_count < 5 {
        excl_count as u16
    } else {
        5
    };
    let manual_rows: u16 = if manual_count < 3 {
        manual_count as u16
    } else {
        3
    };
    10 + excl_rows + manual_rows
}

} // verus!
