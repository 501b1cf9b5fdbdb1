//! The decision at the heart of the pumping loop: each chunk a direction
//! reads goes through its hook and on to the opposite stream unchanged.

use crate::pdtrait::FuncR;
use vstd::prelude::*;

verus! {

/// Put one freshly read chunk through the direction's hook: the end-of-data
/// hook at the read side's close, the ordinary hook otherwise. What comes
/// back for writing is exactly what was read, so the bytes one side sends
/// are the bytes the other receives.
pub fn pump_chunk<T: FuncR>(f: &mut T, buf: &mut Vec<u8>, eof: bool)
    ensures
        final (buf)@ == old(buf)@,
{
    if eof {
        f.enddata(buf);
    } else {
        f.data(buf);
    }
}

/// The pump stops a direction as soon as its read side has closed or the
/// opposite write side has failed.
pub open spec fn direction_done(read_closed: bool, write_failed: bool) -> bool {
    read_closed || write_failed
}

} // verus!
