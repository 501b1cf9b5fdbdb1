//! The capability a per-direction data hook offers to the pump.

use vstd::prelude::*;

verus! {

/// A data hook sees every chunk a direction reads, and must hand it on
/// unchanged: whatever it accounts, the bytes written to the opposite
/// stream are the bytes read.
pub trait FuncR {
    fn data(&mut self, buf: &mut Vec<u8>)
        ensures
            final (buf)@ == old(buf)@,
    ;

    fn enddata(&mut self, buf: &mut Vec<u8>)
        ensures
            final (buf)@ == old(buf)@,
    ;
}

} // verus!
