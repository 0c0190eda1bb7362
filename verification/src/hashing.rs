//! Run merging over a byte slice.
//!
//! The scan walks the slice with two cursors, one at the end of the run
//! being built and one at the next element, and extends the run while the
//! two cursors agree. Cursors are offsets from the start of the slice.
use vstd::prelude::*;

verus! {

/// A run inside a slice: where it starts, how many elements it spans, and
/// the cursor that marks its end, all as offsets from the slice start.
#[derive(Debug, Clone, Copy, PartialEq, Eq, Structural)]
pub struct MySlice {
    pub start: usize,
    pub len: usize,
    pub end: usize,
}

/// What `merge_slice` returns for a slice of `n` elements: the run starts at
/// offset 0 and spans all `n` elements; its end cursor has advanced one step
/// from the start when the slice is not empty.
pub open spec fn merged(n: nat) -> MySlice {
    if n == 0 {
        MySlice { start: 0, len: 0, end: 0 }
    } else {
        MySlice { start: 0, len: n as usize, end: 1 }
    }
}

/// Scans `val`, merging adjacent elements into one run.
///
/// Both cursors are recomputed from the run's end and from the current
/// element at every step of the inner scan, so they always agree and the
/// whole slice becomes a single run.
pub fn merge_slice(val: &[u8]) -> (res: MySlice)
    ensures
        res == merged(val@.len()),
{
    let mut val_ptr: usize = 0;
    let mut len: usize = val.len();
    let mut state = MySlice { start: val_ptr, len: 0, end: val_ptr };
    while len != 0
        invariant
            len == val@.len(),
            val_ptr == 0,
            state == (MySlice { start: 0, len: 0, end: 0 }),
        decreases len,
    {
        let ghost len_before = len;
        let mut flen: usize = 0;
        // Both cursors are derived from the same offset, so they agree at
        // every step: the scan never takes the `break` and leaves only
        // through the `return` at the end of the slice.
        let tmp1: usize = state.end;
        let tmp2: usize = val_ptr;
        loop
            invariant
                tmp1 == 0,
                tmp2 == 0,
                val_ptr == 0,
                state == (MySlice { start: 0, len: 0, end: 0 }),
                len >= 1,
                flen + len == val.len(),
            ensures
                len < len_before,
                len == val@.len(),
                val_ptr == 0,
                state == (MySlice { start: 0, len: 0, end: 0 }),
            decreases len,
        {
            let next1: usize = tmp1 + 1;
            let next2: usize = tmp2 + 1;
            len -= 1;
            flen += 1;
            if next1 != next2 {
                state.len = state.len + flen;
                state.end = next1;
                val_ptr = next2;
                state = MySlice { start: val_ptr, len: 0, end: val_ptr };
                break;
            }
            if len == 0 {
                state.len = state.len + flen;
                state.end = next1;
                return state;
            }
        }
    }
    state
}

} // verus!
