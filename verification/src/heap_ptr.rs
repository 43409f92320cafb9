use vstd::prelude::*;

verus! {

/// The address of one heap allocation made by a cell: an index into that
/// cell's slot store.  A `HeapPtr` is only a name; whether the slot it names
/// still holds a value is a question about the cell, not about the pointer.
#[derive(Clone, Copy, PartialEq, Eq, Structural, Debug)]
pub struct HeapPtr {
    pub idx: usize,
}

impl HeapPtr {
    /// The raw slot index this pointer names.
    pub fn as_ptr(&self) -> (r: usize)
        ensures
            r == self.idx,
    {
        self.idx
    }

    /// Rebuilds a pointer from a raw slot index.
    pub fn from_ptr(ptr: usize) -> (r: HeapPtr)
        ensures
            r.idx == ptr,
    {
        HeapPtr { idx: ptr }
    }
}

} // verus!
