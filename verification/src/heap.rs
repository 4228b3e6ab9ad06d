use vstd::prelude::*;

verus! {

/// The stack bounds of a thread, as the collector reports them.
///
/// The two bases are machine addresses, held as plain integers.
#[derive(Debug, Clone, Copy)]
pub struct StackBase {
    pub mem_base: usize,
    pub reg_base: usize,
}

/// Handle to the process-wide conservative collector.
///
/// The collector itself is global, so the handle carries no data.
#[derive(Copy, Clone)]
pub struct Heap;

impl Heap {
    /// Reports collector statistics.
    ///
    /// Statistics gathering is switched off, so this leaves the handle
    /// exactly as it was.
    pub fn print_state(&mut self)
        ensures
            *final(self) == *old(self),
    {
    }
}

/// Collector profiling statistics, one word per counter.
#[derive(Copy, Clone, Debug)]
pub struct GCState {
    pub heapsize_full: usize,
    pub free_bytes_full: usize,
    pub unmapped_bytes: usize,
    pub bytes_allocd_since_gc: usize,
    pub allocd_bytes_before_gc: usize,
    pub non_gc_bytes: usize,
    pub gc_no: usize,
    pub markers_m1: usize,
    pub bytes_reclaimed_since_gc: usize,
    pub reclaimed_bytes_before_gc: usize,
    pub expl_freed_bytes_since_gc: usize,
    pub obtained_from_os_bytes: usize,
}

impl GCState {
    /// Every counter is zero.
    pub open spec fn is_zeroed(&self) -> bool {
        &&& self.heapsize_full == 0
        &&& self.free_bytes_full == 0
        &&& self.unmapped_bytes == 0
        &&& self.bytes_allocd_since_gc == 0
        &&& self.allocd_bytes_before_gc == 0
        &&& self.non_gc_bytes == 0
        &&& self.gc_no == 0
        &&& self.markers_m1 == 0
        &&& self.bytes_reclaimed_since_gc == 0
        &&& self.reclaimed_bytes_before_gc == 0
        &&& self.expl_freed_bytes_since_gc == 0
        &&& self.obtained_from_os_bytes == 0
    }
}

impl Default for GCState {
    fn default() -> (s: Self)
        ensures
            s.is_zeroed(),
    {
        GCState {
            heapsize_full: 0,
            free_bytes_full: 0,
            unmapped_bytes: 0,
            bytes_allocd_since_gc: 0,
            allocd_bytes_before_gc: 0,
            non_gc_bytes: 0,
            gc_no: 0,
            markers_m1: 0,
            bytes_reclaimed_since_gc: 0,
            reclaimed_bytes_before_gc: 0,
            expl_freed_bytes_since_gc: 0,
            obtained_from_os_bytes: 0,
        }
    }
}

} // verus!
