//! Reading a memory region in batches: which range to read next and how
//! each read answer is recorded.

use vstd::prelude::*;
use vstd::std_specs::cmp::PartialEqSpecImpl;

use crate::region::MemoryRegion;

verus! {

/// A piece of a region that was read, with its bytes and findings.
#[derive(Debug, Clone)]
pub struct MemoryBatch {
    pub region: MemoryRegion,
    pub data: Vec<u8>,
    pub analysis: Vec<(String, String)>,
}

/// Two batches are equal when they describe the same region.
impl PartialEq for MemoryBatch {
    fn eq(&self, other: &Self) -> (r: bool) {
        self.region == other.region
    }
}

impl Eq for MemoryBatch {}

impl PartialEqSpecImpl for MemoryBatch {
    open spec fn obeys_eq_spec() -> bool {
        true
    }

    open spec fn eq_spec(&self, other: &Self) -> bool {
        self.region == other.region
    }
}

/// `region` with its base address and size replaced.
pub open spec fn sub_region(region: MemoryRegion, base_address: usize, size: usize) -> MemoryRegion {
    MemoryRegion { base_address, size, ..region }
}

/// A batched read of a region in progress.
pub struct BatchScan {
    /// The region being read.
    pub region: MemoryRegion,
    /// The most bytes asked for in one read.
    pub batch_size: usize,
    /// Bytes of the region not yet covered.
    pub remaining: usize,
    /// Where the next read starts.
    pub next_address: usize,
    /// The pieces read so far, in address order.
    pub batches: Vec<MemoryBatch>,
}

/// The size of the next read: the batch size, or what is left if that is less.
pub open spec fn request_size(batch_size: usize, remaining: usize) -> usize {
    if batch_size < remaining {
        batch_size
    } else {
        remaining
    }
}

impl BatchScan {
    /// The scan's bookkeeping is consistent: the covered part of the region is
    /// exactly what lies before `next_address`, and the recorded pieces are
    /// non-empty, lie in that part in ascending order without overlap, carry
    /// the region's other attributes and hold as many bytes as they are long.
    pub open spec fn wf(&self) -> bool {
        &&& self.remaining <= self.region.size
        &&& self.region.base_address + self.region.size <= usize::MAX
        &&& self.next_address == self.region.base_address + (self.region.size - self.remaining)
        &&& forall|k: int|
            0 <= k < self.batches@.len() ==> {
                let b = #[trigger] self.batches@[k];
                &&& b.region == sub_region(self.region, b.region.base_address, b.region.size)
                &&& b.region.size > 0
                &&& b.data@.len() == b.region.size
                &&& b.analysis@.len() == 0
                &&& self.region.base_address <= b.region.base_address
                &&& b.region.base_address + b.region.size <= self.next_address
            }
        &&& forall|k: int, j: int|
            0 <= k < j < self.batches@.len() ==> #[trigger] self.batches@[k].region.base_address
                + self.batches@[k].region.size <= #[trigger] self.batches@[j].region.base_address
    }

    /// Starts reading `region` in pieces of at most `batch_size` bytes.
    pub fn new(region: &MemoryRegion, batch_size: usize) -> (scan: Self)
        requires
            region.base_address + region.size <= usize::MAX,
        ensures
            scan.wf(),
            scan.region == *region,
            scan.batch_size == batch_size,
            scan.remaining == region.size,
            scan.next_address == region.base_address,
            scan.batches@.len() == 0,
    {
        BatchScan {
            region: *region,
            batch_size,
            remaining: region.size,
            next_address: region.base_address,
            batches: Vec::new(),
        }
    }

    /// Whether the whole region has been covered.
    pub fn is_done(&self) -> (r: bool)
        ensures
            r == (self.remaining == 0),
    {
        self.remaining == 0
    }

    /// The next read to make: its start address and length.
    pub fn next_request(&self) -> (req: (usize, usize))
        ensures
            req == (self.next_address, request_size(self.batch_size, self.remaining)),
    {
        let size = if self.batch_size < self.remaining {
            self.batch_size
        } else {
            self.remaining
        };
        (self.next_address, size)
    }

    /// Takes the answer to the read that `next_request` names: `None` where
    /// the read failed (nothing changes, the read is asked again), otherwise
    /// the bytes read.  A non-empty answer becomes the next piece and the scan
    /// moves past it; an empty answer skips the whole requested length.
    pub fn record_read(&mut self, answer: Option<Vec<u8>>)
        requires
            old(self).wf(),
            old(self).remaining > 0,
            answer matches Some(bytes) ==> bytes@.len() <= request_size(
                old(self).batch_size,
                old(self).remaining,
            ),
        ensures
            final(self).wf(),
            final(self).region == old(self).region,
            final(self).batch_size == old(self).batch_size,
            answer is None ==> *final(self) == *old(self),
            answer matches Some(bytes) ==> {
                let n = bytes@.len();
                let req = request_size(old(self).batch_size, old(self).remaining);
                if n > 0 {
                    &&& final(self).batches@.len() == old(self).batches@.len() + 1
                    &&& final(self).batches@.take(old(self).batches@.len() as int)
                        == old(self).batches@
                    &&& final(self).batches@.last().region == sub_region(
                        old(self).region,
                        old(self).next_address,
                        n as usize,
                    )
                    &&& final(self).batches@.last().data@ == bytes@
                    &&& final(self).next_address == old(self).next_address + n
                    &&& final(self).remaining == old(self).remaining - n
                } else {
                    &&& final(self).batches@ == old(self).batches@
                    &&& final(self).next_address == old(self).next_address + req
                    &&& final(self).remaining == old(self).remaining - req
                }
            },
    {
        match answer {
            None => {},
            Some(bytes) => {
                let req = if self.batch_size < self.remaining {
                    self.batch_size
                } else {
                    self.remaining
                };
                let n = bytes.len();
                let ghost old_batches = self.batches@;
                let ghost old_next = self.next_address;
                if n > 0 {
                    let piece = MemoryRegion { base_address: self.next_address, size: n, ..self.region };
                    self.batches.push(MemoryBatch { region: piece, data: bytes, analysis: Vec::new() });
                    self.next_address = self.next_address + n;
                    self.remaining = self.remaining - n;
                    assert(self.batches@.take(old_batches.len() as int) =~= old_batches);
                    assert forall|k: int, j: int|
                        0 <= k < j < self.batches@.len() implies #[trigger] self.batches@[k].region.base_address
                            + self.batches@[k].region.size
                            <= #[trigger] self.batches@[j].region.base_address by {
                        if j < old_batches.len() {
                            assert(self.batches@[k] == old_batches[k]);
                            assert(self.batches@[j] == old_batches[j]);
                        } else {
                            assert(self.batches@[k] == old_batches[k]);
                        }
                    }
                    assert forall|k: int| 0 <= k < self.batches@.len() implies {
                        let b = #[trigger] self.batches@[k];
                        &&& b.region == sub_region(self.region, b.region.base_address, b.region.size)
                        &&& b.region.size > 0
                        &&& b.data@.len() == b.region.size
                        &&& b.analysis@.len() == 0
                        &&& self.region.base_address <= b.region.base_address
                        &&& b.region.base_address + b.region.size <= self.next_address
                    } by {
                        if k < old_batches.len() {
                            assert(self.batches@[k] == old_batches[k]);
                        }
                    }
                } else {
                    self.next_address = self.next_address + req;
                    self.remaining = self.remaining - req;
                }
            },
        }
    }
}

} // verus!
