//! The loader's window onto physical memory.
//!
//! Physical pages come from an external allocator that hands out
//! page-aligned, zero-filled memory and never frees it during boot. The
//! arena models exactly that service: a contiguous, monotonically growing
//! byte range starting at a fixed physical base address, growing one
//! page-aligned allocation at a time. Addresses handed out are real 32-bit
//! physical addresses within the range; the embedding decides where the
//! range sits.

use crate::LoaderError;
use vstd::prelude::*;

verus! {

/// `s` with the bytes of `patch` written over positions `at` on.
pub open spec fn splice(s: Seq<u8>, at: int, patch: Seq<u8>) -> Seq<u8>
    recommends
        0 <= at,
        at + patch.len() <= s.len(),
{
    s.subrange(0, at) + patch + s.subrange(at + patch.len(), s.len() as int)
}

/// The two bytes of `v`, least significant first.
pub open spec fn le16_bytes(v: u16) -> Seq<u8> {
    seq![(v % 0x100) as u8, (v / 0x100) as u8]
}

/// The four bytes of `v`, least significant first.
pub open spec fn le32_bytes(v: u32) -> Seq<u8> {
    seq![
        (v % 0x100) as u8,
        ((v / 0x100) % 0x100) as u8,
        ((v / 0x1_0000) % 0x100) as u8,
        (v / 0x100_0000) as u8,
    ]
}

/// A page-aligned, zero-initialized, monotonically growing stretch of
/// physical memory.
pub struct MemoryArena {
    base: u32,
    bytes: Vec<u8>,
}

impl MemoryArena {
    /// The bytes held, in address order from the base address up.
    pub closed spec fn view(&self) -> Seq<u8> {
        self.bytes@
    }

    /// The physical address of the first byte.
    pub closed spec fn spec_base(&self) -> int {
        self.base as int
    }

    /// The arena stays page-aligned and within the 32-bit address space.
    pub closed spec fn wf(&self) -> bool {
        &&& self.base % 4096 == 0
        &&& self.base + self.bytes@.len() <= 0xFFFF_FFFF
    }

    /// What well-formedness guarantees to callers: the base is page-aligned
    /// and base plus size stays inside the 32-bit address space.
    pub proof fn lemma_wf_bounds(&self)
        requires
            self.wf(),
        ensures
            self.spec_base() % 4096 == 0,
            self.spec_base() + self@.len() <= 0xFFFF_FFFF,
    {
    }

    /// An empty arena based at the page-aligned physical address `base`.
    pub fn new(base: u32) -> (r: MemoryArena)
        requires
            base % 4096 == 0,
        ensures
            r.wf(),
            r.spec_base() == base,
            r@ == Seq::<u8>::empty(),
    {
        MemoryArena { base, bytes: Vec::new() }
    }

    /// The base address.
    pub fn base_address(&self) -> (r: u32)
        ensures
            r == self.spec_base(),
    {
        self.base
    }

    /// How many bytes are allocated.
    pub fn size(&self) -> (r: usize)
        ensures
            r == self@.len(),
    {
        self.bytes.len()
    }

    /// The byte at physical address `addr`.
    pub fn byte_at(&self, addr: u32) -> (r: u8)
        requires
            self.spec_base() <= addr < self.spec_base() + self@.len(),
        ensures
            r == self@[addr - self.spec_base()],
    {
        self.bytes[(addr - self.base) as usize]
    }

    /// Allocate `count` fresh zero-filled pages, physically contiguous,
    /// and return the physical address of the first; the rest of the arena
    /// is untouched. Fails only when the allocation would leave the 32-bit
    /// address space.
    pub fn allocate_pages(&mut self, count: usize) -> (r: Result<u32, LoaderError>)
        requires
            old(self).wf(),
        ensures
            final(self).wf(),
            final(self).spec_base() == old(self).spec_base(),
            old(self).spec_base() + old(self)@.len() + count * 4096 <= 0xFFFF_FFFF ==> r is Ok
                && r->Ok_0 == old(self).spec_base() + old(self)@.len() && final(self)@ == old(
                self,
            )@ + Seq::new((count * 4096) as nat, |i: int| 0u8),
            old(self).spec_base() + old(self)@.len() + count * 4096 > 0xFFFF_FFFF ==> r == Err::<
                u32,
                LoaderError,
            >(LoaderError::OutOfMemory) && final(self)@ == old(self)@,
    {
        if count >= 0x10_0000 {
            return Err(LoaderError::OutOfMemory);
        }
        let need = (count as u64) * 4096;
        if (self.base as u64) + (self.bytes.len() as u64) + need > 0xFFFF_FFFF {
            return Err(LoaderError::OutOfMemory);
        }
        let addr = self.base + self.bytes.len() as u32;
        let total = need as usize;
        let mut added: usize = 0;
        while added < total
            invariant
                added <= total,
                self.base == old(self).base,
                self.bytes@ == old(self).bytes@ + Seq::new(added as nat, |i: int| 0u8),
            decreases total - added,
        {
            proof {
                assert(old(self).bytes@ + Seq::new((added + 1) as nat, |i: int| 0u8) =~= (old(
                    self,
                ).bytes@ + Seq::new(added as nat, |i: int| 0u8)).push(0u8));
            }
            self.bytes.push(0);
            added += 1;
        }
        proof {
            assert(self.bytes@ =~= old(self).bytes@ + Seq::new((count * 4096) as nat, |i: int| 0u8));
        }
        Ok(addr)
    }

    /// Copy `len` bytes of `data`, from `start` on, to physical address
    /// `addr`; every other byte keeps its value.
    pub fn write_bytes(&mut self, addr: u32, data: &[u8], start: usize, len: usize)
        requires
            old(self).wf(),
            old(self).spec_base() <= addr,
            addr - old(self).spec_base() + len <= old(self)@.len(),
            start + len <= data@.len(),
        ensures
            final(self).wf(),
            final(self).spec_base() == old(self).spec_base(),
            final(self)@ == splice(
                old(self)@,
                addr - old(self).spec_base(),
                data@.subrange(start as int, start + len),
            ),
    {
        let at = (addr - self.base) as usize;
        let cap = self.bytes.len();
        let dlen = data.len();
        let mut i: usize = 0;
        while i < len
            invariant
                i <= len,
                at == addr - old(self).spec_base(),
                at + len <= cap,
                cap == old(self)@.len(),
                start + len <= dlen,
                dlen == data@.len(),
                self.base == old(self).base,
                self.bytes@.len() == old(self).bytes@.len(),
                forall|j: int|
                    0 <= j < self.bytes@.len() && !(at <= j < at + i) ==> #[trigger] self.bytes@[j]
                        == old(self).bytes@[j],
                forall|j: int|
                    at <= j < at + i ==> #[trigger] self.bytes@[j] == data@[start + (j - at)],
            decreases len - i,
        {
            self.bytes[at + i] = data[start + i];
            i += 1;
        }
        proof {
            assert(self.bytes@ =~= splice(
                old(self)@,
                addr - old(self).spec_base(),
                data@.subrange(start as int, start + len),
            ));
        }
    }

    /// Write the two bytes of `value`, least significant first, at
    /// physical address `addr`; every other byte keeps its value.
    pub fn write_u16(&mut self, addr: u32, value: u16)
        requires
            old(self).wf(),
            old(self).spec_base() <= addr,
            addr - old(self).spec_base() + 2 <= old(self)@.len(),
        ensures
            final(self).wf(),
            final(self).spec_base() == old(self).spec_base(),
            final(self)@ == splice(old(self)@, addr - old(self).spec_base(), le16_bytes(value)),
    {
        let at = (addr - self.base) as usize;
        self.bytes[at] = (value % 0x100) as u8;
        self.bytes[at + 1] = (value / 0x100) as u8;
        proof {
            assert(self.bytes@ =~= splice(
                old(self)@,
                addr - old(self).spec_base(),
                le16_bytes(value),
            ));
        }
    }

    /// Write the four bytes of `value`, least significant first, at
    /// physical address `addr`; every other byte keeps its value.
    pub fn write_u32(&mut self, addr: u32, value: u32)
        requires
            old(self).wf(),
            old(self).spec_base() <= addr,
            addr - old(self).spec_base() + 4 <= old(self)@.len(),
        ensures
            final(self).wf(),
            final(self).spec_base() == old(self).spec_base(),
            final(self)@ == splice(old(self)@, addr - old(self).spec_base(), le32_bytes(value)),
    {
        let at = (addr - self.base) as usize;
        self.bytes[at] = (value % 0x100) as u8;
        self.bytes[at + 1] = ((value / 0x100) % 0x100) as u8;
        self.bytes[at + 2] = ((value / 0x1_0000) % 0x100) as u8;
        self.bytes[at + 3] = (value / 0x100_0000) as u8;
        proof {
            assert(self.bytes@ =~= splice(
                old(self)@,
                addr - old(self).spec_base(),
                le32_bytes(value),
            ));
        }
    }
}

} // verus!
