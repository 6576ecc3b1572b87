//! Two-level page-table builder.
//!
//! The structure kept here is the software view of the table: a 1024-slot
//! directory whose occupied slots name second-level tables held in an arena,
//! each with 1024 leaf entries. Second-level tables are allocated on demand,
//! zero-filled, the first time a mapping lands in their directory slot.
//! Translating an arena handle into the literal physical address of the page
//! holding that table is the hand-off step, done by the embedding once the
//! physical placement of the arena is known; nothing below depends on it.

use vstd::prelude::*;

verus! {

/// One leaf entry: a 4 KiB-aligned physical address packed with the
/// present (bit 0), read/write (bit 1) and user (bit 2) flags.
#[derive(Clone, Copy)]
pub struct PageTableEntry(u32);

/// The packed form of a leaf entry: the address with its low 12 bits
/// replaced by the three flag bits.
pub open spec fn entry_bits(address: u32, present: bool, read_write: bool, user: bool) -> u32 {
    (address & 0xFFFF_F000) | (if present {
        1u32
    } else {
        0u32
    }) | (if read_write {
        2u32
    } else {
        0u32
    }) | (if user {
        4u32
    } else {
        0u32
    })
}

/// Whether the packed entry has its present bit set.
pub open spec fn spec_present(e: u32) -> bool {
    e & 1 == 1
}

/// Whether the packed entry has its read/write bit set.
pub open spec fn spec_read_write(e: u32) -> bool {
    e & 2 == 2
}

/// Whether the packed entry has its user bit set.
pub open spec fn spec_user(e: u32) -> bool {
    e & 4 == 4
}

/// The page address held by the packed entry, flag bits masked off.
pub open spec fn spec_address(e: u32) -> u32 {
    e & 0xFFFF_F000
}

impl PageTableEntry {
    /// The raw packed bits of this entry.
    pub closed spec fn bits(self) -> u32 {
        self.0
    }

    pub fn present(&self) -> (r: bool)
        ensures
            r == spec_present(self.bits()),
    {
        self.0 & 1 == 1
    }

    pub fn read_write(&self) -> (r: bool)
        ensures
            r == spec_read_write(self.bits()),
    {
        self.0 & 2 == 2
    }

    pub fn user(&self) -> (r: bool)
        ensures
            r == spec_user(self.bits()),
    {
        self.0 & 4 == 4
    }

    pub fn address(&mut self) -> (r: u32)
        ensures
            *final(self) == *old(self),
            r == spec_address(old(self).bits()),
    {
        proof {
            let x = self.0;
            assert(x & !0xFFFu32 == x & 0xFFFF_F000u32) by (bit_vector);
        }
        self.0 & !0xFFF
    }

    pub fn new(address: u32, present: bool, read_write: bool, user: bool) -> (r: Self)
        ensures
            r.bits() == entry_bits(address, present, read_write, user),
    {
        let mut data: u32 = address & !0xFFF;
        if present {
            data |= 1;
        }
        if read_write {
            data |= 2;
        }
        if user {
            data |= 4;
        }
        proof {
            assert(data == entry_bits(address, present, read_write, user)) by (bit_vector)
                requires
                    data == ({
                        let base = address & !0xFFFu32;
                        let b1 = if present {
                            base | 1
                        } else {
                            base
                        };
                        let b2 = if read_write {
                            b1 | 2
                        } else {
                            b1
                        };
                        if user {
                            b2 | 4
                        } else {
                            b2
                        }
                    }),
            ;
        }
        Self(data)
    }
}

/// The directory slot a 32-bit virtual address selects: its top ten bits.
pub open spec fn dir_index(virtual_address: u32) -> int {
    (virtual_address >> 22) as int
}

/// The second-level slot a 32-bit virtual address selects: bits 21 down to 12.
pub open spec fn table_index(virtual_address: u32) -> int {
    ((virtual_address >> 12) & 0x3FF) as int
}

/// The abstract content of a page table: for each occupied directory slot,
/// the 1024 packed leaf entries of its second-level table.
pub open spec fn view_wf(m: Map<int, Seq<u32>>) -> bool {
    forall|d: int| #[trigger] m.dom().contains(d) ==> 0 <= d < 1024 && m[d].len() == 1024
}

/// The packed leaf entry the table resolves (d, t) to: slots of absent
/// second-level tables read as zero, exactly as the hardware walk would
/// refuse them through a non-present directory entry.
pub open spec fn slot(m: Map<int, Seq<u32>>, d: int, t: int) -> u32 {
    if m.dom().contains(d) {
        m[d][t]
    } else {
        0
    }
}

/// The abstract effect of installing packed entry `e` at (d, t): the
/// second-level table for `d` (fresh and zero-filled if the slot was empty)
/// with its entry `t` overwritten, unconditionally.
pub open spec fn table_insert(m: Map<int, Seq<u32>>, d: int, t: int, e: u32) -> Map<int, Seq<u32>> {
    let tbl = if m.dom().contains(d) {
        m[d]
    } else {
        Seq::new(1024, |i: int| 0u32)
    };
    m.insert(d, tbl.update(t, e))
}

/// The two-level page table under construction: a fixed 1024-slot directory
/// and the arena of lazily allocated second-level tables.
pub struct PageTable {
    directory: Vec<Option<usize>>,
    tables: Vec<Vec<PageTableEntry>>,
}

impl PageTable {
    /// The packed leaf entries per occupied directory slot.
    pub closed spec fn view(&self) -> Map<int, Seq<u32>> {
        Map::new(
            |d: int| 0 <= d < 1024 && self.directory@[d] is Some,
            |d: int|
                Seq::new(
                    1024,
                    |t: int| self.tables@[self.directory@[d]->Some_0 as int]@[t].bits(),
                ),
        )
    }

    /// Internal soundness of the representation: a full directory, every
    /// handle naming a distinct arena table of 1024 entries.
    pub closed spec fn wf(&self) -> bool {
        &&& self.directory@.len() == 1024
        &&& forall|d: int|
            0 <= d < 1024 && self.directory@[d] is Some ==> (#[trigger] self.directory@[d])->Some_0
                < self.tables@.len()
        &&& forall|i: int|
            0 <= i < self.tables@.len() ==> (#[trigger] self.tables@[i])@.len() == 1024
        &&& forall|d1: int, d2: int|
            0 <= d1 < 1024 && 0 <= d2 < 1024 && d1 != d2 && self.directory@[d1] is Some
                && (#[trigger] self.directory@[d1])->Some_0 == (
            #[trigger] self.directory@[d2])->Some_0 ==> self.directory@[d2] is None
    }

    /// A well-formed table's abstract content is itself well-formed, so
    /// the mapping laws below apply to it.
    pub proof fn lemma_wf_view(&self)
        requires
            self.wf(),
        ensures
            view_wf(self@),
    {
        assert forall|d: int| #[trigger] self@.dom().contains(d) implies 0 <= d < 1024
            && self@[d].len() == 1024 by {}
    }

    /// A table with no mapping installed: every directory slot empty.
    pub fn new() -> (r: PageTable)
        ensures
            r.wf(),
            r@ == Map::<int, Seq<u32>>::empty(),
    {
        let directory: Vec<Option<usize>> = vec![None; 1024];
        let r = PageTable { directory, tables: Vec::new() };
        proof {
            assert(r@ =~= Map::<int, Seq<u32>>::empty());
        }
        r
    }

    /// Number of second-level tables allocated so far.
    pub fn table_count(&self) -> (r: usize)
        ensures
            r == self.arena_len(),
    {
        self.tables.len()
    }

    /// The arena size, for the embedding's hand-off arithmetic.
    pub closed spec fn arena_len(&self) -> int {
        self.tables@.len() as int
    }

    /// The leaf entry the table resolves `virtual_address` to, or nothing
    /// when no second-level table backs its directory slot yet (which the
    /// hardware walk would refuse just like a zero entry).
    pub fn lookup(&self, virtual_address: u32) -> (r: Option<PageTableEntry>)
        requires
            self.wf(),
        ensures
            ({
                let d = dir_index(virtual_address);
                let t = table_index(virtual_address);
                if self@.dom().contains(d) {
                    r is Some && r->0.bits() == slot(self@, d, t)
                } else {
                    r is None
                }
            }),
    {
        let top: usize = (virtual_address >> 22) as usize;
        proof {
            assert(virtual_address >> 22 < 1024) by (bit_vector);
        }
        match self.directory[top] {
            None => None,
            Some(handle) => {
                let mid: usize = ((virtual_address >> 12) & 0x3FF) as usize;
                proof {
                    assert((virtual_address >> 12) & 0x3FF < 1024) by (bit_vector);
                }
                Some(self.tables[handle][mid])
            },
        }
    }

    /// Install the mapping `virtual_address` -> `physical_address` with the
    /// given flag bits, allocating the second-level table if the directory
    /// slot is still empty, and overwriting whatever mapping was there.
    pub fn map_address(
        &mut self,
        physical_address: u32,
        virtual_address: u32,
        present: bool,
        read_write: bool,
        user: bool,
    )
        requires
            old(self).wf(),
        ensures
            final(self).wf(),
            final(self)@ == table_insert(
                old(self)@,
                dir_index(virtual_address),
                table_index(virtual_address),
                entry_bits(physical_address, present, read_write, user),
            ),
    {
        let top: usize = (virtual_address >> 22) as usize;
        proof {
            assert(virtual_address >> 22 < 1024) by (bit_vector);
        }
        if self.directory[top].is_none() {
            let handle: usize = self.tables.len();
            let fresh: Vec<PageTableEntry> = vec![PageTableEntry::new(0, false, false, false); 1024];
            proof {
                assert(entry_bits(0, false, false, false) == 0u32) by (bit_vector);
            }
            self.tables.push(fresh);
            self.directory[top] = Some(handle);
        }
        let handle: usize = self.directory[top].unwrap();
        self.map_address_1(handle, physical_address, virtual_address, present, read_write, user);
        proof {
            assert(self@ =~~= table_insert(
                old(self)@,
                dir_index(virtual_address),
                table_index(virtual_address),
                entry_bits(physical_address, present, read_write, user),
            ));
        }
    }

    /// Write the leaf entry into second-level table `handle` at the slot the
    /// middle ten address bits select.
    fn map_address_1(
        &mut self,
        handle: usize,
        physical_address: u32,
        virtual_address: u32,
        present: bool,
        read_write: bool,
        user: bool,
    )
        requires
            handle < old(self).tables@.len(),
            old(self).tables@[handle as int]@.len() == 1024,
        ensures
            0 <= table_index(virtual_address) < 1024,
            final(self).directory == old(self).directory,
            final(self).tables@.len() == old(self).tables@.len(),
            forall|i: int|
                0 <= i < old(self).tables@.len() && i != handle ==> final(self).tables@[i] == old(
                    self,
                ).tables@[i],
            final(self).tables@[handle as int]@ == old(self).tables@[handle as int]@.update(
                table_index(virtual_address),
                final(self).tables@[handle as int]@[table_index(virtual_address)],
            ),
            final(self).tables@[handle as int]@[table_index(virtual_address)].bits() == entry_bits(
                physical_address,
                present,
                read_write,
                user,
            ),
    {
        let middle: usize = ((virtual_address >> 12) & 0x3FF) as usize;
        proof {
            assert((virtual_address >> 12) & 0x3FF < 1024) by (bit_vector);
        }
        let entry = PageTableEntry::new(physical_address, present, read_write, user);
        let tbl: &mut Vec<PageTableEntry> = &mut self.tables[handle];
        tbl[middle] = entry;
    }
}


/// Law: installing a mapping makes the slot that the virtual address's
/// directory and table indices select resolve to exactly the new entry:
/// for a page-aligned physical address, its page with the present,
/// read/write and user bits exactly as requested. Every other slot of the
/// table keeps its old packed entry.
pub proof fn lemma_mapping_installed(
    m: Map<int, Seq<u32>>,
    physical_address: u32,
    virtual_address: u32,
    present: bool,
    read_write: bool,
    user: bool,
)
    requires
        view_wf(m),
        physical_address % 4096 == 0,
    ensures
        ({
            let e = entry_bits(physical_address, present, read_write, user);
            let m2 = table_insert(m, dir_index(virtual_address), table_index(virtual_address), e);
            &&& slot(m2, dir_index(virtual_address), table_index(virtual_address)) == e
            &&& spec_present(e) == present
            &&& spec_read_write(e) == read_write
            &&& spec_user(e) == user
            &&& spec_address(e) == physical_address
            &&& view_wf(m2)
            &&& forall|d: int, t: int|
                0 <= t < 1024 && !(d == dir_index(virtual_address) && t == table_index(
                    virtual_address,
                )) ==> slot(m2, d, t) == slot(m, d, t)
        }),
{
    let pa = physical_address;
    let va = virtual_address;
    assert(spec_present(entry_bits(pa, present, read_write, user)) == present) by (bit_vector);
    assert(spec_read_write(entry_bits(pa, present, read_write, user)) == read_write)
        by (bit_vector);
    assert(spec_user(entry_bits(pa, present, read_write, user)) == user) by (bit_vector);
    assert(spec_address(entry_bits(pa, present, read_write, user)) == pa) by (bit_vector)
        requires
            pa % 4096 == 0,
    ;
    assert(0 <= (va >> 22) < 1024) by (bit_vector);
    assert(0 <= (va >> 12) & 0x3FF < 1024) by (bit_vector);
    let e = entry_bits(pa, present, read_write, user);
    let di = dir_index(va);
    let ti = table_index(va);
    let m2 = table_insert(m, di, ti, e);
    let tbl = if m.dom().contains(di) {
        m[di]
    } else {
        Seq::new(1024, |i: int| 0u32)
    };
    assert(tbl.len() == 1024);
    assert(slot(m2, di, ti) == e);
    assert forall|d: int, t: int| 0 <= t < 1024 && !(d == di && t == ti) implies slot(m2, d, t)
        == slot(m, d, t) by {
        if d == di {
            assert(m2[d] == tbl.update(ti, e));
            assert(tbl.update(ti, e)[t] == tbl[t]);
        }
    }
    assert(view_wf(m2)) by {
        assert forall|d: int| m2.dom().contains(d) implies 0 <= d < 1024 && (
        #[trigger] m2[d]).len() == 1024 by {
            if d != di {
                assert(m.dom().contains(d));
                assert(m2[d] == m[d]);
                assert(m[d].len() == 1024);
            }
        }
    }
}

/// Law: of two installs at the same virtual address, the later wins: the
/// slot reads back the second entry, whatever the first wrote, and no
/// other slot is touched by either.
pub proof fn lemma_mapping_overwritten(
    m: Map<int, Seq<u32>>,
    virtual_address: u32,
    e1: u32,
    e2: u32,
)
    requires
        view_wf(m),
    ensures
        ({
            let d = dir_index(virtual_address);
            let t = table_index(virtual_address);
            let m2 = table_insert(table_insert(m, d, t, e1), d, t, e2);
            &&& slot(m2, d, t) == e2
            &&& forall|d2: int, t2: int|
                0 <= t2 < 1024 && !(d2 == d && t2 == t) ==> slot(m2, d2, t2) == slot(m, d2, t2)
        }),
{
    let va = virtual_address;
    assert(0 <= (va >> 22) < 1024) by (bit_vector);
    assert(0 <= (va >> 12) & 0x3FF < 1024) by (bit_vector);
}

} // verus!
