//! The sparse address space: directory -> table -> page, with lazy allocation.

use vstd::prelude::*;

verus! {

/// Directory index of an address: bits 31-22.
pub open spec fn dir_index(addr: u32) -> u32 {
    (addr >> 22) & 0x3ff
}

/// Table index of an address: bits 21-12.
pub open spec fn table_index(addr: u32) -> u32 {
    (addr >> 12) & 0x3ff
}

/// Page offset of an address: bits 11-0.
pub open spec fn page_offset(addr: u32) -> u32 {
    addr & 0xfff
}

/// The three index fields always stay inside their level's bounds.
pub proof fn lemma_index_bounds(addr: u32)
    by (bit_vector)
    ensures
        dir_index(addr) < 0x400,
        table_index(addr) < 0x400,
        page_offset(addr) < 0x1000,
{
}

/// The 10 + 10 + 12 bit partition is exact: recomposing the three index
/// fields of an address gives the address back.
pub proof fn lemma_addr_recompose(addr: u32)
    by (bit_vector)
    ensures
        (dir_index(addr) << 22) | (table_index(addr) << 12) | page_offset(addr) == addr,
{
}

/// Two addresses with the same directory index, table index and page offset
/// are the same address.
pub proof fn lemma_addr_index_injective(a: u32, b: u32)
    ensures
        (dir_index(a) == dir_index(b) && table_index(a) == table_index(b)
            && page_offset(a) == page_offset(b)) ==> a == b,
{
    lemma_addr_recompose(a);
    lemma_addr_recompose(b);
}

/// Composing in-range index fields decomposes back to those fields.
pub proof fn lemma_compose_decompose(i: u32, j: u32, k: u32)
    by (bit_vector)
    requires
        i < 0x400,
        j < 0x400,
        k < 0x1000,
    ensures
        dir_index((i << 22) | (j << 12) | k) == i,
        table_index((i << 22) | (j << 12) | k) == j,
        page_offset((i << 22) | (j << 12) | k) == k,
{
}

/// An address whose index triple is lexicographically below (i, j, k) is
/// numerically below the address composed from (i, j, k).
pub proof fn lemma_compose_order(a: u32, i: u32, j: u32, k: u32)
    by (bit_vector)
    requires
        i < 0x400,
        j < 0x400,
        k < 0x1000,
    ensures
        (dir_index(a) < i
            || (dir_index(a) == i && table_index(a) < j)
            || (dir_index(a) == i && table_index(a) == j && page_offset(a) < k))
            ==> a < ((i << 22) | (j << 12) | k),
{
}

/// Little-endian composition of two bytes.
pub open spec fn le_u16(b0: u8, b1: u8) -> u16 {
    (b0 + b1 * 0x100) as u16
}

/// Little-endian composition of four bytes.
pub open spec fn le_u32(b0: u8, b1: u8, b2: u8, b3: u8) -> u32 {
    (b0 + b1 * 0x100 + b2 * 0x10000 + b3 * 0x1000000) as u32
}

/// Little-endian composition of eight bytes.
pub open spec fn le_u64(b0: u8, b1: u8, b2: u8, b3: u8, b4: u8, b5: u8, b6: u8, b7: u8) -> u64 {
    (b0 + b1 * 0x100 + b2 * 0x10000 + b3 * 0x1000000 + b4 * 0x100000000 + b5 * 0x10000000000
        + b6 * 0x1000000000000 + b7 * 0x100000000000000) as u64
}

/// Advisory outcome of `add_page`: whether a page had to be created.
#[derive(Clone, Copy, Debug, PartialEq, Eq, Structural)]
pub enum MappingOutcome {
    /// A new zero-filled page now covers the address.
    Created,
    /// The page already existed; nothing was changed.
    AlreadyMapped,
}

/// A recoverable fault: the named address has no page on its path.
#[derive(Clone, Copy, Debug, PartialEq, Eq, Structural)]
pub struct MissingMapping(pub u32);

/// A recoverable fault of a block copy, naming the side and first address
/// whose mapping is missing.
#[derive(Clone, Copy, Debug, PartialEq, Eq, Structural)]
pub enum CopyFault {
    SourceUnmapped(u32),
    DestinationUnmapped(u32),
}

/// A sparse 32-bit address space: 1024 directory slots, each holding up to
/// 1024 table slots, each holding up to one 4096-byte page.
pub struct MemoryManager {
    memory: Vec<Option<Vec<Option<Vec<u8>>>>>,
}

/// A table slot is either empty or a full 4096-byte page.
spec fn page_wf(p: Option<Vec<u8>>) -> bool {
    p is Some ==> p->0@.len() == 0x1000
}

/// A directory slot is either empty or 1024 well-formed table slots.
spec fn dir_wf(d: Option<Vec<Option<Vec<u8>>>>) -> bool {
    d is Some ==> {
        &&& d->0@.len() == 0x400
        &&& forall|j: int| 0 <= j < 0x400 ==> page_wf(#[trigger] d->0@[j])
    }
}

impl MemoryManager {
    /// Structural invariant: exactly 1024 directory slots, each well formed.
    pub closed spec fn wf(self) -> bool {
        &&& self.memory@.len() == 0x400
        &&& forall|i: int| 0 <= i < 0x400 ==> dir_wf(#[trigger] self.memory@[i])
    }

    /// An address is mapped iff the directory slot and table slot on its
    /// path both exist.
    pub closed spec fn spec_mapped(self, addr: u32) -> bool {
        &&& self.memory@[dir_index(addr) as int] is Some
        &&& self.memory@[dir_index(addr) as int]->0@[table_index(addr) as int] is Some
    }

    /// The byte a mapped address holds.
    pub closed spec fn spec_byte(self, addr: u32) -> u8 {
        self.memory@[dir_index(addr) as int]->0@[table_index(addr) as int]->0@[page_offset(addr) as int]
    }

    /// The first unmapped address among `addr .. addr + n`, scanned in
    /// ascending order, or `None` when the whole range is mapped.
    pub open spec fn first_fault(self, addr: u32, n: u32) -> Option<u32>
        decreases n,
    {
        if n == 0 {
            None
        } else if !self.spec_mapped(addr) {
            Some(addr)
        } else {
            self.first_fault((addr + 1) as u32, (n - 1) as u32)
        }
    }

    /// Creates an address space with all directory slots empty: no address
    /// is mapped.
    pub fn new() -> (r: Self)
        ensures
            r.wf(),
            forall|a: u32| !r.spec_mapped(a),
    {
        let mut memory: Vec<Option<Vec<Option<Vec<u8>>>>> = Vec::new();
        let mut n: usize = 0;
        while n < 0x400
            invariant
                n <= 0x400,
                memory@.len() == n,
                forall|i: int| 0 <= i < n ==> memory@[i] is None,
            decreases 0x400 - n,
        {
            memory.push(None);
            n = n + 1;
        }
        let r = Self { memory };
        proof {
            assert forall|a: u32| !r.spec_mapped(a) by {
                lemma_index_bounds(a);
            }
        }
        r
    }

    /// Directory index (bits 31-22) of an address.
    pub fn get_first_entry_id(addr: u32) -> (r: u32)
        ensures
            r == dir_index(addr),
    {
        (addr >> 22) & 0x3ff
    }

    /// Table index (bits 21-12) of an address.
    pub fn get_second_entry_id(addr: u32) -> (r: u32)
        ensures
            r == table_index(addr),
    {
        (addr >> 12) & 0x3ff
    }

    /// Page offset (bits 11-0) of an address.
    pub fn get_page_offset(addr: u32) -> (r: u32)
        ensures
            r == page_offset(addr),
    {
        addr & 0xfff
    }

    /// True iff the full directory -> table -> page path for `addr` exists.
    /// Never mutates.
    pub fn is_addr_exist(&self, addr: u32) -> (r: bool)
        requires
            self.wf(),
        ensures
            r == self.spec_mapped(addr),
    {
        proof {
            lemma_index_bounds(addr);
        }
        let i = Self::get_first_entry_id(addr) as usize;
        let j = Self::get_second_entry_id(addr) as usize;
        match &self.memory[i] {
            Some(dir) => dir[j].is_some(),
            None => false,
        }
    }

    /// Pure mapping predicate, a synonym of `is_addr_exist`.
    pub fn is_page_exist(&self, addr: u32) -> (r: bool)
        requires
            self.wf(),
        ensures
            r == self.spec_mapped(addr),
    {
        self.is_addr_exist(addr)
    }

    /// A fresh directory slot: 1024 empty table slots.
    fn new_table() -> (r: Vec<Option<Vec<u8>>>)
        ensures
            r@.len() == 0x400,
            forall|j: int| 0 <= j < 0x400 ==> r@[j] is None,
    {
        let mut table: Vec<Option<Vec<u8>>> = Vec::new();
        let mut n: usize = 0;
        while n < 0x400
            invariant
                n <= 0x400,
                table@.len() == n,
                forall|j: int| 0 <= j < n ==> table@[j] is None,
            decreases 0x400 - n,
        {
            table.push(None);
            n = n + 1;
        }
        table
    }

    /// A fresh zero-filled 4096-byte page.
    fn new_page() -> (r: Vec<u8>)
        ensures
            r@.len() == 0x1000,
            forall|k: int| 0 <= k < 0x1000 ==> r@[k] == 0,
    {
        let mut page: Vec<u8> = Vec::new();
        let mut n: usize = 0;
        while n < 0x1000
            invariant
                n <= 0x1000,
                page@.len() == n,
                forall|k: int| 0 <= k < n ==> page@[k] == 0,
            decreases 0x1000 - n,
        {
            page.push(0);
            n = n + 1;
        }
        page
    }

    /// Guarantees that a page covering `addr` exists afterwards, creating
    /// the directory slot and a zero-filled page on demand.  Idempotent: on
    /// an already mapped address nothing is changed and the advisory
    /// `AlreadyMapped` outcome is returned.
    pub fn add_page(&mut self, addr: u32) -> (r: MappingOutcome)
        requires
            old(self).wf(),
        ensures
            final(self).wf(),
            final(self).spec_mapped(addr),
            (r == MappingOutcome::AlreadyMapped) == old(self).spec_mapped(addr),
            old(self).spec_mapped(addr) ==> *final(self) == *old(self),
            forall|a: u32|
                #[trigger] final(self).spec_mapped(a) == (old(self).spec_mapped(a)
                    || (dir_index(a) == dir_index(addr) && table_index(a) == table_index(addr))),
            forall|a: u32|
                old(self).spec_mapped(a) ==> #[trigger] final(self).spec_byte(a) == old(
                    self,
                ).spec_byte(a),
            forall|a: u32|
                !old(self).spec_mapped(a) && #[trigger] final(self).spec_mapped(a)
                    ==> final(self).spec_byte(a) == 0,
    {
        proof {
            lemma_index_bounds(addr);
        }
        if self.is_addr_exist(addr) {
            return MappingOutcome::AlreadyMapped;
        }
        let i = Self::get_first_entry_id(addr) as usize;
        let j = Self::get_second_entry_id(addr) as usize;
        if self.memory[i].is_none() {
            self.memory[i] = Some(Self::new_table());
        }
        match &mut self.memory[i] {
            Some(dir) => {
                dir[j] = Some(Self::new_page());
            },
            None => {
                proof {
                    assert(false);
                }
            },
        }
        proof {
            assert forall|a: u32|
                self.spec_mapped(a) == (old(self).spec_mapped(a)
                    || (dir_index(a) == dir_index(addr)
                        && table_index(a) == table_index(addr))) by {
                lemma_index_bounds(a);
            }
            assert forall|a: u32| old(self).spec_mapped(a)
                implies self.spec_byte(a) == old(self).spec_byte(a) by {
                lemma_index_bounds(a);
            }
            assert forall|a: u32| !old(self).spec_mapped(a) && self.spec_mapped(a)
                implies self.spec_byte(a) == 0 by {
                lemma_index_bounds(a);
            }
        }
        MappingOutcome::Created
    }

    /// The byte at a mapped address.
    fn read_mapped_byte(&self, addr: u32) -> (r: u8)
        requires
            self.wf(),
            self.spec_mapped(addr),
        ensures
            r == self.spec_byte(addr),
    {
        proof {
            lemma_index_bounds(addr);
        }
        let i = Self::get_first_entry_id(addr) as usize;
        let j = Self::get_second_entry_id(addr) as usize;
        let k = Self::get_page_offset(addr) as usize;
        match &self.memory[i] {
            Some(dir) => match &dir[j] {
                Some(page) => page[k],
                None => 0,
            },
            None => 0,
        }
    }

    /// Stores a byte at a mapped address; every other byte and the set of
    /// mapped addresses stay as they were.
    fn write_mapped_byte(&mut self, addr: u32, val: u8)
        requires
            old(self).wf(),
            old(self).spec_mapped(addr),
        ensures
            final(self).wf(),
            final(self).spec_byte(addr) == val,
            forall|a: u32| #[trigger] final(self).spec_mapped(a) == old(self).spec_mapped(a),
            forall|a: u32|
                a != addr && old(self).spec_mapped(a)
                    ==> #[trigger] final(self).spec_byte(a) == old(self).spec_byte(a),
    {
        proof {
            lemma_index_bounds(addr);
        }
        let i = Self::get_first_entry_id(addr) as usize;
        let j = Self::get_second_entry_id(addr) as usize;
        let k = Self::get_page_offset(addr) as usize;
        match &mut self.memory[i] {
            Some(dir) => match &mut dir[j] {
                Some(page) => {
                    page[k] = val;
                },
                None => {
                    proof {
                        assert(false);
                    }
                },
            },
            None => {
                proof {
                    assert(false);
                }
            },
        }
        proof {
            assert forall|a: u32| self.spec_mapped(a) == old(self).spec_mapped(a) by {
                lemma_index_bounds(a);
            }
            assert forall|a: u32| a != addr && old(self).spec_mapped(a)
                implies self.spec_byte(a) == old(self).spec_byte(a) by {
                lemma_index_bounds(a);
                lemma_addr_index_injective(a, addr);
            }
        }
    }

    /// Reads the byte at `addr`, or reports the missing mapping.  Never
    /// mutates.
    pub fn get_byte(&self, addr: u32) -> (r: Result<u8, MissingMapping>)
        requires
            self.wf(),
        ensures
            self.spec_mapped(addr) ==> r == Ok::<u8, MissingMapping>(self.spec_byte(addr)),
            !self.spec_mapped(addr) ==> r == Err::<u8, MissingMapping>(MissingMapping(addr)),
    {
        if self.is_addr_exist(addr) {
            Ok(self.read_mapped_byte(addr))
        } else {
            Err(MissingMapping(addr))
        }
    }

    /// Writes `val` at `addr` if mapped; on an unmapped address it fails
    /// and leaves the memory unchanged.
    pub fn set_byte(&mut self, addr: u32, val: u8) -> (r: Result<(), MissingMapping>)
        requires
            old(self).wf(),
        ensures
            final(self).wf(),
            old(self).spec_mapped(addr) ==> {
                &&& r == Ok::<(), MissingMapping>(())
                &&& final(self).spec_byte(addr) == val
                &&& forall|a: u32| #[trigger] final(self).spec_mapped(a) == old(self).spec_mapped(a)
                &&& forall|a: u32|
                    a != addr && old(self).spec_mapped(a)
                        ==> #[trigger] final(self).spec_byte(a) == old(self).spec_byte(a)
            },
            !old(self).spec_mapped(addr) ==> {
                &&& r == Err::<(), MissingMapping>(MissingMapping(addr))
                &&& *final(self) == *old(self)
            },
    {
        if self.is_addr_exist(addr) {
            self.write_mapped_byte(addr, val);
            Ok(())
        } else {
            Err(MissingMapping(addr))
        }
    }

    /// What a 2-byte read returns: the little-endian composition when the
    /// whole range is mapped, else the first missing address.
    pub open spec fn spec_read_short(self, addr: u32) -> Result<u16, MissingMapping> {
        match self.first_fault(addr, 2) {
            Some(a) => Err(MissingMapping(a)),
            None => Ok(le_u16(self.spec_byte(addr), self.spec_byte((addr + 1) as u32))),
        }
    }

    /// What a 4-byte read returns.
    pub open spec fn spec_read_int(self, addr: u32) -> Result<u32, MissingMapping> {
        match self.first_fault(addr, 4) {
            Some(a) => Err(MissingMapping(a)),
            None => Ok(
                le_u32(
                    self.spec_byte(addr),
                    self.spec_byte((addr + 1) as u32),
                    self.spec_byte((addr + 2) as u32),
                    self.spec_byte((addr + 3) as u32),
                ),
            ),
        }
    }

    /// What an 8-byte read returns.
    pub open spec fn spec_read_long(self, addr: u32) -> Result<u64, MissingMapping> {
        match self.first_fault(addr, 8) {
            Some(a) => Err(MissingMapping(a)),
            None => Ok(
                le_u64(
                    self.spec_byte(addr),
                    self.spec_byte((addr + 1) as u32),
                    self.spec_byte((addr + 2) as u32),
                    self.spec_byte((addr + 3) as u32),
                    self.spec_byte((addr + 4) as u32),
                    self.spec_byte((addr + 5) as u32),
                    self.spec_byte((addr + 6) as u32),
                    self.spec_byte((addr + 7) as u32),
                ),
            ),
        }
    }

    /// Reads two consecutive bytes, composed little-endian.  All-or-nothing:
    /// on any missing byte the first unmapped address is reported and no
    /// partial value is produced.
    pub fn get_short(&self, addr: u32) -> (r: Result<u16, MissingMapping>)
        requires
            self.wf(),
            addr as int + 1 <= u32::MAX,
        ensures
            r == self.spec_read_short(addr),
    {
        proof {
            reveal_with_fuel(MemoryManager::first_fault, 3);
        }
        let b0 = match self.get_byte(addr) {
            Ok(b) => b,
            Err(e) => {
                return Err(e);
            },
        };
        let b1 = match self.get_byte(addr + 1) {
            Ok(b) => b,
            Err(e) => {
                return Err(e);
            },
        };
        Ok(b0 as u16 + (b1 as u16) * 0x100)
    }

    /// Reads four consecutive bytes, composed little-endian, all-or-nothing.
    pub fn get_int(&self, addr: u32) -> (r: Result<u32, MissingMapping>)
        requires
            self.wf(),
            addr as int + 3 <= u32::MAX,
        ensures
            r == self.spec_read_int(addr),
    {
        proof {
            reveal_with_fuel(MemoryManager::first_fault, 5);
        }
        let b0 = match self.get_byte(addr) {
            Ok(b) => b,
            Err(e) => {
                return Err(e);
            },
        };
        let b1 = match self.get_byte(addr + 1) {
            Ok(b) => b,
            Err(e) => {
                return Err(e);
            },
        };
        let b2 = match self.get_byte(addr + 2) {
            Ok(b) => b,
            Err(e) => {
                return Err(e);
            },
        };
        let b3 = match self.get_byte(addr + 3) {
            Ok(b) => b,
            Err(e) => {
                return Err(e);
            },
        };
        Ok(b0 as u32 + (b1 as u32) * 0x100 + (b2 as u32) * 0x10000 + (b3 as u32) * 0x1000000)
    }

    /// Reads eight consecutive bytes, composed little-endian, all-or-nothing.
    pub fn get_long(&self, addr: u32) -> (r: Result<u64, MissingMapping>)
        requires
            self.wf(),
            addr as int + 7 <= u32::MAX,
        ensures
            r == self.spec_read_long(addr),
    {
        proof {
            reveal_with_fuel(MemoryManager::first_fault, 9);
        }
        let b0 = match self.get_byte(addr) {
            Ok(b) => b,
            Err(e) => {
                return Err(e);
            },
        };
        let b1 = match self.get_byte(addr + 1) {
            Ok(b) => b,
            Err(e) => {
                return Err(e);
            },
        };
        let b2 = match self.get_byte(addr + 2) {
            Ok(b) => b,
            Err(e) => {
                return Err(e);
            },
        };
        let b3 = match self.get_byte(addr + 3) {
            Ok(b) => b,
            Err(e) => {
                return Err(e);
            },
        };
        let b4 = match self.get_byte(addr + 4) {
            Ok(b) => b,
            Err(e) => {
                return Err(e);
            },
        };
        let b5 = match self.get_byte(addr + 5) {
            Ok(b) => b,
            Err(e) => {
                return Err(e);
            },
        };
        let b6 = match self.get_byte(addr + 6) {
            Ok(b) => b,
            Err(e) => {
                return Err(e);
            },
        };
        let b7 = match self.get_byte(addr + 7) {
            Ok(b) => b,
            Err(e) => {
                return Err(e);
            },
        };
        Ok(
            b0 as u64 + (b1 as u64) * 0x100 + (b2 as u64) * 0x10000 + (b3 as u64) * 0x1000000 + (
            b4 as u64) * 0x100000000 + (b5 as u64) * 0x10000000000 + (b6 as u64) * 0x1000000000000
                + (b7 as u64) * 0x100000000000000,
        )
    }

    /// Writes a 16-bit value as two little-endian bytes.  Atomic: every
    /// target address is checked first; on any missing mapping the first
    /// unmapped address is reported and nothing is written.
    pub fn set_short(&mut self, addr: u32, val: u16) -> (r: Result<(), MissingMapping>)
        requires
            old(self).wf(),
            addr as int + 1 <= u32::MAX,
        ensures
            final(self).wf(),
            old(self).first_fault(addr, 2) matches Some(a) ==> {
                &&& r == Err::<(), MissingMapping>(MissingMapping(a))
                &&& *final(self) == *old(self)
            },
            old(self).first_fault(addr, 2) is None ==> {
                &&& r == Ok::<(), MissingMapping>(())
                &&& final(self).spec_byte(addr) == (val & 0xff) as u8
                &&& final(self).spec_byte((addr + 1) as u32) == ((val >> 8) & 0xff) as u8
                &&& forall|a: u32| final(self).spec_mapped(a) == old(self).spec_mapped(a)
                &&& forall|a: u32|
                    old(self).spec_mapped(a) && a != addr && a != (addr + 1) as u32
                        ==> final(self).spec_byte(a) == old(self).spec_byte(a)
            },
    {
        proof {
            reveal_with_fuel(MemoryManager::first_fault, 3);
            assert((val & 0xff) < 0x100 && ((val >> 8) & 0xff) < 0x100) by (bit_vector);
        }
        if !self.is_addr_exist(addr) {
            return Err(MissingMapping(addr));
        }
        if !self.is_addr_exist(addr + 1) {
            return Err(MissingMapping(addr + 1));
        }
        self.write_mapped_byte(addr, (val & 0xff) as u8);
        self.write_mapped_byte(addr + 1, ((val >> 8) & 0xff) as u8);
        Ok(())
    }

    /// Writes a 32-bit value as four little-endian bytes, atomically.
    pub fn set_int(&mut self, addr: u32, val: u32) -> (r: Result<(), MissingMapping>)
        requires
            old(self).wf(),
            addr as int + 3 <= u32::MAX,
        ensures
            final(self).wf(),
            old(self).first_fault(addr, 4) matches Some(a) ==> {
                &&& r == Err::<(), MissingMapping>(MissingMapping(a))
                &&& *final(self) == *old(self)
            },
            old(self).first_fault(addr, 4) is None ==> {
                &&& r == Ok::<(), MissingMapping>(())
                &&& final(self).spec_byte(addr) == (val & 0xff) as u8
                &&& final(self).spec_byte((addr + 1) as u32) == ((val >> 8) & 0xff) as u8
                &&& final(self).spec_byte((addr + 2) as u32) == ((val >> 16) & 0xff) as u8
                &&& final(self).spec_byte((addr + 3) as u32) == ((val >> 24) & 0xff) as u8
                &&& forall|a: u32| final(self).spec_mapped(a) == old(self).spec_mapped(a)
                &&& forall|a: u32|
                    old(self).spec_mapped(a) && a != addr && a != (addr + 1) as u32 && a != (addr
                        + 2) as u32 && a != (addr + 3) as u32
                        ==> final(self).spec_byte(a) == old(self).spec_byte(a)
            },
    {
        proof {
            reveal_with_fuel(MemoryManager::first_fault, 5);
            assert((val & 0xff) < 0x100 && ((val >> 8) & 0xff) < 0x100 && ((val >> 16) & 0xff)
                < 0x100 && ((val >> 24) & 0xff) < 0x100) by (bit_vector);
        }
        if !self.is_addr_exist(addr) {
            return Err(MissingMapping(addr));
        }
        if !self.is_addr_exist(addr + 1) {
            return Err(MissingMapping(addr + 1));
        }
        if !self.is_addr_exist(addr + 2) {
            return Err(MissingMapping(addr + 2));
        }
        if !self.is_addr_exist(addr + 3) {
            return Err(MissingMapping(addr + 3));
        }
        self.write_mapped_byte(addr, (val & 0xff) as u8);
        self.write_mapped_byte(addr + 1, ((val >> 8) & 0xff) as u8);
        self.write_mapped_byte(addr + 2, ((val >> 16) & 0xff) as u8);
        self.write_mapped_byte(addr + 3, ((val >> 24) & 0xff) as u8);
        Ok(())
    }

    /// Writes a 64-bit value as eight little-endian bytes, atomically.
    pub fn set_long(&mut self, addr: u32, val: u64) -> (r: Result<(), MissingMapping>)
        requires
            old(self).wf(),
            addr as int + 7 <= u32::MAX,
        ensures
            final(self).wf(),
            old(self).first_fault(addr, 8) matches Some(a) ==> {
                &&& r == Err::<(), MissingMapping>(MissingMapping(a))
                &&& *final(self) == *old(self)
            },
            old(self).first_fault(addr, 8) is None ==> {
                &&& r == Ok::<(), MissingMapping>(())
                &&& final(self).spec_byte(addr) == (val & 0xff) as u8
                &&& final(self).spec_byte((addr + 1) as u32) == ((val >> 8) & 0xff) as u8
                &&& final(self).spec_byte((addr + 2) as u32) == ((val >> 16) & 0xff) as u8
                &&& final(self).spec_byte((addr + 3) as u32) == ((val >> 24) & 0xff) as u8
                &&& final(self).spec_byte((addr + 4) as u32) == ((val >> 32) & 0xff) as u8
                &&& final(self).spec_byte((addr + 5) as u32) == ((val >> 40) & 0xff) as u8
                &&& final(self).spec_byte((addr + 6) as u32) == ((val >> 48) & 0xff) as u8
                &&& final(self).spec_byte((addr + 7) as u32) == ((val >> 56) & 0xff) as u8
                &&& forall|a: u32| final(self).spec_mapped(a) == old(self).spec_mapped(a)
                &&& forall|a: u32|
                    old(self).spec_mapped(a) && !(addr <= a < addr as int + 8)
                        ==> final(self).spec_byte(a) == old(self).spec_byte(a)
            },
    {
        proof {
            reveal_with_fuel(MemoryManager::first_fault, 9);
            assert((val & 0xff) < 0x100 && ((val >> 8) & 0xff) < 0x100 && ((val >> 16) & 0xff)
                < 0x100 && ((val >> 24) & 0xff) < 0x100 && ((val >> 32) & 0xff) < 0x100 && ((val
                >> 40) & 0xff) < 0x100 && ((val >> 48) & 0xff) < 0x100 && ((val >> 56) & 0xff)
                < 0x100) by (bit_vector);
        }
        if !self.is_addr_exist(addr) {
            return Err(MissingMapping(addr));
        }
        if !self.is_addr_exist(addr + 1) {
            return Err(MissingMapping(addr + 1));
        }
        if !self.is_addr_exist(addr + 2) {
            return Err(MissingMapping(addr + 2));
        }
        if !self.is_addr_exist(addr + 3) {
            return Err(MissingMapping(addr + 3));
        }
        if !self.is_addr_exist(addr + 4) {
            return Err(MissingMapping(addr + 4));
        }
        if !self.is_addr_exist(addr + 5) {
            return Err(MissingMapping(addr + 5));
        }
        if !self.is_addr_exist(addr + 6) {
            return Err(MissingMapping(addr + 6));
        }
        if !self.is_addr_exist(addr + 7) {
            return Err(MissingMapping(addr + 7));
        }
        self.write_mapped_byte(addr, (val & 0xff) as u8);
        self.write_mapped_byte(addr + 1, ((val >> 8) & 0xff) as u8);
        self.write_mapped_byte(addr + 2, ((val >> 16) & 0xff) as u8);
        self.write_mapped_byte(addr + 3, ((val >> 24) & 0xff) as u8);
        self.write_mapped_byte(addr + 4, ((val >> 32) & 0xff) as u8);
        self.write_mapped_byte(addr + 5, ((val >> 40) & 0xff) as u8);
        self.write_mapped_byte(addr + 6, ((val >> 48) & 0xff) as u8);
        self.write_mapped_byte(addr + 7, ((val >> 56) & 0xff) as u8);
        Ok(())
    }

    /// The first fault of a block copy, scanning offsets in ascending order
    /// and, at each offset, the source address before the destination.
    pub open spec fn spec_copy_fault(self, src: u32, dst: u32, len: nat) -> Option<CopyFault>
        decreases len,
    {
        if len == 0 {
            None
        } else if !self.spec_mapped(src) {
            Some(CopyFault::SourceUnmapped(src))
        } else if !self.spec_mapped(dst) {
            Some(CopyFault::DestinationUnmapped(dst))
        } else {
            self.spec_copy_fault((src + 1) as u32, (dst + 1) as u32, (len - 1) as nat)
        }
    }

    /// Copies `len` bytes from `src..` to `dst..`.  Every source and
    /// destination address is checked before anything is written; on a fault
    /// the memory is left completely unchanged.  On success the copy behaves
    /// as if staged through a temporary buffer, so overlapping ranges are
    /// handled correctly.
    pub fn copy_from(&mut self, src: u32, dst: u32, len: usize) -> (r: Result<(), CopyFault>)
        requires
            old(self).wf(),
            len == 0 || (src as int + len as int - 1 <= u32::MAX && dst as int + len as int - 1
                <= u32::MAX),
        ensures
            final(self).wf(),
            old(self).spec_copy_fault(src, dst, len as nat) matches Some(f) ==> {
                &&& r == Err::<(), CopyFault>(f)
                &&& *final(self) == *old(self)
            },
            old(self).spec_copy_fault(src, dst, len as nat) is None ==> {
                &&& r == Ok::<(), CopyFault>(())
                &&& forall|a: u32|
                    dst <= a < dst as int + len ==> #[trigger] final(self).spec_byte(a) == old(
                    self).spec_byte((src + (a - dst)) as u32)
                &&& forall|a: u32| final(self).spec_mapped(a) == old(self).spec_mapped(a)
                &&& forall|a: u32|
                    old(self).spec_mapped(a) && !(dst <= a < dst as int + len)
                        ==> final(self).spec_byte(a) == old(self).spec_byte(a)
            },
    {
        let mut i: usize = 0;
        while i < len
            invariant
                *self == *old(self),
                self.wf(),
                i <= len,
                len == 0 || (src as int + len as int - 1 <= u32::MAX && dst as int + len as int - 1
                    <= u32::MAX),
                forall|a: u32| src <= a < src as int + i ==> #[trigger] self.spec_mapped(a),
                forall|a: u32| dst <= a < dst as int + i ==> #[trigger] self.spec_mapped(a),
            decreases len - i,
        {
            if !self.is_addr_exist(src + i as u32) {
                proof {
                    lemma_copy_fault_skip(*self, src, dst, len as int, i as int);
                }
                return Err(CopyFault::SourceUnmapped(src + i as u32));
            }
            if !self.is_addr_exist(dst + i as u32) {
                proof {
                    lemma_copy_fault_skip(*self, src, dst, len as int, i as int);
                }
                return Err(CopyFault::DestinationUnmapped(dst + i as u32));
            }
            i = i + 1;
        }
        proof {
            lemma_copy_fault_skip(*self, src, dst, len as int, len as int);
        }
        let mut buf: Vec<u8> = Vec::new();
        let mut i: usize = 0;
        while i < len
            invariant
                *self == *old(self),
                self.wf(),
                i <= len,
                buf@.len() == i,
                len == 0 || (src as int + len as int - 1 <= u32::MAX && dst as int + len as int - 1
                    <= u32::MAX),
                forall|a: u32| src <= a < src as int + len ==> #[trigger] self.spec_mapped(a),
                forall|a: u32| dst <= a < dst as int + len ==> #[trigger] self.spec_mapped(a),
                forall|q: int| 0 <= q < i ==> #[trigger] buf@[q] == self.spec_byte((src + q) as u32),
            decreases len - i,
        {
            buf.push(self.read_mapped_byte(src + i as u32));
            i = i + 1;
        }
        let mut i: usize = 0;
        while i < len
            invariant
                self.wf(),
                i <= len,
                buf@.len() == len,
                len == 0 || (src as int + len as int - 1 <= u32::MAX && dst as int + len as int - 1
                    <= u32::MAX),
                forall|a: u32| src <= a < src as int + len ==> #[trigger] old(self).spec_mapped(a),
                forall|a: u32| dst <= a < dst as int + len ==> #[trigger] old(self).spec_mapped(a),
                forall|q: int|
                    0 <= q < len ==> #[trigger] buf@[q] == old(self).spec_byte((src + q) as u32),
                forall|a: u32| self.spec_mapped(a) == old(self).spec_mapped(a),
                forall|a: u32|
                    dst <= a < dst as int + i ==> #[trigger] self.spec_byte(a) == old(
                    self).spec_byte((src + (a - dst)) as u32),
                forall|a: u32|
                    old(self).spec_mapped(a) && !(dst <= a < dst as int + i)
                        ==> #[trigger] self.spec_byte(a) == old(self).spec_byte(a),
            decreases len - i,
        {
            let b = buf[i];
            proof {
                assert(buf@[i as int] == old(self).spec_byte((src + i) as u32));
            }
            self.write_mapped_byte(dst + i as u32, b);
            proof {
                assert forall|a: u32| dst <= a < dst as int + i + 1 implies #[trigger] self
                    .spec_byte(a) == old(self).spec_byte((src + (a - dst)) as u32) by {
                    if a == dst + i as u32 {
                        assert((src + (a - dst)) as u32 == (src + i) as u32);
                    }
                }
            }
            i = i + 1;
        }
        Ok(())
    }

    /// Every mapped byte, as an `(address, byte)` pair, in strictly
    /// ascending address order.  The result enumerates the mapped bytes
    /// exhaustively and never allocates page storage.
    pub fn dump_memory(&self) -> (r: Vec<(u32, u8)>)
        requires
            self.wf(),
        ensures
            forall|t: int|
                0 <= t < r@.len() ==> self.spec_mapped(#[trigger] r@[t].0) && r@[t].1
                    == self.spec_byte(r@[t].0),
            forall|t1: int, t2: int| 0 <= t1 < t2 < r@.len() ==> r@[t1].0 < r@[t2].0,
            forall|a: u32|
                self.spec_mapped(a) ==> exists|t: int| 0 <= t < r@.len() && (#[trigger] r@[t]).0 == a,
    {
        let mut r: Vec<(u32, u8)> = Vec::new();
        let mut i: usize = 0;
        while i < 0x400
            invariant
                self.wf(),
                i <= 0x400,
                forall|t: int|
                    0 <= t < r@.len() ==> self.spec_mapped(#[trigger] r@[t].0) && r@[t].1
                        == self.spec_byte(r@[t].0),
                forall|t1: int, t2: int| 0 <= t1 < t2 < r@.len() ==> r@[t1].0 < r@[t2].0,
                forall|t: int| 0 <= t < r@.len() ==> below_pos(#[trigger] r@[t].0, i as int, 0, 0),
                forall|a: u32|
                    below_pos(a, i as int, 0, 0) && #[trigger] self.spec_mapped(a)
                        ==> exists|t: int| 0 <= t < r@.len() && (#[trigger] r@[t]).0 == a,
            decreases 0x400 - i,
        {
            if self.memory[i].is_some() {
                let mut j: usize = 0;
                while j < 0x400
                    invariant
                        self.wf(),
                        i < 0x400,
                        j <= 0x400,
                        self.memory@[i as int] is Some,
                        forall|t: int|
                            0 <= t < r@.len() ==> self.spec_mapped(#[trigger] r@[t].0) && r@[t].1
                                == self.spec_byte(r@[t].0),
                        forall|t1: int, t2: int| 0 <= t1 < t2 < r@.len() ==> r@[t1].0 < r@[t2].0,
                        forall|t: int|
                            0 <= t < r@.len() ==> below_pos(#[trigger] r@[t].0, i as int, j as int, 0),
                        forall|a: u32|
                            below_pos(a, i as int, j as int, 0) && #[trigger] self.spec_mapped(a)
                                ==> exists|t: int|
                                0 <= t < r@.len() && (#[trigger] r@[t]).0 == a,
                    decreases 0x400 - j,
                {
                    let page_here = match &self.memory[i] {
                        Some(dir) => dir[j].is_some(),
                        None => false,
                    };
                    if page_here {
                        let mut k: usize = 0;
                        while k < 0x1000
                            invariant
                                self.wf(),
                                i < 0x400,
                                j < 0x400,
                                k <= 0x1000,
                                self.memory@[i as int] is Some,
                                self.memory@[i as int]->0@[j as int] is Some,
                                forall|t: int|
                                    0 <= t < r@.len() ==> self.spec_mapped(#[trigger] r@[t].0)
                                        && r@[t].1 == self.spec_byte(r@[t].0),
                                forall|t1: int, t2: int|
                                    0 <= t1 < t2 < r@.len() ==> r@[t1].0 < r@[t2].0,
                                forall|t: int|
                                    0 <= t < r@.len() ==> below_pos(
                                        #[trigger] r@[t].0,
                                        i as int,
                                        j as int,
                                        k as int,
                                    ),
                                forall|a: u32|
                                    below_pos(a, i as int, j as int, k as int)
                                        && #[trigger] self.spec_mapped(a) ==> exists|t: int|
                                        0 <= t < r@.len() && (#[trigger] r@[t]).0 == a,
                            decreases 0x1000 - k,
                        {
                            let addr = ((i as u32) << 22) | ((j as u32) << 12) | (k as u32);
                            proof {
                                lemma_compose_decompose(i as u32, j as u32, k as u32);
                            }
                            let b = self.read_mapped_byte(addr);
                            proof {
                                assert forall|t: int| 0 <= t < r@.len() implies r@[t].0 < addr by {
                                    lemma_compose_order(r@[t].0, i as u32, j as u32, k as u32);
                                }
                            }
                            let ghost r0 = r@;
                            r.push((addr, b));
                            proof {
                                assert forall|a: u32|
                                    below_pos(a, i as int, j as int, k as int + 1)
                                        && #[trigger] self.spec_mapped(a) implies exists|t: int|
                                    0 <= t < r@.len() && (#[trigger] r@[t]).0 == a by {
                                    if below_pos(a, i as int, j as int, k as int) {
                                        let t = choose|t: int|
                                            0 <= t < r0.len() && (#[trigger] r0[t]).0 == a;
                                        assert(r@[t] == r0[t]);
                                        assert(0 <= t < r@.len() && r@[t].0 == a);
                                    } else {
                                        lemma_addr_index_injective(a, addr);
                                        assert(r@[r@.len() - 1] == (addr, b));
                                        assert(r@[r@.len() - 1].0 == a);
                                    }
                                }
                            }
                            k = k + 1;
                        }
                        proof {
                            assert forall|a: u32| below_pos(a, i as int, j as int + 1, 0) implies
                                below_pos(a, i as int, j as int, 0x1000) by {
                                lemma_index_bounds(a);
                            }
                            assert forall|t: int| 0 <= t < r@.len() implies below_pos(
                                #[trigger] r@[t].0,
                                i as int,
                                j as int + 1,
                                0,
                            ) by {
                                lemma_index_bounds(r@[t].0);
                            }
                        }
                    } else {
                        proof {
                            assert forall|a: u32|
                                below_pos(a, i as int, j as int + 1, 0) && #[trigger] self
                                .spec_mapped(a) implies below_pos(a, i as int, j as int, 0) by {
                            }
                        }
                    }
                    j = j + 1;
                }
                proof {
                    assert forall|a: u32| below_pos(a, i as int + 1, 0, 0) implies below_pos(
                        a,
                        i as int,
                        0x400,
                        0,
                    ) by {
                        lemma_index_bounds(a);
                    }
                    assert forall|t: int| 0 <= t < r@.len() implies below_pos(
                        #[trigger] r@[t].0,
                        i as int + 1,
                        0,
                        0,
                    ) by {
                        lemma_index_bounds(r@[t].0);
                    }
                }
            } else {
                proof {
                    assert forall|a: u32|
                        below_pos(a, i as int + 1, 0, 0) && #[trigger] self.spec_mapped(a) implies
                        below_pos(a, i as int, 0, 0) by {
                    }
                }
            }
            i = i + 1;
        }
        proof {
            assert forall|a: u32| #[trigger] self.spec_mapped(a) implies below_pos(
                a,
                0x400,
                0,
                0,
            ) by {
                lemma_index_bounds(a);
            }
        }
        r
    }
}

/// Two addresses on the same page (equal directory and table indices) are
/// always equally mapped: pages are the unit of allocation.
pub proof fn lemma_same_page_mapped(m: MemoryManager, a: u32, b: u32)
    requires
        dir_index(a) == dir_index(b),
        table_index(a) == table_index(b),
    ensures
        m.spec_mapped(a) == m.spec_mapped(b),
{
}

/// Law: after a 32-bit little-endian write of `v` at `addr`, a 32-bit read
/// at `addr` returns `Ok(v)`: the four decomposed bytes compose back to the
/// written value.
pub proof fn lemma_u32_round_trip(m: MemoryManager, addr: u32, v: u32)
    requires
        addr as int + 3 <= u32::MAX,
        m.spec_mapped(addr),
        m.spec_mapped((addr + 1) as u32),
        m.spec_mapped((addr + 2) as u32),
        m.spec_mapped((addr + 3) as u32),
        m.spec_byte(addr) == (v & 0xff) as u8,
        m.spec_byte((addr + 1) as u32) == ((v >> 8) & 0xff) as u8,
        m.spec_byte((addr + 2) as u32) == ((v >> 16) & 0xff) as u8,
        m.spec_byte((addr + 3) as u32) == ((v >> 24) & 0xff) as u8,
    ensures
        m.spec_read_int(addr) == Ok::<u32, MissingMapping>(v),
{
    reveal_with_fuel(MemoryManager::first_fault, 5);
    assert(le_u32(
        (v & 0xff) as u8,
        ((v >> 8) & 0xff) as u8,
        ((v >> 16) & 0xff) as u8,
        ((v >> 24) & 0xff) as u8,
    ) == v) by (bit_vector);
}

/// The index triple of `a` is lexicographically below position (i, j, k) of
/// the directory walk.
spec fn below_pos(a: u32, i: int, j: int, k: int) -> bool {
    ||| dir_index(a) < i
    ||| (dir_index(a) == i && table_index(a) < j)
    ||| (dir_index(a) == i && table_index(a) == j && page_offset(a) < k)
}

/// Scanning a fully mapped prefix of length `i` does not change a block
/// Scanning a fully mapped prefix of length `i` does not change a block
/// copy's first fault: it lies at or beyond offset `i`.
proof fn lemma_copy_fault_skip(m: MemoryManager, src: u32, dst: u32, len: int, i: int)
    requires
        0 <= i <= len,
        len == 0 || (src as int + len - 1 <= u32::MAX && dst as int + len - 1 <= u32::MAX),
        forall|a: u32| src <= a < src as int + i ==> #[trigger] m.spec_mapped(a),
        forall|a: u32| dst <= a < dst as int + i ==> #[trigger] m.spec_mapped(a),
    ensures
        m.spec_copy_fault(src, dst, len as nat) == m.spec_copy_fault(
            (src + i) as u32,
            (dst + i) as u32,
            (len - i) as nat,
        ),
    decreases i,
{
    if i > 0 {
        assert(m.spec_mapped(src));
        assert(m.spec_mapped(dst));
        lemma_copy_fault_skip(m, (src + 1) as u32, (dst + 1) as u32, len - 1, i - 1);
        assert(((src + 1) as u32 + (i - 1)) as u32 == (src + i) as u32);
        assert(((dst + 1) as u32 + (i - 1)) as u32 == (dst + i) as u32);
    }
}

} // verus!

