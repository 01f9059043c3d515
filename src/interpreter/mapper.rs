use crate::common::{Error, ErrorKind, MAX_MEMORY_SIZE};
use std::collections::HashMap;
use vstd::prelude::*;

verus! {

broadcast use vstd::std_specs::hash::group_hash_axioms;

/// Granularity of the virtual address translation table, in bytes.
pub const VIRTUAL_PAGE_SIZE: u64 = 1024;

/// Where one page of virtual addresses leads: a block, and the page's offset in it.
#[derive(PartialEq, Eq, Structural, Clone, Copy, Debug)]
pub struct VirtualAddressMapping {
    pub block: u64,
    pub offset: u64,
}

/// A range of virtual addresses bound to one allocation.
#[derive(PartialEq, Eq, Structural, Clone, Copy, Debug)]
pub struct VirtualAddressBlock {
    pub id: u64,
    pub allocation: u64,
    pub base: u64,
    pub size: u64,
}

/// Number of pages mapped for a block of `size` bytes: one more than `size / page` (the
/// last one marks the end).
pub open spec fn page_count(size: u64) -> int {
    size / 1024 + 1
}

/// The page-aligned address at or below `addr`.
pub open spec fn page_of(addr: u64) -> u64 {
    (addr - addr % 1024) as u64
}

/// The address of page `p` of a block.
pub open spec fn page_key(b: VirtualAddressBlock, p: int) -> u64 {
    (b.base + p * 1024) as u64
}

/// Translates virtual addresses to allocations and offsets in them.
pub struct VirtualAddressMapper {
    pub blocks: Vec<VirtualAddressBlock>,
    pub mappings: HashMap<u64, VirtualAddressMapping>,
    pub next_address: u64,
    pub next_block_id: u64,
}

impl VirtualAddressMapper {
    /// Every page of every block is mapped to that block, every mapping leads to a page
    /// of a block, blocks have distinct ids, and all lies below `next_address`.
    pub open spec fn wf(&self) -> bool {
        let bs = self.blocks@;
        let ms = self.mappings@;
        &&& self.next_address % 1024 == 0
        &&& forall|i: int| 0 <= i < bs.len() ==> (#[trigger] bs[i]).id < self.next_block_id
            && bs[i].base % 1024 == 0 && bs[i].size <= MAX_MEMORY_SIZE
            && bs[i].base + page_count(bs[i].size) * 1024 <= self.next_address
        &&& forall|i: int, j: int| 0 <= i < bs.len() && 0 <= j < bs.len() && i != j ==> #[trigger] bs[i].id != #[trigger] bs[j].id
        &&& forall|i: int, p: int| 0 <= i < bs.len() && 0 <= p < page_count(bs[i].size) ==>
            ms.contains_key(#[trigger] page_key(bs[i], p)) && ms[page_key(bs[i], p)] == (VirtualAddressMapping { block: bs[i].id, offset: (p * 1024) as u64 })
        &&& forall|k: u64| #[trigger] ms.contains_key(k) ==> k < self.next_address && k % 1024 == 0 && exists|i: int| 0 <= i < bs.len()
            && bs[i].id == ms[k].block && k == bs[i].base + ms[k].offset && ms[k].offset % 1024 == 0 && ms[k].offset < page_count(bs[i].size) * 1024
    }

    /// The index of the block with the given id.
    pub open spec fn block_index(&self, id: u64) -> int {
        choose|i: int| 0 <= i < self.blocks@.len() && self.blocks@[i].id == id
    }

    /// The allocation and offset a virtual address leads to, if it is mapped.
    pub open spec fn spec_translate(&self, addr: u64) -> Option<(u64, int)> {
        let page = page_of(addr);
        if self.mappings@.contains_key(page) {
            let m = self.mappings@[page];
            Some((self.blocks@[self.block_index(m.block)].allocation, m.offset + addr % 1024))
        } else {
            None
        }
    }

    pub fn new() -> (r: VirtualAddressMapper)
        ensures
            r.wf(),
            r.blocks@.len() == 0,
            r.next_address == 0,
            r.next_block_id == 1,
    {
        VirtualAddressMapper { blocks: Vec::new(), mappings: HashMap::new(), next_address: 0, next_block_id: 1 }
    }
}


impl VirtualAddressMapper {
    /// The index of the block with the given id, if there is one.
    pub fn find_block(&self, id: u64) -> (r: Option<usize>)
        ensures
            r matches Some(i) ==> i < self.blocks@.len() && self.blocks@[i as int].id == id,
            r is None ==> forall|i: int| 0 <= i < self.blocks@.len() ==> self.blocks@[i].id != id,
    {
        let mut i: usize = 0;
        while i < self.blocks.len()
            invariant
                i <= self.blocks@.len(),
                forall|j: int| 0 <= j < i ==> self.blocks@[j].id != id,
            decreases self.blocks@.len() - i,
        {
            if self.blocks[i].id == id {
                return Some(i);
            }
            i = i + 1;
        }
        None
    }

    /// The block with the given id.
    pub fn get(&self, id: u64) -> (r: Option<VirtualAddressBlock>)
        ensures
            r matches Some(b) ==> exists|i: int| 0 <= i < self.blocks@.len() && self.blocks@[i] == b && b.id == id,
            r is None ==> forall|i: int| 0 <= i < self.blocks@.len() ==> self.blocks@[i].id != id,
    {
        match self.find_block(id) {
            Some(i) => Some(self.blocks[i]),
            None => None,
        }
    }

    /// The allocation and the offset in it that a virtual address leads to; an address
    /// with no mapping is an error.
    pub fn translate(&self, addr: u64) -> (r: Result<(u64, u64), Error>)
        requires
            self.wf(),
        ensures
            r matches Ok((a, o)) ==> self.spec_translate(addr) == Some((a, o as int)),
            r matches Err(e) ==> self.spec_translate(addr) is None && e.kind == ErrorKind::Unmapped,
    {
        let aligned = addr - addr % VIRTUAL_PAGE_SIZE;
        let mapping = match self.mappings.get(&aligned) {
            Some(m) => *m,
            None => return Err(Error::of_kind(ErrorKind::Unmapped, "Tried to access unmapped memory")),
        };
        let ghost k = self.block_index(mapping.block);
        proof {
            assert(self.mappings@.contains_key(aligned));
            let i = choose|i: int| 0 <= i < self.blocks@.len() && self.blocks@[i].id == mapping.block
                && aligned == self.blocks@[i].base + mapping.offset && mapping.offset % 1024 == 0
                && mapping.offset < page_count(self.blocks@[i].size) * 1024;
            assert(0 <= k < self.blocks@.len() && self.blocks@[k].id == mapping.block);
            assert(k == i);
        }
        match self.find_block(mapping.block) {
            Some(i) => {
                assert(i == k);
                Ok((self.blocks[i].allocation, mapping.offset + addr % VIRTUAL_PAGE_SIZE))
            },
            None => Err(Error::of_kind(ErrorKind::Unmapped, "Mapping pointed to an invalid block")),
        }
    }
}

/// Inside a block, each address leads to its offset from the block's base.
pub proof fn lemma_translate_in_block(m: &VirtualAddressMapper, i: int, t: int)
    requires
        m.wf(),
        0 <= i < m.blocks@.len(),
        0 <= t < page_count(m.blocks@[i].size) * 1024,
    ensures
        m.spec_translate((m.blocks@[i].base + t) as u64) == Some((m.blocks@[i].allocation, t)),
{
    let b = m.blocks@[i];
    let addr = (b.base + t) as u64;
    let p = t / 1024;
    assert(addr % 1024 == t % 1024 && page_of(addr) == b.base + p * 1024) by {
        assert(b.base % 1024 == 0);
        assert((b.base + t) % 1024 == t % 1024) by (nonlinear_arith)
            requires b.base % 1024 == 0, t >= 0;
        assert(t == p * 1024 + t % 1024) by (nonlinear_arith)
            requires p == t / 1024;
    }
    assert(0 <= p < page_count(b.size)) by (nonlinear_arith)
        requires p == t / 1024, 0 <= t < page_count(b.size) * 1024;
    assert(page_key(b, p) == page_of(addr));
    let k = m.block_index(b.id);
    assert(m.blocks@[k].id == b.id);
    assert(k == i);
    assert(p * 1024 + t % 1024 == t) by (nonlinear_arith)
        requires p == t / 1024, t >= 0;
}


/// Whether every mapping of `old` stays in `new`.
pub open spec fn mappings_kept(old: Map<u64, VirtualAddressMapping>, new: Map<u64, VirtualAddressMapping>) -> bool {
    forall|k: u64| #[trigger] old.contains_key(k) ==> new.contains_key(k) && new[k] == old[k]
}

/// Whether a preferred base address can be honoured by a mapper whose watermark is `next`.
pub open spec fn base_acceptable(preferred_base: Option<u64>, next: u64) -> bool {
    match preferred_base {
        Some(b) => b % 1024 == 0 && b >= next,
        None => true,
    }
}

/// The base address a new block gets.
pub open spec fn chosen_base(preferred_base: Option<u64>, next: u64) -> u64 {
    match preferred_base {
        Some(b) => b,
        None => next,
    }
}

impl VirtualAddressMapper {
    /// Maps a new block of `size` bytes for the allocation, at the preferred base if one
    /// is given, else at the watermark; returns its base and its id. A preferred base that
    /// is not page-aligned or lies below the watermark, or a block that would run past the
    /// end of the address space, is refused.
    pub fn map(&mut self, size: u64, allocation: u64, preferred_base: Option<u64>) -> (r: Result<(u64, u64), Error>)
        requires
            old(self).wf(),
            size <= MAX_MEMORY_SIZE,
            old(self).next_block_id < u64::MAX,
        ensures
            final(self).wf(),
            r is Err <==> !base_acceptable(preferred_base, old(self).next_address)
                || chosen_base(preferred_base, old(self).next_address) + page_count(size) * 1024 > u64::MAX,
            r matches Err(e) ==> e.kind == ErrorKind::BadBase && *final(self) == *old(self),
            r matches Ok((base, id)) ==> {
                &&& base == chosen_base(preferred_base, old(self).next_address)
                &&& id == old(self).next_block_id
                &&& final(self).blocks@ == old(self).blocks@.push(VirtualAddressBlock { id, allocation, base, size })
                &&& final(self).next_address == base + page_count(size) * 1024
                &&& final(self).next_block_id == id + 1
                &&& mappings_kept(old(self).mappings@, final(self).mappings@)
            },
    {
        let base = match preferred_base {
            Some(b) => {
                if b % VIRTUAL_PAGE_SIZE != 0 {
                    return Err(Error::of_kind(ErrorKind::BadBase, "Requested base address isn't page-aligned"));
                }
                if b < self.next_address {
                    return Err(Error::of_kind(ErrorKind::BadBase, "Unable to meet requested base address"));
                }
                b
            },
            None => self.next_address,
        };
        let pages = size / VIRTUAL_PAGE_SIZE + 1;
        if base > u64::MAX - pages * VIRTUAL_PAGE_SIZE {
            return Err(Error::of_kind(ErrorKind::BadBase, "Block would run past the end of the address space"));
        }
        let ghost old_maps = self.mappings@;
        let ghost old_blocks = self.blocks@;
        let ghost old_next = self.next_address;
        let block_id = self.next_block_id;
        let block = VirtualAddressBlock { id: block_id, base, size, allocation };
        self.blocks.push(block);
        self.next_block_id = self.next_block_id + 1;
        self.next_address = base;
        let mut page: u64 = 0;
        while page < pages
            invariant
                block == (VirtualAddressBlock { id: block_id, base, size, allocation }),
                self.next_block_id == block_id + 1,
                block_id < self.next_block_id,
                size <= MAX_MEMORY_SIZE,
                pages == size / 1024 + 1,
                base + pages * 1024 <= u64::MAX,
                base % 1024 == 0,
                base >= old_next,
                page <= pages,
                self.next_address == base + page * 1024,
                self.blocks@ == old_blocks.push(block),
                mappings_kept(old_maps, self.mappings@),
                forall|k: u64| #[trigger] self.mappings@.contains_key(k) ==> old_maps.contains_key(k) || (base <= k < base + page * 1024 && k % 1024 == 0 && self.mappings@[k] == (VirtualAddressMapping { block: block_id, offset: (k - base) as u64 })),
                forall|q: int| 0 <= q < page ==> self.mappings@.contains_key(#[trigger] page_key(block, q)) && self.mappings@[page_key(block, q)] == (VirtualAddressMapping { block: block_id, offset: (q * 1024) as u64 }),
                forall|k: u64| #[trigger] old_maps.contains_key(k) ==> k < old_next,
            decreases pages - page,
        {
            let key = base + page * VIRTUAL_PAGE_SIZE;
            assert(!old_maps.contains_key(key));
            self.mappings.insert(key, VirtualAddressMapping { block: block_id, offset: page * VIRTUAL_PAGE_SIZE });
            proof {
                assert forall|k: u64| #[trigger] old_maps.contains_key(k) implies self.mappings@.contains_key(k) && self.mappings@[k] == old_maps[k] by {
                    assert(k != key);
                }
                assert(key % 1024 == 0) by (nonlinear_arith)
                    requires key == base + page * 1024, base % 1024 == 0;
                assert forall|q: int| 0 <= q < page + 1 implies self.mappings@.contains_key(#[trigger] page_key(block, q)) && self.mappings@[page_key(block, q)] == (VirtualAddressMapping { block: block_id, offset: (q * 1024) as u64 }) by {
                    if q < page {
                        assert(page_key(block, q) != key);
                    } else {
                        assert(base + page * 1024 < base + pages * 1024) by (nonlinear_arith)
                            requires page < pages;
                        assert(page_key(block, q) == key);
                    }
                }
            }
            self.next_address = self.next_address + VIRTUAL_PAGE_SIZE;
            page = page + 1;
        }
        proof {
            let bs = self.blocks@;
            let ms = self.mappings@;
            let n = old_blocks.len() as int;
            assert(bs[n] == block);
            assert forall|i: int, p: int| 0 <= i < bs.len() && 0 <= p < page_count(bs[i].size) implies
                ms.contains_key(#[trigger] page_key(bs[i], p)) && ms[page_key(bs[i], p)] == (VirtualAddressMapping { block: bs[i].id, offset: (p * 1024) as u64 }) by {
                if i < n {
                    assert(bs[i] == old_blocks[i]);
                    assert(old_maps.contains_key(page_key(old_blocks[i], p)));
                }
            }
            assert forall|k: u64| #[trigger] ms.contains_key(k) implies k < self.next_address && k % 1024 == 0 && exists|i: int| 0 <= i < bs.len()
                && bs[i].id == ms[k].block && k == bs[i].base + ms[k].offset && ms[k].offset % 1024 == 0 && ms[k].offset < page_count(bs[i].size) * 1024 by {
                if old_maps.contains_key(k) {
                    let i = choose|i: int| 0 <= i < old_blocks.len() && old_blocks[i].id == old_maps[k].block && k == old_blocks[i].base + old_maps[k].offset
                        && old_maps[k].offset % 1024 == 0 && old_maps[k].offset < page_count(old_blocks[i].size) * 1024;
                    assert(bs[i] == old_blocks[i]);
                } else {
                    assert(bs[n].id == ms[k].block);
                    assert((k - base) % 1024 == 0) by (nonlinear_arith)
                        requires k % 1024 == 0, base % 1024 == 0, k >= base;
                }
            }
            assert forall|i: int| 0 <= i < bs.len() implies (#[trigger] bs[i]).id < self.next_block_id
                && bs[i].base % 1024 == 0 && bs[i].size <= MAX_MEMORY_SIZE
                && bs[i].base + page_count(bs[i].size) * 1024 <= self.next_address by {
                if i < n {
                    assert(bs[i] == old_blocks[i]);
                    assert(old(self).blocks@[i] == old_blocks[i]);
                    assert(old_blocks[i].base + page_count(old_blocks[i].size) * 1024 <= old_next);
                    assert(old_next <= self.next_address);
                } else {
                    assert(i == n);
                    assert(bs[i] == block);
                    assert(self.next_address == base + pages * 1024);
                }
            }
            assert forall|i: int, j: int| 0 <= i < bs.len() && 0 <= j < bs.len() && i != j implies #[trigger] bs[i].id != #[trigger] bs[j].id by {
                if i < n { assert(bs[i] == old_blocks[i]); }
                if j < n { assert(bs[j] == old_blocks[j]); }
            }
            assert(self.next_address % 1024 == 0) by (nonlinear_arith)
                requires self.next_address == base + pages * 1024, base % 1024 == 0;
            assert(self.next_address == base + page_count(size) * 1024);
            assert(self.blocks@ == old(self).blocks@.push(VirtualAddressBlock { id: block_id, allocation, base, size }));
        }
        Ok((base, block_id))
    }
}


impl VirtualAddressMapper {
    /// Removes the block with the given id and all its page mappings; an unknown id is an
    /// error. Addresses are never handed out again.
    pub fn unmap(&mut self, id: u64) -> (r: Result<(), Error>)
        requires
            old(self).wf(),
        ensures
            final(self).wf(),
            final(self).next_address == old(self).next_address,
            final(self).next_block_id == old(self).next_block_id,
            r is Err <==> forall|i: int| 0 <= i < old(self).blocks@.len() ==> old(self).blocks@[i].id != id,
            r matches Err(e) ==> e.kind == ErrorKind::InvalidId && *final(self) == *old(self),
            r is Ok ==> exists|i: int| 0 <= i < old(self).blocks@.len() && old(self).blocks@[i].id == id
                && final(self).blocks@ == old(self).blocks@.remove(i),
            forall|k: u64| #[trigger] old(self).mappings@.contains_key(k) && old(self).mappings@[k].block != id
                ==> final(self).mappings@.contains_key(k) && final(self).mappings@[k] == old(self).mappings@[k],
            forall|k: u64| #[trigger] final(self).mappings@.contains_key(k) ==> old(self).mappings@.contains_key(k)
                && final(self).mappings@[k] == old(self).mappings@[k] && old(self).mappings@[k].block != id,
    {
        let index = match self.find_block(id) {
            Some(i) => i,
            None => return Err(Error::of_kind(ErrorKind::InvalidId, "Invalid virtual block ID")),
        };
        let ghost old_maps = self.mappings@;
        let ghost old_blocks = self.blocks@;
        let block = self.blocks.remove(index);
        let pages = block.size / VIRTUAL_PAGE_SIZE + 1;
        assert(block.base + pages * 1024 <= self.next_address) by {
            assert(old_blocks[index as int] == block);
        }
        proof {
            assert forall|k: u64| #[trigger] old_maps.contains_key(k) && old_maps[k].block == id implies
                k == block.base + old_maps[k].offset && old_maps[k].offset % 1024 == 0 by {
                let i = choose|i: int| 0 <= i < old_blocks.len() && old_blocks[i].id == old_maps[k].block && k == old_blocks[i].base + old_maps[k].offset
                    && old_maps[k].offset % 1024 == 0 && old_maps[k].offset < page_count(old_blocks[i].size) * 1024;
                assert(i == index as int);
            }
            assert forall|q: int| 0 <= q < pages implies old_maps.contains_key(#[trigger] page_key(block, q)) && old_maps[page_key(block, q)].block == id by {
                assert(old_blocks[index as int] == block);
            }
        }
        let mut page: u64 = 0;
        while page < pages
            invariant
                index < old_blocks.len(),
                forall|q: int| 0 <= q < pages ==> old_maps.contains_key(#[trigger] page_key(block, q)) && old_maps[page_key(block, q)].block == id,
                self.blocks@ == old_blocks.remove(index as int),
                self.next_address == old(self).next_address,
                self.next_block_id == old(self).next_block_id,
                forall|k: u64| #[trigger] old_maps.contains_key(k) && old_maps[k].block == id ==>
                    k == block.base + old_maps[k].offset && old_maps[k].offset % 1024 == 0,
                block == old_blocks[index as int],
                block.id == id,
                pages == block.size / 1024 + 1,
                block.base + pages * 1024 <= u64::MAX,
                page <= pages,
                forall|k: u64| #[trigger] old_maps.contains_key(k) && old_maps[k].block != id ==> self.mappings@.contains_key(k) && self.mappings@[k] == old_maps[k],
                forall|k: u64| #[trigger] self.mappings@.contains_key(k) ==> old_maps.contains_key(k) && self.mappings@[k] == old_maps[k]
                    && (old_maps[k].block != id || old_maps[k].offset >= page * 1024),
            decreases pages - page,
        {
            let key = block.base + page * VIRTUAL_PAGE_SIZE;
            self.mappings.remove(&key);
            proof {
                assert(key == page_key(block, page as int));
                assert forall|k: u64| #[trigger] self.mappings@.contains_key(k) implies old_maps.contains_key(k) && self.mappings@[k] == old_maps[k]
                    && (old_maps[k].block != id || old_maps[k].offset >= (page + 1) * 1024) by {
                    if old_maps[k].block == id {
                        let o = old_maps[k].offset;
                        assert(k != key);
                        assert(o != page * 1024);
                        assert(o >= (page + 1) * 1024) by (nonlinear_arith)
                            requires o % 1024 == 0, o >= page * 1024, o != page * 1024;
                    }
                }
            }
            page = page + 1;
        }
        proof {
            let bs = self.blocks@;
            let ms = self.mappings@;
            let ix = index as int;
            assert forall|k: u64| #[trigger] ms.contains_key(k) implies old_maps[k].block != id by {
                if old_maps[k].block == id {
                    let i = choose|i: int| 0 <= i < old_blocks.len() && old_blocks[i].id == old_maps[k].block && k == old_blocks[i].base + old_maps[k].offset
                        && old_maps[k].offset % 1024 == 0 && old_maps[k].offset < page_count(old_blocks[i].size) * 1024;
                    assert(i == ix);
                    assert(old_maps[k].offset < pages * 1024);
                }
            }
            assert forall|i: int, p: int| 0 <= i < bs.len() && 0 <= p < page_count(bs[i].size) implies
                ms.contains_key(#[trigger] page_key(bs[i], p)) && ms[page_key(bs[i], p)] == (VirtualAddressMapping { block: bs[i].id, offset: (p * 1024) as u64 }) by {
                let oi = if i < ix { i } else { i + 1 };
                assert(bs[i] == old_blocks[oi]);
                assert(old_maps.contains_key(page_key(old_blocks[oi], p)));
                assert(old_blocks[oi].id != id);
            }
            assert forall|k: u64| #[trigger] ms.contains_key(k) implies k < self.next_address && k % 1024 == 0 && exists|i: int| 0 <= i < bs.len()
                && bs[i].id == ms[k].block && k == bs[i].base + ms[k].offset && ms[k].offset % 1024 == 0 && ms[k].offset < page_count(bs[i].size) * 1024 by {
                let oi = choose|i: int| 0 <= i < old_blocks.len() && old_blocks[i].id == old_maps[k].block && k == old_blocks[i].base + old_maps[k].offset
                    && old_maps[k].offset % 1024 == 0 && old_maps[k].offset < page_count(old_blocks[i].size) * 1024;
                assert(oi != ix);
                let i = if oi < ix { oi } else { oi - 1 };
                assert(bs[i] == old_blocks[oi]);
            }
            assert forall|i: int| 0 <= i < bs.len() implies (#[trigger] bs[i]).id < self.next_block_id
                && bs[i].base % 1024 == 0 && bs[i].size <= MAX_MEMORY_SIZE
                && bs[i].base + page_count(bs[i].size) * 1024 <= self.next_address by {
                let oi = if i < ix { i } else { i + 1 };
                assert(bs[i] == old_blocks[oi]);
            }
            assert forall|i: int, j: int| 0 <= i < bs.len() && 0 <= j < bs.len() && i != j implies #[trigger] bs[i].id != #[trigger] bs[j].id by {
                let oi = if i < ix { i } else { i + 1 };
                let oj = if j < ix { j } else { j + 1 };
                assert(bs[i] == old_blocks[oi] && bs[j] == old_blocks[oj]);
            }
        }
        Ok(())
    }
}


/// Each mapping of a well-formed mapper is a page of one of its blocks.
proof fn lemma_mapping_in_other(a: &VirtualAddressMapper, b: &VirtualAddressMapper, k: u64)
    requires
        a.wf(),
        b.wf(),
        forall|blk: VirtualAddressBlock| a.blocks@.contains(blk) ==> b.blocks@.contains(blk),
        a.mappings@.contains_key(k),
    ensures
        b.mappings@.contains_key(k),
        b.mappings@[k] == a.mappings@[k],
{
    let m = a.mappings@[k];
    let i = choose|i: int| 0 <= i < a.blocks@.len() && a.blocks@[i].id == m.block && k == a.blocks@[i].base + m.offset
        && m.offset % 1024 == 0 && m.offset < page_count(a.blocks@[i].size) * 1024;
    let blk = a.blocks@[i];
    assert(a.blocks@.contains(blk));
    assert(b.blocks@.contains(blk));
    let j = choose|j: int| 0 <= j < b.blocks@.len() && b.blocks@[j] == blk;
    let p: int = m.offset as int / 1024;
    assert(p * 1024 == m.offset && 0 <= p < page_count(blk.size)) by (nonlinear_arith)
        requires p == m.offset as int / 1024, m.offset % 1024 == 0, m.offset < page_count(blk.size) * 1024, m.offset >= 0;
    assert(page_key(b.blocks@[j], p) == k);
}

/// Two well-formed mappers with the same blocks map the same pages the same way.
pub proof fn lemma_mappings_determined(a: &VirtualAddressMapper, b: &VirtualAddressMapper)
    requires
        a.wf(),
        b.wf(),
        forall|blk: VirtualAddressBlock| #[trigger] a.blocks@.contains(blk) <==> b.blocks@.contains(blk),
    ensures
        a.mappings@ == b.mappings@,
{
    assert forall|k: u64| #[trigger] a.mappings@.contains_key(k) implies b.mappings@.contains_key(k) && b.mappings@[k] == a.mappings@[k] by {
        lemma_mapping_in_other(a, b, k);
    }
    assert forall|k: u64| #[trigger] b.mappings@.contains_key(k) implies a.mappings@.contains_key(k) by {
        lemma_mapping_in_other(b, a, k);
    }
    assert(a.mappings@ =~= b.mappings@);
}

} // verus!
