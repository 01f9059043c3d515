use crate::common::{Error, ErrorKind, INITIAL_MEMORY_SIZE, MAX_MEMORY_SIZE, WORD_BYTE_SIZE};
use crate::interpreter::mapper::{
    base_acceptable, chosen_base, lemma_translate_in_block, mappings_kept, page_count,
    VirtualAddressBlock, VirtualAddressMapper, VIRTUAL_PAGE_SIZE,
};
use crate::interpreter::regions::{
    used_total, bitfield_len, lemma_partition_ordered, has_fit, is_first_fit, lemma_partition_bounds, spec_bitfield_len, spec_split,
    spec_total_region_len, total_region_len, HeapRegion, HeapRegionAllocationResult, HeapRegionState,
    HeapRegions,
};
use crate::interpreter::DataWord;
use crate::opcodes::{le_bytes, le_value, lemma_le_round_trip, pow256};
use vstd::prelude::*;

verus! {

/// A logical memory object: a payload with a reference bitfield after it, at a physical
/// offset that compaction may change, reached through a virtual block that never moves.
#[derive(PartialEq, Eq, Structural, Clone, Copy, Debug)]
pub struct Allocation {
    pub id: u64,
    pub start: usize,
    pub data_length: usize,
    pub is_collectible: bool,
    pub virtual_block: u64,
    pub region: u64,
}

/// The managed heap: backing bytes, their partition into regions, the allocation table and
/// the virtual address mapper.
pub struct Memory {
    pub virtual_mapper: VirtualAddressMapper,
    pub regions: HeapRegions,
    pub allocations: Vec<Allocation>,
    pub next_allocation_id: u64,
    pub heap: Vec<u8>,
}

impl Memory {
    /// The index of the allocation with the given id.
    pub open spec fn alloc_index(&self, id: u64) -> int {
        choose|i: int| 0 <= i < self.allocations@.len() && self.allocations@[i].id == id
    }

    /// Whether the table holds an allocation with the given id.
    pub open spec fn has_allocation(&self, id: u64) -> bool {
        exists|i: int| 0 <= i < self.allocations@.len() && self.allocations@[i].id == id
    }

    /// Allocation `i` has a used region of the right size at its start.
    pub open spec fn alloc_has_region(&self, i: int) -> bool {
        let a = self.allocations@[i];
        exists|k: int| 0 <= k < self.regions@.len() && self.regions@[k].id == a.region
            && self.regions@[k].state == HeapRegionState::Used(a.id) && self.regions@[k].base == a.start
            && self.regions@[k].length == spec_total_region_len(a.data_length as int)
    }

    /// Region `k`, if used, belongs to an allocation of the table that names it.
    pub open spec fn region_owned(&self, k: int) -> bool {
        let r = self.regions@[k];
        r.state is Used ==> exists|i: int| 0 <= i < self.allocations@.len() && self.allocations@[i].id == r.state->Used_0
            && self.allocations@[i].region == r.id
    }

    /// Virtual block `j` belongs to an allocation of the table that names it.
    pub open spec fn block_owned(&self, j: int) -> bool {
        let b = self.virtual_mapper.blocks@[j];
        exists|i: int| 0 <= i < self.allocations@.len() && self.allocations@[i].id == b.allocation
            && self.allocations@[i].virtual_block == b.id
    }

    /// Allocation `i` has a virtual block of its size.
    pub open spec fn alloc_has_block(&self, i: int) -> bool {
        let a = self.allocations@[i];
        exists|j: int| 0 <= j < self.virtual_mapper.blocks@.len() && self.virtual_mapper.blocks@[j].id == a.virtual_block
            && self.virtual_mapper.blocks@[j].allocation == a.id && self.virtual_mapper.blocks@[j].size == a.data_length
    }

    /// The regions and the mapper are well formed, allocation ids are distinct, each
    /// allocation has its region and its block, and each used region belongs to an
    /// allocation of the table.
    pub open spec fn wf(&self) -> bool {
        let al = self.allocations@;
        &&& self.regions.wf(self.heap@.len() as int)
        &&& self.virtual_mapper.wf()
        &&& self.heap@.len() <= MAX_MEMORY_SIZE
        &&& forall|i: int| 0 <= i < al.len() ==> (#[trigger] al[i]).id < self.next_allocation_id && al[i].data_length <= MAX_MEMORY_SIZE
        &&& forall|i: int, j: int| 0 <= i < al.len() && 0 <= j < al.len() && i != j ==> #[trigger] al[i].id != #[trigger] al[j].id
        &&& forall|i: int| 0 <= i < al.len() ==> #[trigger] self.alloc_has_region(i)
        &&& forall|i: int| 0 <= i < al.len() ==> #[trigger] self.alloc_has_block(i)
        &&& forall|k: int| 0 <= k < self.regions@.len() ==> #[trigger] self.region_owned(k)
        &&& forall|j: int| 0 <= j < self.virtual_mapper.blocks@.len() ==> #[trigger] self.block_owned(j)
        &&& self.next_allocation_id < u64::MAX
    }

    /// The allocation index and offset a virtual address leads to, if it lies inside the
    /// payload of an allocation.
    pub open spec fn spec_locate(&self, addr: u64) -> Option<(int, int)> {
        match self.virtual_mapper.spec_translate(addr) {
            Some((aid, off)) => if self.has_allocation(aid) && off < self.allocations@[self.alloc_index(aid)].data_length {
                Some((self.alloc_index(aid), off))
            } else {
                None
            },
            None => None,
        }
    }

    /// The `size` bytes at a virtual address, if they lie inside one allocation's payload.
    pub open spec fn spec_get(&self, addr: u64, size: int) -> Option<Seq<u8>> {
        match self.spec_locate(addr) {
            Some((i, off)) => {
                let a = self.allocations@[i];
                if off + size <= a.data_length {
                    Some(self.heap@.subrange(a.start + off, a.start + off + size))
                } else {
                    None
                }
            },
            None => None,
        }
    }

    /// The reference tag of the word at a word-aligned virtual address inside a payload.
    pub open spec fn spec_tag(&self, addr: u64) -> Option<bool> {
        if addr % 8 != 0 {
            None
        } else {
            match self.spec_locate(addr) {
                Some((i, off)) => {
                    let a = self.allocations@[i];
                    let word = off / 8;
                    Some(bit_of(self.heap@[a.start + a.data_length + word / 8], (word % 8) as u8))
                },
                None => None,
            }
        }
    }

    /// The tagged word at a virtual address: both its bytes and its tag must be readable.
    pub open spec fn spec_data_word(&self, addr: u64) -> Option<DataWord> {
        if addr % 8 != 0 {
            None
        } else {
            match (self.spec_get(addr, 8), self.spec_tag(addr)) {
                (Some(b), Some(t)) => Some(DataWord { value: le_value(b) as u64, is_reference: t }),
                _ => None,
            }
        }
    }
}

impl Memory {
    /// The heap after writing `data` at a virtual address, if it fits inside one
    /// allocation's payload.
    pub open spec fn spec_set_heap(&self, addr: u64, data: Seq<u8>) -> Option<Seq<u8>> {
        match self.spec_locate(addr) {
            Some((i, off)) => {
                let a = self.allocations@[i];
                let p = a.start + off;
                if off + data.len() <= a.data_length {
                    Some(self.heap@.subrange(0, p) + data + self.heap@.subrange(p + data.len(), self.heap@.len() as int))
                } else {
                    None
                }
            },
            None => None,
        }
    }
}

impl Memory {
    /// The reference tag of word `t` of allocation `i`.
    pub open spec fn word_tag(&self, i: int, t: int) -> bool {
        let a = self.allocations@[i];
        bit_of(self.heap@[a.start + a.data_length + t / 8], (t % 8) as u8)
    }

    /// The value of word `t` of allocation `i`.
    pub open spec fn word_value(&self, i: int, t: int) -> u64 {
        let a = self.allocations@[i];
        le_value(self.heap@.subrange(a.start + 8 * t, a.start + 8 * t + 8)) as u64
    }

    /// Whether `v` is the value of a tagged word of allocation `i`.
    pub open spec fn is_tagged_word_of(&self, i: int, v: u64) -> bool {
        exists|t: int| 0 <= t < self.allocations@[i].data_length / 8 && #[trigger] self.word_tag(i, t) && self.word_value(i, t) == v
    }

    /// The id of the allocation a virtual address leads into, if any.
    pub open spec fn target(&self, addr: u64) -> Option<u64> {
        match self.spec_locate(addr) {
            Some((i, off)) => Some(self.allocations@[i].id),
            None => None,
        }
    }

    /// Whether a tagged word of allocation `from` leads into allocation `to`.
    pub open spec fn edge(&self, from: u64, to: u64) -> bool {
        let i = self.alloc_index(from);
        &&& self.has_allocation(from)
        &&& exists|t: int| 0 <= t < self.allocations@[i].data_length / 8 && #[trigger] self.word_tag(i, t)
            && self.target(self.word_value(i, t)) == Some(to)
    }

    /// Whether collection starts from allocation `id`: a tagged root leads into it, or it
    /// is not collectible.
    pub open spec fn is_root(&self, roots: Seq<DataWord>, id: u64) -> bool {
        ||| exists|r: int| 0 <= r < roots.len() && (#[trigger] roots[r]).is_reference && self.target(roots[r].value) == Some(id)
        ||| (self.has_allocation(id) && !self.allocations@[self.alloc_index(id)].is_collectible)
    }

    /// Whether allocation `id` is reachable from the roots through tagged words.
    pub open spec fn reachable(&self, roots: Seq<DataWord>, id: u64) -> bool {
        exists|path: Seq<u64>| path.len() >= 1 && self.is_root(roots, path[0]) && path.last() == id
            && forall|k: int| 0 <= k < path.len() - 1 ==> #[trigger] self.edge(path[k], path[k + 1])
    }
}

/// A byte with bit `i` set or cleared.
pub open spec fn with_tag(b: u8, i: u8, t: bool) -> u8 {
    if t { b | (1u8 << i) } else { b & !(1u8 << i) }
}

/// Bit `i` of a byte, lowest first.
pub open spec fn bit_of(b: u8, i: u8) -> bool {
    (b >> i) & 1 == 1
}


/// Setting a bit and reading it back gives it; clearing it likewise.
pub proof fn lemma_bit_update(b: u8, i: u8)
    requires
        i < 8,
    ensures
        bit_of(b | (1u8 << i), i),
        !bit_of(b & !(1u8 << i), i),
{
    assert(((b | (1u8 << i)) >> i) & 1 == 1) by (bit_vector)
        requires i < 8;
    assert(((b & !(1u8 << i)) >> i) & 1 == 0) by (bit_vector)
        requires i < 8;
}

/// `256` to the eighth is `2` to the sixty-fourth.
pub proof fn lemma_pow256_eight()
    ensures
        pow256(8) == 0x1_0000_0000_0000_0000,
{
    reveal_with_fuel(pow256, 9);
}

/// The eight bytes of a word in little-endian order.
pub fn word_to_bytes(v: u64) -> (r: Vec<u8>)
    ensures
        r@ == le_bytes(v as nat, 8),
        r@.len() == 8,
        le_value(r@) == v,
{
    let mut out: Vec<u8> = Vec::new();
    let mut rest: u64 = v;
    let mut k: usize = 0;
    while k < 8
        invariant
            k <= 8,
            out@ + le_bytes(rest as nat, (8 - k) as nat) == le_bytes(v as nat, 8),
        decreases 8 - k,
    {
        let ghost before = out@;
        assert(le_bytes(rest as nat, (8 - k) as nat) == seq![(rest % 256) as u8] + le_bytes((rest / 256) as nat, (8 - k - 1) as nat));
        out.push((rest % 256) as u8);
        assert(before + (seq![(rest % 256) as u8] + le_bytes((rest / 256) as nat, (8 - k - 1) as nat)) =~= out@ + le_bytes((rest / 256) as nat, (8 - k - 1) as nat));
        rest = rest / 256;
        k = k + 1;
    }
    assert(out@ + le_bytes(rest as nat, 0) =~= out@);
    proof {
        lemma_pow256_eight();
        lemma_le_round_trip(v as nat, 8);
    }
    out
}

/// The word held by eight bytes in little-endian order.
pub fn word_from_bytes(b: &Vec<u8>) -> (r: u64)
    requires
        b@.len() == 8,
    ensures
        r as nat == le_value(b@),
{
    let mut v: u64 = 0;
    let mut i: usize = 8;
    proof {
        lemma_pow256_eight();
        assert(b@.subrange(8, 8) =~= Seq::<u8>::empty());
    }
    while i > 0
        invariant
            i <= 8,
            b@.len() == 8,
            v as nat == le_value(b@.subrange(i as int, 8)),
            v < pow256((8 - i) as nat),
            pow256(8) == 0x1_0000_0000_0000_0000,
        decreases i,
    {
        i = i - 1;
        let ghost tail = b@.subrange(i as int, 8);
        assert(tail.drop_first() =~= b@.subrange(i + 1, 8));
        proof {
            crate::opcodes::lemma_le_value_bound(tail);
            crate::opcodes::lemma_pow256_monotone(tail.len(), 8);
        }
        v = v * 256 + b[i] as u64;
    }
    assert(b@.subrange(0, 8) =~= b@);
    v
}

impl Memory {
    /// An empty memory with a heap of the initial size.
    pub fn new() -> (r: Memory)
        ensures
            r.wf(),
            r.allocations@.len() == 0,
            r.heap@.len() == INITIAL_MEMORY_SIZE,
            r.regions.next_id == 2,
            r.virtual_mapper.next_block_id == 1,
            r.virtual_mapper.next_address == 0,
            r.next_allocation_id == 1,
    {
        let mut heap: Vec<u8> = Vec::new();
        let mut k: usize = 0;
        while k < INITIAL_MEMORY_SIZE
            invariant
                k <= INITIAL_MEMORY_SIZE,
                heap@.len() == k,
            decreases INITIAL_MEMORY_SIZE - k,
        {
            heap.push(0);
            k = k + 1;
        }
        Memory {
            virtual_mapper: VirtualAddressMapper::new(),
            regions: HeapRegions::new(INITIAL_MEMORY_SIZE),
            allocations: Vec::new(),
            next_allocation_id: 1,
            heap,
        }
    }

    /// Every allocation's region lies inside the heap.
    pub proof fn lemma_alloc_bounds(&self, i: int)
        requires
            self.wf(),
            0 <= i < self.allocations@.len(),
        ensures
            self.allocations@[i].start + spec_total_region_len(self.allocations@[i].data_length as int) <= self.heap@.len(),
    {
        assert(self.alloc_has_region(i));
        let a = self.allocations@[i];
        let k = choose|k: int| 0 <= k < self.regions@.len() && self.regions@[k].id == a.region
            && self.regions@[k].state == HeapRegionState::Used(a.id) && self.regions@[k].base == a.start
            && self.regions@[k].length == spec_total_region_len(a.data_length as int);
        lemma_partition_bounds(self.regions@, self.heap@.len() as int, k);
    }

    /// The index of the allocation with the given id.
    pub fn find_allocation(&self, id: u64) -> (r: Option<usize>)
        requires
            self.wf(),
        ensures
            r matches Some(i) ==> i < self.allocations@.len() && self.allocations@[i as int].id == id && i == self.alloc_index(id) && self.has_allocation(id),
            r is None ==> !self.has_allocation(id),
    {
        let mut i: usize = 0;
        while i < self.allocations.len()
            invariant
                self.wf(),
                i <= self.allocations@.len(),
                forall|j: int| 0 <= j < i ==> self.allocations@[j].id != id,
            decreases self.allocations@.len() - i,
        {
            if self.allocations[i].id == id {
                let ghost k = self.alloc_index(id);
                assert(self.allocations@[k].id == id);
                return Some(i);
            }
            i = i + 1;
        }
        None
    }

    /// The allocation index and payload offset a virtual address leads to. An address
    /// with no mapping, or past the end of the payload, is unmapped.
    pub fn addr_to_allocation(&self, addr: u64) -> (r: Result<(usize, usize), Error>)
        requires
            self.wf(),
        ensures
            r matches Ok((i, off)) ==> self.spec_locate(addr) == Some((i as int, off as int)) && i < self.allocations@.len(),
            r matches Err(e) ==> self.spec_locate(addr) is None && e.kind == ErrorKind::Unmapped,
    {
        let (allocation_id, offset) = self.virtual_mapper.translate(addr)?;
        let index = match self.find_allocation(allocation_id) {
            Some(i) => i,
            None => return Err(Error::of_kind(ErrorKind::Unmapped, "Virtual address pointed to non-existent allocation")),
        };
        if offset >= self.allocations[index].data_length as u64 {
            return Err(Error::of_kind(ErrorKind::Unmapped, "Tried to access unmapped memory"));
        }
        Ok((index, offset as usize))
    }

    /// The physical range of `size` bytes at a virtual address inside a payload.
    fn addr_to_indices(&self, addr: u64, size: u64) -> (r: Result<(usize, usize), Error>)
        requires
            self.wf(),
        ensures
            r matches Ok((start, end)) ==> self.spec_get(addr, size as int) == Some(self.heap@.subrange(start as int, end as int))
                && start <= end <= self.heap@.len() && end - start == size
                && (self.spec_locate(addr) matches Some((i, off)) && start == self.allocations@[i].start + off
                    && end <= self.allocations@[i].start + self.allocations@[i].data_length),
            r matches Err(e) ==> self.spec_get(addr, size as int) is None && e.kind == ErrorKind::Unmapped,
    {
        let (index, offset) = self.addr_to_allocation(addr)?;
        let allocation = &self.allocations[index];
        proof { self.lemma_alloc_bounds(index as int); }
        let readable_len = allocation.data_length - offset;
        if (readable_len as u64) < size {
            return Err(Error::of_kind(ErrorKind::Unmapped, "Tried to access more bytes than are available"));
        }
        let start = allocation.start + offset;
        let end = start + size as usize;
        Ok((start, end))
    }

    /// The `size` bytes at a virtual address; they must lie inside one allocation's payload.
    pub fn get(&self, addr: u64, size: u64) -> (r: Result<Vec<u8>, Error>)
        requires
            self.wf(),
        ensures
            r matches Ok(v) ==> self.spec_get(addr, size as int) == Some(v@) && v@.len() == size && size <= MAX_MEMORY_SIZE,
            r matches Err(e) ==> self.spec_get(addr, size as int) is None && e.kind == ErrorKind::Unmapped,
    {
        let (start, end) = self.addr_to_indices(addr, size)?;
        let mut out: Vec<u8> = Vec::new();
        let mut p: usize = start;
        while p < end
            invariant
                start <= p <= end <= self.heap@.len(),
                out@ == self.heap@.subrange(start as int, p as int),
            decreases end - p,
        {
            out.push(self.heap[p]);
            assert(out@ =~= self.heap@.subrange(start as int, p + 1));
            p = p + 1;
        }
        Ok(out)
    }

    /// Writes bytes at a virtual address; they must fit inside one allocation's payload.
    pub fn set(&mut self, addr: u64, data: &[u8]) -> (r: Result<(), Error>)
        requires
            old(self).wf(),
        ensures
            final(self).wf(),
            final(self).allocations@ == old(self).allocations@,
            final(self).regions@ == old(self).regions@,
            final(self).regions == old(self).regions,
            final(self).next_allocation_id == old(self).next_allocation_id,
            final(self).virtual_mapper == old(self).virtual_mapper,
            final(self).heap@.len() == old(self).heap@.len(),
            r is Err ==> *final(self) == *old(self) && old(self).spec_set_heap(addr, data@) is None,
            r matches Err(e) ==> e.kind == ErrorKind::Unmapped,
            r is Ok ==> old(self).spec_set_heap(addr, data@) == Some(final(self).heap@),
    {
        let (start, end) = self.addr_to_indices(addr, data.len() as u64)?;
        let ghost h0 = self.heap@;
        let mut k: usize = 0;
        while k < data.len()
            invariant
                end == start + data@.len(),
                end <= self.heap@.len(),
                self.heap@.len() == h0.len(),
                k <= data@.len(),
                self.allocations@ == old(self).allocations@,
                self.regions == old(self).regions,
                self.virtual_mapper == old(self).virtual_mapper,
                self.next_allocation_id == old(self).next_allocation_id,
                h0 == old(self).heap@,
                self.heap@ =~= h0.subrange(0, start as int) + data@.subrange(0, k as int) + h0.subrange(start + k, h0.len() as int),
            decreases data@.len() - k,
        {
            self.heap.set(start + k, data[k]);
            assert(self.heap@ =~= h0.subrange(0, start as int) + data@.subrange(0, k + 1) + h0.subrange(start + k + 1, h0.len() as int));
            k = k + 1;
        }
        assert(data@.subrange(0, data@.len() as int) =~= data@);
        proof { lemma_wf_heap_bytes(old(self), self); }
        Ok(())
    }
}

impl Memory {
    /// The heap after the tagged word `w` is written at `addr`: its eight bytes, and its
    /// tag bit; no other byte changes.
    pub open spec fn heap_after_data_word(&self, addr: u64, w: DataWord) -> Seq<u8> {
        self.spec_set_heap(addr, le_bytes(w.value as nat, 8)).unwrap().update(
            self.tag_pos(addr), with_tag(self.heap@[self.tag_pos(addr)], self.tag_bit(addr), w.is_reference))
    }

    /// Where the reference tag of the word at a located address lies in the heap.
    pub open spec fn tag_pos(&self, addr: u64) -> int {
        let (i, off) = self.spec_locate(addr).unwrap();
        let a = self.allocations@[i];
        a.start + a.data_length + off / 64
    }

    /// The position of the word's tag inside its bitfield byte.
    pub open spec fn tag_bit(&self, addr: u64) -> u8 {
        let (i, off) = self.spec_locate(addr).unwrap();
        ((off / 8) % 8) as u8
    }

    /// Fails unless the address is word-aligned.
    pub fn ensure_aligned(addr: u64) -> (r: Result<(), Error>)
        ensures
            r is Ok <==> addr % 8 == 0,
            r matches Err(e) ==> e.kind == ErrorKind::Alignment,
    {
        if addr % WORD_BYTE_SIZE != 0 {
            Err(Error::of_kind(ErrorKind::Alignment, "Address isn't word-aligned"))
        } else {
            Ok(())
        }
    }

    /// The physical position of the tag of the word at a word-aligned address.
    fn addr_to_reference_indices(&self, addr: u64) -> (r: Result<(usize, u8), Error>)
        requires
            self.wf(),
        ensures
            r matches Ok((pos, bit)) ==> addr % 8 == 0 && self.spec_locate(addr) is Some && pos == self.tag_pos(addr)
                && bit == self.tag_bit(addr) && pos < self.heap@.len() && bit < 8
                && (self.spec_locate(addr) matches Some((i, off)) && pos >= self.allocations@[i].start + self.allocations@[i].data_length),
            r matches Err(e) ==> (addr % 8 != 0 && e.kind == ErrorKind::Alignment)
                || (addr % 8 == 0 && self.spec_locate(addr) is None && e.kind == ErrorKind::Unmapped),
    {
        Self::ensure_aligned(addr)?;
        let (index, offset) = self.addr_to_allocation(addr)?;
        let allocation = &self.allocations[index];
        proof {
            self.lemma_alloc_bounds(index as int);
            let d = allocation.data_length as int;
            assert(offset / 64 < spec_bitfield_len(d)) by (nonlinear_arith)
                requires offset < d, spec_bitfield_len(d) == (d + 63) / 64;
        }
        let word = offset / 8;
        Ok((allocation.start + allocation.data_length + offset / 64, (word % 8) as u8))
    }

    /// The reference tag of the word at a word-aligned virtual address.
    pub fn is_reference(&self, addr: u64) -> (r: Result<bool, Error>)
        requires
            self.wf(),
        ensures
            r matches Ok(t) ==> self.spec_tag(addr) == Some(t),
            r matches Err(e) ==> self.spec_tag(addr) is None && (e.kind == ErrorKind::Alignment <==> addr % 8 != 0)
                && (e.kind == ErrorKind::Alignment || e.kind == ErrorKind::Unmapped),
    {
        let (pos, bit) = self.addr_to_reference_indices(addr)?;
        let b = self.heap[pos];
        proof {
            let (i, off) = self.spec_locate(addr).unwrap();
            assert((off / 8) / 8 == off / 64) by (nonlinear_arith) requires off >= 0;
        }
        Ok((b >> bit) & 1 == 1)
    }

    /// Sets or clears the reference tag of the word at a word-aligned virtual address.
    pub fn set_reference(&mut self, addr: u64, is_reference: bool) -> (r: Result<(), Error>)
        requires
            old(self).wf(),
        ensures
            final(self).wf(),
            final(self).allocations@ == old(self).allocations@,
            final(self).regions@ == old(self).regions@,
            final(self).virtual_mapper == old(self).virtual_mapper,
            r is Ok <==> old(self).spec_tag(addr) is Some,
            r matches Err(e) ==> *final(self) == *old(self) && (e.kind == ErrorKind::Alignment <==> addr % 8 != 0)
                && (e.kind == ErrorKind::Alignment || e.kind == ErrorKind::Unmapped),
            r is Ok ==> final(self).spec_tag(addr) == Some(is_reference) && {
                let pos = old(self).tag_pos(addr);
                &&& final(self).heap@.len() == old(self).heap@.len()
                &&& forall|p: int| 0 <= p < old(self).heap@.len() && p != pos ==> #[trigger] final(self).heap@[p] == old(self).heap@[p]
            },
            r is Ok ==> (old(self).spec_locate(addr) matches Some((i, off)) && old(self).tag_pos(addr) >= old(self).allocations@[i].start + old(self).allocations@[i].data_length),
            r is Ok ==> final(self).heap@ == old(self).heap@.update(old(self).tag_pos(addr),
                with_tag(old(self).heap@[old(self).tag_pos(addr)], old(self).tag_bit(addr), is_reference)),
    {
        let (pos, bit) = match self.addr_to_reference_indices(addr) {
            Ok(x) => x,
            Err(e) => {
                proof {
                    if addr % 8 == 0 && self.spec_locate(addr) is Some {
                        assert(false);
                    }
                }
                return Err(e);
            },
        };
        let b = self.heap[pos];
        let nb = if is_reference { b | (1u8 << bit) } else { b & !(1u8 << bit) };
        proof { lemma_bit_update(b, bit); }
        self.heap.set(pos, nb);
        proof {
            lemma_wf_heap_bytes(old(self), self);
            let (i, off) = self.spec_locate(addr).unwrap();
            assert((off / 8) / 8 == off / 64) by (nonlinear_arith) requires off >= 0;
            assert(self.spec_locate(addr) == old(self).spec_locate(addr));
        }
        Ok(())
    }
}

impl Memory {
    /// The word at a word-aligned virtual address.
    pub fn get_word(&self, addr: u64) -> (r: Result<u64, Error>)
        requires
            self.wf(),
        ensures
            r matches Ok(w) ==> addr % 8 == 0 && self.spec_get(addr, 8) is Some && w == le_value(self.spec_get(addr, 8).unwrap()),
            r matches Err(e) ==> (addr % 8 != 0 && e.kind == ErrorKind::Alignment)
                || (addr % 8 == 0 && self.spec_get(addr, 8) is None && e.kind == ErrorKind::Unmapped),
    {
        Self::ensure_aligned(addr)?;
        let bytes = self.get(addr, WORD_BYTE_SIZE)?;
        Ok(word_from_bytes(&bytes))
    }

    /// Writes a word at a word-aligned virtual address.
    pub fn set_word(&mut self, addr: u64, value: u64) -> (r: Result<(), Error>)
        requires
            old(self).wf(),
        ensures
            final(self).wf(),
            final(self).allocations@ == old(self).allocations@,
            final(self).regions@ == old(self).regions@,
            final(self).virtual_mapper == old(self).virtual_mapper,
            final(self).heap@.len() == old(self).heap@.len(),
            r is Ok <==> addr % 8 == 0 && old(self).spec_get(addr, 8) is Some,
            r matches Err(e) ==> *final(self) == *old(self) && (e.kind == ErrorKind::Alignment <==> addr % 8 != 0)
                && (e.kind == ErrorKind::Alignment || e.kind == ErrorKind::Unmapped),
            r is Ok ==> old(self).spec_set_heap(addr, le_bytes(value as nat, 8)) == Some(final(self).heap@),
    {
        Self::ensure_aligned(addr)?;
        let bytes = word_to_bytes(value);
        self.set(addr, bytes.as_slice())
    }

    /// The tagged word at a word-aligned virtual address.
    pub fn get_data_word(&self, addr: u64) -> (r: Result<DataWord, Error>)
        requires
            self.wf(),
        ensures
            r matches Ok(w) ==> self.spec_data_word(addr) == Some(w),
            r matches Err(e) ==> self.spec_data_word(addr) is None && (e.kind == ErrorKind::Alignment <==> addr % 8 != 0)
                && (e.kind == ErrorKind::Alignment || e.kind == ErrorKind::Unmapped),
    {
        let value = self.get_word(addr)?;
        let is_reference = self.is_reference(addr)?;
        Ok(DataWord { value, is_reference })
    }

    /// Writes a tagged word at a word-aligned virtual address; reading it back gives the
    /// same word, tag included.
    pub fn set_data_word(&mut self, addr: u64, value: DataWord) -> (r: Result<(), Error>)
        requires
            old(self).wf(),
        ensures
            final(self).wf(),
            final(self).allocations@ == old(self).allocations@,
            final(self).regions@ == old(self).regions@,
            final(self).virtual_mapper == old(self).virtual_mapper,
            final(self).heap@.len() == old(self).heap@.len(),
            r is Ok <==> old(self).spec_data_word(addr) is Some,
            r matches Err(e) ==> *final(self) == *old(self) && (e.kind == ErrorKind::Alignment <==> addr % 8 != 0)
                && (e.kind == ErrorKind::Alignment || e.kind == ErrorKind::Unmapped),
            r is Ok ==> final(self).spec_data_word(addr) == Some(value),
            r is Ok ==> final(self).heap@ == old(self).heap_after_data_word(addr, value),
    {
        let ghost m0 = *self;
        self.set_word(addr, value.value)?;
        let ghost m1 = *self;
        proof { lemma_tag_after_word(&m0, &m1, addr); }
        match self.set_reference(addr, value.is_reference) {
            Ok(()) => {},
            Err(e) => {
                assert(false);
                return Err(e);
            },
        }
        proof {
            lemma_data_word_written(&m0, &m1, self, addr, value);
            let (i, off) = m0.spec_locate(addr).unwrap();
            m0.lemma_alloc_bounds(i);
            lemma_pow256_eight();
            crate::opcodes::lemma_le_round_trip(value.value as nat, 8);
            assert(m1.tag_pos(addr) == m0.tag_pos(addr));
            assert(m1.tag_bit(addr) == m0.tag_bit(addr));
            assert(m1.heap@[m0.tag_pos(addr)] == m0.heap@[m0.tag_pos(addr)]);
        }
        Ok(())
    }
}

/// Writing the bytes of a word leaves its tag readable.
proof fn lemma_tag_after_word(m0: &Memory, m1: &Memory, addr: u64)
    requires
        m0.wf(),
        m1.allocations@ == m0.allocations@,
        m1.virtual_mapper == m0.virtual_mapper,
        addr % 8 == 0,
        m0.spec_get(addr, 8) is Some,
    ensures
        m1.spec_locate(addr) == m0.spec_locate(addr),
        m1.spec_locate(addr) is Some,
{
}

/// After the bytes and then the tag of a word are written, the word reads back whole.
proof fn lemma_data_word_written(m0: &Memory, m1: &Memory, m2: &Memory, addr: u64, value: DataWord)
    requires
        m0.wf(),
        m1.allocations@ == m0.allocations@,
        m1.virtual_mapper == m0.virtual_mapper,
        m2.allocations@ == m1.allocations@,
        m2.virtual_mapper == m1.virtual_mapper,
        addr % 8 == 0,
        m0.spec_get(addr, 8) is Some,
        m0.spec_set_heap(addr, le_bytes(value.value as nat, 8)) == Some(m1.heap@),
        m1.heap@.len() == m0.heap@.len(),
        m2.spec_tag(addr) == Some(value.is_reference),
        m2.heap@.len() == m1.heap@.len(),
        forall|p: int| 0 <= p < m1.heap@.len() && p != m1.tag_pos(addr) ==> #[trigger] m2.heap@[p] == m1.heap@[p],
        (m1.spec_locate(addr) matches Some((i, off)) && m1.tag_pos(addr) >= m1.allocations@[i].start + m1.allocations@[i].data_length),
    ensures
        m2.spec_data_word(addr) == Some(value),
{
    let data = le_bytes(value.value as nat, 8);
    lemma_pow256_eight();
    lemma_le_round_trip(value.value as nat, 8);
    let (i, off) = m0.spec_locate(addr).unwrap();
    let a = m0.allocations@[i];
    let p = a.start + off;
    m0.lemma_alloc_bounds(i);
    assert(m1.heap@.subrange(p, p + 8) =~= data);
    assert(m2.heap@.subrange(p, p + 8) =~= m1.heap@.subrange(p, p + 8));
    assert(m2.spec_get(addr, 8) == Some(data));
}

/// Changing heap bytes, and nothing else, keeps memory well formed.
pub proof fn lemma_wf_heap_bytes(a: &Memory, b: &Memory)
    requires
        a.wf(),
        b.heap@.len() == a.heap@.len(),
        b.allocations@ == a.allocations@,
        b.regions == a.regions,
        b.virtual_mapper == a.virtual_mapper,
        b.next_allocation_id == a.next_allocation_id,
    ensures
        b.wf(),
{
    assert forall|j: int| 0 <= j < b.virtual_mapper.blocks@.len() implies #[trigger] b.block_owned(j) by {
        assert(a.block_owned(j));
    }
    assert forall|i: int| 0 <= i < b.allocations@.len() implies #[trigger] b.alloc_has_region(i) by {
        assert(a.alloc_has_region(i));
    }
    assert forall|i: int| 0 <= i < b.allocations@.len() implies #[trigger] b.alloc_has_block(i) by {
        assert(a.alloc_has_block(i));
    }
    assert forall|k: int| 0 <= k < b.regions@.len() implies #[trigger] b.region_owned(k) by {
        assert(a.region_owned(k));
    }
}


impl Memory {
    /// Removes an allocation: its table entry, its virtual block and its region. An unknown
    /// id is an error.
    pub fn deallocate(&mut self, id: u64) -> (r: Result<(), Error>)
        requires
            old(self).wf(),
        ensures
            final(self).wf(),
            final(self).heap@ == old(self).heap@,
            final(self).next_allocation_id == old(self).next_allocation_id,
            final(self).virtual_mapper.next_address == old(self).virtual_mapper.next_address,
            final(self).regions.next_id == old(self).regions.next_id,
            final(self).virtual_mapper.next_block_id == old(self).virtual_mapper.next_block_id,
            r is Err <==> !old(self).has_allocation(id),
            r matches Err(e) ==> e.kind == ErrorKind::InvalidId && *final(self) == *old(self),
            r is Ok ==> final(self).allocations@ == old(self).allocations@.remove(old(self).alloc_index(id)),
            r is Ok ==> exists|j: int| 0 <= j < old(self).virtual_mapper.blocks@.len()
                && final(self).virtual_mapper.blocks@ == old(self).virtual_mapper.blocks@.remove(j),
            r is Ok ==> forall|k: u64| #[trigger] old(self).virtual_mapper.mappings@.contains_key(k)
                && old(self).virtual_mapper.mappings@[k].block != old(self).allocations@[old(self).alloc_index(id)].virtual_block
                ==> final(self).virtual_mapper.mappings@.contains_key(k) && final(self).virtual_mapper.mappings@[k] == old(self).virtual_mapper.mappings@[k],
    {
        let index = match self.find_allocation(id) {
            Some(i) => i,
            None => return Err(Error::of_kind(ErrorKind::InvalidId, "Invalid allocation ID")),
        };
        let ghost m0 = *self;
        let a = self.allocations[index];
        proof {
            assert(m0.alloc_has_region(index as int));
            assert(m0.alloc_has_block(index as int));
        }
        self.allocations.remove(index);
        match self.virtual_mapper.unmap(a.virtual_block) {
            Ok(()) => {},
            Err(e) => { assert(false); return Err(e); },
        }
        let ghost len = self.heap@.len() as int;
        match self.regions.deallocate(a.region, Ghost(len)) {
            Ok(()) => {},
            Err(e) => { assert(false); return Err(e); },
        }
        proof { lemma_deallocate_wf(&m0, self, index as int); }
        Ok(())
    }
}

/// Removing an allocation together with its block and its region keeps memory well formed.
#[verifier::rlimit(100)]
proof fn lemma_deallocate_wf(m0: &Memory, m: &Memory, index: int)
    requires
        m0.wf(),
        0 <= index < m0.allocations@.len(),
        m.allocations@ == m0.allocations@.remove(index),
        m.heap@ == m0.heap@,
        m.next_allocation_id == m0.next_allocation_id,
        m.virtual_mapper.wf(),
        m.regions.wf(m.heap@.len() as int),
        exists|j: int| 0 <= j < m0.virtual_mapper.blocks@.len() && m0.virtual_mapper.blocks@[j].id == m0.allocations@[index].virtual_block
            && m.virtual_mapper.blocks@ == m0.virtual_mapper.blocks@.remove(j),
        crate::interpreter::regions::used_kept_except(m0.regions@, m.regions@, m0.allocations@[index].region),
    ensures
        m.wf(),
{
    assert forall|j: int| 0 <= j < m.virtual_mapper.blocks@.len() implies #[trigger] m.block_owned(j) by {
        let a = m0.allocations@[index];
        let jb = choose|jj: int| 0 <= jj < m0.virtual_mapper.blocks@.len() && m0.virtual_mapper.blocks@[jj].id == a.virtual_block
            && m.virtual_mapper.blocks@ == m0.virtual_mapper.blocks@.remove(jj);
        let oj = if j < jb { j } else { j + 1 };
        let b = m.virtual_mapper.blocks@[j];
        assert(b == m0.virtual_mapper.blocks@[oj]);
        assert(m0.block_owned(oj));
        let i = choose|i: int| 0 <= i < m0.allocations@.len() && m0.allocations@[i].id == b.allocation
            && m0.allocations@[i].virtual_block == b.id;
        assert(b.id != a.virtual_block);
        assert(i != index);
        let ni = if i < index { i } else { i - 1 };
        assert(m.allocations@[ni] == m0.allocations@[i]);
    }
    let a = m0.allocations@[index];
    let al = m.allocations@;
    let al0 = m0.allocations@;
    assert(m0.alloc_has_region(index));
    assert(m0.alloc_has_block(index));
    let ka = choose|k: int| 0 <= k < m0.regions@.len() && m0.regions@[k].id == a.region
        && m0.regions@[k].state == HeapRegionState::Used(a.id) && m0.regions@[k].base == a.start
        && m0.regions@[k].length == spec_total_region_len(a.data_length as int);
    let jb = choose|j: int| 0 <= j < m0.virtual_mapper.blocks@.len() && m0.virtual_mapper.blocks@[j].id == a.virtual_block
        && m.virtual_mapper.blocks@ == m0.virtual_mapper.blocks@.remove(j);
    assert forall|i: int| 0 <= i < al.len() implies (#[trigger] al[i]).id < m.next_allocation_id && al[i].data_length <= MAX_MEMORY_SIZE by {
        let oi = if i < index { i } else { i + 1 };
        assert(al[i] == al0[oi]);
    }
    assert forall|i: int, j: int| 0 <= i < al.len() && 0 <= j < al.len() && i != j implies #[trigger] al[i].id != #[trigger] al[j].id by {
        let oi = if i < index { i } else { i + 1 };
        let oj = if j < index { j } else { j + 1 };
        assert(al[i] == al0[oi] && al[j] == al0[oj]);
    }
    assert forall|i: int| 0 <= i < al.len() implies #[trigger] m.alloc_has_region(i) by {
        let oi = if i < index { i } else { i + 1 };
        let b = al0[oi];
        assert(al[i] == b);
        assert(m0.alloc_has_region(oi));
        let kb = choose|k: int| 0 <= k < m0.regions@.len() && m0.regions@[k].id == b.region
            && m0.regions@[k].state == HeapRegionState::Used(b.id) && m0.regions@[k].base == b.start
            && m0.regions@[k].length == spec_total_region_len(b.data_length as int);
        assert(b.id != a.id);
        assert(kb != ka);
        assert(m0.regions@[kb].id != a.region);
        let k = choose|k: int| 0 <= k < m.regions@.len() && m.regions@[k] == m0.regions@[kb];
    }
    assert forall|i: int| 0 <= i < al.len() implies #[trigger] m.alloc_has_block(i) by {
        let oi = if i < index { i } else { i + 1 };
        let b = al0[oi];
        assert(al[i] == b);
        assert(m0.alloc_has_block(oi));
        let j = choose|j: int| 0 <= j < m0.virtual_mapper.blocks@.len() && m0.virtual_mapper.blocks@[j].id == b.virtual_block
            && m0.virtual_mapper.blocks@[j].allocation == b.id && m0.virtual_mapper.blocks@[j].size == b.data_length;
        assert(j != jb);
        let nj = if j < jb { j } else { j - 1 };
        assert(m.virtual_mapper.blocks@[nj] == m0.virtual_mapper.blocks@[j]);
    }
    assert forall|k: int| 0 <= k < m.regions@.len() implies #[trigger] m.region_owned(k) by {
        let r = m.regions@[k];
        if r.state is Used {
            let j = choose|j: int| 0 <= j < m0.regions@.len() && m0.regions@[j] == r && m0.regions@[j].id != a.region;
            assert(m0.region_owned(j));
            let oi = choose|i: int| 0 <= i < al0.len() && al0[i].id == r.state->Used_0 && al0[i].region == r.id;
            assert(oi != index);
            let i = if oi < index { oi } else { oi - 1 };
            assert(al[i] == al0[oi]);
        }
    }
}


/// How many entries are not yet marked.
pub open spec fn count_unmarked(s: Seq<bool>) -> nat
    decreases s.len(),
{
    if s.len() == 0 {
        0
    } else {
        (if s.last() { 0nat } else { 1nat }) + count_unmarked(s.drop_last())
    }
}

/// Marking an unmarked entry lowers the count by one.
pub proof fn lemma_mark_one(s: Seq<bool>, i: int)
    requires
        0 <= i < s.len(),
        !s[i],
    ensures
        count_unmarked(s.update(i, true)) + 1 == count_unmarked(s),
    decreases s.len(),
{
    let u = s.update(i, true);
    if i == s.len() - 1 {
        assert(u.drop_last() =~= s.drop_last());
    } else {
        assert(u.drop_last() =~= s.drop_last().update(i, true));
        lemma_mark_one(s.drop_last(), i);
    }
}

impl Memory {
    /// The tagged words inside the payload of allocation `index`, in order: pushes the value
    /// of each word whose reference tag is set.
    fn push_references(&self, index: usize, next: &mut Vec<u64>)
        requires
            self.wf(),
            index < self.allocations@.len(),
        ensures
            final(next)@.len() >= old(next)@.len(),
            final(next)@.subrange(0, old(next)@.len() as int) == old(next)@,
            forall|t: int| 0 <= t < self.allocations@[index as int].data_length / 8 && #[trigger] self.word_tag(index as int, t)
                ==> final(next)@.contains(self.word_value(index as int, t)),
            forall|q: int| old(next)@.len() <= q < final(next)@.len() ==> self.is_tagged_word_of(index as int, #[trigger] final(next)@[q]),
    {
        let a = self.allocations[index];
        proof { self.lemma_alloc_bounds(index as int); }
        let words = a.data_length / 8;
        let mut t: usize = 0;
        while t < words
            invariant
                self.wf(),
                index < self.allocations@.len(),
                a == self.allocations@[index as int],
                a.start + spec_total_region_len(a.data_length as int) <= self.heap@.len(),
                words == a.data_length / 8,
                t <= words,
                next@.len() >= old(next)@.len(),
                next@.subrange(0, old(next)@.len() as int) == old(next)@,
                forall|u: int| 0 <= u < t && #[trigger] self.word_tag(index as int, u) ==> next@.contains(self.word_value(index as int, u)),
                forall|q: int| old(next)@.len() <= q < next@.len() ==> self.is_tagged_word_of(index as int, #[trigger] next@[q]),
            decreases words - t,
        {
            proof {
                let d = a.data_length as int;
                assert(t / 8 < spec_bitfield_len(d)) by (nonlinear_arith)
                    requires t < d / 8, spec_bitfield_len(d) == (d + 63) / 64;
                assert(t * 8 + 8 <= d) by (nonlinear_arith)
                    requires t < d / 8;
            }
            let tag_byte = self.heap[a.start + a.data_length + t / 8];
            let bit = (t % 8) as u8;
            let ghost before = next@;
            if (tag_byte >> bit) & 1 == 1 {
                let base = a.start + t * 8;
                let mut bytes: Vec<u8> = Vec::new();
                let mut k: usize = 0;
                while k < 8
                    invariant
                        k <= 8,
                        bytes@ == self.heap@.subrange(base as int, base + k),
                        base + 8 <= self.heap@.len(),
                        self.heap@.len() <= MAX_MEMORY_SIZE,
                    decreases 8 - k,
                {
                    bytes.push(self.heap[base + k]);
                    assert(bytes@ =~= self.heap@.subrange(base as int, base + k + 1));
                    k = k + 1;
                }
                let value = word_from_bytes(&bytes);
                next.push(value);
                assert(next@.subrange(0, old(next)@.len() as int) =~= before.subrange(0, old(next)@.len() as int));
                assert(next@[next@.len() - 1] == self.word_value(index as int, t as int));
            }
            proof {
                assert forall|q: int| old(next)@.len() <= q < next@.len() implies self.is_tagged_word_of(index as int, #[trigger] next@[q]) by {
                    if q < before.len() {
                        assert(next@[q] == before[q]);
                    } else {
                        assert(self.word_tag(index as int, t as int));
                    }
                }
                assert forall|u: int| 0 <= u < t + 1 && #[trigger] self.word_tag(index as int, u) implies next@.contains(self.word_value(index as int, u)) by {
                    if u < t {
                        let w = self.word_value(index as int, u);
                        let x = choose|x: int| 0 <= x < before.len() && before[x] == w;
                        assert(next@[x] == before[x]);
                    } else {
                        assert(next@[next@.len() - 1] == self.word_value(index as int, t as int));
                    }
                }
            }
            t = t + 1;
        }
    }
}

/// Allocation `b` in heap `hb` is allocation `a` of heap `ha`, perhaps at another physical
/// place, with the same bytes in its payload and bitfield.
pub open spec fn same_allocation(a: Allocation, ha: Seq<u8>, b: Allocation, hb: Seq<u8>) -> bool {
    &&& a.id == b.id
    &&& a.data_length == b.data_length
    &&& a.is_collectible == b.is_collectible
    &&& a.virtual_block == b.virtual_block
    &&& a.region == b.region
    &&& forall|t: int| 0 <= t < spec_total_region_len(a.data_length as int) ==> #[trigger] hb[b.start + t] == ha[a.start + t]
}

/// Allocation `i` of `new` is one of `old`, unchanged but for where its bytes lie.
pub open spec fn kept_from(old: &Memory, new: &Memory, i: int) -> bool {
    exists|j: int| 0 <= j < old.allocations@.len()
        && #[trigger] same_allocation(old.allocations@[j], old.heap@, new.allocations@[i], new.heap@)
}

/// Every allocation of `new` is one of `old`, unchanged but for where its bytes lie, and
/// every virtual block of `new` is one of `old`.
pub open spec fn survivors_kept(old: &Memory, new: &Memory) -> bool {
    &&& forall|i: int| 0 <= i < new.allocations@.len() ==> #[trigger] kept_from(old, new, i)
    &&& forall|j: int| 0 <= j < new.virtual_mapper.blocks@.len() ==> old.virtual_mapper.blocks@.contains(#[trigger] new.virtual_mapper.blocks@[j])
}

/// Every allocation of `old` that is not collectible is still in `new`.
pub open spec fn pinned_kept(old: &Memory, new: &Memory) -> bool {
    forall|j: int| 0 <= j < old.allocations@.len() && !(#[trigger] old.allocations@[j]).is_collectible ==> new.has_allocation(old.allocations@[j].id)
}

/// Keeping survivors is transitive.
pub proof fn lemma_survivors_trans(a: &Memory, b: &Memory, c: &Memory)
    requires
        survivors_kept(a, b),
        survivors_kept(b, c),
    ensures
        survivors_kept(a, c),
{
    assert forall|i: int| 0 <= i < c.allocations@.len() implies #[trigger] kept_from(a, c, i) by {
        assert(kept_from(b, c, i));
        let k = choose|k: int| 0 <= k < b.allocations@.len() && same_allocation(b.allocations@[k], b.heap@, c.allocations@[i], c.heap@);
        assert(kept_from(a, b, k));
        let j = choose|j: int| 0 <= j < a.allocations@.len() && same_allocation(a.allocations@[j], a.heap@, b.allocations@[k], b.heap@);
        let x = a.allocations@[j];
        let y = b.allocations@[k];
        let z = c.allocations@[i];
        assert forall|t: int| 0 <= t < spec_total_region_len(x.data_length as int) implies #[trigger] c.heap@[z.start + t] == a.heap@[x.start + t] by {
            assert(c.heap@[z.start + t] == b.heap@[y.start + t]);
        }
        assert(same_allocation(x, a.heap@, z, c.heap@));
    }
    assert forall|j: int| 0 <= j < c.virtual_mapper.blocks@.len() implies a.virtual_mapper.blocks@.contains(#[trigger] c.virtual_mapper.blocks@[j]) by {
        let blk = c.virtual_mapper.blocks@[j];
        assert(b.virtual_mapper.blocks@.contains(blk));
        let k = choose|k: int| 0 <= k < b.virtual_mapper.blocks@.len() && b.virtual_mapper.blocks@[k] == blk;
        assert(a.virtual_mapper.blocks@.contains(b.virtual_mapper.blocks@[k]));
    }
}

/// A memory keeps its own survivors.
pub proof fn lemma_survivors_refl(a: &Memory)
    ensures
        survivors_kept(a, a),
{
    assert forall|i: int| 0 <= i < a.allocations@.len() implies #[trigger] kept_from(a, a, i) by {
        assert(same_allocation(a.allocations@[i], a.heap@, a.allocations@[i], a.heap@));
    }
    assert forall|j: int| 0 <= j < a.virtual_mapper.blocks@.len() implies a.virtual_mapper.blocks@.contains(#[trigger] a.virtual_mapper.blocks@[j]) by {
        assert(a.virtual_mapper.blocks@[j] == a.virtual_mapper.blocks@[j]);
    }
}

/// Removing an allocation keeps the others, and their blocks.
proof fn lemma_deallocate_keeps(m0: &Memory, m1: &Memory, id: u64)
    requires
        m0.wf(),
        m0.has_allocation(id),
        m1.heap@ == m0.heap@,
        m1.allocations@ == m0.allocations@.remove(m0.alloc_index(id)),
        exists|j: int| 0 <= j < m0.virtual_mapper.blocks@.len() && m1.virtual_mapper.blocks@ == m0.virtual_mapper.blocks@.remove(j),
    ensures
        survivors_kept(m0, m1),
        forall|j: int| 0 <= j < m0.allocations@.len() && m0.allocations@[j].id != id ==> m1.has_allocation(#[trigger] m0.allocations@[j].id),
{
    let x = m0.alloc_index(id);
    assert forall|i: int| 0 <= i < m1.allocations@.len() implies #[trigger] kept_from(m0, m1, i) by {
        let j = if i < x { i } else { i + 1 };
        assert(m1.allocations@[i] == m0.allocations@[j]);
        assert(same_allocation(m0.allocations@[j], m0.heap@, m1.allocations@[i], m1.heap@));
    }
    let jb = choose|j: int| 0 <= j < m0.virtual_mapper.blocks@.len() && m1.virtual_mapper.blocks@ == m0.virtual_mapper.blocks@.remove(j);
    assert forall|j: int| 0 <= j < m1.virtual_mapper.blocks@.len() implies m0.virtual_mapper.blocks@.contains(#[trigger] m1.virtual_mapper.blocks@[j]) by {
        let oj = if j < jb { j } else { j + 1 };
        assert(m1.virtual_mapper.blocks@[j] == m0.virtual_mapper.blocks@[oj]);
    }
    assert forall|j: int| 0 <= j < m0.allocations@.len() && m0.allocations@[j].id != id implies m1.has_allocation(#[trigger] m0.allocations@[j].id) by {
        assert(j != x);
        let i = if j < x { j } else { j - 1 };
        assert(m1.allocations@[i] == m0.allocations@[j]);
    }
}


/// The region with id `rid` in `rs`, used by allocation `a`, holding its bytes.
pub open spec fn region_of(rs: Seq<crate::interpreter::regions::HeapRegion>, k: int, a: Allocation) -> bool {
    &&& 0 <= k < rs.len()
    &&& rs[k].id == a.region
    &&& rs[k].state == HeapRegionState::Used(a.id)
    &&& rs[k].length == spec_total_region_len(a.data_length as int)
}

impl Memory {
    /// Compacts the heap and points each allocation at the new place of its region.
    #[verifier::rlimit(60)]
    fn compact_and_relocate(&mut self)
        requires
            old(self).wf(),
        ensures
            final(self).wf(),
            survivors_kept(old(self), final(self)),
            final(self).allocations@.len() == old(self).allocations@.len(),
            forall|i: int| 0 <= i < old(self).allocations@.len() ==> #[trigger] final(self).allocations@[i]
                == (Allocation { start: final(self).allocations@[i].start, ..old(self).allocations@[i] }),
            final(self).virtual_mapper == old(self).virtual_mapper,
            final(self).next_allocation_id == old(self).next_allocation_id,
            final(self).heap@.len() == old(self).heap@.len(),
            final(self).regions.next_id <= old(self).regions.next_id + 1,
            old(self).regions.next_id < u64::MAX - 1 ==> forall|k: int| 0 <= k < final(self).regions@.len() - 1
                ==> #[trigger] final(self).regions@[k].state is Used,
    {
        if self.regions.next_id >= u64::MAX - 1 {
            proof { lemma_survivors_refl(self); }
            return;
        }
        let ghost m0 = *self;
        self.regions.compact(&mut self.heap);
        let ghost m1 = *self;
        let mut i: usize = 0;
        proof { reveal(relocated_prefix); }
        while i < self.allocations.len()
            invariant
                m0.wf(),
                m1.regions.next_id <= m0.regions.next_id + 1,
                self.regions == m1.regions,
                self.heap == m1.heap,
                self.virtual_mapper == m0.virtual_mapper,
                self.next_allocation_id == m0.next_allocation_id,
                m1.regions.wf(m1.heap@.len() as int),
                m1.heap@.len() == m0.heap@.len(),
                crate::interpreter::regions::moved_with_contents(m0.regions@, m0.heap@, m1.regions@, m1.heap@),
                relocated_prefix(&m0, &m1, self.allocations@, i as int),
            decreases m0.allocations@.len() - i,
        {
            proof { lemma_prefix_rest(&m0, &m1, self.allocations@, i as int); }
            let a = self.allocations[i];
            proof { lemma_region_moved(&m0, &m1, i as int); }
            match self.regions.get(a.region) {
                Some(r) => {
                    proof {
                        let kr = choose|k: int| 0 <= k < m1.regions@.len() && m1.regions@[k] == r && r.id == a.region;
                        let k = choose|k: int| region_of(m1.regions@, k, m0.allocations@[i as int]);
                        assert(kr == k);
                        lemma_prefix_step(&m0, &m1, self.allocations@, i as int, k);
                    }
                    self.allocations.set(i, Allocation { start: r.base, ..a });
                },
                None => {
                    assert(false);
                },
            }
            i = i + 1;
        }
        proof { lemma_prefix_rest(&m0, &m1, self.allocations@, i as int); }
        proof { lemma_relocated(&m0, &m1, self); }
    }
}

/// The first `i` allocations of `al` point at their regions after compaction; the rest
/// are as they were.
#[verifier::opaque]
pub open spec fn relocated_prefix(m0: &Memory, m1: &Memory, al: Seq<Allocation>, i: int) -> bool {
    &&& al.len() == m0.allocations@.len()
    &&& 0 <= i <= al.len()
    &&& forall|j: int| i <= j < al.len() ==> #[trigger] al[j] == m0.allocations@[j]
    &&& forall|j: int| 0 <= j < i ==> #[trigger] al[j] == (Allocation { start: al[j].start, ..m0.allocations@[j] })
        && exists|k: int| region_of(m1.regions@, k, m0.allocations@[j]) && m1.regions@[k].base == al[j].start
}

proof fn lemma_prefix_rest(m0: &Memory, m1: &Memory, al: Seq<Allocation>, i: int)
    requires
        relocated_prefix(m0, m1, al, i),
    ensures
        al.len() == m0.allocations@.len(),
        0 <= i <= al.len(),
        i < al.len() ==> al[i] == m0.allocations@[i],
        forall|j: int| 0 <= j < i ==> #[trigger] al[j] == (Allocation { start: al[j].start, ..m0.allocations@[j] })
            && exists|k: int| region_of(m1.regions@, k, m0.allocations@[j]) && m1.regions@[k].base == al[j].start,
{
    reveal(relocated_prefix);
}

proof fn lemma_prefix_step(m0: &Memory, m1: &Memory, al: Seq<Allocation>, i: int, k: int)
    requires
        relocated_prefix(m0, m1, al, i),
        i < al.len(),
        region_of(m1.regions@, k, m0.allocations@[i]),
    ensures
        relocated_prefix(m0, m1, al.update(i, Allocation { start: m1.regions@[k].base, ..al[i] }), i + 1),
{
    reveal(relocated_prefix);
    let nal = al.update(i, Allocation { start: m1.regions@[k].base, ..al[i] });
    assert forall|j: int| 0 <= j < i + 1 implies #[trigger] nal[j] == (Allocation { start: nal[j].start, ..m0.allocations@[j] })
        && exists|k2: int| region_of(m1.regions@, k2, m0.allocations@[j]) && m1.regions@[k2].base == nal[j].start by {
        if j == i {
            assert(region_of(m1.regions@, k, m0.allocations@[j]) && m1.regions@[k].base == nal[j].start);
        } else {
            assert(nal[j] == al[j]);
        }
    }
}

/// After compaction, the region of each allocation is still there, once.
proof fn lemma_region_moved(m0: &Memory, m1: &Memory, i: int)
    requires
        m0.wf(),
        m1.regions.wf(m1.heap@.len() as int),
        crate::interpreter::regions::moved_with_contents(m0.regions@, m0.heap@, m1.regions@, m1.heap@),
        0 <= i < m0.allocations@.len(),
    ensures
        exists|k: int| region_of(m1.regions@, k, m0.allocations@[i]),
        forall|k: int| #[trigger] region_of(m1.regions@, k, m0.allocations@[i]) ==> forall|k2: int| 0 <= k2 < m1.regions@.len() && m1.regions@[k2].id == m0.allocations@[i].region ==> k2 == k,
{
    let a = m0.allocations@[i];
    assert(m0.alloc_has_region(i));
    let kb = choose|k: int| 0 <= k < m0.regions@.len() && m0.regions@[k].id == a.region
        && m0.regions@[k].state == HeapRegionState::Used(a.id) && m0.regions@[k].base == a.start
        && m0.regions@[k].length == spec_total_region_len(a.data_length as int);
    assert(m0.regions@[kb].state is Used);
    let k2 = choose|k: int| 0 <= k < m1.regions@.len() && m1.regions@[k].id == m0.regions@[kb].id
        && m1.regions@[k].state == m0.regions@[kb].state && m1.regions@[k].length == m0.regions@[kb].length
        && forall|t: int| 0 <= t < m0.regions@[kb].length ==> #[trigger] m1.heap@[m1.regions@[k].base + t] == m0.heap@[m0.regions@[kb].base + t];
    assert(region_of(m1.regions@, k2, a));
}

/// After compaction and relocation, memory is well formed and holds the same allocations
/// with the same bytes.
proof fn lemma_relocated(m0: &Memory, m1: &Memory, m: &Memory)
    requires
        m0.wf(),
        m.regions == m1.regions,
        m.heap == m1.heap,
        m.virtual_mapper == m0.virtual_mapper,
        m.next_allocation_id == m0.next_allocation_id,
        m1.regions.wf(m1.heap@.len() as int),
        m1.heap@.len() == m0.heap@.len(),
        crate::interpreter::regions::moved_with_contents(m0.regions@, m0.heap@, m1.regions@, m1.heap@),
        relocated_prefix(m0, m1, m.allocations@, m.allocations@.len() as int),
    ensures
        m.wf(),
        survivors_kept(m0, m),
{
    reveal(relocated_prefix);
    assert forall|j: int| 0 <= j < m.virtual_mapper.blocks@.len() implies #[trigger] m.block_owned(j) by {
        assert(m0.block_owned(j));
        let b = m.virtual_mapper.blocks@[j];
        let i = choose|i: int| 0 <= i < m0.allocations@.len() && m0.allocations@[i].id == b.allocation
            && m0.allocations@[i].virtual_block == b.id;
        assert(m.allocations@[i] == (Allocation { start: m.allocations@[i].start, ..m0.allocations@[i] }));
    }
    reveal(relocated_prefix);
    let al = m.allocations@;
    let al0 = m0.allocations@;
    assert forall|i: int| 0 <= i < al.len() implies (#[trigger] al[i]).id < m.next_allocation_id && al[i].data_length <= MAX_MEMORY_SIZE by {
        assert(al[i] == (Allocation { start: al[i].start, ..al0[i] }));
    }
    assert forall|i: int, j: int| 0 <= i < al.len() && 0 <= j < al.len() && i != j implies #[trigger] al[i].id != #[trigger] al[j].id by {
        assert(al[i] == (Allocation { start: al[i].start, ..al0[i] }));
        assert(al[j] == (Allocation { start: al[j].start, ..al0[j] }));
    }
    assert forall|i: int| 0 <= i < al.len() implies #[trigger] m.alloc_has_region(i) by {
        assert(al[i] == (Allocation { start: al[i].start, ..al0[i] }));
        let k = choose|k: int| region_of(m1.regions@, k, al0[i]) && m1.regions@[k].base == al[i].start;
    }
    assert forall|i: int| 0 <= i < al.len() implies #[trigger] m.alloc_has_block(i) by {
        assert(al[i] == (Allocation { start: al[i].start, ..al0[i] }));
        assert(m0.alloc_has_block(i));
    }
    assert forall|k: int| 0 <= k < m.regions@.len() implies #[trigger] m.region_owned(k) by {
        let r = m.regions@[k];
        if r.state is Used {
            let j = choose|j: int| 0 <= j < m0.regions@.len() && r.id == m0.regions@[j].id && r.state == m0.regions@[j].state
                && r.length == m0.regions@[j].length
                && forall|t: int| 0 <= t < m0.regions@[j].length ==> #[trigger] m1.heap@[r.base + t] == m0.heap@[m0.regions@[j].base + t];
            assert(m0.region_owned(j));
            let i = choose|i: int| 0 <= i < al0.len() && al0[i].id == r.state->Used_0 && al0[i].region == r.id;
            assert(al[i] == (Allocation { start: al[i].start, ..al0[i] }));
        }
    }
    assert forall|i: int| 0 <= i < al.len() implies #[trigger] kept_from(m0, m, i) by {
        let a0 = al0[i];
        assert(al[i] == (Allocation { start: al[i].start, ..a0 }));
        let k = choose|k: int| region_of(m1.regions@, k, a0) && m1.regions@[k].base == al[i].start;
        assert(m0.alloc_has_region(i));
        let kb = choose|kk: int| 0 <= kk < m0.regions@.len() && m0.regions@[kk].id == a0.region
            && m0.regions@[kk].state == HeapRegionState::Used(a0.id) && m0.regions@[kk].base == a0.start
            && m0.regions@[kk].length == spec_total_region_len(a0.data_length as int);
        let k2 = choose|kk: int| 0 <= kk < m1.regions@.len() && m1.regions@[kk].id == m0.regions@[kb].id
            && m1.regions@[kk].state == m0.regions@[kb].state && m1.regions@[kk].length == m0.regions@[kb].length
            && forall|t: int| 0 <= t < m0.regions@[kb].length ==> #[trigger] m1.heap@[m1.regions@[kk].base + t] == m0.heap@[m0.regions@[kb].base + t];
        assert(k == k2);
        assert forall|t: int| 0 <= t < spec_total_region_len(a0.data_length as int) implies #[trigger] m.heap@[al[i].start + t] == m0.heap@[a0.start + t] by {
            assert(m1.heap@[m1.regions@[k2].base + t] == m0.heap@[m0.regions@[kb].base + t]);
        }
        assert(same_allocation(al0[i], m0.heap@, al[i], m.heap@));
    }
    assert forall|j: int| 0 <= j < m.virtual_mapper.blocks@.len() implies m0.virtual_mapper.blocks@.contains(#[trigger] m.virtual_mapper.blocks@[j]) by {
        assert(m0.virtual_mapper.blocks@[j] == m.virtual_mapper.blocks@[j]);
    }
}


impl Memory {
    /// Collects garbage: traces from the tagged roots and from every allocation that is not
    /// collectible, through the tagged words of each allocation reached; frees every
    /// collectible allocation not reached; then compacts the heap. Addresses that lead
    /// nowhere are skipped.
    pub fn force_garbage_collection(&mut self, gc_roots: &[DataWord]) -> (r: Result<(), Error>)
        requires
            old(self).wf(),
        ensures
            r is Ok,
            final(self).wf(),
            survivors_kept(old(self), final(self)),
            pinned_kept(old(self), final(self)),
            forall|id: u64| #[trigger] old(self).reachable(gc_roots@, id) ==> final(self).has_allocation(id),
            forall|i: int| 0 <= i < final(self).allocations@.len() ==> old(self).reachable(gc_roots@, #[trigger] final(self).allocations@[i].id),
            final(self).virtual_mapper.next_address == old(self).virtual_mapper.next_address,
            final(self).next_allocation_id == old(self).next_allocation_id,
            final(self).heap@.len() == old(self).heap@.len(),
            final(self).regions.next_id <= old(self).regions.next_id + 1,
            final(self).virtual_mapper.next_block_id == old(self).virtual_mapper.next_block_id,
            old(self).regions.next_id < u64::MAX - 1 ==> forall|k: int| 0 <= k < final(self).regions@.len() - 1
                ==> #[trigger] final(self).regions@[k].state is Used,
            forall|j: int| 0 <= j < final(self).virtual_mapper.blocks@.len()
                ==> final(self).has_allocation(#[trigger] final(self).virtual_mapper.blocks@[j].allocation),
            forall|blk: VirtualAddressBlock| #[trigger] final(self).virtual_mapper.blocks@.contains(blk)
                <==> old(self).virtual_mapper.blocks@.contains(blk) && old(self).reachable(gc_roots@, blk.allocation),
    {
        let ghost m0 = *self;
        let ghost roots = gc_roots@;
        let mut next: Vec<u64> = Vec::new();
        let mut k: usize = 0;
        while k < gc_roots.len()
            invariant
                k <= gc_roots@.len(),
                roots == gc_roots@,
                forall|r: int| 0 <= r < k && (#[trigger] roots[r]).is_reference ==> next@.contains(roots[r].value),
                forall|a: u64| #[trigger] next@.contains(a) ==> exists|r: int| 0 <= r < roots.len() && (#[trigger] roots[r]).is_reference && roots[r].value == a,
            decreases gc_roots@.len() - k,
        {
            if gc_roots[k].is_reference {
                let ghost before = next@;
                next.push(gc_roots[k].value);
                proof {
                    lemma_push_keeps_contains(before, gc_roots[k as int].value);
                    assert forall|a: u64| #[trigger] next@.contains(a) implies exists|r: int| 0 <= r < roots.len() && (#[trigger] roots[r]).is_reference && roots[r].value == a by {
                        let x = choose|x: int| 0 <= x < next@.len() && next@[x] == a;
                        if x < before.len() {
                            assert(before[x] == a);
                            assert(before.contains(a));
                        } else {
                            assert(roots[k as int] == gc_roots@[k as int]);
                            assert(0 <= k < roots.len() && roots[k as int].is_reference && roots[k as int].value == a);
                        }
                    }
                }
            }
            k = k + 1;
        }
        let mut marked: Vec<bool> = Vec::new();
        let mut i: usize = 0;
        while i < self.allocations.len()
            invariant
                *self == m0,
                m0.wf(),
                i <= self.allocations@.len(),
                marked@.len() == i,
                forall|x: int| 0 <= x < i ==> !(#[trigger] marked@[x]),
                forall|r: int| 0 <= r < roots.len() && (#[trigger] roots[r]).is_reference ==> next@.contains(roots[r].value),
                forall|j: int| 0 <= j < i && !(#[trigger] m0.allocations@[j]).is_collectible ==> next@.contains(m0.base_of(m0.allocations@[j].id)),
                forall|a: u64| #[trigger] next@.contains(a) ==> (exists|r: int| 0 <= r < roots.len() && (#[trigger] roots[r]).is_reference && roots[r].value == a)
                    || (exists|j: int| 0 <= j < m0.allocations@.len() && !(#[trigger] m0.allocations@[j]).is_collectible && m0.base_of(m0.allocations@[j].id) == a),
            decreases self.allocations@.len() - i,
        {
            marked.push(false);
            if !self.allocations[i].is_collectible {
                match self.virtual_mapper.get(self.allocations[i].virtual_block) {
                    Some(block) => {
                        let ghost before = next@;
                        next.push(block.base);
                        proof {
                            lemma_push_keeps_contains(before, block.base);
                            let id = m0.allocations@[i as int].id;
                            assert(m0.alloc_index(id) == i);
                            let bj = m0.virtual_mapper.block_index(m0.allocations@[i as int].virtual_block);
                            let j = choose|j: int| 0 <= j < m0.virtual_mapper.blocks@.len() && m0.virtual_mapper.blocks@[j] == block
                                && block.id == m0.allocations@[i as int].virtual_block;
                            assert(m0.virtual_mapper.blocks@[bj].id == block.id);
                            assert(bj == j);
                            assert forall|a: u64| #[trigger] next@.contains(a) implies (exists|r: int| 0 <= r < roots.len() && (#[trigger] roots[r]).is_reference && roots[r].value == a)
                                || (exists|j: int| 0 <= j < m0.allocations@.len() && !(#[trigger] m0.allocations@[j]).is_collectible && m0.base_of(m0.allocations@[j].id) == a) by {
                                let x = choose|x: int| 0 <= x < next@.len() && next@[x] == a;
                                if x < before.len() {
                                    assert(before[x] == a);
                                    assert(before.contains(a));
                                } else {
                                    assert(m0.base_of(m0.allocations@[i as int].id) == a);
                                    assert(0 <= i < m0.allocations@.len() && !m0.allocations@[i as int].is_collectible);
                                }
                            }
                        }
                    },
                    None => {
                        proof { assert(m0.alloc_has_block(i as int)); }
                    },
                }
            }
            i = i + 1;
        }
        let ghost mut seen: Set<u64> = Set::new(|a: u64| next@.contains(a));
        proof {
            assert forall|a: u64| #[trigger] seen.contains(a) implies traced_origin(&m0, roots, marked@, a) by {
                assert(next@.contains(a));
            }
        }
        while next.len() > 0
            invariant
                *self == m0,
                m0.wf(),
                marked@.len() == self.allocations@.len(),
                forall|a: u64| #[trigger] seen.contains(a) ==> next@.contains(a) || m0.spec_locate(a) is None || marked@[m0.spec_locate(a).unwrap().0],
                forall|a: u64| #[trigger] next@.contains(a) ==> seen.contains(a),
                forall|r: int| 0 <= r < roots.len() && (#[trigger] roots[r]).is_reference ==> seen.contains(roots[r].value),
                forall|j: int| 0 <= j < m0.allocations@.len() && !(#[trigger] m0.allocations@[j]).is_collectible ==> seen.contains(m0.base_of(m0.allocations@[j].id)),
                forall|x: int, t: int| 0 <= x < marked@.len() && #[trigger] marked@[x] && 0 <= t < m0.allocations@[x].data_length / 8
                    && #[trigger] m0.word_tag(x, t) ==> seen.contains(m0.word_value(x, t)),
                forall|a: u64| #[trigger] seen.contains(a) ==> traced_origin(&m0, roots, marked@, a),
                forall|x: int| 0 <= x < marked@.len() && #[trigger] marked@[x] ==> m0.reachable(roots, m0.allocations@[x].id),
            decreases count_unmarked(marked@), next@.len(),
        {
            let ghost before = next@;
            let addr = next.pop().unwrap();
            proof { lemma_pop_keeps_contains(before, next@, addr); }
            match self.addr_to_allocation(addr) {
                Err(_) => {},
                Ok((index, _)) => {
                    if !marked[index] {
                        proof {
                            lemma_mark_one(marked@, index as int);
                            assert(before.contains(addr)) by { assert(before[before.len() - 1] == addr); }
                            lemma_marked_reachable(&m0, roots, marked@, addr, index as int);
                        }
                        let ghost old_marked = marked@;
                        marked.set(index, true);
                        let ghost mid = next@;
                        self.push_references(index, &mut next);
                        proof {
                            lemma_prefix_keeps_contains(mid, next@);
                            let old_seen = seen;
                            seen = seen.union(Set::new(|a: u64| next@.contains(a)));
                            assert forall|x: int, t: int| 0 <= x < marked@.len() && #[trigger] marked@[x] && 0 <= t < m0.allocations@[x].data_length / 8
                                && #[trigger] m0.word_tag(x, t) implies seen.contains(m0.word_value(x, t)) by {
                                if x != index {
                                    assert(old_marked[x]);
                                    assert(old_seen.contains(m0.word_value(x, t)));
                                } else {
                                    assert(next@.contains(m0.word_value(x, t)));
                                }
                            }
                            assert forall|x: int| 0 <= x < marked@.len() && #[trigger] marked@[x] implies m0.reachable(roots, m0.allocations@[x].id) by {
                                if x != index { assert(old_marked[x]); }
                            }
                            assert forall|a: u64| #[trigger] seen.contains(a) implies traced_origin(&m0, roots, marked@, a) by {
                                if old_seen.contains(a) {
                                    assert(traced_origin(&m0, roots, old_marked, a));
                                    if exists|y: int| 0 <= y < old_marked.len() && #[trigger] old_marked[y] && m0.is_tagged_word_of(y, a) {
                                        let y = choose|y: int| 0 <= y < old_marked.len() && #[trigger] old_marked[y] && m0.is_tagged_word_of(y, a);
                                        assert(marked@[y]);
                                    }
                                } else {
                                    assert(next@.contains(a));
                                    let q = choose|q: int| 0 <= q < next@.len() && next@[q] == a;
                                    if q < mid.len() {
                                        assert(next@.subrange(0, mid.len() as int)[q] == next@[q]);
                                        assert(mid.contains(a));
                                        assert(false);
                                    } else {
                                        assert(m0.is_tagged_word_of(index as int, next@[q]));
                                        assert(marked@[index as int]);
                                    }
                                }
                            }
                            assert forall|a: u64| #[trigger] seen.contains(a) implies next@.contains(a) || m0.spec_locate(a) is None || marked@[m0.spec_locate(a).unwrap().0] by {
                                if !next@.contains(a) {
                                    assert(old_seen.contains(a));
                                    assert(!mid.contains(a));
                                    if before.contains(a) {
                                        assert(a == addr);
                                    } else if m0.spec_locate(a) is Some {
                                        assert(old_marked[m0.spec_locate(a).unwrap().0]);
                                    }
                                }
                            }
                        }
                    }
                },
            }
        }
        proof {
            lemma_closed_reachable(&m0, roots, marked@, seen);
        }
        let mut garbage: Vec<u64> = Vec::new();
        let ghost mut gi: Seq<int> = Seq::empty();
        let mut i: usize = 0;
        while i < self.allocations.len()
            invariant
                *self == m0,
                m0.wf(),
                marked@.len() == self.allocations@.len(),
                i <= self.allocations@.len(),
                gi.len() == garbage@.len(),
                forall|g: int| 0 <= g < gi.len() ==> 0 <= #[trigger] gi[g] < i && garbage@[g] == m0.allocations@[gi[g]].id
                    && m0.allocations@[gi[g]].is_collectible && !marked@[gi[g]],
                forall|a: int, b: int| 0 <= a < b < gi.len() ==> #[trigger] gi[a] < #[trigger] gi[b],
                forall|j: int| 0 <= j < i && (#[trigger] m0.allocations@[j]).is_collectible && !marked@[j] ==> exists|x: int| 0 <= x < gi.len() && gi[x] == j,
            decreases self.allocations@.len() - i,
        {
            if self.allocations[i].is_collectible && !marked[i] {
                garbage.push(self.allocations[i].id);
                proof {
                    let old_gi = gi;
                    gi = gi.push(i as int);
                    assert forall|j: int| 0 <= j < i + 1 && (#[trigger] m0.allocations@[j]).is_collectible && !marked@[j] implies exists|x: int| 0 <= x < gi.len() && gi[x] == j by {
                        if j < i {
                            let x = choose|x: int| 0 <= x < old_gi.len() && old_gi[x] == j;
                            assert(gi[x] == j);
                        } else {
                            assert(gi[old_gi.len() as int] == j);
                        }
                    }
                }
            }
            i = i + 1;
        }
        proof {
            assert forall|a: int, b: int| 0 <= a < b < garbage@.len() implies #[trigger] garbage@[a] != #[trigger] garbage@[b] by {
                assert(gi[a] < gi[b]);
            }
            lemma_survivors_refl(self);
            assert forall|g: int| 0 <= g < garbage@.len() implies self.has_allocation(#[trigger] garbage@[g])
                && self.allocations@[self.alloc_index(garbage@[g])].is_collectible by {
                let x = gi[g];
                assert(self.allocations@[x].id == garbage@[g]);
                let y = self.alloc_index(garbage@[g]);
                assert(y == x);
            }
            assert forall|j: int| 0 <= j < m0.allocations@.len() && !(#[trigger] m0.allocations@[j]).is_collectible implies self.has_allocation(m0.allocations@[j].id) by {
                assert(self.allocations@[j] == m0.allocations@[j]);
            }
            assert forall|j: int| 0 <= j < m0.allocations@.len() && (#[trigger] marked@[j] || !m0.allocations@[j].is_collectible) implies self.has_allocation(m0.allocations@[j].id) by {
                assert(self.allocations@[j] == m0.allocations@[j]);
            }
            assert forall|g: int, j: int| 0 <= g < garbage@.len() && 0 <= j < m0.allocations@.len() && (marked@[j] || !m0.allocations@[j].is_collectible)
                implies #[trigger] garbage@[g] != #[trigger] m0.allocations@[j].id by {
                assert(gi[g] != j);
            }
            assert forall|x: int| 0 <= x < self.allocations@.len() implies (#[trigger] marked@[m0.alloc_index(self.allocations@[x].id)]
                || !m0.allocations@[m0.alloc_index(self.allocations@[x].id)].is_collectible
                || exists|y: int| 0 <= y < garbage@.len() && garbage@[y] == self.allocations@[x].id) by {
                assert(m0.alloc_index(self.allocations@[x].id) == x);
                if m0.allocations@[x].is_collectible && !marked@[x] {
                    let y = choose|y: int| 0 <= y < gi.len() && gi[y] == x;
                    assert(garbage@[y] == self.allocations@[x].id);
                }
            }
        }
        let mut g: usize = 0;
        while g < garbage.len()
            invariant
                m0.wf(),
                self.wf(),
                survivors_kept(&m0, self),
                pinned_kept(&m0, self),
                marked@.len() == m0.allocations@.len(),
                forall|j: int| 0 <= j < m0.allocations@.len() && (#[trigger] marked@[j] || !m0.allocations@[j].is_collectible) ==> self.has_allocation(m0.allocations@[j].id),
                forall|x: int, j: int| 0 <= x < garbage@.len() && 0 <= j < m0.allocations@.len() && (marked@[j] || !m0.allocations@[j].is_collectible)
                    ==> #[trigger] garbage@[x] != #[trigger] m0.allocations@[j].id,
                self.virtual_mapper.next_address == m0.virtual_mapper.next_address,
                self.next_allocation_id == m0.next_allocation_id,
                self.heap@.len() == m0.heap@.len(),
                self.regions.next_id == m0.regions.next_id,
                self.virtual_mapper.next_block_id == m0.virtual_mapper.next_block_id,
                g <= garbage@.len(),
                forall|a: int, b: int| 0 <= a < b < garbage@.len() ==> #[trigger] garbage@[a] != #[trigger] garbage@[b],
                forall|x: int| g <= x < garbage@.len() ==> self.has_allocation(#[trigger] garbage@[x])
                    && self.allocations@[self.alloc_index(garbage@[x])].is_collectible,
                forall|x: int| 0 <= x < self.allocations@.len() ==> (#[trigger] marked@[m0.alloc_index(self.allocations@[x].id)]
                    || !m0.allocations@[m0.alloc_index(self.allocations@[x].id)].is_collectible
                    || exists|y: int| g <= y < garbage@.len() && garbage@[y] == self.allocations@[x].id),
            decreases garbage@.len() - g,
        {
            let id = garbage[g];
            let ghost before = *self;
            match self.deallocate(id) {
                Ok(()) => {},
                Err(e) => {
                    assert(false);
                    return Err(e);
                },
            }
            proof {
                lemma_deallocate_keeps(&before, self, id);
                lemma_survivors_trans(&m0, &before, self);
                lemma_garbage_step(&m0, &before, self, id);
                assert forall|x: int| g + 1 <= x < garbage@.len() implies self.has_allocation(#[trigger] garbage@[x])
                    && self.allocations@[self.alloc_index(garbage@[x])].is_collectible by {
                    let gx = garbage@[x];
                    assert(gx != id);
                    let bx = before.alloc_index(gx);
                    assert(before.allocations@[bx].id != id);
                    assert(self.has_allocation(before.allocations@[bx].id));
                    let sx = self.alloc_index(gx);
                    let ox = before.alloc_index(id);
                    let j = if sx < ox { sx } else { sx + 1 };
                    assert(self.allocations@[sx] == before.allocations@[j]);
                    assert(j == bx);
                }
                assert forall|x: int| 0 <= x < self.allocations@.len() implies (#[trigger] marked@[m0.alloc_index(self.allocations@[x].id)]
                    || !m0.allocations@[m0.alloc_index(self.allocations@[x].id)].is_collectible
                    || exists|y: int| g + 1 <= y < garbage@.len() && garbage@[y] == self.allocations@[x].id) by {
                    let ox = before.alloc_index(id);
                    let bx = if x < ox { x } else { x + 1 };
                    assert(self.allocations@[x] == before.allocations@[bx]);
                    assert(bx != ox);
                    assert(self.allocations@[x].id != id);
                    if exists|y: int| g <= y < garbage@.len() && garbage@[y] == self.allocations@[x].id {
                        let y = choose|y: int| g <= y < garbage@.len() && garbage@[y] == self.allocations@[x].id;
                        assert(y != g);
                    }
                }
                assert forall|j: int| 0 <= j < m0.allocations@.len() && (#[trigger] marked@[j] || !m0.allocations@[j].is_collectible) implies self.has_allocation(m0.allocations@[j].id) by {
                    let aid = m0.allocations@[j].id;
                    assert(before.has_allocation(aid));
                    assert(aid != id);
                    let bx = before.alloc_index(aid);
                    assert(before.allocations@[bx].id != id);
                }
            }
            g = g + 1;
        }
        let ghost before = *self;
        self.compact_and_relocate();
        proof {
            assert forall|j: int| 0 <= j < self.virtual_mapper.blocks@.len()
                implies self.has_allocation(#[trigger] self.virtual_mapper.blocks@[j].allocation) by {
                assert(self.block_owned(j));
            }
            lemma_survivors_trans(&m0, &before, self);
            assert forall|j: int| 0 <= j < m0.allocations@.len() && !(#[trigger] m0.allocations@[j]).is_collectible implies self.has_allocation(m0.allocations@[j].id) by {
                assert(before.has_allocation(m0.allocations@[j].id));
                let x = before.alloc_index(m0.allocations@[j].id);
                assert(self.allocations@[x].id == before.allocations@[x].id);
            }
            assert forall|i: int| 0 <= i < self.allocations@.len() implies m0.reachable(roots, #[trigger] self.allocations@[i].id) by {
                let id = self.allocations@[i].id;
                assert(before.allocations@[i].id == id);
                assert(kept_from(&m0, &before, i));
                let j = choose|j: int| 0 <= j < m0.allocations@.len() && same_allocation(m0.allocations@[j], m0.heap@, before.allocations@[i], before.heap@);
                assert(m0.alloc_index(id) == j);
                if !marked@[j] {
                    assert(!m0.allocations@[j].is_collectible);
                    assert(m0.is_root(roots, id));
                    let path = seq![id];
                    assert(path.len() >= 1 && m0.is_root(roots, path[0]) && path.last() == id);
                }
            }
            assert forall|id: u64| #[trigger] m0.reachable(roots, id) implies self.has_allocation(id) by {
                let j = m0.alloc_index(id);
                assert(m0.allocations@[j].id == id);
                assert(before.has_allocation(id));
                let x = before.alloc_index(id);
                assert(self.allocations@[x].id == before.allocations@[x].id);
            }
            lemma_final_blocks(&m0, self, roots);
        }
        Ok(())
    }
}

/// Where an address that collection looks at comes from: a tagged root, the base of an
/// allocation that is not collectible, or a tagged word of a marked allocation.
pub open spec fn traced_origin(m: &Memory, roots: Seq<DataWord>, marked: Seq<bool>, a: u64) -> bool {
    ||| exists|r: int| 0 <= r < roots.len() && (#[trigger] roots[r]).is_reference && roots[r].value == a
    ||| exists|j: int| 0 <= j < m.allocations@.len() && !(#[trigger] m.allocations@[j]).is_collectible && m.base_of(m.allocations@[j].id) == a
    ||| exists|y: int| 0 <= y < marked.len() && #[trigger] marked[y] && m.is_tagged_word_of(y, a)
}

/// An allocation that a tagged word of a reachable allocation leads into is reachable.
proof fn lemma_reachable_extend(m: &Memory, roots: Seq<DataWord>, from: u64, to: u64)
    requires
        m.reachable(roots, from),
        m.edge(from, to),
    ensures
        m.reachable(roots, to),
{
    let path = choose|path: Seq<u64>| path.len() >= 1 && m.is_root(roots, path[0]) && path.last() == from
        && forall|k: int| 0 <= k < path.len() - 1 ==> #[trigger] m.edge(path[k], path[k + 1]);
    let extended = path.push(to);
    assert forall|k: int| 0 <= k < extended.len() - 1 implies #[trigger] m.edge(extended[k], extended[k + 1]) by {
        if k < path.len() - 1 {
            assert(extended[k] == path[k] && extended[k + 1] == path[k + 1]);
        } else {
            assert(extended[k] == from && extended[k + 1] == to);
        }
    }
    assert(extended[0] == path[0]);
    assert(extended.last() == to);
    assert(extended.len() >= 1 && m.is_root(roots, extended[0]) && extended.last() == to
        && forall|k: int| 0 <= k < extended.len() - 1 ==> #[trigger] m.edge(extended[k], extended[k + 1]));
}

/// An allocation that a traced address leads into, marked because of it, is reachable.
proof fn lemma_marked_reachable(m: &Memory, roots: Seq<DataWord>, marked: Seq<bool>, a: u64, index: int)
    requires
        m.wf(),
        marked.len() == m.allocations@.len(),
        traced_origin(m, roots, marked, a),
        m.spec_locate(a) matches Some((i, off)) && i == index,
        forall|x: int| 0 <= x < marked.len() && #[trigger] marked[x] ==> m.reachable(roots, m.allocations@[x].id),
    ensures
        m.reachable(roots, m.allocations@[index].id),
{
    let id = m.allocations@[index].id;
    assert(m.alloc_index(id) == index);
    if exists|r: int| 0 <= r < roots.len() && (#[trigger] roots[r]).is_reference && roots[r].value == a {
        let r = choose|r: int| 0 <= r < roots.len() && (#[trigger] roots[r]).is_reference && roots[r].value == a;
        assert(m.target(roots[r].value) == Some(id));
        assert(m.is_root(roots, id));
        let path = seq![id];
        assert(path.len() >= 1 && m.is_root(roots, path[0]) && path.last() == id);
    } else if exists|j: int| 0 <= j < m.allocations@.len() && !(#[trigger] m.allocations@[j]).is_collectible && m.base_of(m.allocations@[j].id) == a {
        let j = choose|j: int| 0 <= j < m.allocations@.len() && !(#[trigger] m.allocations@[j]).is_collectible && m.base_of(m.allocations@[j].id) == a;
        m.lemma_base_locates(j);
        assert(j == index);
        assert(m.is_root(roots, id));
        let path = seq![id];
        assert(path.len() >= 1 && m.is_root(roots, path[0]) && path.last() == id);
    } else {
        let y = choose|y: int| 0 <= y < marked.len() && #[trigger] marked[y] && m.is_tagged_word_of(y, a);
        let yid = m.allocations@[y].id;
        assert(m.alloc_index(yid) == y);
        let t = choose|t: int| 0 <= t < m.allocations@[y].data_length / 8 && #[trigger] m.word_tag(y, t) && m.word_value(y, t) == a;
        assert(m.target(m.word_value(y, t)) == Some(id));
        assert(m.edge(yid, id));
        lemma_reachable_extend(m, roots, yid, id);
    }
}

/// Pushing keeps what a sequence contains.
proof fn lemma_push_keeps_contains(s: Seq<u64>, v: u64)
    ensures
        forall|a: u64| #[trigger] s.contains(a) ==> s.push(v).contains(a),
        s.push(v).contains(v),
{
    assert forall|a: u64| #[trigger] s.contains(a) implies s.push(v).contains(a) by {
        let x = choose|x: int| 0 <= x < s.len() && s[x] == a;
        assert(s.push(v)[x] == a);
    }
    assert(s.push(v)[s.len() as int] == v);
}

/// Popping the last element keeps every other element.
proof fn lemma_pop_keeps_contains(before: Seq<u64>, after: Seq<u64>, last: u64)
    requires
        before.len() > 0,
        after == before.drop_last(),
        last == before.last(),
    ensures
        forall|a: u64| #[trigger] before.contains(a) && a != last ==> after.contains(a),
        forall|a: u64| #[trigger] after.contains(a) ==> before.contains(a),
{
    assert forall|a: u64| #[trigger] before.contains(a) && a != last implies after.contains(a) by {
        let x = choose|x: int| 0 <= x < before.len() && before[x] == a;
        assert(x < before.len() - 1);
        assert(after[x] == a);
    }
    assert forall|a: u64| #[trigger] after.contains(a) implies before.contains(a) by {
        let x = choose|x: int| 0 <= x < after.len() && after[x] == a;
        assert(before[x] == a);
    }
}

/// A sequence that extends another contains all it contains.
proof fn lemma_prefix_keeps_contains(s: Seq<u64>, t: Seq<u64>)
    requires
        t.len() >= s.len(),
        t.subrange(0, s.len() as int) == s,
    ensures
        forall|a: u64| #[trigger] s.contains(a) ==> t.contains(a),
{
    assert forall|a: u64| #[trigger] s.contains(a) implies t.contains(a) by {
        let x = choose|x: int| 0 <= x < s.len() && s[x] == a;
        assert(t.subrange(0, s.len() as int)[x] == t[x]);
    }
}

/// When every address seen leads nowhere or into a marked allocation, the roots' addresses
/// and the tagged words of marked allocations are seen, and every allocation that is not
/// collectible has its base seen, then every reachable allocation is marked or not
/// collectible.
proof fn lemma_closed_reachable(m: &Memory, roots: Seq<DataWord>, marked: Seq<bool>, seen: Set<u64>)
    requires
        m.wf(),
        marked.len() == m.allocations@.len(),
        forall|a: u64| #[trigger] seen.contains(a) ==> m.spec_locate(a) is None || marked[m.spec_locate(a).unwrap().0],
        forall|r: int| 0 <= r < roots.len() && (#[trigger] roots[r]).is_reference ==> seen.contains(roots[r].value),
        forall|j: int| 0 <= j < m.allocations@.len() && !(#[trigger] m.allocations@[j]).is_collectible ==> seen.contains(m.base_of(m.allocations@[j].id)),
        forall|x: int, t: int| 0 <= x < marked.len() && #[trigger] marked[x] && 0 <= t < m.allocations@[x].data_length / 8
            && #[trigger] m.word_tag(x, t) ==> seen.contains(m.word_value(x, t)),
    ensures
        forall|id: u64| #[trigger] m.reachable(roots, id) ==> m.has_allocation(id)
            && (marked[m.alloc_index(id)] || !m.allocations@[m.alloc_index(id)].is_collectible),
{
    assert forall|id: u64| #[trigger] m.reachable(roots, id) implies m.has_allocation(id)
        && (marked[m.alloc_index(id)] || !m.allocations@[m.alloc_index(id)].is_collectible) by {
        let path = choose|path: Seq<u64>| path.len() >= 1 && m.is_root(roots, path[0]) && path.last() == id
            && forall|k: int| 0 <= k < path.len() - 1 ==> #[trigger] m.edge(path[k], path[k + 1]);
        lemma_path_kept(m, roots, marked, seen, path, path.len() - 1);
    }
}

/// Every allocation along a path from a root is marked or not collectible.
proof fn lemma_path_kept(m: &Memory, roots: Seq<DataWord>, marked: Seq<bool>, seen: Set<u64>, path: Seq<u64>, k: int)
    requires
        m.wf(),
        marked.len() == m.allocations@.len(),
        forall|a: u64| #[trigger] seen.contains(a) ==> m.spec_locate(a) is None || marked[m.spec_locate(a).unwrap().0],
        forall|r: int| 0 <= r < roots.len() && (#[trigger] roots[r]).is_reference ==> seen.contains(roots[r].value),
        forall|j: int| 0 <= j < m.allocations@.len() && !(#[trigger] m.allocations@[j]).is_collectible ==> seen.contains(m.base_of(m.allocations@[j].id)),
        forall|x: int, t: int| 0 <= x < marked.len() && #[trigger] marked[x] && 0 <= t < m.allocations@[x].data_length / 8
            && #[trigger] m.word_tag(x, t) ==> seen.contains(m.word_value(x, t)),
        path.len() >= 1,
        m.is_root(roots, path[0]),
        forall|q: int| 0 <= q < path.len() - 1 ==> #[trigger] m.edge(path[q], path[q + 1]),
        0 <= k < path.len(),
    ensures
        m.has_allocation(path[k]),
        marked[m.alloc_index(path[k])] || !m.allocations@[m.alloc_index(path[k])].is_collectible,
    decreases k,
{
    if k == 0 {
        let id = path[0];
        if exists|r: int| 0 <= r < roots.len() && (#[trigger] roots[r]).is_reference && m.target(roots[r].value) == Some(id) {
            let r = choose|r: int| 0 <= r < roots.len() && (#[trigger] roots[r]).is_reference && m.target(roots[r].value) == Some(id);
            let (i, off) = m.spec_locate(roots[r].value).unwrap();
            assert(m.allocations@[i].id == id);
            assert(m.alloc_index(id) == i);
        }
    } else {
        lemma_path_kept(m, roots, marked, seen, path, k - 1);
        let from = path[k - 1];
        let to = path[k];
        assert(m.edge(path[k - 1], path[(k - 1) + 1]));
        assert(path[(k - 1) + 1] == to);
        let i = m.alloc_index(from);
        let t = choose|t: int| 0 <= t < m.allocations@[i].data_length / 8 && #[trigger] m.word_tag(i, t)
            && m.target(m.word_value(i, t)) == Some(to);
        if !marked[i] {
            assert(!m.allocations@[i].is_collectible);
            assert(seen.contains(m.base_of(from)));
            m.lemma_base_locates(i);
            assert(m.allocations@[i].data_length == 0);
        }
        let (j, off) = m.spec_locate(m.word_value(i, t)).unwrap();
        assert(m.allocations@[j].id == to);
        assert(m.alloc_index(to) == j);
    }
}

impl Memory {
    /// The base of an allocation with a payload leads to its first byte.
    pub proof fn lemma_base_locates(&self, i: int)
        requires
            self.wf(),
            0 <= i < self.allocations@.len(),
        ensures
            self.allocations@[i].data_length > 0 ==> self.spec_locate(self.base_of(self.allocations@[i].id)) == Some((i, 0int)),
            self.allocations@[i].data_length == 0 ==> self.spec_locate(self.base_of(self.allocations@[i].id)) is None,
    {
        let a = self.allocations@[i];
        assert(self.alloc_index(a.id) == i);
        assert(self.alloc_has_block(i));
        let bj = self.virtual_mapper.block_index(a.virtual_block);
        let j = choose|j: int| 0 <= j < self.virtual_mapper.blocks@.len() && self.virtual_mapper.blocks@[j].id == a.virtual_block
            && self.virtual_mapper.blocks@[j].allocation == a.id && self.virtual_mapper.blocks@[j].size == a.data_length;
        assert(bj == j);
        lemma_translate_in_block(&self.virtual_mapper, bj, 0);
        assert((self.virtual_mapper.blocks@[bj].base + 0) as u64 == self.base_of(a.id));
    }
}

/// Freeing a collectible allocation keeps every allocation that is not collectible.
proof fn lemma_garbage_step(m0: &Memory, before: &Memory, after: &Memory, id: u64)
    requires
        m0.wf(),
        before.wf(),
        survivors_kept(m0, before),
        pinned_kept(m0, before),
        before.has_allocation(id),
        before.allocations@[before.alloc_index(id)].is_collectible,
        forall|j: int| 0 <= j < before.allocations@.len() && before.allocations@[j].id != id ==> after.has_allocation(#[trigger] before.allocations@[j].id),
    ensures
        pinned_kept(m0, after),
{
    assert forall|j: int| 0 <= j < m0.allocations@.len() && !(#[trigger] m0.allocations@[j]).is_collectible implies after.has_allocation(m0.allocations@[j].id) by {
        let a = m0.allocations@[j];
        assert(before.has_allocation(a.id));
        let b = before.alloc_index(a.id);
        assert(kept_from(m0, before, b));
        let j2 = choose|j2: int| 0 <= j2 < m0.allocations@.len() && same_allocation(m0.allocations@[j2], m0.heap@, before.allocations@[b], before.heap@);
        assert(j2 == j);
        assert(!before.allocations@[b].is_collectible);
        if a.id == id {
            assert(before.alloc_index(id) == b);
            assert(false);
        }
    }
}


impl Memory {
    /// Well formed, but for region `kp`, which is used by the allocation about to be
    /// recorded under the next id.
    pub open spec fn wf_with_pending(&self, kp: int) -> bool {
        let al = self.allocations@;
        &&& self.regions.wf(self.heap@.len() as int)
        &&& self.virtual_mapper.wf()
        &&& self.heap@.len() <= MAX_MEMORY_SIZE
        &&& forall|i: int| 0 <= i < al.len() ==> (#[trigger] al[i]).id < self.next_allocation_id && al[i].data_length <= MAX_MEMORY_SIZE
        &&& forall|i: int, j: int| 0 <= i < al.len() && 0 <= j < al.len() && i != j ==> #[trigger] al[i].id != #[trigger] al[j].id
        &&& forall|i: int| 0 <= i < al.len() ==> #[trigger] self.alloc_has_region(i)
        &&& forall|i: int| 0 <= i < al.len() ==> #[trigger] self.alloc_has_block(i)
        &&& forall|k: int| 0 <= k < self.regions@.len() && k != kp ==> #[trigger] self.region_owned(k)
        &&& forall|j: int| 0 <= j < self.virtual_mapper.blocks@.len() ==> #[trigger] self.block_owned(j)
        &&& self.next_allocation_id < u64::MAX
        &&& 0 <= kp < self.regions@.len()
        &&& self.regions@[kp].state == HeapRegionState::Used(self.next_allocation_id)
    }
}

/// Giving the first fitting free region to the next allocation leaves memory well formed
/// but for that region.
proof fn lemma_split_pending(m0: &Memory, m1: &Memory, i: int, total: int)
    requires
        m0.wf(),
        m1.allocations@ == m0.allocations@,
        m1.heap@ == m0.heap@,
        m1.virtual_mapper == m0.virtual_mapper,
        m1.next_allocation_id == m0.next_allocation_id,
        m1.regions.wf(m1.heap@.len() as int),
        is_first_fit(m0.regions@, i, total),
        total >= 0,
        m1.regions@ == spec_split(m0.regions@, i, total, m0.next_allocation_id, m0.regions.next_id),
    ensures
        m1.wf_with_pending(i),
        survivors_kept(m0, m1),
        pinned_kept(m0, m1),
{
    assert forall|j: int| 0 <= j < m1.virtual_mapper.blocks@.len() implies #[trigger] m1.block_owned(j) by {
        assert(m0.block_owned(j));
    }
    let rs = m0.regions@;
    let ns = m1.regions@;
    let grow = rs[i].length > total;
    assert forall|k: int| 0 <= k < rs.len() && k != i && !(grow && k > i) implies #[trigger] ns[k] == rs[k] by {}
    assert forall|k: int| 0 <= k < rs.len() && grow && k > i implies #[trigger] ns[k + 1] == rs[k] by {}
    assert forall|x: int| 0 <= x < m1.allocations@.len() implies #[trigger] m1.alloc_has_region(x) by {
        assert(m0.alloc_has_region(x));
        let a = m0.allocations@[x];
        let k = choose|k: int| 0 <= k < rs.len() && rs[k].id == a.region
            && rs[k].state == HeapRegionState::Used(a.id) && rs[k].base == a.start
            && rs[k].length == spec_total_region_len(a.data_length as int);
        assert(k != i);
        let nk = if grow && k > i { k + 1 } else { k };
        assert(ns[nk] == rs[k]);
    }
    assert forall|x: int| 0 <= x < m1.allocations@.len() implies #[trigger] m1.alloc_has_block(x) by {
        assert(m0.alloc_has_block(x));
    }
    assert forall|k: int| 0 <= k < ns.len() && k != i implies #[trigger] m1.region_owned(k) by {
        if grow && k == i + 1 {
        } else {
            let ok = if grow && k > i { k - 1 } else { k };
            assert(ns[k] == rs[ok]);
            assert(m0.region_owned(ok));
        }
    }
    assert forall|x: int| 0 <= x < m1.allocations@.len() implies #[trigger] kept_from(m0, m1, x) by {
        assert(same_allocation(m0.allocations@[x], m0.heap@, m1.allocations@[x], m1.heap@));
    }
    assert forall|j: int| 0 <= j < m1.virtual_mapper.blocks@.len() implies m0.virtual_mapper.blocks@.contains(#[trigger] m1.virtual_mapper.blocks@[j]) by {
        assert(m0.virtual_mapper.blocks@[j] == m1.virtual_mapper.blocks@[j]);
    }
    assert forall|j: int| 0 <= j < m0.allocations@.len() && !(#[trigger] m0.allocations@[j]).is_collectible implies m1.has_allocation(m0.allocations@[j].id) by {
        assert(m1.allocations@[j] == m0.allocations@[j]);
    }
}

/// Growing the heap with zero bytes, and the regions with it, keeps memory well formed.
proof fn lemma_grow_wf(m0: &Memory, m1: &Memory)
    requires
        m0.wf(),
        m1.allocations@ == m0.allocations@,
        m1.virtual_mapper == m0.virtual_mapper,
        m1.next_allocation_id == m0.next_allocation_id,
        m1.heap@.len() >= m0.heap@.len(),
        m1.heap@.len() <= MAX_MEMORY_SIZE,
        m1.heap@.subrange(0, m0.heap@.len() as int) == m0.heap@,
        m1.regions.wf(m1.heap@.len() as int),
        forall|k: int| 0 <= k < m1.regions@.len() && #[trigger] m1.regions@[k].state is Used ==> 0 <= k < m0.regions@.len() && m0.regions@[k] == m1.regions@[k],
        forall|k: int| 0 <= k < m0.regions@.len() && #[trigger] m0.regions@[k].state is Used ==> k < m1.regions@.len() && m1.regions@[k] == m0.regions@[k],
    ensures
        m1.wf(),
        survivors_kept(m0, m1),
        pinned_kept(m0, m1),
{
    assert forall|j: int| 0 <= j < m1.virtual_mapper.blocks@.len() implies #[trigger] m1.block_owned(j) by {
        assert(m0.block_owned(j));
    }
    assert forall|x: int| 0 <= x < m1.allocations@.len() implies #[trigger] m1.alloc_has_region(x) by {
        assert(m0.alloc_has_region(x));
        let a = m0.allocations@[x];
        let k = choose|k: int| 0 <= k < m0.regions@.len() && m0.regions@[k].id == a.region
            && m0.regions@[k].state == HeapRegionState::Used(a.id) && m0.regions@[k].base == a.start
            && m0.regions@[k].length == spec_total_region_len(a.data_length as int);
        assert(m1.regions@[k] == m0.regions@[k]);
    }
    assert forall|x: int| 0 <= x < m1.allocations@.len() implies #[trigger] m1.alloc_has_block(x) by {
        assert(m0.alloc_has_block(x));
    }
    assert forall|k: int| 0 <= k < m1.regions@.len() implies #[trigger] m1.region_owned(k) by {
        if m1.regions@[k].state is Used {
            assert(m0.region_owned(k));
        }
    }
    assert forall|x: int| 0 <= x < m1.allocations@.len() implies #[trigger] kept_from(m0, m1, x) by {
        let a = m0.allocations@[x];
        m0.lemma_alloc_bounds(x);
        assert forall|t: int| 0 <= t < spec_total_region_len(a.data_length as int) implies #[trigger] m1.heap@[a.start + t] == m0.heap@[a.start + t] by {
            assert(m1.heap@.subrange(0, m0.heap@.len() as int)[a.start + t] == m1.heap@[a.start + t]);
        }
        assert(same_allocation(a, m0.heap@, m1.allocations@[x], m1.heap@));
    }
    assert forall|j: int| 0 <= j < m1.virtual_mapper.blocks@.len() implies m0.virtual_mapper.blocks@.contains(#[trigger] m1.virtual_mapper.blocks@[j]) by {
        assert(m0.virtual_mapper.blocks@[j] == m1.virtual_mapper.blocks@[j]);
    }
    assert forall|j: int| 0 <= j < m0.allocations@.len() && !(#[trigger] m0.allocations@[j]).is_collectible implies m1.has_allocation(m0.allocations@[j].id) by {
        assert(m1.allocations@[j] == m0.allocations@[j]);
    }
}



impl Memory {
    /// Looks once for a free region large enough for `data_size` bytes and their bitfield,
    /// and gives it to the next allocation.
    fn allocate_region_once(&mut self, data_size: u64) -> (r: Option<(usize, u64)>)
        requires
            old(self).wf(),
            old(self).regions.next_id < u64::MAX,
        ensures
            r is None ==> *final(self) == *old(self),
            r is None ==> data_size > MAX_MEMORY_SIZE || !has_fit(old(self).regions@, spec_total_region_len(data_size as int)),
            r matches Some((start, rid)) ==> data_size <= MAX_MEMORY_SIZE && exists|kp: int| final(self).wf_with_pending(kp)
                && final(self).regions@[kp] == (HeapRegion { id: rid, state: HeapRegionState::Used(old(self).next_allocation_id), base: start, length: spec_total_region_len(data_size as int) as usize }),
            r is Some ==> survivors_kept(old(self), final(self)) && pinned_kept(old(self), final(self)),
            r is Some ==> used_total(final(self).regions@) == used_total(old(self).regions@) + spec_total_region_len(data_size as int),
            final(self).virtual_mapper == old(self).virtual_mapper,
            final(self).next_allocation_id == old(self).next_allocation_id,
            final(self).allocations@ == old(self).allocations@,
            final(self).heap@ == old(self).heap@,
            final(self).regions.next_id <= old(self).regions.next_id + 1,
    {
        if data_size > MAX_MEMORY_SIZE as u64 {
            return None;
        }
        let ghost m0 = *self;
        let len = Ghost(self.heap@.len() as int);
        match self.regions.allocate(data_size as usize, self.next_allocation_id, len) {
            HeapRegionAllocationResult::Success { base, id } => {
                proof {
                    let total = spec_total_region_len(data_size as int);
                    let i = choose|i: int| is_first_fit(m0.regions@, i, total)
                        && self.regions@ == spec_split(m0.regions@, i, total, m0.next_allocation_id, m0.regions.next_id)
                        && base == m0.regions@[i].base && id == m0.regions@[i].id;
                    lemma_split_pending(&m0, self, i, total);
                    crate::interpreter::regions::lemma_used_total_split(m0.regions@, i, total, m0.next_allocation_id, m0.regions.next_id);
                    assert(self.regions@[i] == (HeapRegion { id, state: HeapRegionState::Used(m0.next_allocation_id), base, length: total as usize }));
                }
                Some((base, id))
            },
            HeapRegionAllocationResult::OutOfMemory => None,
        }
    }

    /// Grows the heap, doubling its size up to the largest allowed, until it has room for
    /// the used bytes and `total` more.
    fn grow_heap(&mut self, total: usize) -> (r: bool)
        requires
            old(self).wf(),
            old(self).regions.next_id < u64::MAX,
        ensures
            final(self).wf(),
            survivors_kept(old(self), final(self)),
            pinned_kept(old(self), final(self)),
            final(self).virtual_mapper == old(self).virtual_mapper,
            final(self).next_allocation_id == old(self).next_allocation_id,
            final(self).regions.next_id <= old(self).regions.next_id + 1,
            final(self).allocations@ == old(self).allocations@,
            used_total(final(self).regions@) == used_total(old(self).regions@),
            !r ==> *final(self) == *old(self),
            !r <==> (total > MAX_MEMORY_SIZE || used_total(old(self).regions@) + total > MAX_MEMORY_SIZE),
            r ==> final(self).heap@.len() == grown_size(old(self).heap@.len() as int, used_total(old(self).regions@) + total),
            r ==> final(self).heap@.len() >= used_total(old(self).regions@) + total,
            r && (forall|k: int| 0 <= k < old(self).regions@.len() - 1 ==> #[trigger] old(self).regions@[k].state is Used)
                ==> has_fit(final(self).regions@, total as int),
    {
        proof { lemma_survivors_refl(self); lemma_pinned_refl(self); }
        let len = Ghost(self.heap@.len() as int);
        let used = self.regions.used_bytes(len);
        if total > MAX_MEMORY_SIZE || used > MAX_MEMORY_SIZE - total {
            return false;
        }
        let minimum_required = used + total;
        let mut new_size = self.heap.len();
        while new_size < minimum_required
            invariant
                minimum_required <= MAX_MEMORY_SIZE,
                new_size <= MAX_MEMORY_SIZE,
                new_size >= self.heap@.len(),
                grown_size(new_size as int, minimum_required as int) == grown_size(self.heap@.len() as int, minimum_required as int),
            decreases MAX_MEMORY_SIZE - new_size,
        {
            if new_size == 0 {
                new_size = minimum_required;
            } else if new_size > MAX_MEMORY_SIZE / 2 {
                new_size = MAX_MEMORY_SIZE;
            } else {
                new_size = new_size * 2;
            }
        }
        let ghost m0 = *self;
        append_zeros(&mut self.heap, new_size);
        self.regions.extend(new_size, len);
        proof {
            lemma_grow_wf(&m0, self);
            if forall|k: int| 0 <= k < m0.regions@.len() - 1 ==> #[trigger] m0.regions@[k].state is Used {
                crate::interpreter::regions::lemma_used_total_compacted(m0.regions@, len@);
                let rs = self.regions@;
                if m0.regions@.last().state is Free {
                    assert(rs[rs.len() - 1].state is Free && rs[rs.len() - 1].length >= total);
                } else {
                    assert(rs[rs.len() - 1].state is Free && rs[rs.len() - 1].length >= total);
                }
            }
        }
        true
    }

    #[verifier::rlimit(60)]
    /// Finds room for a payload of `data_size` bytes: first as the heap is, then after a
    /// collection, then after growing the heap.
    fn try_allocate_region(&mut self, data_size: u64, gc_roots: &[DataWord]) -> (r: Result<(usize, u64), Error>)
        requires
            old(self).wf(),
            old(self).regions.next_id < u64::MAX - 4,
        ensures
            r matches Err(e) ==> final(self).wf() && e.kind == ErrorKind::OutOfMemory,
            r matches Ok((start, rid)) ==> data_size <= MAX_MEMORY_SIZE && exists|kp: int| final(self).wf_with_pending(kp)
                && final(self).regions@[kp] == (HeapRegion { id: rid, state: HeapRegionState::Used(old(self).next_allocation_id), base: start, length: spec_total_region_len(data_size as int) as usize }),
            survivors_kept(old(self), final(self)),
            pinned_kept(old(self), final(self)),
            final(self).virtual_mapper.next_address == old(self).virtual_mapper.next_address,
            final(self).virtual_mapper.next_block_id == old(self).virtual_mapper.next_block_id,
            final(self).next_allocation_id == old(self).next_allocation_id,
            forall|id: u64| #[trigger] old(self).reachable(gc_roots@, id) ==> final(self).has_allocation(id),
            final(self).regions.next_id <= old(self).regions.next_id + 3,
            final(self).heap@.len() == old(self).heap@.len()
                || exists|m: int| final(self).heap@.len() == #[trigger] grown_size(old(self).heap@.len() as int, m),
            r is Ok ==> final(self).heap@.len() == old(self).heap@.len()
                || final(self).heap@.len() == grown_size(old(self).heap@.len() as int, used_total(final(self).regions@)),
            r is Err ==> data_size > MAX_MEMORY_SIZE
                || used_total(final(self).regions@) + spec_total_region_len(data_size as int) > MAX_MEMORY_SIZE,
            r is Err ==> forall|i: int| 0 <= i < final(self).allocations@.len()
                ==> old(self).reachable(gc_roots@, #[trigger] final(self).allocations@[i].id),
    {
        let ghost m0 = *self;
        proof {
            lemma_survivors_refl(self);
            lemma_pinned_refl(self);
            assert forall|id: u64| #[trigger] m0.reachable(gc_roots@, id) implies m0.has_allocation(id) by {
                lemma_reachable_exists(&m0, gc_roots@, id);
            }
        }
        match self.allocate_region_once(data_size) {
            Some(x) => return Ok(x),
            None => {},
        }
        let _ = self.force_garbage_collection(gc_roots);
        let ghost m1 = *self;
        match self.allocate_region_once(data_size) {
            Some(x) => {
                proof { lemma_survivors_trans(&m0, &m1, self); lemma_pinned_trans(&m0, &m1, self); }
                return Ok(x);
            },
            None => {},
        }
        if data_size > MAX_MEMORY_SIZE as u64 {
            return Err(Error::of_kind(ErrorKind::OutOfMemory, "Out of memory"));
        }
        let total = total_region_len(data_size as usize);
        if !self.grow_heap(total) {
            proof { crate::interpreter::regions::lemma_used_total_nonneg(self.regions@); }
            return Err(Error::of_kind(ErrorKind::OutOfMemory, "Out of memory"));
        }
        let ghost m2 = *self;
        proof {
            lemma_survivors_trans(&m0, &m1, &m2);
            lemma_pinned_trans(&m0, &m1, &m2);
            assert(m2.heap@.len() == grown_size(m0.heap@.len() as int, used_total(m1.regions@) + total));
        }
        match self.allocate_region_once(data_size) {
            Some(x) => {
                proof { lemma_survivors_trans(&m0, &m2, self); lemma_pinned_trans(&m0, &m2, self); }
                Ok(x)
            },
            None => {
                assert(false);
                Err(Error::of_kind(ErrorKind::OutOfMemory, "Out of memory"))
            },
        }
    }
}

/// An allocation reachable from the roots is in the table.
pub proof fn lemma_reachable_exists(m: &Memory, roots: Seq<DataWord>, id: u64)
    requires
        m.reachable(roots, id),
    ensures
        m.has_allocation(id),
{
    let path = choose|path: Seq<u64>| path.len() >= 1 && m.is_root(roots, path[0]) && path.last() == id
        && forall|k: int| 0 <= k < path.len() - 1 ==> #[trigger] m.edge(path[k], path[k + 1]);
    if path.len() == 1 {
        assert(path[0] == id);
        if !m.has_allocation(id) {
            let r = choose|r: int| 0 <= r < roots.len() && (#[trigger] roots[r]).is_reference && m.target(roots[r].value) == Some(id);
            let (i, off) = m.spec_locate(roots[r].value).unwrap();
            assert(m.allocations@[i].id == id);
        }
    } else {
        let k = path.len() - 2;
        assert(m.edge(path[k], path[k + 1]));
        let i = m.alloc_index(path[k]);
        let t = choose|t: int| 0 <= t < m.allocations@[i].data_length / 8 && #[trigger] m.word_tag(i, t)
            && m.target(m.word_value(i, t)) == Some(path[k + 1]);
        let (j, off) = m.spec_locate(m.word_value(i, t)).unwrap();
        assert(m.allocations@[j].id == id);
    }
}

/// Appends zero bytes until the heap has `new_size` bytes.
fn append_zeros(heap: &mut Vec<u8>, new_size: usize)
    requires
        old(heap)@.len() <= new_size,
    ensures
        final(heap)@.len() == new_size,
        final(heap)@.subrange(0, old(heap)@.len() as int) == old(heap)@,
{
    while heap.len() < new_size
        invariant
            heap@.len() <= new_size,
            heap@.len() >= old(heap)@.len(),
            heap@.subrange(0, old(heap)@.len() as int) == old(heap)@,
        decreases new_size - heap@.len(),
    {
        let ghost before = heap@;
        heap.push(0);
        assert(heap@.subrange(0, old(heap)@.len() as int) =~= before.subrange(0, old(heap)@.len() as int));
    }
}

/// The heap size reached from `l` by doubling, never past the largest size, until it is at
/// least `m`.
pub open spec fn grown_size(l: int, m: int) -> int
    decreases MAX_MEMORY_SIZE - l,
{
    if l >= m || l >= MAX_MEMORY_SIZE || l < 0 {
        l
    } else if l == 0 {
        m
    } else if l > MAX_MEMORY_SIZE / 2 {
        MAX_MEMORY_SIZE as int
    } else {
        grown_size(2 * l, m)
    }
}

/// A memory keeps its own pinned allocations.
pub proof fn lemma_pinned_refl(a: &Memory)
    ensures
        pinned_kept(a, a),
{
}

/// Keeping pinned allocations is transitive when survivors are kept.
pub proof fn lemma_pinned_trans(a: &Memory, b: &Memory, c: &Memory)
    requires
        a.wf(),
        pinned_kept(a, b),
        pinned_kept(b, c),
        survivors_kept(a, b),
    ensures
        pinned_kept(a, c),
{
    assert forall|j: int| 0 <= j < a.allocations@.len() && !(#[trigger] a.allocations@[j]).is_collectible implies c.has_allocation(a.allocations@[j].id) by {
        let x = b.alloc_index(a.allocations@[j].id);
        assert(kept_from(a, b, x));
        let j2 = choose|j2: int| 0 <= j2 < a.allocations@.len() && same_allocation(a.allocations@[j2], a.heap@, b.allocations@[x], b.heap@);
        assert(j2 == j);
        assert(!b.allocations@[x].is_collectible);
    }
}


/// Whether the id counters are too close to their limit for another allocation.
pub open spec fn ids_exhausted(m: &Memory) -> bool {
    m.regions.next_id >= u64::MAX - 4 || m.virtual_mapper.next_block_id >= u64::MAX - 1
        || m.next_allocation_id >= u64::MAX - 1
}

/// Whether a preferred base cannot be honoured for a block of `size` bytes by a mapper
/// whose watermark is `next`.
pub open spec fn bad_base(preferred_base: Option<u64>, next: u64, size: u64) -> bool {
    !base_acceptable(preferred_base, next)
        || (size <= MAX_MEMORY_SIZE && chosen_base(preferred_base, next) + page_count(size) * 1024 > u64::MAX)
}

/// Zeroes the bytes in `[lo, hi)`.
fn zero_range(heap: &mut Vec<u8>, lo: usize, hi: usize)
    requires
        lo <= hi <= old(heap)@.len(),
    ensures
        final(heap)@.len() == old(heap)@.len(),
        forall|p: int| 0 <= p < old(heap)@.len() && (p < lo || p >= hi) ==> #[trigger] final(heap)@[p] == old(heap)@[p],
        forall|p: int| lo <= p < hi ==> #[trigger] final(heap)@[p] == 0,
{
    let mut k: usize = lo;
    while k < hi
        invariant
            lo <= k <= hi <= heap@.len(),
            heap@.len() == old(heap)@.len(),
            forall|p: int| 0 <= p < old(heap)@.len() && (p < lo || p >= k) ==> #[trigger] heap@[p] == old(heap)@[p],
            forall|p: int| lo <= p < k ==> #[trigger] heap@[p] == 0,
        decreases hi - k,
    {
        heap.set(k, 0);
        k = k + 1;
    }
}

/// Giving back the region found for an allocation that is not made leaves memory well
/// formed.
#[verifier::rlimit(100)]
proof fn lemma_release_pending(mp: &Memory, m: &Memory, kp: int)
    requires
        mp.wf_with_pending(kp),
        m.allocations@ == mp.allocations@,
        m.heap@ == mp.heap@,
        m.virtual_mapper == mp.virtual_mapper,
        m.next_allocation_id == mp.next_allocation_id,
        m.regions.wf(m.heap@.len() as int),
        crate::interpreter::regions::used_kept_except(mp.regions@, m.regions@, mp.regions@[kp].id),
    ensures
        m.wf(),
{
    let rs = mp.regions@;
    let ns = m.regions@;
    assert forall|x: int| 0 <= x < m.allocations@.len() implies #[trigger] m.alloc_has_region(x) by {
        assert(mp.alloc_has_region(x));
        let a = mp.allocations@[x];
        let k = choose|k: int| 0 <= k < rs.len() && rs[k].id == a.region
            && rs[k].state == HeapRegionState::Used(a.id) && rs[k].base == a.start
            && rs[k].length == spec_total_region_len(a.data_length as int);
        assert(k != kp);
        assert(rs[k].id != rs[kp].id);
        let k2 = choose|k2: int| 0 <= k2 < ns.len() && ns[k2] == rs[k];
    }
    assert forall|x: int| 0 <= x < m.allocations@.len() implies #[trigger] m.alloc_has_block(x) by {
        assert(mp.alloc_has_block(x));
    }
    assert forall|k: int| 0 <= k < ns.len() implies #[trigger] m.region_owned(k) by {
        if ns[k].state is Used {
            let j = choose|j: int| 0 <= j < rs.len() && rs[j] == ns[k] && rs[j].id != rs[kp].id;
            assert(j != kp);
            assert(mp.region_owned(j));
        }
    }
    assert forall|j: int| 0 <= j < m.virtual_mapper.blocks@.len() implies #[trigger] m.block_owned(j) by {
        assert(mp.block_owned(j));
    }
}

/// Recording the new allocation, with its block and its zeroed bitfield, makes memory
/// well formed again; the earlier allocations keep their bytes.
proof fn lemma_record_allocation(mp: &Memory, m: &Memory, kp: int, addr: u64, bid: u64, start: usize, data_size: usize, is_collectible: bool, rid: u64)
    requires
        mp.wf_with_pending(kp),
        mp.regions@[kp] == (HeapRegion { id: rid, state: HeapRegionState::Used(mp.next_allocation_id), base: start, length: spec_total_region_len(data_size as int) as usize }),
        data_size <= MAX_MEMORY_SIZE,
        m.regions == mp.regions,
        m.virtual_mapper.wf(),
        m.virtual_mapper.blocks@ == mp.virtual_mapper.blocks@.push(VirtualAddressBlock { id: bid, allocation: mp.next_allocation_id, base: addr, size: data_size as u64 }),
        m.allocations@ == mp.allocations@.push(Allocation { id: mp.next_allocation_id, start, data_length: data_size, is_collectible, virtual_block: bid, region: rid }),
        m.next_allocation_id == mp.next_allocation_id + 1,
        m.next_allocation_id < u64::MAX,
        m.heap@.len() == mp.heap@.len(),
        forall|p: int| 0 <= p < mp.heap@.len() && (p < start || p >= start + spec_total_region_len(data_size as int)) ==> #[trigger] m.heap@[p] == mp.heap@[p],
    ensures
        m.wf(),
        forall|i: int| 0 <= i < mp.allocations@.len() ==> #[trigger] same_allocation(mp.allocations@[i], mp.heap@, m.allocations@[i], m.heap@),
{
    assert forall|j: int| 0 <= j < m.virtual_mapper.blocks@.len() implies #[trigger] m.block_owned(j) by {
        let n0 = mp.allocations@.len() as int;
        if j < mp.virtual_mapper.blocks@.len() {
            assert(mp.block_owned(j));
            assert(m.virtual_mapper.blocks@[j] == mp.virtual_mapper.blocks@[j]);
            let b = m.virtual_mapper.blocks@[j];
            let i = choose|i: int| 0 <= i < mp.allocations@.len() && mp.allocations@[i].id == b.allocation
                && mp.allocations@[i].virtual_block == b.id;
            assert(m.allocations@[i] == mp.allocations@[i]);
        } else {
            assert(m.allocations@[n0].virtual_block == bid);
        }
    }
    let al = m.allocations@;
    let n = mp.allocations@.len() as int;
    let rs = mp.regions@;
    let len = mp.heap@.len() as int;
    lemma_partition_bounds(rs, len, kp);
    assert forall|i: int| 0 <= i < al.len() implies (#[trigger] al[i]).id < m.next_allocation_id && al[i].data_length <= MAX_MEMORY_SIZE by {
        if i < n { assert(al[i] == mp.allocations@[i]); }
    }
    assert forall|i: int, j: int| 0 <= i < al.len() && 0 <= j < al.len() && i != j implies #[trigger] al[i].id != #[trigger] al[j].id by {
        if i < n { assert(al[i] == mp.allocations@[i]); }
        if j < n { assert(al[j] == mp.allocations@[j]); }
    }
    assert forall|i: int| 0 <= i < al.len() implies #[trigger] m.alloc_has_region(i) by {
        if i < n {
            assert(al[i] == mp.allocations@[i]);
            assert(mp.alloc_has_region(i));
        } else {
            assert(rs[kp].id == al[i].region);
        }
    }
    assert forall|i: int| 0 <= i < al.len() implies #[trigger] m.alloc_has_block(i) by {
        if i < n {
            assert(al[i] == mp.allocations@[i]);
            assert(mp.alloc_has_block(i));
            let j = choose|j: int| 0 <= j < mp.virtual_mapper.blocks@.len() && mp.virtual_mapper.blocks@[j].id == al[i].virtual_block
                && mp.virtual_mapper.blocks@[j].allocation == al[i].id && mp.virtual_mapper.blocks@[j].size == al[i].data_length;
            assert(m.virtual_mapper.blocks@[j] == mp.virtual_mapper.blocks@[j]);
        } else {
            assert(m.virtual_mapper.blocks@[mp.virtual_mapper.blocks@.len() as int].id == bid);
        }
    }
    assert forall|k: int| 0 <= k < m.regions@.len() implies #[trigger] m.region_owned(k) by {
        if k == kp {
            assert(al[n].id == mp.next_allocation_id && al[n].region == rid);
        } else {
            assert(mp.region_owned(k));
            if rs[k].state is Used {
                let i = choose|i: int| 0 <= i < mp.allocations@.len() && mp.allocations@[i].id == rs[k].state->Used_0
                    && mp.allocations@[i].region == rs[k].id;
                assert(al[i] == mp.allocations@[i]);
            }
        }
    }
    assert forall|i: int| 0 <= i < n implies #[trigger] same_allocation(mp.allocations@[i], mp.heap@, m.allocations@[i], m.heap@) by {
        let a = mp.allocations@[i];
        assert(al[i] == a);
        assert(mp.alloc_has_region(i));
        let ka = choose|k: int| 0 <= k < rs.len() && rs[k].id == a.region
            && rs[k].state == HeapRegionState::Used(a.id) && rs[k].base == a.start
            && rs[k].length == spec_total_region_len(a.data_length as int);
        assert(ka != kp);
        if ka < kp {
            lemma_partition_ordered(rs, len, ka, kp);
        } else {
            lemma_partition_ordered(rs, len, kp, ka);
        }
        lemma_partition_bounds(rs, len, ka);
        assert forall|t: int| 0 <= t < spec_total_region_len(a.data_length as int) implies #[trigger] m.heap@[a.start + t] == mp.heap@[a.start + t] by {}
    }
}

impl Memory {
    /// Allocates `data_size` bytes and returns the virtual address of the allocation. The
    /// address is the preferred base if one is given, else the next free one; a preferred
    /// base that is not page-aligned or lies below the watermark is refused. Room is
    /// looked for as the heap is, then after a collection that starts from `gc_roots`, then
    /// after doubling the heap up to its largest size; if there is still none, memory is out.
    /// The new allocation's reference tags are all clear.
    #[verifier::rlimit(100)]
    pub fn allocate(&mut self, data_size: u64, is_collectible: bool, gc_roots: &[DataWord], preferred_base: Option<u64>) -> (r: Result<u64, Error>)
        requires
            old(self).wf(),
        ensures
            final(self).wf(),
            pinned_kept(old(self), final(self)),
            forall|i: int| 0 <= i < final(self).allocations@.len() && #[trigger] final(self).allocations@[i].id != old(self).next_allocation_id
                ==> kept_from(old(self), final(self), i),
            r matches Err(e) ==> e.kind == ErrorKind::BadBase || e.kind == ErrorKind::OutOfMemory,
            r matches Err(e) ==> e.kind == ErrorKind::BadBase ==> bad_base(preferred_base, old(self).virtual_mapper.next_address, data_size)
                && !ids_exhausted(old(self)) && data_size <= MAX_MEMORY_SIZE,
            forall|id: u64| #[trigger] old(self).reachable(gc_roots@, id) ==> final(self).has_allocation(id),
            r matches Err(e) ==> e.kind == ErrorKind::OutOfMemory ==> ids_exhausted(old(self)) || data_size > MAX_MEMORY_SIZE
                || used_total(final(self).regions@) + spec_total_region_len(data_size as int) > MAX_MEMORY_SIZE,
            r matches Err(e) ==> e.kind == ErrorKind::OutOfMemory && !ids_exhausted(old(self)) ==> forall|i: int| 0 <= i < final(self).allocations@.len()
                ==> old(self).reachable(gc_roots@, #[trigger] final(self).allocations@[i].id),
            forall|j: int| 0 <= j < final(self).virtual_mapper.blocks@.len() ==> old(self).virtual_mapper.blocks@.contains(#[trigger] final(self).virtual_mapper.blocks@[j])
                || final(self).virtual_mapper.blocks@[j].allocation == old(self).next_allocation_id,
            final(self).regions.next_id <= old(self).regions.next_id + 3,
            final(self).virtual_mapper.next_block_id <= old(self).virtual_mapper.next_block_id + 1,
            final(self).next_allocation_id <= old(self).next_allocation_id + 1,
            r is Err ==> final(self).virtual_mapper.next_address == old(self).virtual_mapper.next_address,
            r matches Ok(addr) ==> final(self).virtual_mapper.next_address == addr + page_count(data_size) * 1024,
            r is Ok ==> final(self).heap@.len() == old(self).heap@.len()
                || final(self).heap@.len() == grown_size(old(self).heap@.len() as int, used_total(final(self).regions@)),
            final(self).heap@.len() == old(self).heap@.len()
                || exists|m: int| final(self).heap@.len() == #[trigger] grown_size(old(self).heap@.len() as int, m),
            r matches Ok(addr) ==> {
                let id = old(self).next_allocation_id;
                let i = final(self).alloc_index(id);
                let a = final(self).allocations@[i];
                &&& !bad_base(preferred_base, old(self).virtual_mapper.next_address, data_size)
                &&& addr == chosen_base(preferred_base, old(self).virtual_mapper.next_address)
                &&& final(self).has_allocation(id)
                &&& final(self).base_of(id) == addr
                &&& a.data_length == data_size
                &&& a.is_collectible == is_collectible
                &&& final(self).next_allocation_id == id + 1
                &&& forall|t: int| 0 <= t < data_size ==> #[trigger] final(self).spec_locate((addr + t) as u64) == Some((i, t))
                &&& forall|j: int| 0 <= j < spec_bitfield_len(data_size as int) ==> #[trigger] final(self).heap@[a.start + a.data_length + j] == 0
            },
    {
        proof {
            assert forall|id: u64| #[trigger] old(self).reachable(gc_roots@, id) implies self.has_allocation(id) by {
                lemma_reachable_exists(old(self), gc_roots@, id);
            }
            assert forall|j: int| 0 <= j < self.virtual_mapper.blocks@.len() implies old(self).virtual_mapper.blocks@.contains(#[trigger] self.virtual_mapper.blocks@[j]) by {}
        }
        if self.regions.next_id >= u64::MAX - 4 || self.virtual_mapper.next_block_id >= u64::MAX - 1
            || self.next_allocation_id >= u64::MAX - 1 {
            proof { lemma_pinned_refl(self); lemma_survivors_refl(self); }
            return Err(Error::of_kind(ErrorKind::OutOfMemory, "Out of memory"));
        }
        let ghost m0 = *self;
        let (start, region_id) = match self.try_allocate_region(data_size, gc_roots) {
            Ok(x) => x,
            Err(e) => {
                proof {
                    assert forall|i: int| 0 <= i < self.allocations@.len() && #[trigger] self.allocations@[i].id != m0.next_allocation_id
                        implies kept_from(&m0, self, i) by {}
                }
                return Err(e);
            },
        };
        let ghost mp = *self;
        let acceptable = match preferred_base {
            Some(b) => b % VIRTUAL_PAGE_SIZE == 0 && b >= self.virtual_mapper.next_address,
            None => true,
        };
        let fits = if acceptable {
            let base = match preferred_base {
                Some(b) => b,
                None => self.virtual_mapper.next_address,
            };
            base <= u64::MAX - (data_size / VIRTUAL_PAGE_SIZE + 1) * VIRTUAL_PAGE_SIZE
        } else {
            false
        };
        if !fits {
            let ghost kp = choose|kp: int| mp.wf_with_pending(kp)
                && mp.regions@[kp] == (HeapRegion { id: region_id, state: HeapRegionState::Used(m0.next_allocation_id), base: start, length: spec_total_region_len(data_size as int) as usize });
            let len = Ghost(self.heap@.len() as int);
            match self.regions.deallocate(region_id, len) {
                Ok(()) => {},
                Err(e) => {
                    assert(false);
                    return Err(e);
                },
            }
            proof {
                lemma_release_pending(&mp, self, kp);
                assert forall|i: int| 0 <= i < self.allocations@.len() && #[trigger] self.allocations@[i].id != m0.next_allocation_id
                    implies kept_from(&m0, self, i) by {
                    assert(kept_from(&m0, &mp, i));
                }
                assert forall|j: int| 0 <= j < self.virtual_mapper.blocks@.len()
                    implies m0.virtual_mapper.blocks@.contains(#[trigger] self.virtual_mapper.blocks@[j]) by {
                    assert(self.virtual_mapper.blocks@[j] == mp.virtual_mapper.blocks@[j]);
                }
            }
            return Err(Error::of_kind(ErrorKind::BadBase, "Unable to meet requested base address"));
        }
        let ghost kp = choose|kp: int| mp.wf_with_pending(kp)
            && mp.regions@[kp] == (HeapRegion { id: region_id, state: HeapRegionState::Used(m0.next_allocation_id), base: start, length: spec_total_region_len(data_size as int) as usize });
        let allocation_id = self.next_allocation_id;
        let (addr, block_id) = match self.virtual_mapper.map(data_size, allocation_id, preferred_base) {
            Ok(x) => x,
            Err(e) => {
                assert(false);
                return Err(e);
            },
        };
        let ds = data_size as usize;
        self.allocations.push(Allocation {
            id: allocation_id,
            start,
            data_length: ds,
            is_collectible,
            virtual_block: block_id,
            region: region_id,
        });
        self.next_allocation_id = self.next_allocation_id + 1;
        proof { lemma_partition_bounds(mp.regions@, mp.heap@.len() as int, kp); }
        let bits = bitfield_len(ds);
        zero_range(&mut self.heap, start + ds, start + ds + bits);
        proof {
            lemma_record_allocation(&mp, self, kp, addr, block_id, start, ds, is_collectible, region_id);
            lemma_allocate_finish(&m0, &mp, self, addr, data_size);
            assert forall|id: u64| #[trigger] m0.reachable(gc_roots@, id) implies self.has_allocation(id) by {
                let x = mp.alloc_index(id);
                assert(self.allocations@[x] == mp.allocations@[x]);
            }
            assert forall|j: int| 0 <= j < self.virtual_mapper.blocks@.len() implies m0.virtual_mapper.blocks@.contains(#[trigger] self.virtual_mapper.blocks@[j])
                || self.virtual_mapper.blocks@[j].allocation == m0.next_allocation_id by {
                if j < mp.virtual_mapper.blocks@.len() {
                    assert(self.virtual_mapper.blocks@[j] == mp.virtual_mapper.blocks@[j]);
                    assert(m0.virtual_mapper.blocks@.contains(mp.virtual_mapper.blocks@[j]));
                }
            }
        }
        Ok(addr)
    }
}


/// What a successful allocation leaves: the new allocation is reached at every offset of
/// its payload from the returned address, and the earlier ones keep their bytes.
proof fn lemma_allocate_finish(m0: &Memory, mp: &Memory, m: &Memory, addr: u64, data_size: u64)
    requires
        m.wf(),
        survivors_kept(m0, mp),
        pinned_kept(m0, mp),
        mp.next_allocation_id == m0.next_allocation_id,
        data_size <= MAX_MEMORY_SIZE,
        m.allocations@.len() == mp.allocations@.len() + 1,
        m.allocations@.last().id == m0.next_allocation_id,
        m.allocations@.last().data_length == data_size,
        forall|i: int| 0 <= i < mp.allocations@.len() ==> #[trigger] m.allocations@[i] == mp.allocations@[i],
        forall|i: int| 0 <= i < mp.allocations@.len() ==> #[trigger] same_allocation(mp.allocations@[i], mp.heap@, m.allocations@[i], m.heap@),
        m.virtual_mapper.blocks@.len() == mp.virtual_mapper.blocks@.len() + 1,
        m.virtual_mapper.blocks@.last() == (VirtualAddressBlock { id: m.allocations@.last().virtual_block, allocation: m0.next_allocation_id, base: addr, size: data_size }),
    ensures
        ({
            let i = m.alloc_index(m0.next_allocation_id);
            &&& i == mp.allocations@.len()
            &&& m.has_allocation(m0.next_allocation_id)
            &&& m.base_of(m0.next_allocation_id) == addr
            &&& forall|t: int| 0 <= t < data_size ==> #[trigger] m.spec_locate((addr + t) as u64) == Some((i, t))
        }),
        forall|x: int| 0 <= x < m.allocations@.len() && #[trigger] m.allocations@[x].id != m0.next_allocation_id ==> kept_from(m0, m, x),
        pinned_kept(m0, m),
{
    let n = mp.allocations@.len() as int;
    let id = m0.next_allocation_id;
    assert(m.allocations@[n].id == id);
    let i = m.alloc_index(id);
    assert(i == n);
    {
        let bj = mp.virtual_mapper.blocks@.len() as int;
        let vb = m.allocations@[i].virtual_block;
        let k = m.virtual_mapper.block_index(vb);
        assert(m.virtual_mapper.blocks@[bj].id == vb);
        assert(k == bj);
    }
    assert forall|t: int| 0 <= t < data_size implies #[trigger] m.spec_locate((addr + t) as u64) == Some((i, t)) by {
        let bj = mp.virtual_mapper.blocks@.len() as int;
        assert(m.virtual_mapper.blocks@[bj].base == addr);
        assert(t < page_count(data_size) * 1024) by (nonlinear_arith)
            requires t < data_size, page_count(data_size) == data_size / 1024 + 1;
        lemma_translate_in_block(&m.virtual_mapper, bj, t);
    }
    assert forall|x: int| 0 <= x < m.allocations@.len() && #[trigger] m.allocations@[x].id != id implies kept_from(m0, m, x) by {
        assert(x < n);
        assert(kept_from(m0, mp, x));
        let j = choose|j: int| 0 <= j < m0.allocations@.len() && same_allocation(m0.allocations@[j], m0.heap@, mp.allocations@[x], mp.heap@);
        let y = mp.allocations@[x];
        assert(same_allocation(y, mp.heap@, m.allocations@[x], m.heap@));
        assert forall|t: int| 0 <= t < spec_total_region_len(y.data_length as int) implies #[trigger] m.heap@[m.allocations@[x].start + t] == m0.heap@[m0.allocations@[j].start + t] by {
            assert(m.heap@[y.start + t] == mp.heap@[y.start + t]);
        }
        assert(same_allocation(m0.allocations@[j], m0.heap@, m.allocations@[x], m.heap@));
    }
    assert forall|j: int| 0 <= j < m0.allocations@.len() && !(#[trigger] m0.allocations@[j]).is_collectible implies m.has_allocation(m0.allocations@[j].id) by {
        assert(mp.has_allocation(m0.allocations@[j].id));
        let x = mp.alloc_index(m0.allocations@[j].id);
        assert(m.allocations@[x] == mp.allocations@[x]);
    }
}


impl Memory {
    /// The virtual base of the allocation with the given id.
    pub open spec fn base_of(&self, id: u64) -> u64 {
        let a = self.allocations@[self.alloc_index(id)];
        self.virtual_mapper.blocks@[self.virtual_mapper.block_index(a.virtual_block)].base
    }
}

/// An allocation that survives (a collection, or another allocation) keeps its virtual
/// base, and the bytes read through it are the same as before. Collections keep every
/// survivor (`survivors_kept`); an allocation keeps every earlier allocation that survives
/// its collection, and adds only the new allocation's block.
pub proof fn lemma_survivor_reads_same(m0: &Memory, m1: &Memory, id: u64, t: int, n: int)
    requires
        m0.wf(),
        m1.wf(),
        m1.has_allocation(id) ==> kept_from(m0, m1, m1.alloc_index(id)),
        forall|j: int| 0 <= j < m1.virtual_mapper.blocks@.len() && (#[trigger] m1.virtual_mapper.blocks@[j]).allocation == id
            ==> m0.virtual_mapper.blocks@.contains(m1.virtual_mapper.blocks@[j]),
        m0.has_allocation(id),
        m1.has_allocation(id),
        0 <= t,
        0 <= n,
        t + n <= m0.allocations@[m0.alloc_index(id)].data_length,
    ensures
        m1.base_of(id) == m0.base_of(id),
        m1.spec_get((m0.base_of(id) + t) as u64, n) == m0.spec_get((m0.base_of(id) + t) as u64, n),
{
    let i0 = m0.alloc_index(id);
    let x = m1.alloc_index(id);
    let a0 = m0.allocations@[i0];
    let a1 = m1.allocations@[x];
    assert(kept_from(m0, m1, x));
    let j = choose|j: int| 0 <= j < m0.allocations@.len() && same_allocation(m0.allocations@[j], m0.heap@, a1, m1.heap@);
    assert(j == i0);
    assert(m0.alloc_has_block(i0));
    assert(m1.alloc_has_block(x));
    let b0 = m0.virtual_mapper.block_index(a0.virtual_block);
    let jb0 = choose|jj: int| 0 <= jj < m0.virtual_mapper.blocks@.len() && m0.virtual_mapper.blocks@[jj].id == a0.virtual_block
        && m0.virtual_mapper.blocks@[jj].allocation == a0.id && m0.virtual_mapper.blocks@[jj].size == a0.data_length;
    assert(b0 == jb0);
    let b1 = m1.virtual_mapper.block_index(a1.virtual_block);
    let jb1 = choose|jj: int| 0 <= jj < m1.virtual_mapper.blocks@.len() && m1.virtual_mapper.blocks@[jj].id == a1.virtual_block
        && m1.virtual_mapper.blocks@[jj].allocation == a1.id && m1.virtual_mapper.blocks@[jj].size == a1.data_length;
    assert(b1 == jb1);
    let blk = m1.virtual_mapper.blocks@[b1];
    assert(m0.virtual_mapper.blocks@.contains(blk));
    let k = choose|k: int| 0 <= k < m0.virtual_mapper.blocks@.len() && m0.virtual_mapper.blocks@[k] == blk;
    assert(k == b0);
    assert(m1.base_of(id) == m0.base_of(id));
    {
        assert(t < page_count(blk.size) * 1024) by (nonlinear_arith)
            requires t <= blk.size, page_count(blk.size) == blk.size / 1024 + 1;
        lemma_translate_in_block(&m0.virtual_mapper, b0, t);
        lemma_translate_in_block(&m1.virtual_mapper, b1, t);
        m0.lemma_alloc_bounds(i0);
        m1.lemma_alloc_bounds(x);
        if t < a0.data_length {
            let s0 = m0.heap@.subrange(a0.start + t, a0.start + t + n);
            let s1 = m1.heap@.subrange(a1.start + t, a1.start + t + n);
            assert forall|q: int| 0 <= q < n implies s1[q] == s0[q] by {
                assert(m1.heap@[a1.start + (t + q)] == m0.heap@[a0.start + (t + q)]);
            }
            assert(s1 =~= s0);
        }
    }
}


impl Memory {
    /// How many payload bytes can be read from a virtual address to the end of its
    /// allocation.
    pub fn readable_len(&self, addr: u64) -> (r: Result<u64, Error>)
        requires
            self.wf(),
        ensures
            r matches Ok(n) ==> self.spec_locate(addr) matches Some((i, off)) && n == self.allocations@[i].data_length - off,
            r matches Err(e) ==> self.spec_locate(addr) is None && e.kind == ErrorKind::Unmapped,
    {
        let (index, offset) = self.addr_to_allocation(addr)?;
        Ok((self.allocations[index].data_length - offset) as u64)
    }
}


/// Well-formed memory, which allocation, deallocation and collection all keep: the heap
/// regions cover the heap in ascending address order without gaps (a region that is not
/// empty starts strictly before the next one), no two neighbouring regions are free, and
/// each used region belongs to exactly one allocation of the table, which names it.
pub proof fn lemma_regions_partition_heap(m: &Memory)
    requires
        m.wf(),
    ensures
        crate::interpreter::regions::regions_partition(m.regions@, m.heap@.len() as int),
        crate::interpreter::regions::no_adjacent_free(m.regions@),
        forall|k: int| 0 <= k < m.regions@.len() - 1 ==> #[trigger] m.regions@[k].base <= m.regions@[k + 1].base
            && (m.regions@[k].length > 0 ==> m.regions@[k].base < m.regions@[k + 1].base),
        forall|k: int| 0 <= k < m.regions@.len() && #[trigger] m.regions@[k].state is Used ==> exists|i: int|
            0 <= i < m.allocations@.len() && m.allocations@[i].id == m.regions@[k].state->Used_0
            && m.allocations@[i].region == m.regions@[k].id
            && forall|j: int| 0 <= j < m.allocations@.len() && m.allocations@[j].id == m.regions@[k].state->Used_0 ==> j == i,
{
    let rs = m.regions@;
    assert forall|k: int| 0 <= k < rs.len() - 1 implies #[trigger] rs[k].base <= rs[k + 1].base
        && (rs[k].length > 0 ==> rs[k].base < rs[k + 1].base) by {
        assert(rs[k].spec_end() == rs[k + 1].base);
    }
    assert forall|k: int| 0 <= k < rs.len() && #[trigger] rs[k].state is Used implies exists|i: int|
        0 <= i < m.allocations@.len() && m.allocations@[i].id == rs[k].state->Used_0
        && m.allocations@[i].region == rs[k].id
        && forall|j: int| 0 <= j < m.allocations@.len() && m.allocations@[j].id == rs[k].state->Used_0 ==> j == i by {
        assert(m.region_owned(k));
    }
}


/// The used bytes of well-formed memory with at most one allocation are that allocation's
/// region length.
pub proof fn lemma_used_total_of_few(m: &Memory)
    requires
        m.wf(),
        m.allocations@.len() <= 1,
    ensures
        used_total(m.regions@) == if m.allocations@.len() == 0 { 0 } else {
            spec_total_region_len(m.allocations@[0].data_length as int)
        },
{
    let rs = m.regions@;
    if m.allocations@.len() == 0 {
        assert forall|j: int| 0 <= j < rs.len() && j != -1 implies !(#[trigger] rs[j].state is Used) by {
            assert(m.region_owned(j));
        }
        crate::interpreter::regions::lemma_used_total_single(rs, -1);
    } else {
        let a = m.allocations@[0];
        assert(m.alloc_has_region(0));
        let k = choose|k: int| 0 <= k < rs.len() && rs[k].id == a.region
            && rs[k].state == HeapRegionState::Used(a.id) && rs[k].base == a.start
            && rs[k].length == spec_total_region_len(a.data_length as int);
        assert forall|j: int| 0 <= j < rs.len() && j != k implies !(#[trigger] rs[j].state is Used) by {
            assert(m.region_owned(j));
            if rs[j].state is Used {
                let i = choose|i: int| 0 <= i < m.allocations@.len() && m.allocations@[i].id == rs[j].state->Used_0
                    && m.allocations@[i].region == rs[j].id;
                assert(i == 0);
            }
        }
        crate::interpreter::regions::lemma_used_total_single(rs, k);
    }
}

/// Bytes written at a virtual address read back from there.
pub proof fn lemma_set_then_get(m0: &Memory, m1: &Memory, addr: u64, data: Seq<u8>)
    requires
        m0.wf(),
        m0.spec_set_heap(addr, data) == Some(m1.heap@),
        m1.allocations@ == m0.allocations@,
        m1.virtual_mapper == m0.virtual_mapper,
    ensures
        m1.spec_get(addr, data.len() as int) == Some(data),
{
    let (i, off) = m0.spec_locate(addr).unwrap();
    m0.lemma_alloc_bounds(i);
    assert(m1.spec_locate(addr) == m0.spec_locate(addr));
    let p = m0.allocations@[i].start + off;
    assert(m1.heap@.subrange(p, p + data.len()) =~= data);
}


/// After a collection, the blocks left are exactly the old blocks of reachable allocations.
proof fn lemma_final_blocks(m0: &Memory, m: &Memory, roots: Seq<DataWord>)
    requires
        m0.wf(),
        m.wf(),
        survivors_kept(m0, m),
        forall|i: int| 0 <= i < m.allocations@.len() ==> m0.reachable(roots, #[trigger] m.allocations@[i].id),
        forall|id: u64| #[trigger] m0.reachable(roots, id) ==> m.has_allocation(id),
    ensures
        forall|blk: VirtualAddressBlock| #[trigger] m.virtual_mapper.blocks@.contains(blk)
            <==> m0.virtual_mapper.blocks@.contains(blk) && m0.reachable(roots, blk.allocation),
{
    assert forall|blk: VirtualAddressBlock| #[trigger] m.virtual_mapper.blocks@.contains(blk)
        implies m0.virtual_mapper.blocks@.contains(blk) && m0.reachable(roots, blk.allocation) by {
        let j = choose|j: int| 0 <= j < m.virtual_mapper.blocks@.len() && m.virtual_mapper.blocks@[j] == blk;
        assert(m0.virtual_mapper.blocks@.contains(m.virtual_mapper.blocks@[j]));
        assert(m.block_owned(j));
        let i = choose|i: int| 0 <= i < m.allocations@.len() && m.allocations@[i].id == blk.allocation
            && m.allocations@[i].virtual_block == blk.id;
        assert(m0.reachable(roots, m.allocations@[i].id));
    }
    assert forall|blk: VirtualAddressBlock| m0.virtual_mapper.blocks@.contains(blk) && m0.reachable(roots, blk.allocation)
        implies #[trigger] m.virtual_mapper.blocks@.contains(blk) by {
        let j0 = choose|j: int| 0 <= j < m0.virtual_mapper.blocks@.len() && m0.virtual_mapper.blocks@[j] == blk;
        assert(m0.block_owned(j0));
        let x0 = choose|i: int| 0 <= i < m0.allocations@.len() && m0.allocations@[i].id == blk.allocation
            && m0.allocations@[i].virtual_block == blk.id;
        assert(m.has_allocation(blk.allocation));
        let x = m.alloc_index(blk.allocation);
        assert(kept_from(m0, m, x));
        let y = choose|y: int| 0 <= y < m0.allocations@.len() && same_allocation(m0.allocations@[y], m0.heap@, m.allocations@[x], m.heap@);
        assert(y == x0);
        assert(m.alloc_has_block(x));
        let jb = choose|jj: int| 0 <= jj < m.virtual_mapper.blocks@.len() && m.virtual_mapper.blocks@[jj].id == m.allocations@[x].virtual_block
            && m.virtual_mapper.blocks@[jj].allocation == m.allocations@[x].id && m.virtual_mapper.blocks@[jj].size == m.allocations@[x].data_length;
        let b2 = m.virtual_mapper.blocks@[jb];
        assert(m0.virtual_mapper.blocks@.contains(b2));
        let j2 = choose|j: int| 0 <= j < m0.virtual_mapper.blocks@.len() && m0.virtual_mapper.blocks@[j] == b2;
        assert(m0.virtual_mapper.blocks@[j2].id == m0.virtual_mapper.blocks@[j0].id);
        assert(j2 == j0);
        assert(m.virtual_mapper.blocks@[jb] == blk);
    }
}

/// Collections from two sets of roots that reach the same allocations leave the same
/// allocations and the same virtual mappings: roots that are not tagged, or that lead
/// nowhere, change nothing.
pub proof fn lemma_collections_agree(m0: &Memory, f1: &Memory, f2: &Memory, roots1: Seq<DataWord>, roots2: Seq<DataWord>)
    requires
        f1.virtual_mapper.wf(),
        f2.virtual_mapper.wf(),
        forall|id: u64| #[trigger] m0.reachable(roots1, id) == m0.reachable(roots2, id),
        forall|id: u64| #[trigger] m0.reachable(roots1, id) ==> f1.has_allocation(id),
        forall|i: int| 0 <= i < f1.allocations@.len() ==> m0.reachable(roots1, #[trigger] f1.allocations@[i].id),
        forall|id: u64| #[trigger] m0.reachable(roots2, id) ==> f2.has_allocation(id),
        forall|i: int| 0 <= i < f2.allocations@.len() ==> m0.reachable(roots2, #[trigger] f2.allocations@[i].id),
        forall|blk: VirtualAddressBlock| #[trigger] f1.virtual_mapper.blocks@.contains(blk)
            <==> m0.virtual_mapper.blocks@.contains(blk) && m0.reachable(roots1, blk.allocation),
        forall|blk: VirtualAddressBlock| #[trigger] f2.virtual_mapper.blocks@.contains(blk)
            <==> m0.virtual_mapper.blocks@.contains(blk) && m0.reachable(roots2, blk.allocation),
    ensures
        forall|id: u64| #[trigger] f1.has_allocation(id) == f2.has_allocation(id),
        f1.virtual_mapper.mappings@ == f2.virtual_mapper.mappings@,
{
    assert forall|id: u64| #[trigger] f1.has_allocation(id) == f2.has_allocation(id) by {
        if f1.has_allocation(id) {
            let i = choose|i: int| 0 <= i < f1.allocations@.len() && f1.allocations@[i].id == id;
            assert(m0.reachable(roots1, f1.allocations@[i].id));
            assert(m0.reachable(roots2, id));
        }
        if f2.has_allocation(id) {
            let i = choose|i: int| 0 <= i < f2.allocations@.len() && f2.allocations@[i].id == id;
            assert(m0.reachable(roots2, f2.allocations@[i].id));
            assert(m0.reachable(roots1, id));
        }
    }
    assert forall|blk: VirtualAddressBlock| #[trigger] f1.virtual_mapper.blocks@.contains(blk) <==> f2.virtual_mapper.blocks@.contains(blk) by {
        assert(m0.reachable(roots1, blk.allocation) == m0.reachable(roots2, blk.allocation));
    }
    crate::interpreter::mapper::lemma_mappings_determined(&f1.virtual_mapper, &f2.virtual_mapper);
}


/// Roots that start collection at the same allocations reach the same allocations.
pub proof fn lemma_roots_reach_alike(m: &Memory, roots1: Seq<DataWord>, roots2: Seq<DataWord>)
    requires
        forall|id: u64| #[trigger] m.is_root(roots1, id) == m.is_root(roots2, id),
    ensures
        forall|id: u64| #[trigger] m.reachable(roots1, id) == m.reachable(roots2, id),
{
    assert forall|id: u64| #[trigger] m.reachable(roots1, id) == m.reachable(roots2, id) by {
        if m.reachable(roots1, id) {
            let path = choose|path: Seq<u64>| path.len() >= 1 && m.is_root(roots1, path[0]) && path.last() == id
                && forall|k: int| 0 <= k < path.len() - 1 ==> #[trigger] m.edge(path[k], path[k + 1]);
            assert(m.is_root(roots2, path[0]));
        }
        if m.reachable(roots2, id) {
            let path = choose|path: Seq<u64>| path.len() >= 1 && m.is_root(roots2, path[0]) && path.last() == id
                && forall|k: int| 0 <= k < path.len() - 1 ==> #[trigger] m.edge(path[k], path[k + 1]);
            assert(m.is_root(roots1, path[0]));
        }
    }
}

/// Dropping the roots that are not tagged, or that lead into no allocation, starts
/// collection at the same allocations.
pub proof fn lemma_cleaned_roots_alike(m: &Memory, roots: Seq<DataWord>, cleaned: Seq<DataWord>)
    requires
        forall|r: int| 0 <= r < roots.len() && (#[trigger] roots[r]).is_reference && m.target(roots[r].value) is Some
            ==> cleaned.contains(roots[r]),
        forall|c: int| 0 <= c < cleaned.len() ==> roots.contains(#[trigger] cleaned[c]),
    ensures
        forall|id: u64| #[trigger] m.is_root(roots, id) == m.is_root(cleaned, id),
{
    assert forall|id: u64| #[trigger] m.is_root(roots, id) == m.is_root(cleaned, id) by {
        if exists|r: int| 0 <= r < roots.len() && (#[trigger] roots[r]).is_reference && m.target(roots[r].value) == Some(id) {
            let r = choose|r: int| 0 <= r < roots.len() && (#[trigger] roots[r]).is_reference && m.target(roots[r].value) == Some(id);
            assert(cleaned.contains(roots[r]));
            let c = choose|c: int| 0 <= c < cleaned.len() && cleaned[c] == roots[r];
            assert(cleaned[c].is_reference && m.target(cleaned[c].value) == Some(id));
        }
        if exists|c: int| 0 <= c < cleaned.len() && (#[trigger] cleaned[c]).is_reference && m.target(cleaned[c].value) == Some(id) {
            let c = choose|c: int| 0 <= c < cleaned.len() && (#[trigger] cleaned[c]).is_reference && m.target(cleaned[c].value) == Some(id);
            assert(roots.contains(cleaned[c]));
            let r = choose|r: int| 0 <= r < roots.len() && roots[r] == cleaned[c];
            assert(roots[r].is_reference && m.target(roots[r].value) == Some(id));
        }
    }
}

} // verus!
