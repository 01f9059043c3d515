use crate::common::{Error, ErrorKind};
use vstd::prelude::*;

verus! {

/// Bytes of the reference bitfield that follows a payload of `data_len` bytes: one bit
/// per word.
pub open spec fn spec_bitfield_len(data_len: int) -> int {
    (data_len + 63) / 64
}

/// Bytes of a region that holds a payload of `data_len` bytes and its bitfield.
pub open spec fn spec_total_region_len(data_len: int) -> int {
    data_len + spec_bitfield_len(data_len)
}

/// Bytes of the reference bitfield that follows a payload of `data_len` bytes.
pub fn bitfield_len(data_len: usize) -> (r: usize)
    requires
        data_len <= usize::MAX - 63,
    ensures
        r == spec_bitfield_len(data_len as int),
{
    (data_len + 63) / 64
}

/// Bytes of a region that holds a payload of `data_len` bytes and its bitfield.
pub fn total_region_len(data_len: usize) -> (r: usize)
    requires
        data_len <= usize::MAX / 2,
    ensures
        r == spec_total_region_len(data_len as int),
{
    data_len + bitfield_len(data_len)
}

/// Whether a region is free or holds an allocation.
#[derive(PartialEq, Eq, Structural, Clone, Copy, Debug)]
pub enum HeapRegionState {
    Free,
    Used(u64),
}

impl HeapRegionState {
    pub fn is_free(&self) -> (r: bool)
        ensures
            r == (*self is Free),
    {
        match self {
            HeapRegionState::Free => true,
            HeapRegionState::Used(_) => false,
        }
    }

    pub fn is_used(&self) -> (r: bool)
        ensures
            r == (*self is Used),
    {
        !self.is_free()
    }
}

/// A contiguous slice of the backing heap.
#[derive(PartialEq, Eq, Structural, Clone, Copy, Debug)]
pub struct HeapRegion {
    pub id: u64,
    pub state: HeapRegionState,
    pub base: usize,
    pub length: usize,
}

impl HeapRegion {
    pub open spec fn spec_end(self) -> int {
        self.base + self.length
    }

    pub fn end(&self) -> (r: usize)
        requires
            self.base + self.length <= usize::MAX,
        ensures
            r == self.spec_end(),
    {
        self.base + self.length
    }
}

/// The outcome of looking for room for an allocation.
pub enum HeapRegionAllocationResult {
    Success { base: usize, id: u64 },
    OutOfMemory,
}

/// Whether the regions partition `[0, len)` in order, without gaps.
pub open spec fn regions_partition(rs: Seq<HeapRegion>, len: int) -> bool {
    &&& rs.len() > 0
    &&& rs[0].base == 0
    &&& forall|i: int| 0 <= i < rs.len() - 1 ==> #[trigger] rs[i].spec_end() == rs[i + 1].base
    &&& rs.last().spec_end() == len
}

/// Whether no two neighbouring regions are both free.
pub open spec fn no_adjacent_free(rs: Seq<HeapRegion>) -> bool {
    forall|i: int| 0 <= i < rs.len() - 1 ==> !(#[trigger] rs[i].state is Free && rs[i + 1].state is Free)
}

/// Whether the regions' ids are distinct and below `next_id`.
pub open spec fn region_ids_fresh(rs: Seq<HeapRegion>, next_id: u64) -> bool {
    &&& forall|i: int| 0 <= i < rs.len() ==> #[trigger] rs[i].id < next_id
    &&& forall|i: int, j: int| 0 <= i < rs.len() && 0 <= j < rs.len() && i != j ==> #[trigger] rs[i].id != #[trigger] rs[j].id
}

/// Whether region `i` is the first free region of at least `total` bytes.
pub open spec fn is_first_fit(rs: Seq<HeapRegion>, i: int, total: int) -> bool {
    &&& 0 <= i < rs.len()
    &&& rs[i].state is Free
    &&& rs[i].length >= total
    &&& forall|j: int| 0 <= j < i ==> !(#[trigger] rs[j].state is Free && rs[j].length >= total)
}

/// Whether some free region has at least `total` bytes.
pub open spec fn has_fit(rs: Seq<HeapRegion>, total: int) -> bool {
    exists|i: int| 0 <= i < rs.len() && #[trigger] rs[i].state is Free && rs[i].length >= total
}

/// The regions after region `i` is given to allocation `aid` with `total` bytes; what is
/// left of it stays free, as a new region with id `new_id`.
pub open spec fn spec_split(rs: Seq<HeapRegion>, i: int, total: int, aid: u64, new_id: u64) -> Seq<HeapRegion> {
    let r = rs[i];
    let used = HeapRegion { id: r.id, state: HeapRegionState::Used(aid), base: r.base, length: total as usize };
    if r.length > total {
        rs.update(i, used).insert(
            i + 1,
            HeapRegion { id: new_id, state: HeapRegionState::Free, base: (r.base + total) as usize, length: (r.length - total) as usize },
        )
    } else {
        rs.update(i, used)
    }
}

/// Whether the used regions of `new` are those of `old` but the one with id `gone`.
pub open spec fn used_kept_except(old: Seq<HeapRegion>, new: Seq<HeapRegion>, gone: u64) -> bool {
    &&& forall|k: int| 0 <= k < new.len() && #[trigger] new[k].state is Used ==> exists|j: int| 0 <= j < old.len() && old[j] == new[k] && old[j].id != gone
    &&& forall|j: int| 0 <= j < old.len() && #[trigger] old[j].state is Used && old[j].id != gone ==> exists|k: int| 0 <= k < new.len() && new[k] == old[j]
}

/// Region `i` marked free.
pub open spec fn spec_free_at(rs: Seq<HeapRegion>, i: int) -> Seq<HeapRegion> {
    rs.update(i, HeapRegion { state: HeapRegionState::Free, ..rs[i] })
}

/// The regions after region `i` is freed and joined with its free neighbours.
pub open spec fn spec_deallocate(rs: Seq<HeapRegion>, i: int) -> Seq<HeapRegion> {
    let a = spec_free_at(rs, i);
    let b = if i + 1 < a.len() && a[i + 1].state is Free { spec_merge_right(a, i) } else { a };
    if i > 0 && b[i - 1].state is Free { spec_merge_right(b, i - 1) } else { b }
}

/// Region `i` joined with the region after it.
pub open spec fn spec_merge_right(rs: Seq<HeapRegion>, i: int) -> Seq<HeapRegion> {
    rs.update(i, HeapRegion { state: HeapRegionState::Free, length: (rs[i].length + rs[i + 1].length) as usize, ..rs[i] }).remove(i + 1)
}

/// The heap's partition into regions, kept in address order.
pub struct HeapRegions {
    pub regions: Vec<HeapRegion>,
    pub next_id: u64,
}

impl HeapRegions {
    pub open spec fn view(&self) -> Seq<HeapRegion> {
        self.regions@
    }

    /// The regions partition a heap of `len` bytes, no two free ones are neighbours, and
    /// their ids are distinct.
    pub open spec fn wf(&self, len: int) -> bool {
        &&& regions_partition(self@, len)
        &&& no_adjacent_free(self@)
        &&& region_ids_fresh(self@, self.next_id)
        &&& len <= usize::MAX
    }

    /// One free region over a heap of `size` bytes.
    pub fn new(size: usize) -> (r: HeapRegions)
        ensures
            r.wf(size as int),
            r@ == seq![HeapRegion { id: 1, state: HeapRegionState::Free, base: 0, length: size }],
            r.next_id == 2,
    {
        let mut regions: Vec<HeapRegion> = Vec::new();
        regions.push(HeapRegion { id: 1, state: HeapRegionState::Free, base: 0, length: size });
        HeapRegions { regions, next_id: 2 }
    }

    /// The index of the region with the given id.
    pub fn index_of(&self, id: u64) -> (r: Option<usize>)
        ensures
            r matches Some(i) ==> i < self@.len() && self@[i as int].id == id,
            r is None ==> forall|i: int| 0 <= i < self@.len() ==> self@[i].id != id,
    {
        let mut i: usize = 0;
        while i < self.regions.len()
            invariant
                i <= self@.len(),
                forall|j: int| 0 <= j < i ==> self@[j].id != id,
            decreases self@.len() - i,
        {
            if self.regions[i].id == id {
                return Some(i);
            }
            i = i + 1;
        }
        None
    }

    /// The region with the given id.
    pub fn get(&self, id: u64) -> (r: Option<HeapRegion>)
        ensures
            r matches Some(x) ==> exists|i: int| 0 <= i < self@.len() && self@[i] == x && x.id == id,
            r is None ==> forall|i: int| 0 <= i < self@.len() ==> self@[i].id != id,
    {
        match self.index_of(id) {
            Some(i) => Some(self.regions[i]),
            None => None,
        }
    }

    /// Total bytes of the used regions.
    pub fn used_bytes(&self, len: Ghost<int>) -> (r: usize)
        requires
            self.wf(len@),
        ensures
            r <= len@,
            r == used_total(self@),
    {
        let mut sum: usize = 0;
        let mut i: usize = 0;
        while i < self.regions.len()
            invariant
                self.wf(len@),
                i <= self@.len(),
                sum <= if i == 0 { 0 } else { self@[i - 1].spec_end() },
                sum == used_total(self@.subrange(0, i as int)),
            decreases self@.len() - i,
        {
            proof {
                lemma_partition_bounds(self@, len@, i as int);
                assert(self@.subrange(0, i + 1).drop_last() =~= self@.subrange(0, i as int));
            }
            if self.regions[i].state.is_used() {
                sum = sum + self.regions[i].length;
            }
            i = i + 1;
        }
        assert(self@.subrange(0, self@.len() as int) =~= self@);
        sum
    }
}

/// Total bytes of the used regions.
pub open spec fn used_total(rs: Seq<HeapRegion>) -> int
    decreases rs.len(),
{
    if rs.len() == 0 {
        0
    } else {
        used_total(rs.drop_last()) + if rs.last().state is Used { rs.last().length as int } else { 0 }
    }
}

/// With at most region `k` used, the used bytes are that region's length, if it is used.
pub proof fn lemma_used_total_single(rs: Seq<HeapRegion>, k: int)
    requires
        forall|j: int| 0 <= j < rs.len() && j != k ==> !(#[trigger] rs[j].state is Used),
    ensures
        used_total(rs) == if 0 <= k < rs.len() && rs[k].state is Used { rs[k].length as int } else { 0 },
    decreases rs.len(),
{
    if rs.len() > 0 {
        let init = rs.drop_last();
        assert forall|j: int| 0 <= j < init.len() && j != k implies !(#[trigger] init[j].state is Used) by {
            assert(init[j] == rs[j]);
        }
        lemma_used_total_single(init, k);
        if k < init.len() && 0 <= k {
            assert(init[k] == rs[k]);
        }
    }
}

/// What one region adds to the used bytes.
pub open spec fn used_part(r: HeapRegion) -> int {
    if r.state is Used { r.length as int } else { 0 }
}

/// Replacing one region changes the used bytes by the difference of their parts.
pub proof fn lemma_used_total_update(rs: Seq<HeapRegion>, i: int, x: HeapRegion)
    requires
        0 <= i < rs.len(),
    ensures
        used_total(rs.update(i, x)) == used_total(rs) - used_part(rs[i]) + used_part(x),
    decreases rs.len(),
{
    let u = rs.update(i, x);
    if i == rs.len() - 1 {
        assert(u.drop_last() =~= rs.drop_last());
    } else {
        assert(u.drop_last() =~= rs.drop_last().update(i, x));
        lemma_used_total_update(rs.drop_last(), i, x);
    }
}

/// Inserting a free region leaves the used bytes as they were.
pub proof fn lemma_used_total_insert_free(rs: Seq<HeapRegion>, j: int, f: HeapRegion)
    requires
        0 <= j <= rs.len(),
        f.state is Free,
    ensures
        used_total(rs.insert(j, f)) == used_total(rs),
    decreases rs.len(),
{
    let v = rs.insert(j, f);
    if j == rs.len() {
        assert(v.drop_last() =~= rs);
    } else {
        assert(v.drop_last() =~= rs.drop_last().insert(j, f));
        assert(v.last() == rs.last());
        lemma_used_total_insert_free(rs.drop_last(), j, f);
    }
}

/// Giving a free region to an allocation adds its length to the used bytes.
pub proof fn lemma_used_total_split(rs: Seq<HeapRegion>, i: int, total: int, aid: u64, new_id: u64)
    requires
        0 <= i < rs.len(),
        rs[i].state is Free,
        0 <= total <= rs[i].length,
    ensures
        used_total(spec_split(rs, i, total, aid, new_id)) == used_total(rs) + total,
{
    let r = rs[i];
    let used = HeapRegion { id: r.id, state: HeapRegionState::Used(aid), base: r.base, length: total as usize };
    lemma_used_total_update(rs, i, used);
    if r.length > total {
        lemma_used_total_insert_free(rs.update(i, used), i + 1,
            HeapRegion { id: new_id, state: HeapRegionState::Free, base: (r.base + total) as usize, length: (r.length - total) as usize });
    }
}

/// The used bytes are never negative.
pub proof fn lemma_used_total_nonneg(rs: Seq<HeapRegion>)
    ensures
        used_total(rs) >= 0,
    decreases rs.len(),
{
    if rs.len() > 0 {
        lemma_used_total_nonneg(rs.drop_last());
    }
}

/// When every region but the last is used, the used bytes are all that lies before the last
/// region, and the last one too if it is used.
pub proof fn lemma_used_total_compacted(rs: Seq<HeapRegion>, len: int)
    requires
        regions_partition(rs, len),
        forall|k: int| 0 <= k < rs.len() - 1 ==> #[trigger] rs[k].state is Used,
    ensures
        used_total(rs) == if rs.last().state is Used { len } else { rs.last().base as int },
    decreases rs.len(),
{
    if rs.len() == 1 {
        assert(rs.drop_last() =~= Seq::<HeapRegion>::empty());
        assert(used_total(rs.drop_last()) == 0);
        assert(rs.last() == rs[0]);
    } else {
        let init = rs.drop_last();
        assert(init.last() == rs[rs.len() - 2]);
        assert(rs[rs.len() - 2].spec_end() == rs.last().base);
        assert(regions_partition(init, init.last().spec_end())) by {
            assert forall|i: int| 0 <= i < init.len() - 1 implies #[trigger] init[i].spec_end() == init[i + 1].base by {
                assert(rs[i].spec_end() == rs[i + 1].base);
            }
        }
        assert forall|k: int| 0 <= k < init.len() - 1 implies #[trigger] init[k].state is Used by {
            assert(rs[k].state is Used);
        }
        lemma_used_total_compacted(init, init.last().spec_end());
        assert(init.last().state is Used);
        assert(used_total(init) == rs.last().base);
        assert(used_total(rs) == used_total(init) + if rs.last().state is Used { rs.last().length as int } else { 0 });
    }
}

/// In a partition the bases ascend, strictly past every region that is not empty; every
/// heap operation keeps the partition, so this holds after each of them.
pub proof fn lemma_partition_ascends(rs: Seq<HeapRegion>, len: int)
    requires
        regions_partition(rs, len),
    ensures
        forall|a: int, b: int| 0 <= a < b < rs.len() ==> #[trigger] rs[a].base <= #[trigger] rs[b].base
            && (rs[a].length > 0 ==> rs[a].base < rs[b].base),
{
    assert forall|a: int, b: int| 0 <= a < b < rs.len() implies #[trigger] rs[a].base <= #[trigger] rs[b].base
        && (rs[a].length > 0 ==> rs[a].base < rs[b].base) by {
        lemma_partition_ordered(rs, len, a, b);
    }
}

/// In a partition, a region ends no later than any region after it begins.
pub proof fn lemma_partition_ordered(rs: Seq<HeapRegion>, len: int, a: int, b: int)
    requires
        regions_partition(rs, len),
        0 <= a < b < rs.len(),
    ensures
        rs[a].spec_end() <= rs[b].base,
    decreases b - a,
{
    if b == a + 1 {
        assert(rs[a].spec_end() == rs[a + 1].base);
    } else {
        lemma_partition_ordered(rs, len, a, b - 1);
        assert(rs[b - 1].spec_end() == rs[b].base);
    }
}

/// Every region of a partition lies inside the heap, after the regions before it.
pub proof fn lemma_partition_bounds(rs: Seq<HeapRegion>, len: int, i: int)
    requires
        regions_partition(rs, len),
        0 <= i < rs.len(),
    ensures
        0 <= rs[i].base,
        rs[i].spec_end() <= len,
        i > 0 ==> rs[i - 1].spec_end() == rs[i].base,
    decreases rs.len() - i,
{
    if i < rs.len() - 1 {
        lemma_partition_bounds(rs, len, i + 1);
    }
    if i > 0 {
        assert(rs[i - 1].spec_end() == rs[i].base);
    }
}


impl HeapRegions {
    /// Gives the first free region of at least `total_region_len(data_size)` bytes to the
    /// allocation; what is left of it stays free.
    pub fn allocate(&mut self, data_size: usize, allocation: u64, len: Ghost<int>) -> (r: HeapRegionAllocationResult)
        requires
            old(self).wf(len@),
            data_size <= usize::MAX / 2,
            old(self).next_id < u64::MAX,
        ensures
            final(self).wf(len@),
            final(self).next_id >= old(self).next_id,
            final(self).next_id <= old(self).next_id + 1,
            r is OutOfMemory ==> *final(self) == *old(self),
            (r is OutOfMemory) == !has_fit(old(self)@, spec_total_region_len(data_size as int)),
            r is OutOfMemory ==> final(self)@ == old(self)@,
            r matches HeapRegionAllocationResult::Success { base, id } ==> exists|i: int|
                is_first_fit(old(self)@, i, spec_total_region_len(data_size as int))
                && final(self)@ == spec_split(old(self)@, i, spec_total_region_len(data_size as int), allocation, old(self).next_id)
                && base == old(self)@[i].base && id == old(self)@[i].id,
    {
        let total = total_region_len(data_size);
        let mut index: usize = 0;
        while index < self.regions.len() && !(self.regions[index].state.is_free() && self.regions[index].length >= total)
            invariant
                index <= self@.len(),
                forall|j: int| 0 <= j < index ==> !(#[trigger] self@[j].state is Free && self@[j].length >= total),
            decreases self@.len() - index,
        {
            index = index + 1;
        }
        if index == self.regions.len() {
            return HeapRegionAllocationResult::OutOfMemory;
        }
        let ghost rs = self@;
        let ghost i = index as int;
        assert(is_first_fit(rs, i, total as int));
        proof { lemma_partition_bounds(rs, len@, i); }
        let region = self.regions[index];
        let used = HeapRegion { id: region.id, state: HeapRegionState::Used(allocation), base: region.base, length: total };
        self.regions.set(index, used);
        if region.length > total {
            let new_id = self.next_id;
            self.regions.insert(index + 1, HeapRegion {
                id: new_id,
                state: HeapRegionState::Free,
                base: region.base + total,
                length: region.length - total,
            });
            self.next_id = self.next_id + 1;
        }
        proof {
            assert(self@ == spec_split(rs, i, total as int, allocation, old(self).next_id));
            lemma_split_wf(rs, len@, i, total as int, allocation, old(self).next_id);
        }
        HeapRegionAllocationResult::Success { base: region.base, id: region.id }
    }
}


/// Splitting the first fitting free region keeps the regions well formed.
pub proof fn lemma_split_wf(rs: Seq<HeapRegion>, len: int, i: int, total: int, aid: u64, new_id: u64)
    requires
        regions_partition(rs, len),
        no_adjacent_free(rs),
        region_ids_fresh(rs, new_id),
        new_id < u64::MAX,
        is_first_fit(rs, i, total),
        total >= 0,
        len <= usize::MAX,
    ensures
        ({
            let ns = spec_split(rs, i, total, aid, new_id);
            &&& regions_partition(ns, len)
            &&& no_adjacent_free(ns)
            &&& region_ids_fresh(ns, if rs[i].length > total { (new_id + 1) as u64 } else { new_id })
        }),
{
    lemma_partition_bounds(rs, len, i);
    if rs[i].length > total {
        lemma_split_wf_rest(rs, len, i, total, aid, new_id);
    } else {
        lemma_split_wf_exact(rs, len, i, total, aid, new_id);
    }
}

proof fn lemma_split_wf_rest(rs: Seq<HeapRegion>, len: int, i: int, total: int, aid: u64, new_id: u64)
    requires
        regions_partition(rs, len),
        no_adjacent_free(rs),
        region_ids_fresh(rs, new_id),
        new_id < u64::MAX,
        is_first_fit(rs, i, total),
        total >= 0,
        len <= usize::MAX,
        rs[i].length > total,
        rs[i].spec_end() <= len,
    ensures
        ({
            let ns = spec_split(rs, i, total, aid, new_id);
            &&& regions_partition(ns, len)
            &&& no_adjacent_free(ns)
            &&& region_ids_fresh(ns, (new_id + 1) as u64)
        }),
{
    let r = rs[i];
    let used = HeapRegion { id: r.id, state: HeapRegionState::Used(aid), base: r.base, length: total as usize };
    let free = HeapRegion { id: new_id, state: HeapRegionState::Free, base: (r.base + total) as usize, length: (r.length - total) as usize };
    let u = rs.update(i, used);
    let ns = spec_split(rs, i, total, aid, new_id);
    assert(ns == u.insert(i + 1, free));
    assert(ns.len() == rs.len() + 1);
    assert forall|k: int| 0 <= k <= i implies #[trigger] ns[k] == u[k] by {}
    assert forall|k: int| i + 1 < k < ns.len() implies #[trigger] ns[k] == rs[k - 1] by {}
    assert(ns[i + 1] == free);
    assert forall|k: int| 0 <= k < ns.len() - 1 implies #[trigger] ns[k].spec_end() == ns[k + 1].base by {
        if k < i { assert(rs[k].spec_end() == rs[k + 1].base); }
        else if k > i + 1 { assert(ns[k] == rs[k - 1] && ns[k + 1] == rs[k]); assert(rs[k - 1].spec_end() == rs[k].base); }
        else if k == i + 1 { assert(ns[k + 1] == rs[k]); assert(rs[i].spec_end() == rs[i + 1].base); }
    }
    assert forall|k: int| 0 <= k < ns.len() - 1 implies !(#[trigger] ns[k].state is Free && ns[k + 1].state is Free) by {
        if k < i { assert(!(rs[k].state is Free && rs[k + 1].state is Free)); }
        else if k > i + 1 { assert(ns[k] == rs[k - 1] && ns[k + 1] == rs[k]); assert(!(rs[k - 1].state is Free && rs[k].state is Free)); }
        else if k == i + 1 { assert(ns[k + 1] == rs[k]); assert(!(rs[i].state is Free && rs[i + 1].state is Free)); }
    }
    assert forall|a: int, b: int| 0 <= a < ns.len() && 0 <= b < ns.len() && a != b implies #[trigger] ns[a].id != #[trigger] ns[b].id by {
        let oa = if a <= i { a } else { a - 1 };
        let ob = if b <= i { b } else { b - 1 };
        if a != i + 1 { assert(ns[a].id == rs[oa].id); }
        if b != i + 1 { assert(ns[b].id == rs[ob].id); }
    }
    assert forall|k: int| 0 <= k < ns.len() implies #[trigger] ns[k].id < new_id + 1 by {
        if k != i + 1 {
            let ok = if k <= i { k } else { k - 1 };
            assert(ns[k].id == rs[ok].id);
        }
    }
    if i == rs.len() - 1 {
        assert(ns.last() == ns[i + 1]);
    } else {
        assert(ns.last() == rs.last());
    }
}

proof fn lemma_split_wf_exact(rs: Seq<HeapRegion>, len: int, i: int, total: int, aid: u64, new_id: u64)
    requires
        regions_partition(rs, len),
        no_adjacent_free(rs),
        region_ids_fresh(rs, new_id),
        is_first_fit(rs, i, total),
        rs[i].length <= total,
    ensures
        ({
            let ns = spec_split(rs, i, total, aid, new_id);
            &&& regions_partition(ns, len)
            &&& no_adjacent_free(ns)
            &&& region_ids_fresh(ns, new_id)
        }),
{
    let ns = spec_split(rs, i, total, aid, new_id);
    assert(rs[i].length == total);
    assert forall|k: int| 0 <= k < ns.len() - 1 implies #[trigger] ns[k].spec_end() == ns[k + 1].base by {
        assert(rs[k].spec_end() == rs[k + 1].base);
    }
    assert forall|k: int| 0 <= k < ns.len() - 1 implies !(#[trigger] ns[k].state is Free && ns[k + 1].state is Free) by {
        assert(!(rs[k].state is Free && rs[k + 1].state is Free));
    }
    assert forall|a: int, b: int| 0 <= a < ns.len() && 0 <= b < ns.len() && a != b implies #[trigger] ns[a].id != #[trigger] ns[b].id by {
        assert(ns[a].id == rs[a].id && ns[b].id == rs[b].id);
    }
    assert forall|k: int| 0 <= k < ns.len() implies #[trigger] ns[k].id < new_id by {
        assert(ns[k].id == rs[k].id);
    }
    if i == ns.len() - 1 {
        assert(ns.last().spec_end() == rs.last().spec_end());
    } else {
        assert(ns.last() == rs.last());
    }
}


/// Joining a region with the free region after it keeps the partition; the regions
/// before stay, and those after move down by one.
pub proof fn lemma_merge_right(rs: Seq<HeapRegion>, len: int, i: int, next: u64)
    requires
        regions_partition(rs, len),
        region_ids_fresh(rs, next),
        0 <= i < rs.len() - 1,
        len <= usize::MAX,
    ensures
        ({
            let m = spec_merge_right(rs, i);
            &&& regions_partition(m, len)
            &&& region_ids_fresh(m, next)
            &&& m.len() == rs.len() - 1
            &&& forall|k: int| 0 <= k < i ==> #[trigger] m[k] == rs[k]
            &&& forall|k: int| i < k < m.len() ==> #[trigger] m[k] == rs[k + 1]
            &&& m[i] == HeapRegion { state: HeapRegionState::Free, length: (rs[i].length + rs[i + 1].length) as usize, ..rs[i] }
        }),
{
    lemma_partition_bounds(rs, len, i + 1);
    let m = spec_merge_right(rs, i);
    assert forall|k: int| 0 <= k < m.len() - 1 implies #[trigger] m[k].spec_end() == m[k + 1].base by {
        if k < i { assert(rs[k].spec_end() == rs[k + 1].base); }
        else if k == i { assert(rs[i].spec_end() == rs[i + 1].base); assert(rs[i + 1].spec_end() == rs[i + 2].base); }
        else { assert(rs[k + 1].spec_end() == rs[k + 2].base); }
    }
    assert(rs[i].spec_end() == rs[i + 1].base);
    if i == m.len() - 1 {
        assert(m.last() == m[i]);
    } else {
        assert(m.last() == rs.last());
    }
    assert forall|a: int, b: int| 0 <= a < m.len() && 0 <= b < m.len() && a != b implies #[trigger] m[a].id != #[trigger] m[b].id by {
        let oa = if a <= i { a } else { a + 1 };
        let ob = if b <= i { b } else { b + 1 };
        assert(m[a].id == rs[oa].id && m[b].id == rs[ob].id);
    }
    assert forall|k: int| 0 <= k < m.len() implies #[trigger] m[k].id < next by {
        let ok = if k <= i { k } else { k + 1 };
        assert(m[k].id == rs[ok].id);
    }
}

/// Freeing a region keeps the heap well formed, and every other used region stays as it was.
#[verifier::rlimit(60)]
pub proof fn lemma_deallocate(rs: Seq<HeapRegion>, len: int, i: int, next: u64)
    requires
        regions_partition(rs, len),
        no_adjacent_free(rs),
        region_ids_fresh(rs, next),
        0 <= i < rs.len(),
        len <= usize::MAX,
    ensures
        ({
            let d = spec_deallocate(rs, i);
            &&& regions_partition(d, len)
            &&& no_adjacent_free(d)
            &&& region_ids_fresh(d, next)
            &&& used_kept_except(rs, d, rs[i].id)
        }),
{
    let a = spec_free_at(rs, i);
    assert(regions_partition(a, len)) by {
        assert forall|k: int| 0 <= k < a.len() - 1 implies #[trigger] a[k].spec_end() == a[k + 1].base by {
            assert(rs[k].spec_end() == rs[k + 1].base);
        }
        if i == a.len() - 1 { assert(a.last().spec_end() == rs.last().spec_end()); } else { assert(a.last() == rs.last()); }
    }
    assert(region_ids_fresh(a, next)) by {
        assert forall|x: int, y: int| 0 <= x < a.len() && 0 <= y < a.len() && x != y implies #[trigger] a[x].id != #[trigger] a[y].id by {
            assert(a[x].id == rs[x].id && a[y].id == rs[y].id);
        }
        assert forall|k: int| 0 <= k < a.len() implies #[trigger] a[k].id < next by {
            assert(a[k].id == rs[k].id);
        }
    }
    let right = i + 1 < a.len() && a[i + 1].state is Free;
    let b = if right { spec_merge_right(a, i) } else { a };
    if right {
        lemma_merge_right(a, len, i, next);
    }
    // b: region i is free; b[k] = rs[k] for k < i; b[k] = rs[k + 1] (right) or rs[k] for k > i.
    assert forall|k: int| 0 <= k < i implies #[trigger] b[k] == rs[k] by {}
    assert forall|k: int| i < k < b.len() implies #[trigger] b[k] == (if right { rs[k + 1] } else { rs[k] }) by {}
    assert(i + 1 < b.len() ==> !(b[i + 1].state is Free)) by {
        if i + 1 < b.len() {
            if right { assert(!(rs[i + 1].state is Free && rs[i + 2].state is Free)); }
        }
    }
    let left = i > 0 && b[i - 1].state is Free;
    let d = if left { spec_merge_right(b, i - 1) } else { b };
    assert(d == spec_deallocate(rs, i));
    if left {
        lemma_merge_right(b, len, i - 1, next);
        assert forall|k: int| 0 <= k < d.len() - 1 implies !(#[trigger] d[k].state is Free && d[k + 1].state is Free) by {
            if k < i - 2 { assert(!(rs[k].state is Free && rs[k + 1].state is Free)); }
            else if k == i - 2 { assert(!(rs[k].state is Free && rs[k + 1].state is Free)); }
            else if k == i - 1 { assert(d[k + 1] == b[i + 1]); }
            else {
                assert(d[k] == b[k + 1] && d[k + 1] == b[k + 2]);
                if right { assert(!(rs[k + 2].state is Free && rs[k + 3].state is Free)); }
                else { assert(!(rs[k + 1].state is Free && rs[k + 2].state is Free)); }
            }
        }
        assert forall|k: int| 0 <= k < d.len() && #[trigger] d[k].state is Used implies exists|j: int| 0 <= j < rs.len() && rs[j] == d[k] && rs[j].id != rs[i].id by {
            if k < i - 1 { assert(rs[k] == d[k]); }
            else {
                assert(k >= i);
                if right { assert(rs[k + 2] == d[k]); } else { assert(rs[k + 1] == d[k]); }
            }
        }
        assert forall|j: int| 0 <= j < rs.len() && #[trigger] rs[j].state is Used && rs[j].id != rs[i].id implies exists|k: int| 0 <= k < d.len() && d[k] == rs[j] by {
            if j < i - 1 { assert(d[j] == rs[j]); }
            else {
                assert(j > i);
                if right { assert(j > i + 1); assert(d[j - 2] == rs[j]); } else { assert(d[j - 1] == rs[j]); }
            }
        }
    } else {
        assert forall|k: int| 0 <= k < d.len() - 1 implies !(#[trigger] d[k].state is Free && d[k + 1].state is Free) by {
            if k < i - 1 { assert(!(rs[k].state is Free && rs[k + 1].state is Free)); }
            else if k == i - 1 { }
            else if k == i { }
            else {
                if right { assert(!(rs[k + 1].state is Free && rs[k + 2].state is Free)); }
                else { assert(!(rs[k].state is Free && rs[k + 1].state is Free)); }
            }
        }
        assert forall|k: int| 0 <= k < d.len() && #[trigger] d[k].state is Used implies exists|j: int| 0 <= j < rs.len() && rs[j] == d[k] && rs[j].id != rs[i].id by {
            if k < i { assert(rs[k] == d[k]); }
            else {
                assert(k > i);
                if right { assert(rs[k + 1] == d[k]); } else { assert(rs[k] == d[k]); }
            }
        }
        assert forall|j: int| 0 <= j < rs.len() && #[trigger] rs[j].state is Used && rs[j].id != rs[i].id implies exists|k: int| 0 <= k < d.len() && d[k] == rs[j] by {
            if j < i { assert(d[j] == rs[j]); }
            else {
                assert(j > i);
                if right { assert(j > i + 1); assert(d[j - 1] == rs[j]); } else { assert(d[j] == rs[j]); }
            }
        }
    }
}

impl HeapRegions {
    /// Joins the region at `left_index` with the free region after it.
    fn join_free_right(&mut self, left_index: usize, len: Ghost<int>)
        requires
            regions_partition(old(self)@, len@),
            region_ids_fresh(old(self)@, old(self).next_id),
            left_index + 1 < old(self)@.len(),
            len@ <= usize::MAX,
        ensures
            final(self)@ == spec_merge_right(old(self)@, left_index as int),
            final(self).next_id == old(self).next_id,
    {
        proof { lemma_partition_bounds(self@, len@, left_index + 1); }
        let _n = self.regions.len();
        let right = self.regions.remove(left_index + 1);
        let left = self.regions[left_index];
        self.regions.set(left_index, HeapRegion { state: HeapRegionState::Free, length: left.length + right.length, ..left });
        assert(self@ =~= spec_merge_right(old(self)@, left_index as int));
    }

    /// Frees the region with the given id and joins it with its free neighbours.
    pub fn deallocate(&mut self, id: u64, len: Ghost<int>) -> (r: Result<(), Error>)
        requires
            old(self).wf(len@),
        ensures
            final(self).wf(len@),
            final(self).next_id == old(self).next_id,
            r is Err <==> forall|i: int| 0 <= i < old(self)@.len() ==> old(self)@[i].id != id,
            r matches Err(e) ==> e.kind == ErrorKind::InvalidId && final(self)@ == old(self)@,
            r is Ok ==> exists|i: int| 0 <= i < old(self)@.len() && old(self)@[i].id == id
                && final(self)@ == spec_deallocate(old(self)@, i),
            r is Ok ==> used_kept_except(old(self)@, final(self)@, id),
    {
        let index = match self.index_of(id) {
            Some(i) => i,
            None => return Err(Error::of_kind(ErrorKind::InvalidId, "Invalid region ID")),
        };
        let ghost rs = self@;
        proof { lemma_deallocate(rs, len@, index as int, self.next_id); }
        let region = self.regions[index];
        self.regions.set(index, HeapRegion { state: HeapRegionState::Free, ..region });
        assert(self@ == spec_free_at(rs, index as int));
        proof {
            let a = spec_free_at(rs, index as int);
            assert(regions_partition(a, len@)) by {
                assert forall|k: int| 0 <= k < a.len() - 1 implies #[trigger] a[k].spec_end() == a[k + 1].base by {
                    assert(rs[k].spec_end() == rs[k + 1].base);
                }
                if index == a.len() - 1 { assert(a.last().spec_end() == rs.last().spec_end()); } else { assert(a.last() == rs.last()); }
            }
            assert(region_ids_fresh(a, self.next_id)) by {
                assert forall|x: int, y: int| 0 <= x < a.len() && 0 <= y < a.len() && x != y implies #[trigger] a[x].id != #[trigger] a[y].id by {
                    assert(a[x].id == rs[x].id && a[y].id == rs[y].id);
                }
                assert forall|k: int| 0 <= k < a.len() implies #[trigger] a[k].id < self.next_id by {
                    assert(a[k].id == rs[k].id);
                }
            }
        }
        if index < self.regions.len() - 1 && self.regions[index + 1].state.is_free() {
            self.join_free_right(index, len);
            proof { lemma_merge_right(spec_free_at(rs, index as int), len@, index as int, self.next_id); }
        }
        if index > 0 && self.regions[index - 1].state.is_free() {
            self.join_free_right(index - 1, len);
        }
        Ok(())
    }

    /// Grows the heap to `new_size` bytes: the last region grows if it is free, else a
    /// free region is added after it.
    pub fn extend(&mut self, new_size: usize, len: Ghost<int>)
        requires
            old(self).wf(len@),
            new_size >= len@,
            old(self).next_id < u64::MAX,
        ensures
            final(self).wf(new_size as int),
            final(self).next_id >= old(self).next_id,
            final(self).next_id <= old(self).next_id + 1,
            forall|k: int| 0 <= k < final(self)@.len() && #[trigger] final(self)@[k].state is Used ==> 0 <= k < old(self)@.len() && old(self)@[k] == final(self)@[k],
            forall|k: int| 0 <= k < old(self)@.len() && #[trigger] old(self)@[k].state is Used ==> k < final(self)@.len() && final(self)@[k] == old(self)@[k],
            old(self)@.last().state is Free ==> final(self)@ == old(self)@.update(old(self)@.len() - 1, HeapRegion { length: (new_size - old(self)@.last().base) as usize, ..old(self)@.last() }),
            old(self)@.last().state is Used ==> final(self)@ == old(self)@.push(HeapRegion { id: old(self).next_id, state: HeapRegionState::Free, base: len@ as usize, length: (new_size - len@) as usize }),
            used_total(final(self)@) == used_total(old(self)@),
    {
        let last_index = self.regions.len() - 1;
        let last = self.regions[last_index];
        let ghost rs = self@;
        proof {
            lemma_partition_bounds(rs, len@, last_index as int);
            if last.state is Free {
                lemma_used_total_update(rs, last_index as int, HeapRegion { length: (new_size - last.base) as usize, ..last });
            } else {
                lemma_used_total_insert_free(rs, rs.len() as int,
                    HeapRegion { id: self.next_id, state: HeapRegionState::Free, base: len@ as usize, length: (new_size - len@) as usize });
                assert(rs.insert(rs.len() as int, HeapRegion { id: self.next_id, state: HeapRegionState::Free, base: len@ as usize, length: (new_size - len@) as usize })
                    =~= rs.push(HeapRegion { id: self.next_id, state: HeapRegionState::Free, base: len@ as usize, length: (new_size - len@) as usize }));
            }
        }
        if last.state.is_free() {
            self.regions.set(last_index, HeapRegion { length: new_size - last.base, ..last });
            proof {
                let ns = self@;
                assert forall|k: int| 0 <= k < ns.len() - 1 implies #[trigger] ns[k].spec_end() == ns[k + 1].base by {
                    assert(rs[k].spec_end() == rs[k + 1].base);
                }
                assert forall|k: int| 0 <= k < ns.len() - 1 implies !(#[trigger] ns[k].state is Free && ns[k + 1].state is Free) by {
                    assert(!(rs[k].state is Free && rs[k + 1].state is Free));
                }
                assert forall|x: int, y: int| 0 <= x < ns.len() && 0 <= y < ns.len() && x != y implies #[trigger] ns[x].id != #[trigger] ns[y].id by {
                    assert(ns[x].id == rs[x].id && ns[y].id == rs[y].id);
                }
                assert forall|k: int| 0 <= k < ns.len() implies #[trigger] ns[k].id < self.next_id by {
                    assert(ns[k].id == rs[k].id);
                }
            }
        } else {
            let end = last.end();
            self.regions.push(HeapRegion { id: self.next_id, state: HeapRegionState::Free, base: end, length: new_size - end });
            self.next_id = self.next_id + 1;
            proof {
                let ns = self@;
                assert forall|k: int| 0 <= k < ns.len() - 1 implies #[trigger] ns[k].spec_end() == ns[k + 1].base by {
                    if k < rs.len() - 1 { assert(rs[k].spec_end() == rs[k + 1].base); }
                }
                assert forall|k: int| 0 <= k < ns.len() - 1 implies !(#[trigger] ns[k].state is Free && ns[k + 1].state is Free) by {
                    if k < rs.len() - 1 { assert(!(rs[k].state is Free && rs[k + 1].state is Free)); }
                }
                assert forall|x: int, y: int| 0 <= x < ns.len() && 0 <= y < ns.len() && x != y implies #[trigger] ns[x].id != #[trigger] ns[y].id by {
                    if x < rs.len() { assert(ns[x].id == rs[x].id); }
                    if y < rs.len() { assert(ns[y].id == rs[y].id); }
                }
                assert forall|k: int| 0 <= k < ns.len() implies #[trigger] ns[k].id < self.next_id by {
                    if k < rs.len() { assert(ns[k].id == rs[k].id); }
                }
            }
        }
    }
}


/// Copies `n` bytes from `src` down to `dst`, front to back.
pub fn copy_left(heap: &mut Vec<u8>, src: usize, dst: usize, n: usize)
    requires
        dst <= src,
        src + n <= old(heap)@.len(),
    ensures
        final(heap)@.len() == old(heap)@.len(),
        forall|t: int| 0 <= t < n ==> #[trigger] final(heap)@[dst + t] == old(heap)@[src + t],
        forall|p: int| 0 <= p < final(heap)@.len() && (p < dst || p >= src + n) ==> #[trigger] final(heap)@[p] == old(heap)@[p],
{
    let hl = heap.len();
    let mut k: usize = 0;
    while k < n
        invariant
            hl == heap@.len(),
            dst <= src,
            src + n <= heap@.len(),
            k <= n,
            heap@.len() == old(heap)@.len(),
            forall|t: int| 0 <= t < k ==> #[trigger] heap@[dst + t] == old(heap)@[src + t],
            forall|p: int| 0 <= p < heap@.len() && (p < dst || p >= src + k) ==> #[trigger] heap@[p] == old(heap)@[p],
        decreases n - k,
    {
        let b = heap[src + k];
        heap.set(dst + k, b);
        k = k + 1;
    }
}

/// Whether `new` holds the used regions of `old` moved, each with its id, state and
/// length, and its bytes carried from `old_heap` to `new_heap`.
pub open spec fn moved_with_contents(
    old: Seq<HeapRegion>,
    old_heap: Seq<u8>,
    new: Seq<HeapRegion>,
    new_heap: Seq<u8>,
) -> bool {
    &&& forall|j: int| 0 <= j < old.len() && #[trigger] old[j].state is Used ==> exists|k: int|
        0 <= k < new.len() && new[k].id == old[j].id && new[k].state == old[j].state && new[k].length == old[j].length
        && forall|t: int| 0 <= t < old[j].length ==> #[trigger] new_heap[new[k].base + t] == old_heap[old[j].base + t]
    &&& forall|k: int| 0 <= k < new.len() && #[trigger] new[k].state is Used ==> exists|j: int|
        0 <= j < old.len() && new[k].id == old[j].id && new[k].state == old[j].state && new[k].length == old[j].length
        && forall|t: int| 0 <= t < old[j].length ==> #[trigger] new_heap[new[k].base + t] == old_heap[old[j].base + t]
}

/// The regions compacted so far lie one after the other from address 0 up to `next_base`.
pub open spec fn compacted_layout(cs: Seq<HeapRegion>, next_base: int) -> bool {
    &&& cs.len() == 0 ==> next_base == 0
    &&& cs.len() > 0 ==> cs[0].base == 0 && cs.last().spec_end() == next_base
    &&& forall|k: int| 0 <= k < cs.len() - 1 ==> #[trigger] cs[k].spec_end() == cs[k + 1].base
}

/// Compacted region `k` is the used region `idx[k]` among the first `i`, moved; the
/// order is kept.
pub open spec fn compacted_from(rs: Seq<HeapRegion>, cs: Seq<HeapRegion>, idx: Seq<int>, i: int) -> bool {
    &&& idx.len() == cs.len()
    &&& forall|k: int| 0 <= k < cs.len() ==> 0 <= #[trigger] idx[k] < i && rs[idx[k]].state is Used
        && cs[k] == (HeapRegion { base: cs[k].base, ..rs[idx[k]] })
    &&& forall|a: int, b: int| 0 <= a < b < cs.len() ==> #[trigger] idx[a] < #[trigger] idx[b]
}

/// Each compacted region holds the bytes its region held in `h0`.
pub open spec fn compacted_contents(rs: Seq<HeapRegion>, h0: Seq<u8>, cs: Seq<HeapRegion>, idx: Seq<int>, heap: Seq<u8>) -> bool {
    forall|k: int, t: int| 0 <= k < cs.len() && 0 <= t < cs[k].length ==> #[trigger] heap[cs[k].base + t] == h0[rs[idx[k]].base + t]
}

/// The heap from `from` on is as it was in `h0`.
pub open spec fn unchanged_from(h0: Seq<u8>, heap: Seq<u8>, from: int) -> bool {
    forall|p: int| 0 <= p < heap.len() && p >= from ==> #[trigger] heap[p] == h0[p]
}

/// Each used region among the first `i` has been compacted.
pub open spec fn compacted_all(rs: Seq<HeapRegion>, idx: Seq<int>, i: int) -> bool {
    forall|j: int| 0 <= j < i && #[trigger] rs[j].state is Used ==> exists|k: int| 0 <= k < idx.len() && idx[k] == j
}

/// Where the regions not yet compacted start.
pub open spec fn rest_base(rs: Seq<HeapRegion>, i: int, len: int) -> int {
    if i < rs.len() { rs[i].base as int } else { len }
}

/// The state of compaction after the first `i` regions.
#[verifier::opaque]
pub open spec fn compact_inv(rs: Seq<HeapRegion>, len: int, h0: Seq<u8>, cs: Seq<HeapRegion>, idx: Seq<int>, heap: Seq<u8>, i: int, next_base: int) -> bool {
    &&& 0 <= i <= rs.len()
    &&& heap.len() == len
    &&& h0.len() == len
    &&& 0 <= next_base <= rest_base(rs, i, len)
    &&& compacted_layout(cs, next_base)
    &&& compacted_from(rs, cs, idx, i)
    &&& compacted_contents(rs, h0, cs, idx, heap)
    &&& unchanged_from(h0, heap, rest_base(rs, i, len))
    &&& compacted_all(rs, idx, i)
}

/// Compaction passes over a free region.
proof fn lemma_compact_skip(rs: Seq<HeapRegion>, len: int, h0: Seq<u8>, cs: Seq<HeapRegion>, idx: Seq<int>, heap: Seq<u8>, i: int, next_base: int)
    requires
        regions_partition(rs, len),
        compact_inv(rs, len, h0, cs, idx, heap, i, next_base),
        i < rs.len(),
        rs[i].state is Free,
    ensures
        compact_inv(rs, len, h0, cs, idx, heap, i + 1, next_base),
{
    reveal(compact_inv);
    lemma_partition_bounds(rs, len, i);
    if i + 1 < rs.len() {
        assert(rs[i].spec_end() == rs[i + 1].base);
    }
    assert forall|j: int| 0 <= j < i + 1 && #[trigger] rs[j].state is Used implies exists|k: int| 0 <= k < idx.len() && idx[k] == j by {
        assert(j < i);
    }
}

/// Compaction moves a used region down to `next_base`.
proof fn lemma_compact_move(
    rs: Seq<HeapRegion>, len: int, h0: Seq<u8>, cs: Seq<HeapRegion>, idx: Seq<int>,
    before: Seq<u8>, after: Seq<u8>, i: int, next_base: int,
)
    requires
        regions_partition(rs, len),
        compact_inv(rs, len, h0, cs, idx, before, i, next_base),
        i < rs.len(),
        rs[i].state is Used,
        after.len() == before.len(),
        forall|t: int| 0 <= t < rs[i].length ==> #[trigger] after[next_base + t] == before[rs[i].base + t],
        forall|p: int| 0 <= p < after.len() && (p < next_base || p >= rs[i].base + rs[i].length) ==> #[trigger] after[p] == before[p],
    ensures
        compact_inv(
            rs, len, h0,
            cs.push(HeapRegion { base: next_base as usize, ..rs[i] }),
            idx.push(i), after, i + 1, next_base + rs[i].length,
        ),
{
    reveal(compact_inv);
    lemma_partition_bounds(rs, len, i);
    let r = rs[i];
    let ncs = cs.push(HeapRegion { base: next_base as usize, ..r });
    let nidx = idx.push(i);
    if i + 1 < rs.len() {
        assert(rs[i].spec_end() == rs[i + 1].base);
    }
    assert(compacted_layout(ncs, next_base + r.length)) by {
        assert forall|k: int| 0 <= k < ncs.len() - 1 implies #[trigger] ncs[k].spec_end() == ncs[k + 1].base by {
            if k < cs.len() - 1 { assert(ncs[k] == cs[k] && ncs[k + 1] == cs[k + 1]); }
        }
    }
    assert(compacted_from(rs, ncs, nidx, i + 1)) by {
        assert forall|x: int, y: int| 0 <= x < y < ncs.len() implies #[trigger] nidx[x] < #[trigger] nidx[y] by {
            if y < cs.len() { assert(idx[x] < idx[y]); }
        }
    }
    assert(compacted_contents(rs, h0, ncs, nidx, after)) by {
        assert forall|k: int, t: int| 0 <= k < ncs.len() && 0 <= t < ncs[k].length implies #[trigger] after[ncs[k].base + t] == h0[rs[nidx[k]].base + t] by {
            if k < cs.len() {
                assert(cs[k].spec_end() <= next_base) by {
                    lemma_contiguous_below(cs, k, next_base);
                }
                assert(after[cs[k].base + t] == before[cs[k].base + t]);
            } else {
                assert(after[next_base + t] == before[r.base + t]);
                assert(before[r.base + t] == h0[r.base + t]);
            }
        }
    }
    assert(unchanged_from(h0, after, rest_base(rs, i + 1, len))) by {
        assert forall|p: int| 0 <= p < after.len() && p >= rest_base(rs, i + 1, len) implies #[trigger] after[p] == h0[p] by {
            assert(after[p] == before[p]);
        }
    }
    assert(compacted_all(rs, nidx, i + 1)) by {
        assert forall|j: int| 0 <= j < i + 1 && #[trigger] rs[j].state is Used implies exists|k: int| 0 <= k < nidx.len() && nidx[k] == j by {
            if j < i {
                let k = choose|k: int| 0 <= k < idx.len() && idx[k] == j;
                assert(nidx[k] == j);
            } else {
                assert(nidx[cs.len() as int] == j);
            }
        }
    }
}

/// After the last region, the compacted regions with the free rest form a well-formed
/// heap that holds the used regions moved.
#[verifier::rlimit(60)]
proof fn lemma_compact_finish(
    rs: Seq<HeapRegion>, len: int, next_id: u64, h0: Seq<u8>, cs: Seq<HeapRegion>, idx: Seq<int>,
    heap: Seq<u8>, next_base: int, ns: Seq<HeapRegion>, new_next_id: u64,
)
    requires
        regions_partition(rs, len),
        region_ids_fresh(rs, next_id),
        compact_inv(rs, len, h0, cs, idx, heap, rs.len() as int, next_base),
        len <= usize::MAX,
        (next_base < len || cs.len() == 0) ==> ns == cs.push(HeapRegion { id: next_id, state: HeapRegionState::Free, base: next_base as usize, length: (len - next_base) as usize }) && new_next_id == next_id + 1,
        !(next_base < len || cs.len() == 0) ==> ns == cs && new_next_id == next_id,
    ensures
        regions_partition(ns, len),
        no_adjacent_free(ns),
        region_ids_fresh(ns, new_next_id),
        forall|k: int| 0 <= k < ns.len() - 1 ==> #[trigger] ns[k].state is Used,
        moved_with_contents(rs, h0, ns, heap),
        ns.last().state is Free ==> ns.last().length > 0 || ns.len() == 1,
{
    reveal(compact_inv);
    let used_count = cs.len();
    assert forall|k: int| 0 <= k < used_count implies #[trigger] ns[k] == cs[k] by {}
    assert forall|x: int, y: int| 0 <= x < ns.len() && 0 <= y < ns.len() && x != y implies #[trigger] ns[x].id != #[trigger] ns[y].id by {
        if x < used_count && y < used_count {
            assert(idx[x] != idx[y]) by {
                if x < y { assert(idx[x] < idx[y]); } else { assert(idx[y] < idx[x]); }
            }
            assert(rs[idx[x]].id != rs[idx[y]].id);
        } else if x < used_count {
            assert(rs[idx[x]].id < next_id);
        } else if y < used_count {
            assert(rs[idx[y]].id < next_id);
        }
    }
    assert forall|k: int| 0 <= k < ns.len() implies #[trigger] ns[k].id < new_next_id by {
        if k < used_count { assert(rs[idx[k]].id < next_id); }
    }
    assert forall|k: int| 0 <= k < ns.len() - 1 implies #[trigger] ns[k].state is Used by {
        assert(rs[idx[k]].state is Used);
    }
    assert forall|k: int| 0 <= k < ns.len() - 1 implies !(#[trigger] ns[k].state is Free && ns[k + 1].state is Free) by {
        assert(ns[k].state is Used);
    }
    assert forall|k: int| 0 <= k < ns.len() - 1 implies #[trigger] ns[k].spec_end() == ns[k + 1].base by {
        if k < used_count - 1 { assert(cs[k].spec_end() == cs[k + 1].base); }
    }
    assert(regions_partition(ns, len));
    assert forall|j: int| 0 <= j < rs.len() && #[trigger] rs[j].state is Used implies exists|k: int|
        0 <= k < ns.len() && ns[k].id == rs[j].id && ns[k].state == rs[j].state && ns[k].length == rs[j].length
        && forall|t: int| 0 <= t < rs[j].length ==> #[trigger] heap[ns[k].base + t] == h0[rs[j].base + t] by {
        let k = choose|k: int| 0 <= k < idx.len() && idx[k] == j;
        assert(ns[k] == (HeapRegion { base: ns[k].base, ..rs[j] }));
        assert forall|t: int| 0 <= t < rs[j].length implies #[trigger] heap[ns[k].base + t] == h0[rs[j].base + t] by {
            assert(heap[cs[k].base + t] == h0[rs[idx[k]].base + t]);
        }
    }
    assert forall|k: int| 0 <= k < ns.len() && #[trigger] ns[k].state is Used implies exists|j: int|
        0 <= j < rs.len() && ns[k].id == rs[j].id && ns[k].state == rs[j].state && ns[k].length == rs[j].length
        && forall|t: int| 0 <= t < rs[j].length ==> #[trigger] heap[ns[k].base + t] == h0[rs[j].base + t] by {
        let j = idx[k];
        assert(ns[k] == (HeapRegion { base: ns[k].base, ..rs[j] }));
        assert forall|t: int| 0 <= t < rs[j].length implies #[trigger] heap[ns[k].base + t] == h0[rs[j].base + t] by {
            assert(heap[cs[k].base + t] == h0[rs[idx[k]].base + t]);
        }
    }
    if next_base < len || cs.len() == 0 {
        assert(ns.last() == ns[cs.len() as int]);
    } else {
        assert(ns.last() == cs[cs.len() - 1]);
        assert(rs[idx[cs.len() - 1]].state is Used);
    }
}

impl HeapRegions {
    /// Moves every used region down to close the gaps, in address order, carrying its
    /// bytes; what is left at the end becomes one free region.
    pub fn compact(&mut self, heap: &mut Vec<u8>)
        requires
            old(self).wf(old(heap)@.len() as int),
            old(self).next_id < u64::MAX,
        ensures
            final(heap)@.len() == old(heap)@.len(),
            final(self).wf(final(heap)@.len() as int),
            final(self).next_id >= old(self).next_id,
            final(self).next_id <= old(self).next_id + 1,
            forall|k: int| 0 <= k < final(self)@.len() - 1 ==> #[trigger] final(self)@[k].state is Used,
            moved_with_contents(old(self)@, old(heap)@, final(self)@, final(heap)@),
            order_kept(old(self)@, final(self)@),
            final(self)@.last().state is Free ==> final(self)@.last().length > 0 || final(self)@.len() == 1,
    {
        let ghost rs = self@;
        let ghost h0 = heap@;
        let ghost len = heap@.len() as int;
        let end = heap.len();
        let mut compacted: Vec<HeapRegion> = Vec::new();
        let ghost mut idx: Seq<int> = Seq::empty();
        let mut next_base: usize = 0;
        let mut i: usize = 0;
        proof {
            reveal(compact_inv);
            assert(compacted_all(rs, idx, 0));
        }
        while i < self.regions.len()
            invariant
                self@ == rs,
                self.wf(len),
                end == len,
                compact_inv(rs, len, h0, compacted@, idx, heap@, i as int, next_base as int),
            decreases rs.len() - i,
        {
            proof {
                lemma_partition_bounds(rs, len, i as int);
                reveal(compact_inv);
            }
            let region = self.regions[i];
            if region.state.is_used() {
                let ghost before = heap@;
                copy_left(heap, region.base, next_base, region.length);
                proof { lemma_compact_move(rs, len, h0, compacted@, idx, before, heap@, i as int, next_base as int); }
                compacted.push(HeapRegion { base: next_base, ..region });
                proof { idx = idx.push(i as int); }
                next_base = next_base + region.length;
            } else {
                proof { lemma_compact_skip(rs, len, h0, compacted@, idx, heap@, i as int, next_base as int); }
            }
            i = i + 1;
        }
        proof { reveal(compact_inv); }
        let ghost cs = compacted@;
        let ghost old_next = self.next_id;
        if next_base < end || compacted.len() == 0 {
            compacted.push(HeapRegion { id: self.next_id, state: HeapRegionState::Free, base: next_base, length: end - next_base });
            self.next_id = self.next_id + 1;
        }
        self.regions = compacted;
        proof {
            lemma_compact_finish(rs, len, old_next, h0, cs, idx, heap@, next_base as int, self@, self.next_id);
            lemma_compact_order(rs, len, h0, cs, idx, heap@, next_base as int, self@);
        }
    }
}

/// Whether the used regions of `new` come in the same order as in `old`.
#[verifier::opaque]
pub open spec fn order_kept(old: Seq<HeapRegion>, new: Seq<HeapRegion>) -> bool {
    forall|k1: int, k2: int| 0 <= k1 < k2 < new.len() && #[trigger] new[k1].state is Used && #[trigger] new[k2].state is Used
        ==> exists|j1: int, j2: int| 0 <= j1 < j2 < old.len() && old[j1].id == new[k1].id && old[j2].id == new[k2].id
}

/// Compaction keeps the order of the used regions.
proof fn lemma_compact_order(
    rs: Seq<HeapRegion>, len: int, h0: Seq<u8>, cs: Seq<HeapRegion>, idx: Seq<int>,
    heap: Seq<u8>, next_base: int, ns: Seq<HeapRegion>,
)
    requires
        compact_inv(rs, len, h0, cs, idx, heap, rs.len() as int, next_base),
        ns.len() >= cs.len(),
        forall|k: int| 0 <= k < cs.len() ==> #[trigger] ns[k] == cs[k],
        forall|k: int| cs.len() <= k < ns.len() ==> (#[trigger] ns[k]).state is Free,
    ensures
        order_kept(rs, ns),
{
    reveal(compact_inv);
    let used_count = cs.len();
    reveal(order_kept);
    assert forall|k1: int, k2: int| 0 <= k1 < k2 < ns.len() && #[trigger] ns[k1].state is Used && #[trigger] ns[k2].state is Used
        implies exists|j1: int, j2: int| 0 <= j1 < j2 < rs.len() && rs[j1].id == ns[k1].id && rs[j2].id == ns[k2].id by {
        assert(k2 < used_count);
        assert(idx[k1] < idx[k2]);
        assert(rs[idx[k1]].id == ns[k1].id && rs[idx[k2]].id == ns[k2].id);
    }
}

/// In contiguous regions, every region ends no later than the last one.
proof fn lemma_contiguous_below(cs: Seq<HeapRegion>, k: int, last_end: int)
    requires
        0 <= k < cs.len(),
        cs.last().spec_end() == last_end,
        forall|m: int| 0 <= m < cs.len() - 1 ==> #[trigger] cs[m].spec_end() == cs[m + 1].base,
    ensures
        cs[k].spec_end() <= last_end,
    decreases cs.len() - k,
{
    if k < cs.len() - 1 {
        lemma_contiguous_below(cs, k + 1, last_end);
    }
}

} // verus!
