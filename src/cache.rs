use vstd::prelude::*;
use bitvec::order::Lsb0;
use bitvec::vec::BitVec;
use crate::error::StoreError;
use crate::lru_list::{LruList, promoted, ring_order};
use crate::resource::{ResId, ResIdView};

verus! {

/// Bytes per page.
pub const PAGE_SIZE: usize = 4096;

/// A bitvec `BitVec<usize, Lsb0>`, one flag per slot.
#[verifier::external_body]
pub struct SlotBits {
    bits: BitVec<usize, Lsb0>,
}

/// The bits a bit vector holds, in index order.
pub uninterp spec fn bits_of(b: SlotBits) -> Seq<bool>;

/// Relies on bitvec's `BitVec::repeat`: `len` copies of `bit`
/// (it panics when `len` exceeds `usize::MAX >> 3`).
#[verifier::external_body]
fn bits_repeat(bit: bool, len: usize) -> (r: SlotBits)
    requires
        len <= usize::MAX / 8,
    ensures
        bits_of(r) == Seq::new(len as nat, |i: int| bit),
{
    SlotBits { bits: BitVec::<usize, Lsb0>::repeat(bit, len) }
}

/// Relies on bitvec's `Index<usize>` for `BitSlice`: the bit at `index`
/// (it panics when `index` is out of bounds).
#[verifier::external_body]
fn bit_at(b: &SlotBits, index: usize) -> (r: bool)
    requires
        index < bits_of(*b).len(),
    ensures
        r == bits_of(*b)[index as int],
{
    b.bits[index]
}

/// Relies on bitvec's `BitSlice::set`: writes one bit, the others stay
/// (it panics when `index` is out of bounds).
#[verifier::external_body]
fn set_bit(b: &mut SlotBits, index: usize, value: bool)
    requires
        index < bits_of(*old(b)).len(),
    ensures
        bits_of(*final(b)) == bits_of(*old(b)).update(index as int, value),
{
    b.bits.set(index, value)
}

/// Abstract state of a buffer pool.
pub struct CacheView {
    /// The resource each slot holds, if any.
    pub owners: Seq<Option<ResIdView>>,
    /// Slots marked in use; every slot that holds a resource is.
    pub valid: Seq<bool>,
    pub dirty: Seq<bool>,
    pub pages: Seq<[u8; PAGE_SIZE]>,
    /// Allocated slots, most recently used first.
    pub order: Seq<usize>,
}

pub open spec fn owner_view(o: Option<ResId>) -> Option<ResIdView> {
    match o {
        Some(r) => Some(r@),
        None => None,
    }
}

/// Whether `id` is held by some slot.
pub open spec fn resident(v: CacheView, id: ResIdView) -> bool {
    exists|i: int| 0 <= i < v.owners.len() && v.owners[i] == Some(id)
}

/// The state after `data` for `id` is placed in `slot`, which becomes the most recently used.
pub open spec fn installed(v: CacheView, slot: usize, id: ResIdView, data: [u8; PAGE_SIZE], order: Seq<usize>) -> CacheView {
    CacheView {
        owners: v.owners.update(slot as int, Some(id)),
        valid: v.valid.update(slot as int, true),
        dirty: v.dirty.update(slot as int, false),
        pages: v.pages.update(slot as int, data),
        order,
    }
}

/// Eviction takes the least recently used resource: when every slot of a full
/// pool holds a distinct resource, installing one more displaces exactly the
/// resource in the last slot of the recency order, and every other one stays.
pub proof fn lemma_full_install_evicts_lru(v: CacheView, id: ResIdView, data: [u8; PAGE_SIZE])
    requires
        v.owners.len() > 0,
        v.order.len() == v.owners.len(),
        ring_order(v.order, v.owners.len()),
        forall|i: int| 0 <= i < v.owners.len() ==> (#[trigger] v.owners[i]).is_some(),
        forall|i: int, j: int|
            0 <= i < v.owners.len() && 0 <= j < v.owners.len() && i != j
                ==> #[trigger] v.owners[i] != #[trigger] v.owners[j],
        !resident(v, id),
    ensures
        ({
            let victim = v.order.last();
            let gone = v.owners[victim as int].unwrap();
            let w = installed(v, victim, id, data, promoted(v.order, victim));
            &&& resident(v, gone)
            &&& !resident(w, gone)
            &&& resident(w, id)
            &&& forall|r: ResIdView| r != id && r != gone ==> (resident(w, r) <==> resident(v, r))
        }),
{
    let victim = v.order.last();
    let n = v.owners.len();
    assert(v.order[n - 1] < n);
    let gone = v.owners[victim as int].unwrap();
    let w = installed(v, victim, id, data, promoted(v.order, victim));
    assert(w.owners[victim as int] == Some(id));
    assert(v.owners[victim as int] == Some(gone));
    if resident(w, gone) {
        let i = choose|i: int| 0 <= i < w.owners.len() && w.owners[i] == Some(gone);
        if i != victim {
            assert(v.owners[i] == Some(gone));
        }
    }
    assert forall|r: ResIdView| r != id && r != gone implies (resident(w, r) <==> resident(v, r)) by {
        if resident(w, r) {
            let i = choose|i: int| 0 <= i < w.owners.len() && w.owners[i] == Some(r);
            assert(v.owners[i] == Some(r));
        }
        if resident(v, r) {
            let i = choose|i: int| 0 <= i < v.owners.len() && v.owners[i] == Some(r);
            assert(i != victim);
            assert(w.owners[i] == Some(r));
        }
    }
}

/// A pool of `PAGE_NUM` page buffers addressed by slot, with one resident
/// copy per resource and least-recently-used eviction.
/// The resource-to-slot mapping is kept as its inverse, one owner per slot,
/// so that uniqueness is an invariant over plain indices; a lookup scans the
/// `PAGE_NUM` slots.
pub struct CacheBuf<const PAGE_NUM: usize> {
    cache_map: Vec<Option<ResId>>,
    valid: SlotBits,
    dirty: SlotBits,
    data: Vec<[u8; PAGE_SIZE]>,
    lru_list: LruList<PAGE_NUM>,
}

impl<const PAGE_NUM: usize> View for CacheBuf<PAGE_NUM> {
    type V = CacheView;

    closed spec fn view(&self) -> CacheView {
        CacheView {
            owners: self.cache_map@.map_values(|o: Option<ResId>| owner_view(o)),
            valid: bits_of(self.valid),
            dirty: bits_of(self.dirty),
            pages: self.data@,
            order: self.lru_list@,
        }
    }
}

impl<const PAGE_NUM: usize> CacheBuf<PAGE_NUM> {
    pub closed spec fn wf(&self) -> bool {
        &&& self.cache_map@.len() == PAGE_NUM
        &&& bits_of(self.valid).len() == PAGE_NUM
        &&& bits_of(self.dirty).len() == PAGE_NUM
        &&& self.data@.len() == PAGE_NUM
        &&& self.lru_list.wf()
        &&& forall|i: int| 0 <= i < PAGE_NUM && (#[trigger] self.cache_map@[i]).is_some() ==>
            bits_of(self.valid)[i]
        &&& forall|i: int| 0 <= i < PAGE_NUM && self.cache_map@[i].is_some() ==>
            i < self.lru_list@.len()
        &&& forall|i: int| 0 <= i < PAGE_NUM && #[trigger] bits_of(self.dirty)[i] ==>
            self.cache_map@[i].is_some()
        &&& forall|i: int, j: int|
            0 <= i < PAGE_NUM && 0 <= j < PAGE_NUM && i != j
                && (#[trigger] self.cache_map@[i]).is_some() && (#[trigger] self.cache_map@[j]).is_some()
                ==> self.cache_map@[i].unwrap()@ != self.cache_map@[j].unwrap()@
    }

    /// What a well-formed pool guarantees of its abstract state.
    pub proof fn lemma_view(&self)
        requires
            self.wf(),
        ensures
            self@.owners.len() == PAGE_NUM,
            self@.valid.len() == PAGE_NUM,
            self@.dirty.len() == PAGE_NUM,
            forall|i: int| 0 <= i < PAGE_NUM && (#[trigger] self@.owners[i]).is_some() ==> self@.valid[i],
            self@.pages.len() == PAGE_NUM,
            ring_order(self@.order, PAGE_NUM as nat),
            forall|i: int| 0 <= i < PAGE_NUM && self@.owners[i].is_some() ==> i < self@.order.len(),
            forall|i: int| 0 <= i < PAGE_NUM && #[trigger] self@.dirty[i] ==> self@.owners[i].is_some(),
            forall|i: int, j: int|
                0 <= i < PAGE_NUM && 0 <= j < PAGE_NUM && i != j && (#[trigger] self@.owners[i]).is_some()
                    ==> self@.owners[i] != #[trigger] self@.owners[j],
    {
        self.lru_list.lemma_order();
        assert forall|i: int, j: int|
            0 <= i < PAGE_NUM && 0 <= j < PAGE_NUM && i != j && (#[trigger] self@.owners[i]).is_some()
                implies self@.owners[i] != #[trigger] self@.owners[j] by {
            if self.cache_map@[j].is_some() {
                assert(self.cache_map@[i].unwrap()@ != self.cache_map@[j].unwrap()@);
            }
        }
    }

    pub fn new() -> (r: Self)
        requires
            PAGE_NUM <= usize::MAX / 8,
        ensures
            r.wf(),
            r@.order.len() == 0,
            r@.owners.len() == PAGE_NUM,
            r@.valid.len() == PAGE_NUM,
            r@.dirty.len() == PAGE_NUM,
            r@.pages.len() == PAGE_NUM,
            forall|i: int| 0 <= i < PAGE_NUM ==> (#[trigger] r@.owners[i]).is_none(),
            forall|i: int| 0 <= i < PAGE_NUM ==> !(#[trigger] r@.valid[i]),
            forall|i: int| 0 <= i < PAGE_NUM ==> !(#[trigger] r@.dirty[i]),
    {
        let mut cache_map: Vec<Option<ResId>> = Vec::new();
        let mut data: Vec<[u8; PAGE_SIZE]> = Vec::new();
        let mut k: usize = 0;
        while k < PAGE_NUM
            invariant
                k <= PAGE_NUM,
                cache_map@.len() == k,
                data@.len() == k,
                forall|i: int| 0 <= i < k ==> cache_map@[i].is_none(),
            decreases PAGE_NUM - k,
        {
            cache_map.push(None);
            data.push([0u8; PAGE_SIZE]);
            k = k + 1;
        }
        let r = CacheBuf {
            cache_map,
            valid: bits_repeat(false, PAGE_NUM),
            dirty: bits_repeat(false, PAGE_NUM),
            data,
            lru_list: LruList::new(),
        };
        r
    }

    /// The slot that holds `res_id`, if it is resident.
    pub fn query_cache_index(&self, res_id: &ResId) -> (r: Option<usize>)
        requires
            self.wf(),
        ensures
            match r {
                Some(i) => i < PAGE_NUM && self@.owners[i as int] == Some(res_id@),
                None => !resident(self@, res_id@),
            },
    {
        let mut i: usize = 0;
        while i < PAGE_NUM
            invariant
                self.wf(),
                i <= PAGE_NUM,
                forall|k: int| 0 <= k < i ==> self@.owners[k] != Some(res_id@),
            decreases PAGE_NUM - i,
        {
            match &self.cache_map[i] {
                Some(x) => {
                    if x.same(res_id) {
                        return Some(i);
                    }
                },
                None => {},
            }
            i = i + 1;
        }
        None
    }

    /// In-place access to the buffer of a slot; the caller marks it dirty after writing.
    pub fn get_cache_resource(&mut self, cache_id: usize) -> (r: &mut [u8; PAGE_SIZE])
        requires
            old(self).wf(),
            cache_id < PAGE_NUM,
        ensures
            *r == old(self)@.pages[cache_id as int],
            final(self).wf(),
            final(self)@ == (CacheView {
                pages: old(self)@.pages.update(cache_id as int, *final(r)),
                ..old(self)@
            }),
    {
        &mut self.data[cache_id]
    }

    /// Read access to the buffer of a slot.
    pub fn page(&self, cache_id: usize) -> (r: &[u8; PAGE_SIZE])
        requires
            self.wf(),
            cache_id < PAGE_NUM,
        ensures
            *r == self@.pages[cache_id as int],
    {
        &self.data[cache_id]
    }

    /// A copy of the identifier of the resource a slot holds.
    pub fn slot_owner(&self, cache_id: usize) -> (r: Option<ResId>)
        requires
            self.wf(),
            cache_id < PAGE_NUM,
        ensures
            owner_view(r) == self@.owners[cache_id as int],
    {
        match &self.cache_map[cache_id] {
            Some(x) => Some(x.duplicate()),
            None => None,
        }
    }

    /// Places `buffer` as the page of `res_id`, in a fresh slot while there is
    /// one and otherwise in the least recently used slot, which must be clean.
    pub fn add_cache_resource(&mut self, res_id: &ResId, buffer: [u8; PAGE_SIZE]) -> (r: Result<usize, StoreError>)
        requires
            old(self).wf(),
        ensures
            final(self).wf(),
            resident(old(self)@, res_id@) ==> r == Err::<usize, StoreError>(StoreError::DuplicateInstall)
                && final(self)@ == old(self)@,
            !resident(old(self)@, res_id@) && PAGE_NUM == 0 ==> r == Err::<usize, StoreError>(StoreError::CapacityExceeded)
                && final(self)@ == old(self)@,
            !resident(old(self)@, res_id@) && old(self)@.order.len() < PAGE_NUM ==> ({
                let slot = old(self)@.order.len() as usize;
                &&& r == Ok::<usize, StoreError>(slot)
                &&& final(self)@ == installed(old(self)@, slot, res_id@, buffer, seq![slot] + old(self)@.order)
            }),
            !resident(old(self)@, res_id@) && PAGE_NUM > 0 && old(self)@.order.len() == PAGE_NUM ==> ({
                let victim = old(self)@.order.last();
                &&& old(self)@.dirty[victim as int] ==> r == Err::<usize, StoreError>(StoreError::VictimDirty(victim))
                    && final(self)@ == old(self)@
                &&& !old(self)@.dirty[victim as int] ==> r == Ok::<usize, StoreError>(victim)
                    && final(self)@ == installed(old(self)@, victim, res_id@, buffer, promoted(old(self)@.order, victim))
            }),
    {
        proof {
            self.lemma_view();
        }
        if self.query_cache_index(res_id).is_some() {
            return Err(StoreError::DuplicateInstall);
        }
        let ghost old_self = *self;
        let cache_id: usize;
        if self.lru_list.have_free_page() {
            cache_id = match self.lru_list.new_page() {
                Ok(id) => id,
                Err(e) => {
                    return Err(e);
                },
            };
        } else {
            cache_id = match self.lru_list.get_drop_page() {
                Ok(id) => id,
                Err(_) => {
                    return Err(StoreError::CapacityExceeded);
                },
            };
            proof {
                assert(self@.order.contains(cache_id));
            }
            if bit_at(&self.dirty, cache_id) {
                return Err(StoreError::VictimDirty(cache_id));
            }
            let _ = self.lru_list.lift_page(cache_id);
        }
        self.data[cache_id] = buffer;
        self.cache_map[cache_id] = Some(res_id.duplicate());
        set_bit(&mut self.valid, cache_id, true);
        set_bit(&mut self.dirty, cache_id, false);
        proof {
            let o = old_self@;
            assert(self@.owners =~= o.owners.update(cache_id as int, Some(res_id@)));
            assert(self@.pages =~= o.pages.update(cache_id as int, buffer));
            assert(self@.dirty =~= o.dirty.update(cache_id as int, false));
            assert(self@.valid =~= o.valid.update(cache_id as int, true));
            assert forall|i: int, j: int|
                0 <= i < PAGE_NUM && 0 <= j < PAGE_NUM && i != j
                    && (#[trigger] self.cache_map@[i]).is_some() && (#[trigger] self.cache_map@[j]).is_some()
                    implies self.cache_map@[i].unwrap()@ != self.cache_map@[j].unwrap()@ by {
                if i != cache_id && j != cache_id {
                    assert(old_self.cache_map@[i].unwrap()@ != old_self.cache_map@[j].unwrap()@);
                } else if i == cache_id {
                    assert(o.owners[j] != Some(res_id@));
                } else {
                    assert(o.owners[i] != Some(res_id@));
                }
            }
        }
        Ok(cache_id)
    }

    /// Marks an allocated slot as the most recently used.
    pub fn promote(&mut self, cache_id: usize) -> (r: Result<(), StoreError>)
        requires
            old(self).wf(),
        ensures
            final(self).wf(),
            (cache_id as int) < old(self)@.order.len() ==> r == Ok::<(), StoreError>(())
                && final(self)@ == (CacheView { order: promoted(old(self)@.order, cache_id), ..old(self)@ }),
            (cache_id as int) >= old(self)@.order.len() ==> r == Err::<(), StoreError>(StoreError::InvalidSlot)
                && final(self)@ == old(self)@,
    {
        self.lru_list.lift_page(cache_id)
    }

    /// The hit path of a page request: the slot of a resident resource, now the most recently used.
    pub fn touch(&mut self, res_id: &ResId) -> (r: Option<usize>)
        requires
            old(self).wf(),
        ensures
            final(self).wf(),
            !resident(old(self)@, res_id@) ==> r.is_none() && final(self)@ == old(self)@,
            resident(old(self)@, res_id@) ==> ({
                &&& r.is_some()
                &&& old(self)@.owners[r.unwrap() as int] == Some(res_id@)
                &&& final(self)@ == (CacheView { order: promoted(old(self)@.order, r.unwrap()), ..old(self)@ })
            }),
    {
        proof {
            self.lemma_view();
        }
        match self.query_cache_index(res_id) {
            Some(i) => {
                let _ = self.promote(i);
                Some(i)
            },
            None => None,
        }
    }

    /// The first slot not marked in use.
    pub fn find_free(&self) -> (r: Option<usize>)
        requires
            self.wf(),
        ensures
            match r {
                Some(i) => i < PAGE_NUM && !self@.valid[i as int]
                    && forall|k: int| 0 <= k < i ==> self@.valid[k],
                None => forall|k: int| 0 <= k < PAGE_NUM ==> self@.valid[k],
            },
    {
        let mut i: usize = 0;
        while i < PAGE_NUM
            invariant
                self.wf(),
                i <= PAGE_NUM,
                forall|k: int| 0 <= k < i ==> self@.valid[k],
            decreases PAGE_NUM - i,
        {
            if !bit_at(&self.valid, i) {
                return Some(i);
            }
            i = i + 1;
        }
        None
    }

    /// Drops the resource a slot holds without writing it back.
    pub fn set_free(&mut self, index: usize)
        requires
            old(self).wf(),
            index < PAGE_NUM,
        ensures
            final(self).wf(),
            final(self)@ == (CacheView {
                owners: old(self)@.owners.update(index as int, None),
                valid: old(self)@.valid.update(index as int, false),
                dirty: old(self)@.dirty.update(index as int, false),
                ..old(self)@
            }),
    {
        let ghost old_self = *self;
        self.cache_map[index] = None;
        set_bit(&mut self.valid, index, false);
        set_bit(&mut self.dirty, index, false);
        proof {
            assert(self@.owners =~= old_self@.owners.update(index as int, None));
            assert(self@.valid =~= old_self@.valid.update(index as int, false));
            assert(self@.dirty =~= old_self@.dirty.update(index as int, false));
            assert forall|i: int, j: int|
                0 <= i < PAGE_NUM && 0 <= j < PAGE_NUM && i != j
                    && (#[trigger] self.cache_map@[i]).is_some() && (#[trigger] self.cache_map@[j]).is_some()
                    implies self.cache_map@[i].unwrap()@ != self.cache_map@[j].unwrap()@ by {
                assert(old_self.cache_map@[i].unwrap()@ != old_self.cache_map@[j].unwrap()@);
            }
        }
    }

    /// Marks a slot as in use.
    pub fn set_busy(&mut self, index: usize)
        requires
            old(self).wf(),
            index < PAGE_NUM,
        ensures
            final(self).wf(),
            final(self)@ == (CacheView { valid: old(self)@.valid.update(index as int, true), ..old(self)@ }),
    {
        let ghost old_self = *self;
        set_bit(&mut self.valid, index, true);
        proof {
            assert(self@.valid =~= old_self@.valid.update(index as int, true));
        }
    }

    pub fn is_dirty(&self, index: usize) -> (r: bool)
        requires
            self.wf(),
            index < PAGE_NUM,
        ensures
            r == self@.dirty[index as int],
    {
        bit_at(&self.dirty, index)
    }

    /// Records that the page in a slot differs from storage.
    pub fn set_dirty(&mut self, index: usize) -> (r: Result<(), StoreError>)
        requires
            old(self).wf(),
        ensures
            final(self).wf(),
            (index < PAGE_NUM && old(self)@.owners[index as int].is_some()) ==> r == Ok::<(), StoreError>(())
                && final(self)@ == (CacheView { dirty: old(self)@.dirty.update(index as int, true), ..old(self)@ }),
            !(index < PAGE_NUM && old(self)@.owners[index as int].is_some()) ==> r == Err::<(), StoreError>(StoreError::InvalidSlot)
                && final(self)@ == old(self)@,
    {
        if index >= PAGE_NUM || self.cache_map[index].is_none() {
            return Err(StoreError::InvalidSlot);
        }
        let ghost old_self = *self;
        set_bit(&mut self.dirty, index, true);
        proof {
            assert(self@.dirty =~= old_self@.dirty.update(index as int, true));
        }
        Ok(())
    }

    /// Records that the page in a slot matches storage again.
    pub fn set_clean(&mut self, index: usize)
        requires
            old(self).wf(),
            index < PAGE_NUM,
        ensures
            final(self).wf(),
            final(self)@ == (CacheView { dirty: old(self)@.dirty.update(index as int, false), ..old(self)@ }),
    {
        let ghost old_self = *self;
        set_bit(&mut self.dirty, index, false);
        proof {
            assert(self@.dirty =~= old_self@.dirty.update(index as int, false));
        }
    }

    /// Drops, without writing back, every resident page of the file `file_name`.
    pub fn invalidate_file(&mut self, file_name: &str)
        requires
            old(self).wf(),
        ensures
            final(self).wf(),
            final(self)@.order == old(self)@.order,
            final(self)@.pages == old(self)@.pages,
            forall|i: int| 0 <= i < PAGE_NUM ==> {
                let o = #[trigger] old(self)@.owners[i];
                let gone = o.is_some() && o.unwrap().file_name == file_name@;
                &&& final(self)@.owners[i] == (if gone { None } else { o })
                &&& final(self)@.valid[i] == (if gone { false } else { old(self)@.valid[i] })
                &&& final(self)@.dirty[i] == (if gone { false } else { old(self)@.dirty[i] })
            },
    {
        let ghost start = self@;
        proof {
            self.lemma_view();
        }
        let name = file_name.to_owned();
        let mut i: usize = 0;
        while i < PAGE_NUM
            invariant
                self.wf(),
                i <= PAGE_NUM,
                name@ == file_name@,
                self@.order == start.order,
                self@.pages == start.pages,
                start.owners.len() == PAGE_NUM,
                start.dirty.len() == PAGE_NUM,
                start.valid.len() == PAGE_NUM,
                forall|k: int| 0 <= k < PAGE_NUM ==> {
                    let o = #[trigger] start.owners[k];
                    let gone = k < i && o.is_some() && o.unwrap().file_name == file_name@;
                    &&& self@.owners[k] == (if gone { None } else { o })
                    &&& self@.valid[k] == (if gone { false } else { start.valid[k] })
                    &&& self@.dirty[k] == (if gone { false } else { start.dirty[k] })
                },
            decreases PAGE_NUM - i,
        {
            let hit = match &self.cache_map[i] {
                Some(x) => x.file_name == name,
                None => false,
            };
            proof {
                assert(self@.owners[i as int] == owner_view(self.cache_map@[i as int]));
                assert(self@.owners[i as int] == start.owners[i as int]);
            }
            if hit {
                self.set_free(i);
            }
            i = i + 1;
        }
    }
}

} // verus!
