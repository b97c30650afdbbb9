//! An open-addressing hash table of byte keys and values whose records are
//! stored in chains of slabs.
//!
//! The entry array holds, per slot, the id of the first slab of a record or
//! `SLOT_EMPTY`. Lookups probe linearly from a start slot until they meet an
//! empty slot or a record with the same key. There is one record per key:
//! inserting a key that is held writes a new record on new slabs, then
//! unlinks the old record and releases its slabs. Every record also links to
//! the record stored before it, so all records can be walked from the
//! newest.
use vstd::prelude::*;
use crate::bytes::{be_u64, lemma_be_u64_roundtrip, u64_to_be};
use crate::layout::{
    lemma_relink, lemma_value_splice,
    content_len, encode_record, lemma_first_page, lemma_pad, lemma_record_roundtrip, page_count,
    page_data, pages_needed, read_u64_at, record_bytes, slab_image, stored_key, stored_klen,
    stored_value, stored_vlen, vlen_pos,
};
use crate::slabs::{
    alloc_ids, created_after, free_after, lemma_alloc_step, lemma_next_ids_distinct, SlabAllocator,
    SlabError, SlabsView, SLOT_DELETED, SLOT_EMPTY,
};

verus! {

/// Errors of the static hash table.
#[derive(Debug, Clone, Copy, PartialEq, Eq, Structural)]
pub enum StaticHashError {
    /// Every slot holds another key.
    CapacityExceeded,
    /// The slab allocator has fewer free slabs than the record needs.
    NoMoreSlabs,
    /// A stored key or value does not decode as the requested type.
    Deserialization,
    /// The slab id does not start a stored record.
    InvalidId,
    /// The bytes to write do not lie within the record's value and first
    /// slab.
    OutOfRange,
}

/// One record as written by an insert: its key, its value and the ids of its
/// slabs, in chain order.
pub struct Record {
    pub key: Seq<u8>,
    pub value: Seq<u8>,
    pub ids: Seq<u64>,
}

/// The abstract state of a table.
pub struct StaticHashView {
    /// Per slot, the index in `log` of the record it holds.
    pub slots: Seq<Option<int>>,
    /// The stored records, one per key, in the order in which their keys
    /// were first inserted.
    pub log: Seq<Record>,
    pub slab_size: nat,
    pub slab_count: nat,
    /// Number of slabs created in the store.
    pub used: nat,
    /// Ids of released slabs, most recently released last.
    pub free: Seq<u64>,
}

/// The slot that a probe from `start`, having passed `i` slots, stops at:
/// the first one that is empty or holds a record with `key`.
pub open spec fn probe(slots: Seq<Option<int>>, log: Seq<Record>, start: int, key: Seq<u8>, i: nat) -> Option<int>
    decreases slots.len() - i,
{
    if i >= slots.len() {
        None
    } else {
        let s = (start + i) % (slots.len() as int);
        match slots[s] {
            None => Some(s),
            Some(r) => if log[r].key == key {
                Some(s)
            } else {
                probe(slots, log, start, key, i + 1)
            },
        }
    }
}

/// Slab `t` of a chain with slab ids `ids` and data bytes `b` holds its page
/// and the id of the next slab.
pub open spec fn chain_stored(slabs: Seq<Seq<u8>>, ids: Seq<u64>, b: Seq<u8>, bps: nat, t: int) -> bool {
    &&& ids[t] < slabs.len()
    &&& slabs[ids[t] as int] == slab_image(
        b,
        t as nat,
        bps,
        if t + 1 < ids.len() {
            ids[t + 1]
        } else {
            SLOT_EMPTY
        },
    )
}

/// A probe stops, if at all, at a slot of the table.
pub proof fn lemma_probe_in_range(slots: Seq<Option<int>>, log: Seq<Record>, start: int, key: Seq<u8>, i: nat)
    ensures
        probe(slots, log, start, key, i) matches Some(s) ==> 0 <= s < slots.len(),
    decreases slots.len() - i,
{
    if i < slots.len() {
        lemma_probe_in_range(slots, log, start, key, i + 1);
    }
}

/// The slot where a probe for a hash starts.
pub open spec fn start_slot(hash: u64, len: nat) -> int {
    (hash as int) % (len as int)
}

impl StaticHashView {
    /// Data bytes per slab.
    pub open spec fn bps(self) -> nat {
        (self.slab_size - 8) as nat
    }

    /// The first slab of the record stored before record `r`.
    pub open spec fn link(self, r: int) -> u64 {
        if r <= 0 {
            SLOT_EMPTY
        } else {
            self.log[r - 1].ids[0]
        }
    }

    /// The data bytes of the chain of record `r`.
    pub open spec fn bytes_of(self, r: int) -> Seq<u8> {
        record_bytes(self.link(r), self.log[r].key, self.log[r].value, self.bps())
    }

    /// The id stored at the end of slab `j` of record `r`.
    pub open spec fn next_id(self, r: int, j: int) -> u64 {
        if j + 1 < self.log[r].ids.len() {
            self.log[r].ids[j + 1]
        } else {
            SLOT_EMPTY
        }
    }

    /// The first slab of the newest record, or `SLOT_EMPTY`.
    pub open spec fn first_entry(self) -> u64 {
        if self.log.len() == 0 {
            SLOT_EMPTY
        } else {
            self.log.last().ids[0]
        }
    }

    /// Every slot refers to a record of the log.
    pub open spec fn slots_valid(self) -> bool {
        forall|x: int|
            0 <= x < self.slots.len() ==> (#[trigger] self.slots[x] matches Some(r) ==> 0 <= r
                < self.log.len())
    }

    /// The first slab of the record that writing into slot `s` relinks: the
    /// record stored right after the one `s` holds, if any.
    pub open spec fn relinked(self, s: int) -> Option<u64> {
        match self.slots[s] {
            Some(r) => if r + 1 < self.log.len() {
                Some(self.log[r + 1].ids[0])
            } else {
                None
            },
            None => None,
        }
    }

    /// Whether `len` bytes at offset `off` of the value of record `rec` lie
    /// within the value and within the record's first slab.
    pub open spec fn value_write_fits(self, rec: int, off: nat, len: nat) -> bool {
        &&& off + len <= self.log[rec].value.len()
        &&& vlen_pos(self.log[rec].key.len(), self.bps()) + 8 + off + len <= self.bps()
    }

    /// The state after `data` is written at offset `off` of the value of
    /// record `rec`.
    pub open spec fn after_value_write(self, rec: int, off: nat, data: Seq<u8>) -> Self {
        let v = self.log[rec].value;
        StaticHashView {
            log: self.log.update(
                rec,
                Record {
                    value: v.subrange(0, off as int) + data + v.subrange(
                        (off + data.len()) as int,
                        v.len() as int,
                    ),
                    ..self.log[rec]
                },
            ),
            ..self
        }
    }

    /// Every record has at least one slab.
    pub open spec fn records_valid(self) -> bool {
        forall|r: int| 0 <= r < self.log.len() ==> #[trigger] self.log[r].ids.len() >= 1
    }

    /// Some slot holds record `r`.
    pub open spec fn held(self, r: int) -> bool {
        exists|s: int| #![trigger self.slots[s]] 0 <= s < self.slots.len() && self.slots[s] == Some(r)
    }

    /// Every record of the log is held by a slot, and no two slots hold the
    /// same record.
    pub open spec fn records_live(self) -> bool {
        &&& forall|r: int| 0 <= r < self.log.len() ==> #[trigger] self.held(r)
        &&& forall|s1: int, s2: int|
            0 <= s1 < self.slots.len() && 0 <= s2 < self.slots.len() && s1 != s2
                && self.slots[s1] is Some ==> #[trigger] self.slots[s1] != #[trigger] self.slots[s2]
    }

    /// Slabs that can still be allocated.
    pub open spec fn free(self) -> nat {
        (self.slab_count - self.used + self.free.len()) as nat
    }

    /// Slabs that writing into slot `s` releases: those of the record it
    /// holds.
    pub open spec fn reclaimable(self, s: int) -> nat {
        match self.slots[s] {
            Some(r) => self.log[r].ids.len(),
            None => 0,
        }
    }

    /// The slot that a probe for `key` from `start` stops at.
    pub open spec fn find_slot(self, key: Seq<u8>, start: int) -> Option<int> {
        probe(self.slots, self.log, start, key, 0)
    }

    /// The record that a lookup of `key` from `start` finds.
    pub open spec fn lookup(self, key: Seq<u8>, start: int) -> Option<int> {
        match self.find_slot(key, start) {
            Some(s) => self.slots[s],
            None => None,
        }
    }

    /// Number of slabs a record with this key and value takes.
    pub open spec fn pages_for(self, key: Seq<u8>, value: Seq<u8>) -> nat {
        page_count(key.len(), value.len(), self.bps())
    }

    /// The state after the record that slot `s` holds is removed: the slot
    /// is empty, the records after it move down one place, and its slabs
    /// are released in chain order.
    pub open spec fn after_remove(self, s: int) -> Self {
        let r = self.slots[s].unwrap();
        StaticHashView {
            slots: Seq::new(
                self.slots.len(),
                |t: int|
                    if t == s {
                        None
                    } else {
                        shift(self.slots[t], r)
                    },
            ),
            log: self.log.remove(r),
            free: self.free + self.log[r].ids,
            ..self
        }
    }

    /// The state after writing a record for `key` and `value` into slot `s`.
    /// The record's slabs are taken from the store first. When `s` held the
    /// record of the same key, that record is then removed and its slabs
    /// released. The new record is the newest, and slot `s` holds it.
    pub open spec fn after_insert(self, s: int, key: Seq<u8>, value: Seq<u8>) -> Self {
        let n = self.pages_for(key, value);
        let alloc = StaticHashView {
            used: created_after(self.used, self.free, n),
            free: free_after(self.free, n),
            ..self
        };
        let mid = if self.slots[s] is Some {
            alloc.after_remove(s)
        } else {
            alloc
        };
        StaticHashView {
            slots: mid.slots.update(s, Some(mid.log.len() as int)),
            log: mid.log.push(Record { key, value, ids: alloc_ids(self.used, self.free, n) }),
            ..mid
        }
    }
}

/// Where record `i` stands once record `r` is removed from the log.
pub open spec fn shift(x: Option<int>, r: int) -> Option<int> {
    match x {
        Some(i) => if i > r {
            Some(i - 1)
        } else {
            Some(i)
        },
        None => None,
    }
}

/// The whole first slab of record `rec`.
pub open spec fn slab_first_page(t: StaticHashView, rec: int) -> Seq<u8> {
    slab_image(t.bytes_of(rec), 0, t.bps(), t.next_id(rec, 0))
}

/// Whether a record for `key` and `value` is small enough that its sizes
/// can be computed.
pub open spec fn record_fits(key: Seq<u8>, value: Seq<u8>, slab_size: nat) -> bool {
    key.len() + value.len() + 2 * slab_size + 32 <= usize::MAX
}

/// What an insert of `key` and `value`, probing from `start`, does: it fails
/// with `CapacityExceeded` when the probe meets neither an empty slot nor the
/// key, with `NoMoreSlabs` when the record needs more slabs than are free;
/// otherwise it writes the record into the slot the probe stopped at. A
/// failed insert changes nothing.
pub open spec fn insert_outcome(
    pre: StaticHashView,
    post: StaticHashView,
    r: Result<(), StaticHashError>,
    key: Seq<u8>,
    start: int,
    value: Seq<u8>,
) -> bool {
    match pre.find_slot(key, start) {
        None => {
            &&& r == Err::<(), StaticHashError>(StaticHashError::CapacityExceeded)
            &&& post == pre
        },
        Some(s) => if !record_fits(key, value, pre.slab_size) || pre.free() < pre.pages_for(
            key,
            value,
        ) {
            &&& r == Err::<(), StaticHashError>(StaticHashError::NoMoreSlabs)
            &&& post == pre
        } else {
            &&& r == Ok::<(), StaticHashError>(())
            &&& post == pre.after_insert(s, key, value)
        },
    }
}

/// Writing `data` at offset `c` of the data bytes `b1` of a chain, within
/// its first page, changes that page alone.
proof fn lemma_splice_page(b1: Seq<u8>, b2: Seq<u8>, c: nat, data: Seq<u8>, bps: nat, n: nat, j: nat)
    requires
        c + data.len() <= bps,
        b1.len() == n * bps,
        j < n,
        b2 == b1.subrange(0, c as int) + data + b1.subrange((c + data.len()) as int, b1.len() as int),
    ensures
        j == 0 ==> page_data(b2, j, bps) == page_data(b1, 0, bps).subrange(0, c as int) + data
            + page_data(b1, 0, bps).subrange((c + data.len()) as int, bps as int),
        j > 0 ==> page_data(b2, j, bps) == page_data(b1, j, bps),
{
    assert((j + 1) * bps <= n * bps) by (nonlinear_arith)
        requires
            j < n,
    ;
    assert(j * bps + bps == (j + 1) * bps) by (nonlinear_arith);
    if j == 0 {
        lemma_first_page(b1, bps);
        lemma_first_page(b2, bps);
        assert(page_data(b2, 0, bps) =~= page_data(b1, 0, bps).subrange(0, c as int) + data
            + page_data(b1, 0, bps).subrange((c + data.len()) as int, bps as int));
    } else {
        assert(j * bps >= bps) by (nonlinear_arith)
            requires
                j >= 1,
        ;
        assert(page_data(b2, j, bps) =~= page_data(b1, j, bps));
    }
}

/// The table.
pub struct StaticHashImpl {
    entry_array: Vec<u64>,
    slabs: SlabAllocator,
    first_entry: u64,
    log: Ghost<Seq<Record>>,
    slot_rec: Ghost<Seq<Option<int>>>,
    rec_slot: Ghost<Seq<int>>,
    owner: Ghost<Seq<Option<(int, int)>>>,
}

/// Per slab id, the record and page that use the slab, after a new record
/// `target` is written on the slabs `ids`.
pub open spec fn own_after(owner: Seq<Option<(int, int)>>, len: nat, target: int, ids: Seq<u64>) -> Seq<
    Option<(int, int)>,
> {
    Seq::new(
        len,
        |id: int|
            if ids.contains(id as u64) {
                Some((target, ids.index_of(id as u64)))
            } else if id < owner.len() {
                owner[id]
            } else {
                None
            },
    )
}

impl StaticHashImpl {
    pub closed spec fn view(&self) -> StaticHashView {
        StaticHashView {
            slots: self.slot_rec@,
            log: self.log@,
            slab_size: self.slabs@.slab_size,
            slab_count: self.slabs@.slab_count,
            used: self.slabs@.slabs.len(),
            free: self.slabs@.free,
        }
    }

    /// The record and page that use slab `id`, if any.
    closed spec fn owns(&self, id: u64) -> Option<(int, int)> {
        self.owner@[id as int]
    }

    /// Whether slab `id` may be taken for record `target`: it is new, unused
    /// or used by `target` itself.
    closed spec fn claimable(&self, id: u64, target: int) -> bool {
        id >= self.owner@.len() || self.owns(id) is None || self.owns(id).unwrap().0 == target
    }

    /// Record `r` is stored in its slabs as the layout says, uses them alone,
    /// and one slot refers to it.
    closed spec fn record_stored(&self, r: int) -> bool {
        &&& self@.log[r].ids.len() == self@.pages_for(self@.log[r].key, self@.log[r].value)
        &&& self@.log[r].key.len() + self@.log[r].value.len() + 2 * self@.bps() + 32 <= usize::MAX
        &&& 0 <= self.rec_slot@[r] < self@.slots.len()
        &&& self@.slots[self.rec_slot@[r]] == Some(r)
        &&& forall|j: int|
            0 <= j < self@.log[r].ids.len() ==> #[trigger] chain_stored(
                self.slabs@.slabs,
                self@.log[r].ids,
                self@.bytes_of(r),
                self@.bps(),
                j,
            )
        &&& forall|j: int|
            0 <= j < self@.log[r].ids.len() ==> #[trigger] self.owns(self@.log[r].ids[j]) == Some(
                (r, j),
            )
    }

    /// The table's invariant.
    #[verifier::opaque]
    pub closed spec fn inv(&self) -> bool {
        let v = self.view();
        &&& self.slabs.wf()
        &&& self.entry_array@.len() == v.slots.len()
        &&& v.log.len() > 0 ==> v.slab_size >= 24
        &&& self.rec_slot@.len() == v.log.len()
        &&& forall|s: int|
            0 <= s < v.slots.len() ==> match #[trigger] v.slots[s] {
                None => self.entry_array@[s] == SLOT_EMPTY,
                Some(r) => 0 <= r < v.log.len() && self.entry_array@[s] == v.log[r].ids[0]
                    && self.rec_slot@[r] == s,
            }
        &&& forall|r: int| 0 <= r < v.log.len() ==> #[trigger] self.record_stored(r)
        &&& self.owner@.len() == v.used
        &&& forall|k: int| 0 <= k < v.free.len() ==> #[trigger] self.owns(v.free[k]) is None
        &&& self.first_entry == v.first_entry()
    }

    /// A table of `slot_count` empty slots whose records go into `slabs`.
    pub fn new(slot_count: usize, slabs: SlabAllocator) -> (r: Self)
        requires
            slabs.wf(),
        ensures
            r.inv(),
            r@.slots == Seq::new(slot_count as nat, |i: int| None::<int>),
            r@.log == Seq::<Record>::empty(),
            r@.slab_size == slabs@.slab_size,
            r@.slab_count == slabs@.slab_count,
            r@.used == slabs@.slabs.len(),
            r@.free == slabs@.free,
    {
        let mut entry_array: Vec<u64> = Vec::new();
        let mut i: usize = 0;
        while i < slot_count
            invariant
                i <= slot_count,
                entry_array@.len() == i,
                forall|j: int| 0 <= j < i ==> entry_array@[j] == SLOT_EMPTY,
            decreases slot_count - i,
        {
            entry_array.push(SLOT_EMPTY);
            i = i + 1;
        }
        let ghost n = slabs@.slabs.len();
        let r = StaticHashImpl {
            entry_array,
            slabs,
            first_entry: SLOT_EMPTY,
            log: Ghost(Seq::empty()),
            slot_rec: Ghost(Seq::new(slot_count as nat, |i: int| None::<int>)),
            rec_slot: Ghost(Seq::empty()),
            owner: Ghost(Seq::new(n, |i: int| None::<(int, int)>)),
        };
        proof {
            reveal(StaticHashImpl::inv);
            assert forall|k: int| 0 <= k < r@.free.len() implies #[trigger] r.owns(r@.free[k]) is None by {
                assert(r@.free[k] < n);
            }
        }
        r
    }

    /// Number of slots.
    pub fn slot_count(&self) -> (r: usize)
        requires
            self.inv(),
        ensures
            r == self@.slots.len(),
    {
        proof {
            reveal(StaticHashImpl::inv);
        }
        self.entry_array.len()
    }

    /// The first slab of the newest record, `u64::MAX` when there is none.
    pub fn first_entry(&self) -> (r: u64)
        requires
            self.inv(),
        ensures
            r == self@.first_entry(),
    {
        proof {
            reveal(StaticHashImpl::inv);
        }
        self.first_entry
    }

    /// Bytes per slab.
    pub fn slab_size(&self) -> (r: usize)
        ensures
            r == self@.slab_size,
    {
        self.slabs.slab_size()
    }

    /// Slabs that can still be allocated.
    pub fn get_free_count(&self) -> (r: usize)
        requires
            self.inv(),
        ensures
            r == self@.free(),
    {
        proof {
            reveal(StaticHashImpl::inv);
        }
        self.slabs.free_count()
    }

    /// The contents of slab `id`.
    pub fn get_slab(&self, id: u64) -> (r: Result<&[u8], SlabError>)
        requires
            self.inv(),
        ensures
            id < self@.used ==> (r matches Ok(s) && s@ == self.slab_contents(id as int)),
            id >= self@.used ==> r == Err::<&[u8], SlabError>(SlabError::InvalidId),
    {
        proof {
            reveal(StaticHashImpl::inv);
        }
        self.slabs.get(id)
    }

    /// The contents of slab `id` of the store.
    pub closed spec fn slab_contents(&self, id: int) -> Seq<u8> {
        self.slabs@.slabs[id]
    }

    /// Released slabs are created slabs that no record uses.
    proof fn lemma_free_unowned(&self)
        requires
            self.inv(),
        ensures
            forall|k: int| 0 <= k < self@.free.len() ==> #[trigger] self.owns(self@.free[k]) is None,
            forall|k: int| 0 <= k < self@.free.len() ==> #[trigger] self@.free[k] < self@.used,
            self.slabs.wf(),
            self.first_entry == self@.first_entry(),
            self.owner@.len() == self@.used,
            self.entry_array@.len() == self@.slots.len(),
    {
        reveal(StaticHashImpl::inv);
    }

    /// The slabs of record `r`: at least one, each holding its page and used
    /// by the record alone.
    proof fn lemma_record_pages(&self, r: int)
        requires
            self.inv(),
            0 <= r < self@.log.len(),
        ensures
            self.slabs.wf(),
            self@.log[r].ids.len() >= 1,
            forall|j: int|
                0 <= j < self@.log[r].ids.len() ==> #[trigger] chain_stored(
                    self.slabs@.slabs,
                    self@.log[r].ids,
                    self@.bytes_of(r),
                    self@.bps(),
                    j,
                ),
            forall|j: int|
                0 <= j < self@.log[r].ids.len() ==> #[trigger] self.owns(self@.log[r].ids[j]) == Some(
                    (r, j),
                ),
            self.owner@.len() == self@.used,
            self@.slab_size >= 24,
            self@.bytes_of(r).len() == self@.log[r].ids.len() * self@.bps(),
    {
        self.lemma_record(r);
    }

    /// What the invariant says of record `r`.
    proof fn lemma_record(&self, r: int)
        requires
            self.inv(),
            0 <= r < self@.log.len(),
        ensures
            self.slabs.wf(),
            self@.slab_size >= 24,
            self@.bps() >= 16,
            self@.log[r].ids.len() >= 1,
            self@.log[r].ids.len() == self@.pages_for(self@.log[r].key, self@.log[r].value),
            self@.bytes_of(r).len() == self@.log[r].ids.len() * self@.bps(),
            self@.bytes_of(r).len() >= content_len(
                self@.log[r].key.len(),
                self@.log[r].value.len(),
                self@.bps(),
            ),
            self@.bytes_of(r).len() >= self@.bps(),
            self@.bytes_of(r).len() + 8 <= usize::MAX,
            self@.log[r].key.len() + self@.log[r].value.len() + 2 * self@.bps() + 32
                <= usize::MAX,
            stored_klen(self@.bytes_of(r)) == self@.log[r].key.len(),
            stored_key(self@.bytes_of(r)) == self@.log[r].key,
            stored_vlen(self@.bytes_of(r), self@.bps()) == self@.log[r].value.len(),
            stored_value(self@.bytes_of(r), self@.bps()) == self@.log[r].value,
            forall|j: int|
                0 <= j < self@.log[r].ids.len() ==> #[trigger] chain_stored(
                    self.slabs@.slabs,
                    self@.log[r].ids,
                    self@.bytes_of(r),
                    self@.bps(),
                    j,
                ),
            forall|j: int|
                0 <= j < self@.log[r].ids.len() ==> #[trigger] self.owns(self@.log[r].ids[j]) == Some(
                    (r, j),
                ),
            self.slabs@.slabs.len() == self@.used,
            self.owner@.len() == self@.used,
            0 <= self.rec_slot@[r] < self@.slots.len(),
            self@.slots[self.rec_slot@[r]] == Some(r),
    {
        reveal(StaticHashImpl::inv);
        assert(self.record_stored(r));
        let v = self@;
        lemma_record_roundtrip(v.link(r), v.log[r].key, v.log[r].value, v.bps());
        lemma_pad(v.log[r].key.len(), v.bps());
        let n = v.log[r].ids.len();
        let bps = v.bps();
        assert(n * bps >= bps) by (nonlinear_arith)
            requires
                n >= 1,
        ;
    }

    /// Reads the data bytes of record `r`, whose first slab is `head`, slab
    /// by slab, until at least `limit` bytes are read or the chain ends.
    #[verifier::rlimit(60)]
    fn read_chain(&self, Ghost(r): Ghost<int>, head: u64, limit: usize) -> (out: Vec<u8>)
        requires
            self.inv(),
            0 <= r < self@.log.len(),
            head == self@.log[r].ids[0],
        ensures
            out@.len() <= self@.bytes_of(r).len(),
            out@ == self@.bytes_of(r).subrange(0, out@.len() as int),
            out@.len() >= limit || out@.len() == self@.bytes_of(r).len(),
    {
        proof {
            self.lemma_record(r);
        }
        let ghost v = self@;
        let ghost b = v.bytes_of(r);
        let ghost ids = v.log[r].ids;
        let ghost n = ids.len();
        let bps = self.slabs.slab_size() - 8;
        let mut out: Vec<u8> = Vec::new();
        let mut cur = head;
        let ghost mut j: int = 0;
        loop
            invariant
                self.slabs.wf(),
                v == self@,
                b == v.bytes_of(r),
                bps == v.bps(),
                bps >= 16,
                b.len() == n * bps,
                n == ids.len(),
                forall|t: int|
                    0 <= t < n ==> #[trigger] chain_stored(self.slabs@.slabs, ids, b, bps as nat, t),
                0 <= j < n,
                cur == ids[j],
                out@.len() == j * bps,
                out@ == b.subrange(0, j * bps),
            decreases n - j,
        {
            proof {
                assert((j + 1) * bps <= n * bps) by (nonlinear_arith)
                    requires
                        j < n,
                        bps >= 0,
                ;
                assert(j * bps + bps == (j + 1) * bps) by (nonlinear_arith);
            }
            let ghost nx = if j + 1 < n {
                ids[j + 1]
            } else {
                SLOT_EMPTY
            };
            assert(chain_stored(self.slabs@.slabs, ids, b, bps as nat, j));
            let slab = match self.slabs.get(cur) {
                Ok(s) => s,
                Err(_) => {
                    proof {
                        assert(false);
                    }
                    return out;
                },
            };
            let ghost page = page_data(b, j as nat, bps as nat);
            assert(slab@ == page + be_u64(nx));
            let ghost before = out@;
            let mut k: usize = 0;
            while k < bps
                invariant
                    k <= bps,
                    slab@ == page + be_u64(nx),
                    page.len() == bps,
                    out@ == before + page.subrange(0, k as int),
                decreases bps - k,
            {
                out.push(slab[k]);
                k = k + 1;
                assert(out@ =~= before + page.subrange(0, k as int));
            }
            assert(out@ =~= b.subrange(0, (j + 1) * bps));
            proof {
                j = j + 1;
            }
            if out.len() >= limit {
                return out;
            }
            proof {
                lemma_be_u64_roundtrip(nx);
                assert(slab@.subrange(bps as int, bps + 8) =~= be_u64(nx));
            }
            let next = read_u64_at(slab, bps);
            if next == SLOT_EMPTY {
                proof {
                    if j < n {
                        assert(chain_stored(self.slabs@.slabs, ids, b, bps as nat, j));
                        assert(self.slabs@.slabs.len() <= self.slabs@.slab_count);
                    }
                }
                return out;
            }
            cur = next;
        }
    }

    /// Copies `src[lo..hi]`.
    fn copy_range(src: &[u8], lo: usize, hi: usize) -> (r: Vec<u8>)
        requires
            lo <= hi <= src@.len(),
        ensures
            r@ == src@.subrange(lo as int, hi as int),
    {
        let mut r: Vec<u8> = Vec::new();
        let mut i = lo;
        while i < hi
            invariant
                lo <= i <= hi,
                hi <= src@.len(),
                r@ == src@.subrange(lo as int, i as int),
            decreases hi - i,
        {
            r.push(src[i]);
            i = i + 1;
            assert(r@ =~= src@.subrange(lo as int, i as int));
        }
        r
    }

    /// Whether record `r`, whose first slab is `id`, has the key `key`.
    fn key_match(&self, Ghost(r): Ghost<int>, id: u64, key: &[u8]) -> (m: bool)
        requires
            self.inv(),
            0 <= r < self@.log.len(),
            id == self@.log[r].ids[0],
        ensures
            m == (self@.log[r].key == key@),
    {
        proof {
            self.lemma_record(r);
        }
        let ghost v = self@;
        let ghost b = v.bytes_of(r);
        let ghost rkey = v.log[r].key;
        assert(chain_stored(self.slabs@.slabs, v.log[r].ids, b, v.bps(), 0));
        let first = match self.slabs.get(id) {
            Ok(s) => s,
            Err(_) => {
                proof {
                    assert(false);
                }
                return false;
            },
        };
        proof {
            let nx0 = if 1 < v.log[r].ids.len() {
                v.log[r].ids[1]
            } else {
                SLOT_EMPTY
            };
            assert(first@ == slab_image(b, 0, v.bps(), nx0));
            lemma_first_page(b, v.bps());
            assert(first@.subrange(8, 16) =~= b.subrange(8, 16));
        }
        let len = read_u64_at(first, 8);
        if len != key.len() as u64 {
            return false;
        }
        let klen = key.len();
        let out = self.read_chain(Ghost(r), id, 16 + klen);
        let mut i: usize = 0;
        while i < klen
            invariant
                i <= klen,
                klen == key@.len(),
                klen == rkey.len(),
                0 <= r < self@.log.len(),
                rkey == self@.log[r].key,
                16 + klen <= usize::MAX,
                out@.len() >= 16 + klen,
                out@.len() <= b.len(),
                16 + klen <= b.len(),
                out@ == b.subrange(0, out@.len() as int),
                b.subrange(16, 16 + klen) == rkey,
                forall|t: int| 0 <= t < i ==> key@[t] == rkey[t],
            decreases klen - i,
        {
            assert(out@[16 + i] == b[16 + i]);
            assert(b[16 + i] == b.subrange(16, 16 + klen)[i as int]);
            if out[16 + i] != key[i] {
                assert(rkey[i as int] != key@[i as int]);
                return false;
            }
            i = i + 1;
        }
        assert(key@ =~= rkey);
        true
    }

    /// The key and value of record `r`, whose first slab is `slab_id`.
    pub(crate) fn read_value(&self, Ghost(r): Ghost<int>, slab_id: u64) -> (kv: (Vec<u8>, Vec<u8>))
        requires
            self.inv(),
            0 <= r < self@.log.len(),
            slab_id == self@.log[r].ids[0],
        ensures
            kv.0@ == self@.log[r].key,
            kv.1@ == self@.log[r].value,
    {
        proof {
            self.lemma_record(r);
        }
        let ghost v = self@;
        let ghost b = v.bytes_of(r);
        let out = self.read_chain(Ghost(r), slab_id, usize::MAX);
        assert(out@ =~= b);
        let bps = self.slabs.slab_size() - 8;
        let klen = read_u64_at(out.as_slice(), 8) as usize;
        proof {
            lemma_pad(klen as nat, bps as nat);
        }
        let o = (16 + klen) % bps;
        let pad = if o + 8 <= bps {
            0
        } else {
            bps - o
        };
        let q = 16 + klen + pad;
        assert(q == vlen_pos(klen as nat, bps as nat));
        let vlen = read_u64_at(out.as_slice(), q) as usize;
        let k = Self::copy_range(out.as_slice(), 16, 16 + klen);
        let val = Self::copy_range(out.as_slice(), q + 8, q + 8 + vlen);
        (k, val)
    }

    /// Releases the slabs `ids` of the chain whose data bytes are `b`, in
    /// chain order, walking it from its first slab `head`.
    fn release_chain(slabs: &mut SlabAllocator, Ghost(ids): Ghost<Seq<u64>>, Ghost(b): Ghost<Seq<u8>>, bps: usize, head: u64)
        requires
            old(slabs).wf(),
            old(slabs)@.slab_size == bps + 8,
            bps >= 16,
            ids.len() >= 1,
            head == ids[0],
            b.len() == ids.len() * bps,
            ids.no_duplicates(),
            forall|t: int|
                0 <= t < ids.len() ==> #[trigger] chain_stored(old(slabs)@.slabs, ids, b, bps as nat, t),
            forall|t: int| 0 <= t < ids.len() ==> !#[trigger] old(slabs)@.free.contains(ids[t]),
        ensures
            final(slabs).wf(),
            final(slabs)@ == (SlabsView { free: old(slabs)@.free + ids, ..old(slabs)@ }),
    {
        let ghost s0 = slabs@;
        let ghost n = ids.len();
        let mut cur = head;
        let ghost mut j: int = 0;
        assert(s0.free + ids.subrange(0, 0) =~= s0.free);
        loop
            invariant
                s0 == old(slabs)@,
                slabs.wf(),
                s0.slab_size == bps + 8,
                bps >= 16,
                n == ids.len(),
                ids.no_duplicates(),
                forall|t: int| 0 <= t < n ==> #[trigger] chain_stored(s0.slabs, ids, b, bps as nat, t),
                forall|t: int| 0 <= t < n ==> !#[trigger] s0.free.contains(ids[t]),
                b.len() == n * bps,
                0 <= j < n,
                cur == ids[j],
                slabs@.slabs == s0.slabs,
                slabs@.slab_size == s0.slab_size,
                slabs@.slab_count == s0.slab_count,
                slabs@.free == s0.free + ids.subrange(0, j),
            decreases n - j,
        {
            let ghost nx = if j + 1 < n {
                ids[j + 1]
            } else {
                SLOT_EMPTY
            };
            proof {
                lemma_be_u64_roundtrip(nx);
                assert((j + 1) * bps <= n * bps) by (nonlinear_arith)
                    requires
                        j < n,
                        bps >= 0,
                ;
                assert(j * bps + bps == (j + 1) * bps) by (nonlinear_arith);
            }
            assert(chain_stored(s0.slabs, ids, b, bps as nat, j));
            let slab = match slabs.get(cur) {
                Ok(s) => s,
                Err(_) => {
                    proof {
                        assert(false);
                    }
                    return;
                },
            };
            assert(slab@.subrange(bps as int, bps + 8) =~= be_u64(nx));
            let next = read_u64_at(slab, bps);
            proof {
                let f = slabs@.free;
                if f.contains(cur) {
                    let k = choose|k: int| 0 <= k < f.len() && f[k] == cur;
                    if k < s0.free.len() {
                        assert(s0.free[k] == ids[j]);
                        assert(s0.free.contains(ids[j]));
                    } else {
                        assert(f[k] == ids[k - s0.free.len()]);
                    }
                }
            }
            let _ = slabs.free(cur);
            proof {
                assert(ids.subrange(0, j).push(ids[j]) =~= ids.subrange(0, j + 1));
                assert(s0.free + ids.subrange(0, j + 1) =~= (s0.free + ids.subrange(0, j)).push(cur));
            }
            if next == SLOT_EMPTY {
                proof {
                    if j + 1 < n {
                        assert(chain_stored(s0.slabs, ids, b, bps as nat, j + 1));
                    }
                    assert(ids.subrange(0, j + 1) =~= ids);
                    assert(slabs@ == (SlabsView { free: s0.free + ids, ..s0 }));
                }
                return;
            }
            proof {
                if j + 1 >= n {
                    assert(false);
                }
                assert(chain_stored(s0.slabs, ids, b, bps as nat, j + 1));
                j = j + 1;
            }
            cur = next;
        }
    }

    /// Releases the slabs of record `r`, whose first slab is `slab_id`, in
    /// chain order. Nothing else changes; the table's invariant no longer
    /// holds until the record is unlinked.
    fn free_tail(&mut self, Ghost(r): Ghost<int>, slab_id: u64)
        requires
            old(self).inv(),
            0 <= r < old(self)@.log.len(),
            slab_id == old(self)@.log[r].ids[0],
        ensures
            final(self).slabs.wf(),
            final(self).slabs@ == (SlabsView {
                free: old(self).slabs@.free + old(self)@.log[r].ids,
                ..old(self).slabs@
            }),
            final(self).entry_array == old(self).entry_array,
            final(self).first_entry == old(self).first_entry,
            final(self).log == old(self).log,
            final(self).slot_rec == old(self).slot_rec,
            final(self).rec_slot == old(self).rec_slot,
            final(self).owner == old(self).owner,
    {
        proof {
            self.lemma_record_pages(r);
            self.lemma_free_unowned();
        }
        let ghost v = self@;
        let ghost ids = v.log[r].ids;
        proof {
            assert forall|i: int, j: int| 0 <= i < ids.len() && 0 <= j < ids.len() && i != j implies ids[i] != ids[j] by {
                assert(self.owns(ids[i]) == Some((r, i)));
                assert(self.owns(ids[j]) == Some((r, j)));
            }
            assert forall|t: int| 0 <= t < ids.len() implies !#[trigger] self.slabs@.free.contains(ids[t]) by {
                if self.slabs@.free.contains(ids[t]) {
                    let k = choose|k: int| 0 <= k < v.free.len() && v.free[k] == ids[t];
                    assert(self.owns(v.free[k]) is None);
                    assert(self.owns(ids[t]) == Some((r, t)));
                }
            }
        }
        let bps = self.slabs.slab_size() - 8;
        Self::release_chain(&mut self.slabs, Ghost(ids), Ghost(v.bytes_of(r)), bps, slab_id);
    }

    /// What the invariant says of slot `s`.
    proof fn lemma_slot(&self, s: int)
        requires
            self.inv(),
            0 <= s < self@.slots.len(),
        ensures
            self.entry_array@.len() == self@.slots.len(),
            match self@.slots[s] {
                None => self.entry_array@[s] == SLOT_EMPTY,
                Some(r) => {
                    &&& 0 <= r < self@.log.len()
                    &&& self.entry_array@[s] == self@.log[r].ids[0]
                    &&& self.entry_array@[s] < SLOT_DELETED
                },
            },
    {
        reveal(StaticHashImpl::inv);
        assert(self.entry_array@.len() == self@.slots.len());
        match self@.slots[s] {
            None => {},
            Some(r) => {
                self.lemma_record(r);
                assert(chain_stored(self.slabs@.slabs, self@.log[r].ids, self@.bytes_of(r), self@.bps(), 0));
            },
        }
    }

    /// The slot a lookup of `key`, probing from `start`, finds the key in.
    pub fn find_entry(&self, key: &[u8], start: usize) -> (r: Option<usize>)
        requires
            self.inv(),
            self@.slots.len() > 0,
            start < self@.slots.len(),
        ensures
            r matches Some(s) ==> self@.find_slot(key@, start as int) == Some(s as int)
                && self@.slots[s as int] is Some,
            r is None ==> self@.lookup(key@, start as int) is None,
    {
        proof {
            reveal(StaticHashImpl::inv);
        }
        let len = self.entry_array.len();
        let mut entry = start;
        let mut i: usize = 0;
        proof {
            vstd::arithmetic::div_mod::lemma_small_mod(start as nat, len as nat);
        }
        loop
            invariant
                self.inv(),
                len == self@.slots.len(),
                len > 0,
                start < len,
                i <= len,
                entry == (start + i) % (len as int),
                self@.find_slot(key@, start as int) == probe(self@.slots, self@.log, start as int, key@, i as nat),
            decreases len - i,
        {
            if i >= len {
                return None;
            }
            proof {
                self.lemma_slot(entry as int);
            }
            let id = self.entry_array[entry];
            if id == SLOT_EMPTY {
                return None;
            }
            if id != SLOT_DELETED {
                let ghost r = self@.slots[entry as int].unwrap();
                if self.key_match(Ghost(r), id, key) {
                    return Some(entry);
                }
            }
            proof {
                vstd::arithmetic::div_mod::lemma_add_mod_noop_right(1, start + i, len as int);
            }
            entry = (entry + 1) % len;
            i = i + 1;
        }
    }

    /// The slot an insert of `key`, probing from `start`, writes to: the
    /// first that is empty or holds the key.
    fn find_insert_slot(&self, key: &[u8], start: usize) -> (r: Option<usize>)
        requires
            self.inv(),
            self@.slots.len() > 0,
            start < self@.slots.len(),
        ensures
            r matches Some(s) ==> self@.find_slot(key@, start as int) == Some(s as int),
            r is None ==> self@.find_slot(key@, start as int) is None,
    {
        let len = self.entry_array.len();
        proof {
            self.lemma_slot(0);
        }
        let mut entry = start;
        let mut i: usize = 0;
        proof {
            vstd::arithmetic::div_mod::lemma_small_mod(start as nat, len as nat);
        }
        loop
            invariant
                self.inv(),
                len == self@.slots.len(),
                len > 0,
                start < len,
                i <= len,
                entry == (start + i) % (len as int),
                self@.find_slot(key@, start as int) == probe(self@.slots, self@.log, start as int, key@, i as nat),
            decreases len - i,
        {
            if i >= len {
                return None;
            }
            proof {
                self.lemma_slot(entry as int);
            }
            let id = self.entry_array[entry];
            if id == SLOT_EMPTY || id == SLOT_DELETED {
                return Some(entry);
            }
            let ghost r = self@.slots[entry as int].unwrap();
            if self.key_match(Ghost(r), id, key) {
                return Some(entry);
            }
            proof {
                vstd::arithmetic::div_mod::lemma_add_mod_noop_right(1, start + i, len as int);
            }
            entry = (entry + 1) % len;
            i = i + 1;
        }
    }

    /// Takes `k` slabs from the store.
    fn alloc_pages(slabs: &mut SlabAllocator, k: usize) -> (ids: Vec<u64>)
        requires
            old(slabs).wf(),
            old(slabs).free_slabs() >= k,
        ensures
            final(slabs).wf(),
            ids@ == old(slabs)@.next_ids(k as nat),
            final(slabs)@ == old(slabs)@.after_alloc(k as nat),
    {
        let ghost pre = slabs@;
        let mut ids: Vec<u64> = Vec::new();
        let mut j: usize = 0;
        proof {
            lemma_alloc_step(pre, 0);
        }
        while j < k
            invariant
                j <= k,
                slabs.wf(),
                pre.slabs.len() <= pre.slab_count,
                pre.available() >= k,
                slabs@ == pre.after_alloc(j as nat),
                ids@ == pre.next_ids(j as nat),
            decreases k - j,
        {
            proof {
                lemma_alloc_step(pre, j as nat);
            }
            let id = match slabs.allocate() {
                Ok(id) => id,
                Err(_) => {
                    proof {
                        assert(false);
                    }
                    return ids;
                },
            };
            ids.push(id);
            j = j + 1;
        }
        ids
    }

    /// Writes page `t` of `bytes`, followed by the id `ids[t + 1]` (or
    /// `u64::MAX` on the last page), into slab `ids[t]`, for every `t`.
    fn write_pages(slabs: &mut SlabAllocator, ids: &Vec<u64>, bytes: &Vec<u8>, bps: usize)
        requires
            old(slabs).wf(),
            old(slabs)@.slab_size == bps + 8,
            bps >= 16,
            ids@.len() >= 1,
            bytes@.len() == ids@.len() * bps,
            ids@.no_duplicates(),
            forall|t: int| 0 <= t < ids@.len() ==> #[trigger] ids@[t] < old(slabs)@.slabs.len(),
        ensures
            final(slabs).wf(),
            final(slabs)@.slab_size == old(slabs)@.slab_size,
            final(slabs)@.slab_count == old(slabs)@.slab_count,
            final(slabs)@.free == old(slabs)@.free,
            final(slabs)@.slabs.len() == old(slabs)@.slabs.len(),
            forall|t: int|
                0 <= t < ids@.len() ==> #[trigger] chain_stored(final(slabs)@.slabs, ids@, bytes@, bps as nat, t),
            forall|id: int|
                0 <= id < old(slabs)@.slabs.len() && !ids@.contains(id as u64) ==> #[trigger] final(slabs)@.slabs[id]
                    == old(slabs)@.slabs[id],
    {
        let ghost pre = slabs@;
        let n = ids.len();
        let blen = bytes.len();
        let mut j: usize = 0;
        while j < n
            invariant
                j <= n,
                n == ids@.len(),
                n >= 1,
                bps >= 16,
                blen == bytes@.len(),
                bytes@.len() == n * bps,
                ids@.no_duplicates(),
                forall|t: int| 0 <= t < ids@.len() ==> #[trigger] ids@[t] < pre.slabs.len(),
                slabs.wf(),
                slabs@.slab_size == pre.slab_size,
                slabs@.slab_size == bps + 8,
                slabs@.slab_count == pre.slab_count,
                slabs@.free == pre.free,
                slabs@.slabs.len() == pre.slabs.len(),
                forall|t: int| 0 <= t < j ==> #[trigger] chain_stored(slabs@.slabs, ids@, bytes@, bps as nat, t),
                forall|id: int|
                    0 <= id < pre.slabs.len() && !ids@.subrange(0, j as int).contains(id as u64)
                        ==> #[trigger] slabs@.slabs[id] == pre.slabs[id],
            decreases n - j,
        {
            proof {
                assert((j + 1) * bps <= n * bps) by (nonlinear_arith)
                    requires
                        j < n,
                        bps >= 0,
                ;
                assert(j * bps + bps == (j + 1) * bps) by (nonlinear_arith);
            }
            let next = if j + 1 < n {
                ids[j + 1]
            } else {
                SLOT_EMPTY
            };
            let mut page = Self::copy_range(bytes.as_slice(), j * bps, j * bps + bps);
            u64_to_be(next, &mut page);
            assert(page@ == slab_image(bytes@, j as nat, bps as nat, next));
            let ghost before = slabs@.slabs;
            let _ = slabs.write(ids[j], page.as_slice());
            proof {
                assert forall|t: int| 0 <= t < j + 1 implies #[trigger] chain_stored(
                    slabs@.slabs,
                    ids@,
                    bytes@,
                    bps as nat,
                    t,
                ) by {
                    if t < j {
                        assert(chain_stored(before, ids@, bytes@, bps as nat, t));
                        assert(ids@[t] != ids@[j as int]);
                    }
                }
                assert forall|id: int|
                    0 <= id < pre.slabs.len() && !ids@.subrange(0, j + 1).contains(
                        id as u64,
                    ) implies #[trigger] slabs@.slabs[id] == pre.slabs[id] by {
                    assert(ids@.subrange(0, j + 1)[j as int] == ids@[j as int]);
                    if ids@.subrange(0, j as int).contains(id as u64) {
                        let k = choose|k: int|
                            0 <= k < j && ids@.subrange(0, j as int)[k] == id as u64;
                        assert(ids@.subrange(0, j + 1)[k] == id as u64);
                    }
                    assert(id != ids@[j as int]);
                }
            }
            j = j + 1;
        }
        proof {
            assert(ids@.subrange(0, n as int) =~= ids@);
        }
    }

    /// A written record leaves the table's invariant holding: `post` is
    /// `pre` with a new record `target`, the newest, written on slabs `ids`
    /// and held by the empty slot `slot`.
    #[verifier::rlimit(100)]
    proof fn lemma_after_write(
        pre: &Self,
        post: &Self,
        target: int,
        slot: int,
        key: Seq<u8>,
        value: Seq<u8>,
        ids: Seq<u64>,
        bytes: Seq<u8>,
    )
        requires
            pre.inv(),
            post.slabs.wf(),
            post.slabs@.slab_size == pre.slabs@.slab_size,
            post.slabs@.slab_count == pre.slabs@.slab_count,
            post.slabs@.slabs.len() >= pre.slabs@.slabs.len(),
            pre@.slab_size >= 24,
            0 <= slot < pre@.slots.len(),
            pre@.slots[slot] is None,
            target == pre@.log.len(),
            post@.log == pre@.log.push(Record { key, value, ids }),
            post@.slots == pre@.slots.update(slot, Some(target)),
            post.rec_slot@ == pre.rec_slot@.push(slot),
            post.entry_array@ == pre.entry_array@.update(slot, ids[0]),
            post.first_entry == ids[0],
            bytes == record_bytes(pre@.first_entry(), key, value, pre@.bps()),
            ids.len() == pre@.pages_for(key, value),
            record_fits(key, value, pre@.slab_size),
            ids.no_duplicates(),
            forall|t: int|
                0 <= t < ids.len() ==> #[trigger] chain_stored(post.slabs@.slabs, ids, bytes, pre@.bps(), t),
            forall|id: int|
                0 <= id < pre.slabs@.slabs.len() && !ids.contains(id as u64) ==> #[trigger] post.slabs@.slabs[id]
                    == pre.slabs@.slabs[id],
            forall|t: int| 0 <= t < ids.len() ==> #[trigger] pre.claimable(ids[t], target),
            forall|k: int|
                0 <= k < post@.free.len() ==> {
                    &&& #[trigger] post@.free[k] < pre@.used
                    &&& !ids.contains(post@.free[k])
                    &&& pre.owns(post@.free[k]) is None
                },
            post.owner@ == own_after(pre.owner@, post.slabs@.slabs.len(), target, ids),
        ensures
            post.inv(),
    {
        reveal(StaticHashImpl::inv);
        let pv = pre@;
        let qv = post@;
        assert(qv.bps() == pv.bps());
        assert(qv.log.len() > 0);
        assert forall|r: int| 0 <= r < qv.log.len() && r != target implies #[trigger] qv.link(r) == pv.link(r) by {
            if r > 0 {
                assert(qv.log[r - 1] == pv.log[r - 1]);
            }
        }
        assert(qv.link(target) == pv.first_entry()) by {
            if target > 0 {
                assert(qv.log[target - 1] == pv.log.last());
            }
        }
        assert(qv.bytes_of(target) == bytes);
        assert forall|t: int| 0 <= t < ids.len() implies ids.index_of(#[trigger] ids[t]) == t by {
            let i = ids.index_of(ids[t]);
            assert(ids.contains(ids[t]));
            assert(0 <= i < ids.len() && ids[i] == ids[t]);
        }
        assert forall|r: int| 0 <= r < qv.log.len() implies #[trigger] post.record_stored(r) by {
            if r == target {
                assert(qv.log[r].ids == ids);
                assert forall|j: int| 0 <= j < ids.len() implies #[trigger] post.owns(qv.log[r].ids[j]) == Some((r, j)) by {
                    assert(chain_stored(post.slabs@.slabs, ids, bytes, pv.bps(), j));
                    assert(ids.contains(ids[j]));
                }
                assert forall|j: int| 0 <= j < ids.len() implies #[trigger] chain_stored(
                    post.slabs@.slabs,
                    qv.log[r].ids,
                    qv.bytes_of(r),
                    qv.bps(),
                    j,
                ) by {
                    assert(chain_stored(post.slabs@.slabs, ids, bytes, pv.bps(), j));
                }
            } else {
                assert(r < pv.log.len());
                assert(qv.log[r] == pv.log[r]);
                assert(pre.record_stored(r));
                assert(qv.bytes_of(r) == pv.bytes_of(r));
                let rids = pv.log[r].ids;
                assert forall|j: int| 0 <= j < rids.len() implies !ids.contains(#[trigger] rids[j])
                    && rids[j] < pv.used by {
                    assert(chain_stored(pre.slabs@.slabs, rids, pv.bytes_of(r), pv.bps(), j));
                    assert(pre.owns(rids[j]) == Some((r, j)));
                    if ids.contains(rids[j]) {
                        let t = choose|t: int| 0 <= t < ids.len() && ids[t] == rids[j];
                        assert(pre.claimable(ids[t], target));
                    }
                }
                assert forall|j: int| 0 <= j < rids.len() implies #[trigger] post.owns(qv.log[r].ids[j]) == Some((r, j)) by {
                    assert(!ids.contains(rids[j]));
                    assert(pre.owns(rids[j]) == Some((r, j)));
                }
                assert forall|j: int| 0 <= j < rids.len() implies #[trigger] chain_stored(
                    post.slabs@.slabs,
                    qv.log[r].ids,
                    qv.bytes_of(r),
                    qv.bps(),
                    j,
                ) by {
                    assert(chain_stored(pre.slabs@.slabs, rids, pv.bytes_of(r), pv.bps(), j));
                    assert(!ids.contains(rids[j]));
                }
                assert(post.rec_slot@[r] == pre.rec_slot@[r]);
                assert(pre.rec_slot@[r] != slot);
            }
        }
        assert forall|s: int| 0 <= s < qv.slots.len() implies match #[trigger] qv.slots[s] {
            None => post.entry_array@[s] == SLOT_EMPTY,
            Some(r) => 0 <= r < qv.log.len() && post.entry_array@[s] == qv.log[r].ids[0]
                && post.rec_slot@[r] == s,
        } by {
            if s != slot {
                assert(qv.slots[s] == pv.slots[s]);
                match pv.slots[s] {
                    None => {},
                    Some(r) => {
                        assert(qv.log[r] == pv.log[r]);
                    },
                }
            }
        }
        assert forall|k: int| 0 <= k < qv.free.len() implies #[trigger] post.owns(qv.free[k]) is None by {
            let x = qv.free[k];
            assert(x < pv.used);
            assert(!ids.contains(x));
        }
    }

    /// The slabs that the next `n` allocations hand out for a new record are
    /// distinct, unused and created, and the released slabs left after them
    /// are unused and not among them.
    #[verifier::spinoff_prover]
    proof fn lemma_fresh_ids(pre: &Self, n: nat)
        requires
            pre.inv(),
            n <= pre@.free(),
        ensures
            pre.slabs@.next_ids(n).no_duplicates(),
            forall|t: int|
                0 <= t < n ==> #[trigger] pre.claimable(pre.slabs@.next_ids(n)[t], pre@.log.len() as int)
                    && pre.slabs@.next_ids(n)[t] < pre.slabs@.after_alloc(n).slabs.len(),
            forall|k: int|
                0 <= k < pre.slabs@.after_alloc(n).free.len() ==> {
                    &&& #[trigger] pre.slabs@.after_alloc(n).free[k] < pre@.used
                    &&& !pre.slabs@.next_ids(n).contains(pre.slabs@.after_alloc(n).free[k])
                    &&& pre.owns(pre.slabs@.after_alloc(n).free[k]) is None
                },
    {
        pre.lemma_free_unowned();
        let v = pre.slabs@;
        lemma_next_ids_distinct(v, n);
        let ids = v.next_ids(n);
        let fl = v.free.len() as int;
        assert forall|t: int| 0 <= t < n implies #[trigger] pre.claimable(ids[t], pre@.log.len() as int)
            && ids[t] < v.after_alloc(n).slabs.len() by {
            if t < fl {
                assert(pre.owns(v.free[fl - 1 - t]) is None);
                assert(v.free[fl - 1 - t] < v.slabs.len());
            }
        }
        let f = v.after_alloc(n).free;
        assert forall|k: int| 0 <= k < f.len() implies {
            &&& #[trigger] f[k] < pre@.used
            &&& !ids.contains(f[k])
            &&& pre.owns(f[k]) is None
        } by {
            assert(f[k] == v.free[k]);
            assert(pre.owns(v.free[k]) is None);
            if ids.contains(f[k]) {
                let t = choose|t: int| 0 <= t < ids.len() && ids[t] == f[k];
                if t < fl {
                    assert(v.free[fl - 1 - t] == v.free[k]);
                }
            }
        }
    }

    /// Writes a new record for `key` and `value` into the empty slot `slot`.
    #[verifier::rlimit(100)]
    #[verifier::spinoff_prover]
    fn insert_new(&mut self, slot: usize, key: &[u8], value: &[u8], n: usize)
        requires
            old(self).inv(),
            slot < old(self)@.slots.len(),
            old(self)@.slots[slot as int] is None,
            old(self)@.slab_size >= 24,
            record_fits(key@, value@, old(self)@.slab_size),
            n == old(self)@.pages_for(key@, value@),
            old(self)@.free() >= n,
        ensures
            final(self).inv(),
            final(self)@ == old(self)@.after_insert(slot as int, key@, value@),
            forall|id: int|
                0 <= id < old(self)@.used && !final(self)@.log[old(self)@.log.len() as int].ids.contains(
                    id as u64,
                ) ==> #[trigger] final(self).slab_contents(id) == old(self).slab_contents(id),
    {
        proof {
            self.lemma_free_unowned();
        }
        let ghost pre = *self;
        let bps = self.slabs.slab_size() - 8;
        let bytes = encode_record(self.first_entry, key, value, bps);
        assert(bytes@.len() == n * bps && n >= 1) by {
            lemma_record_roundtrip(pre.first_entry, key@, value@, bps as nat);
        }
        proof {
            Self::lemma_fresh_ids(&pre, n as nat);
        }
        let ids = Self::alloc_pages(&mut self.slabs, n);
        let ghost mid = self.slabs@;
        assert forall|id: int| 0 <= id < pre@.used implies #[trigger] mid.slabs[id] == pre.slabs@.slabs[id] by {}
        Self::write_pages(&mut self.slabs, &ids, &bytes, bps);
        let head = ids[0];
        self.entry_array.set(slot, head);
        self.first_entry = head;
        let ghost target = pre@.log.len() as int;
        proof {
            self.log@ = pre.log@.push(Record { key: key@, value: value@, ids: ids@ });
            self.slot_rec@ = pre.slot_rec@.update(slot as int, Some(target));
            self.rec_slot@ = pre.rec_slot@.push(slot as int);
            self.owner@ = own_after(pre.owner@, self.slabs@.slabs.len(), target, ids@);
            Self::lemma_after_write(&pre, self, target, slot as int, key@, value@, ids@, bytes@);
            assert(self@.log =~= pre@.after_insert(slot as int, key@, value@).log);
            assert(self@ == pre@.after_insert(slot as int, key@, value@));
        }
    }

    /// Writes `link` over the first 8 bytes of slab `id`.
    fn set_link(slabs: &mut SlabAllocator, id: u64, link: u64)
        requires
            old(slabs).wf(),
            id < old(slabs)@.slabs.len(),
            old(slabs)@.slab_size >= 8,
        ensures
            final(slabs).wf(),
            final(slabs)@ == (SlabsView {
                slabs: old(slabs)@.slabs.update(
                    id as int,
                    be_u64(link) + old(slabs)@.slabs[id as int].subrange(8, old(slabs)@.slab_size as int),
                ),
                ..old(slabs)@
            }),
    {
        let ghost pre = slabs@;
        let mut v: Vec<u8> = Vec::new();
        u64_to_be(link, &mut v);
        proof {
            lemma_be_u64_roundtrip(link);
        }
        let old_slab = match slabs.get(id) {
            Ok(s) => s,
            Err(_) => {
                proof {
                    assert(false);
                }
                return;
            },
        };
        let size = old_slab.len();
        let ghost before = v@;
        let mut i: usize = 8;
        while i < size
            invariant
                8 <= i <= size,
                size == old_slab@.len(),
                old_slab@ == pre.slabs[id as int],
                v@ == before + old_slab@.subrange(8, i as int),
            decreases size - i,
        {
            v.push(old_slab[i]);
            i = i + 1;
            assert(v@ =~= before + old_slab@.subrange(8, i as int));
        }
        let _ = slabs.write(id, v.as_slice());
        proof {
            assert(slabs@.slabs =~= pre.slabs.update(
                id as int,
                be_u64(link) + pre.slabs[id as int].subrange(8, pre.slab_size as int),
            ));
        }
    }

    /// The first slab of record `r + 1`, the record stored right after
    /// record `r`, whose first slab is `head`: the one whose link is `head`.
    fn find_newer(&self, Ghost(r): Ghost<int>, head: u64) -> (n: u64)
        requires
            self.inv(),
            0 <= r,
            r + 1 < self@.log.len(),
            head == self@.log[r].ids[0],
        ensures
            n == self@.log[r + 1].ids[0],
    {
        proof {
            self.lemma_free_unowned();
        }
        let mut cur = self.first_entry;
        let ghost mut pos: int = self@.log.len() - 1;
        loop
            invariant
                self.inv(),
                r < pos < self@.log.len(),
                0 <= r,
                head == self@.log[r].ids[0],
                cur == self@.log[pos].ids[0],
            decreases pos,
        {
            let l = self.read_link(Ghost(pos), cur);
            if l == head {
                proof {
                    self.lemma_heads_distinct(pos - 1, r);
                }
                return cur;
            }
            proof {
                pos = pos - 1;
            }
            cur = l;
        }
    }

    /// Per slab id, the record and page that use it once record `r`, whose
    /// slabs are `ids`, is removed.
    spec fn owner_removed(owner: Seq<Option<(int, int)>>, r: int, ids: Seq<u64>) -> Seq<Option<(int, int)>> {
        Seq::new(
            owner.len(),
            |id: int|
                if ids.contains(id as u64) {
                    None
                } else {
                    match owner[id] {
                        Some(p) => Some((if p.0 > r {
                            p.0 - 1
                        } else {
                            p.0
                        }, p.1)),
                        None => None,
                    }
                },
        )
    }

    /// The table's invariant holds once record `r`, held by slot `slot`, is
    /// removed from `pre`: its slabs released, the record after it relinked
    /// to the record before it.
    #[verifier::rlimit(100)]
    #[verifier::spinoff_prover]
    proof fn lemma_after_remove(pre: &Self, post: &Self, slot: int, r: int, link_r: u64)
        requires
            pre.inv(),
            0 <= slot < pre@.slots.len(),
            pre@.slots[slot] == Some(r),
            0 <= r < pre@.log.len(),
            link_r == pre@.link(r),
            post.slabs.wf(),
            post.slabs@.slab_size == pre.slabs@.slab_size,
            post.slabs@.slab_count == pre.slabs@.slab_count,
            post.slabs@.free == pre.slabs@.free + pre@.log[r].ids,
            r + 1 == pre@.log.len() ==> post.slabs@.slabs == pre.slabs@.slabs,
            r + 1 < pre@.log.len() ==> post.slabs@.slabs == pre.slabs@.slabs.update(
                pre@.log[r + 1].ids[0] as int,
                be_u64(link_r) + pre.slabs@.slabs[pre@.log[r + 1].ids[0] as int].subrange(
                    8,
                    pre.slabs@.slab_size as int,
                ),
            ),
            post@.log == pre@.log.remove(r),
            post@.slots == pre@.after_remove(slot).slots,
            post.rec_slot@ == pre.rec_slot@.remove(r),
            post.entry_array@ == pre.entry_array@.update(slot, SLOT_EMPTY),
            post.first_entry == if r + 1 == pre@.log.len() {
                link_r
            } else {
                pre.first_entry
            },
            post.owner@ == Self::owner_removed(pre.owner@, r, pre@.log[r].ids),
        ensures
            post.inv(),
    {
        reveal(StaticHashImpl::inv);
        let pv = pre@;
        let qv = post@;
        let ids_r = pv.log[r].ids;
        pv.log.remove_ensures(r);
        if r + 1 < pv.log.len() {
            pre.lemma_record_pages(r + 1);
            assert(chain_stored(
                pre.slabs@.slabs,
                pv.log[r + 1].ids,
                pv.bytes_of(r + 1),
                pv.bps(),
                0,
            ));
        }
        assert(post.slabs@.slabs.len() == pre.slabs@.slabs.len());
        assert(post.owner@.len() == qv.used);
        assert(pre.record_stored(r));
        assert(qv.bps() == pv.bps());
        // The slabs of record r are its own.
        assert forall|x: int, j: int|
            0 <= x < pv.log.len() && x != r && 0 <= j < pv.log[x].ids.len() implies !ids_r.contains(
            #[trigger] pv.log[x].ids[j]) by {
            assert(pre.record_stored(x));
            assert(pre.owns(pv.log[x].ids[j]) == Some((x, j)));
            if ids_r.contains(pv.log[x].ids[j]) {
                let t = choose|t: int| 0 <= t < ids_r.len() && ids_r[t] == pv.log[x].ids[j];
                assert(pre.owns(ids_r[t]) == Some((r, t)));
            }
        }
        assert forall|i: int| 0 <= i < qv.log.len() implies #[trigger] post.record_stored(i) by {
            let x = if i < r {
                i
            } else {
                i + 1
            };
            assert(qv.log[i] == pv.log[x]);
            assert(pre.record_stored(x));
            let xids = pv.log[x].ids;
            // Links: only the record right after r gets a new one.
            if i > 0 {
                if i < r {
                    assert(qv.log[i - 1] == pv.log[i - 1]);
                } else if i == r {
                    assert(qv.log[i - 1] == pv.log[r - 1]);
                } else {
                    assert(qv.log[i - 1] == pv.log[i]);
                }
            }
            assert(qv.link(i) == if i == r {
                link_r
            } else {
                pv.link(x)
            });
            assert forall|j: int| 0 <= j < xids.len() implies #[trigger] post.owns(qv.log[i].ids[j]) == Some(
                (i, j),
            ) by {
                assert(pre.owns(xids[j]) == Some((x, j)));
                assert(chain_stored(pre.slabs@.slabs, xids, pv.bytes_of(x), pv.bps(), j));
                assert(!ids_r.contains(xids[j]));
            }
            if i == r {
                let b1 = pv.bytes_of(x);
                let b2 = qv.bytes_of(i);
                lemma_relink(pv.link(x), link_r, pv.log[x].key, pv.log[x].value, pv.bps());
                assert(b2 == be_u64(link_r) + b1.subrange(8, b1.len() as int));
                lemma_be_u64_roundtrip(link_r);
                assert forall|j: int| 0 <= j < xids.len() implies #[trigger] chain_stored(
                    post.slabs@.slabs,
                    qv.log[i].ids,
                    qv.bytes_of(i),
                    qv.bps(),
                    j,
                ) by {
                    assert(chain_stored(pre.slabs@.slabs, xids, b1, pv.bps(), j));
                    assert(pre.owns(xids[j]) == Some((x, j)));
                    assert(pre.owns(xids[0]) == Some((x, 0int)));
                    let bps = pv.bps();
                    assert(b1.len() == xids.len() * bps) by {
                        pre.lemma_record(x);
                    }
                    assert((j + 1) * bps <= xids.len() * bps) by (nonlinear_arith)
                        requires
                            j < xids.len(),
                    ;
                    assert(j * bps + bps == (j + 1) * bps) by (nonlinear_arith);
                    let nx = if j + 1 < xids.len() {
                        xids[j + 1]
                    } else {
                        SLOT_EMPTY
                    };
                    lemma_be_u64_roundtrip(nx);
                    assert(pre.slabs@.slab_size == bps + 8);
                    if j == 0 {
                        lemma_first_page(b1, bps);
                        lemma_first_page(b2, bps);
                        let p1 = page_data(b1, 0, bps);
                        let p2 = page_data(b2, 0, bps);
                        assert(p2 =~= be_u64(link_r) + p1.subrange(8, bps as int));
                        let old_slab = pre.slabs@.slabs[xids[0] as int];
                        assert(old_slab == p1 + be_u64(nx));
                        assert(post.slabs@.slabs[xids[0] as int] == be_u64(link_r) + old_slab.subrange(
                            8,
                            bps + 8int,
                        ));
                        assert(be_u64(link_r) + old_slab.subrange(8, bps + 8int) =~= p2 + be_u64(nx));
                    } else {
                        assert(j * bps >= bps) by (nonlinear_arith)
                            requires
                                j >= 1,
                        ;
                        assert(xids[j] != xids[0]);
                        assert(r + 1 < pv.log.len());
                        assert(xids[0] == pv.log[r + 1].ids[0]);
                        assert(xids[j] < pre.slabs@.slabs.len());
                        let upd = be_u64(link_r) + pre.slabs@.slabs[xids[0] as int].subrange(
                            8,
                            pre.slabs@.slab_size as int,
                        );
                        assert(post.slabs@.slabs == pre.slabs@.slabs.update(xids[0] as int, upd));
                        assert(xids[j] as int != xids[0] as int);
                        assert(chain_stored(pre.slabs@.slabs, xids, b1, pv.bps(), 0));
                        assert(pre.slabs@.slabs.update(xids[0] as int, upd)[xids[j] as int]
                            == pre.slabs@.slabs[xids[j] as int]);
                        assert(post.slabs@.slabs[xids[j] as int] == pre.slabs@.slabs[xids[j] as int]);
                        assert(page_data(b2, j as nat, bps) =~= page_data(b1, j as nat, bps));
                    }
                }
            } else {
                assert(qv.bytes_of(i) == pv.bytes_of(x));
                assert forall|j: int| 0 <= j < xids.len() implies #[trigger] chain_stored(
                    post.slabs@.slabs,
                    qv.log[i].ids,
                    qv.bytes_of(i),
                    qv.bps(),
                    j,
                ) by {
                    assert(chain_stored(pre.slabs@.slabs, xids, pv.bytes_of(x), pv.bps(), j));
                    assert(pre.owns(xids[j]) == Some((x, j)));
                    if r + 1 < pv.log.len() {
                        let h = pv.log[r + 1].ids[0];
                        pre.lemma_record_pages(r + 1);
                        assert(pre.owns(pv.log[r + 1].ids[0]) == Some((r + 1, 0int)));
                        assert(xids[j] != h);
                        assert(xids[j] < pre.slabs@.slabs.len());
                        let upd = be_u64(link_r) + pre.slabs@.slabs[h as int].subrange(
                            8,
                            pre.slabs@.slab_size as int,
                        );
                        assert(post.slabs@.slabs == pre.slabs@.slabs.update(h as int, upd));
                        assert(xids[j] as int != h as int);
                        assert(chain_stored(
                            pre.slabs@.slabs,
                            pv.log[r + 1].ids,
                            pv.bytes_of(r + 1),
                            pv.bps(),
                            0,
                        ));
                        assert(pre.slabs@.slabs.update(h as int, upd)[xids[j] as int]
                            == pre.slabs@.slabs[xids[j] as int]);
                        assert(post.slabs@.slabs[xids[j] as int] == pre.slabs@.slabs[xids[j] as int]);
                    }
                    let nx = if j + 1 < xids.len() {
                        xids[j + 1]
                    } else {
                        SLOT_EMPTY
                    };
                    assert(qv.log[i].ids == xids);
                }
            }
            let t = pre.rec_slot@[x];
            assert(post.rec_slot@[i] == t);
            assert(t != slot);
            assert(qv.slots[t] == shift(pv.slots[t], r));
        }
        assert forall|s: int| 0 <= s < qv.slots.len() implies match #[trigger] qv.slots[s] {
            None => post.entry_array@[s] == SLOT_EMPTY,
            Some(i) => 0 <= i < qv.log.len() && post.entry_array@[s] == qv.log[i].ids[0]
                && post.rec_slot@[i] == s,
        } by {
            if s != slot {
                match pv.slots[s] {
                    None => {},
                    Some(x) => {
                        assert(x != r);
                        if x > r {
                            assert(qv.log[x - 1] == pv.log[x]);
                            assert(post.rec_slot@[x - 1] == pre.rec_slot@[x]);
                        } else {
                            assert(qv.log[x] == pv.log[x]);
                            assert(post.rec_slot@[x] == pre.rec_slot@[x]);
                        }
                    },
                }
            }
        }
        assert forall|k: int| 0 <= k < qv.free.len() implies #[trigger] post.owns(qv.free[k]) is None by {
            if k < pv.free.len() {
                assert(pre.owns(pv.free[k]) is None);
                assert(pv.free[k] < pv.used);
            } else {
                let t = k - pv.free.len();
                assert(qv.free[k] == ids_r[t]);
                assert(ids_r.contains(ids_r[t]));
                assert(chain_stored(pre.slabs@.slabs, ids_r, pv.bytes_of(r), pv.bps(), t));
            }
        }
        assert(post.first_entry == qv.first_entry()) by {
            if r + 1 == pv.log.len() {
                if r > 0 {
                    assert(qv.log.last() == pv.log[r - 1]);
                }
            } else {
                assert(qv.log.last() == pv.log.last());
            }
        }
    }

    /// Removes the record that slot `slot` holds, record `r` whose first
    /// slab is `head`: the record stored right after it is relinked to the
    /// record before it, the slot is emptied and the record's slabs released.
    #[verifier::rlimit(60)]
    fn remove_record(&mut self, slot: usize, Ghost(r): Ghost<int>, head: u64)
        requires
            old(self).inv(),
            slot < old(self)@.slots.len(),
            old(self)@.slots[slot as int] == Some(r),
            head == old(self)@.log[r].ids[0],
        ensures
            final(self).inv(),
            final(self)@ == old(self)@.after_remove(slot as int),
            final(self).owner@.len() == old(self).owner@.len(),
            forall|id: u64|
                old(self).owns(id) is None && id < old(self).owner@.len() ==> #[trigger] final(self).owns(
                    id,
                ) is None,
            forall|id: int|
                0 <= id < old(self)@.used && (r + 1 < old(self)@.log.len() ==> id
                    != old(self)@.log[r + 1].ids[0]) ==> #[trigger] final(self).slab_contents(id)
                    == old(self).slab_contents(id),
    {
        proof {
            self.lemma_slot(slot as int);
            self.lemma_record_pages(r);
            self.lemma_free_unowned();
        }
        let ghost pre = *self;
        let link_r = self.read_link(Ghost(r), head);
        let newest = self.first_entry == head;
        proof {
            if !newest {
                assert(r + 1 < pre@.log.len());
            } else if r + 1 < pre@.log.len() {
                pre.lemma_heads_distinct(r, pre@.log.len() - 1);
            }
        }
        let mut nxt: u64 = 0;
        if !newest {
            nxt = self.find_newer(Ghost(r), head);
            proof {
                pre.lemma_record_pages(r + 1);
                assert(chain_stored(pre.slabs@.slabs, pre@.log[r + 1].ids, pre@.bytes_of(r + 1), pre@.bps(), 0));
            }
        }
        self.free_tail(Ghost(r), head);
        if newest {
            self.first_entry = link_r;
        } else {
            Self::set_link(&mut self.slabs, nxt, link_r);
        }
        self.entry_array.set(slot, SLOT_EMPTY);
        proof {
            self.log@ = pre.log@.remove(r);
            self.slot_rec@ = pre@.after_remove(slot as int).slots;
            self.rec_slot@ = pre.rec_slot@.remove(r);
            self.owner@ = Self::owner_removed(pre.owner@, r, pre@.log[r].ids);
            Self::lemma_after_remove(&pre, self, slot as int, r, link_r);
            assert(self@ == pre@.after_remove(slot as int));
        }
    }

    /// The table's invariant holds once `n` slabs are taken from the store of
    /// `pre` and left unused; each of them is unused in `post`.
    proof fn lemma_after_alloc(pre: &Self, post: &Self, n: nat)
        requires
            pre.inv(),
            n <= pre@.free(),
            post.slabs.wf(),
            post.slabs@ == pre.slabs@.after_alloc(n),
            post.owner@ == pre.owner@ + Seq::new(
                (post.slabs@.slabs.len() - pre.slabs@.slabs.len()) as nat,
                |i: int| None::<(int, int)>,
            ),
            post.entry_array == pre.entry_array,
            post.first_entry == pre.first_entry,
            post.log == pre.log,
            post.slot_rec == pre.slot_rec,
            post.rec_slot == pre.rec_slot,
        ensures
            post.inv(),
            forall|t: int| 0 <= t < n ==> #[trigger] post.owns(pre.slabs@.next_ids(n)[t]) is None,
            forall|id: u64| id < pre.owner@.len() ==> #[trigger] post.owns(id) == pre.owns(id),
    {
        reveal(StaticHashImpl::inv);
        Self::lemma_fresh_ids(pre, n);
        let pv = pre@;
        let qv = post@;
        assert forall|id: int| 0 <= id < pv.used implies #[trigger] post.slabs@.slabs[id] == pre.slabs@.slabs[id] by {}
        assert forall|r: int| 0 <= r < qv.log.len() implies #[trigger] post.record_stored(r) by {
            assert(pre.record_stored(r));
            let ids = pv.log[r].ids;
            assert forall|j: int| 0 <= j < ids.len() implies #[trigger] chain_stored(
                post.slabs@.slabs,
                qv.log[r].ids,
                qv.bytes_of(r),
                qv.bps(),
                j,
            ) by {
                assert(chain_stored(pre.slabs@.slabs, ids, pv.bytes_of(r), pv.bps(), j));
            }
            assert forall|j: int| 0 <= j < ids.len() implies #[trigger] post.owns(qv.log[r].ids[j]) == Some((r, j)) by {
                assert(chain_stored(pre.slabs@.slabs, ids, pv.bytes_of(r), pv.bps(), j));
                assert(pre.owns(ids[j]) == Some((r, j)));
            }
        }
        assert forall|k: int| 0 <= k < qv.free.len() implies #[trigger] post.owns(qv.free[k]) is None by {
            assert(qv.free[k] == pv.free[k]);
            assert(pre.owns(pv.free[k]) is None);
        }
        assert forall|t: int| 0 <= t < n implies #[trigger] post.owns(pre.slabs@.next_ids(n)[t]) is None by {
            let x = pre.slabs@.next_ids(n)[t];
            assert(pre.claimable(x, pv.log.len() as int));
            if x < pre.owner@.len() && pre.owns(x) is Some {
                assert(pre.owns(x).unwrap().0 == pv.log.len());
                assert(false);
            }
        }
    }

    /// Writes the record for `key` and `value` over record `r`, which slot
    /// `slot` holds and whose first slab is `head`: the new record's slabs
    /// are taken from the store, record `r` is then removed and its slabs
    /// released, and the new record is written as the newest.
    #[verifier::rlimit(100)]
    #[verifier::spinoff_prover]
    fn replace_at(&mut self, slot: usize, Ghost(r): Ghost<int>, head: u64, key: &[u8], value: &[u8], n: usize)
        requires
            old(self).inv(),
            slot < old(self)@.slots.len(),
            old(self)@.slots[slot as int] == Some(r),
            0 <= r < old(self)@.log.len(),
            head == old(self)@.log[r].ids[0],
            old(self)@.slab_size >= 24,
            record_fits(key@, value@, old(self)@.slab_size),
            n == old(self)@.pages_for(key@, value@),
            old(self)@.free() >= n,
        ensures
            final(self).inv(),
            final(self)@ == old(self)@.after_insert(slot as int, key@, value@),
            forall|id: int|
                0 <= id < old(self)@.used && !final(self)@.log.last().ids.contains(id as u64) && (r + 1
                    < old(self)@.log.len() ==> id != old(self)@.log[r + 1].ids[0])
                    ==> #[trigger] final(self).slab_contents(id) == old(self).slab_contents(id),
    {
        proof {
            self.lemma_free_unowned();
            self.lemma_record_pages(r);
        }
        let ghost pre = *self;
        proof {
            Self::lemma_fresh_ids(&pre, n as nat);
        }
        let ids = Self::alloc_pages(&mut self.slabs, n);
        proof {
            self.owner@ = pre.owner@ + Seq::new(
                (self.slabs@.slabs.len() - pre.slabs@.slabs.len()) as nat,
                |i: int| None::<(int, int)>,
            );
            Self::lemma_after_alloc(&pre, self, n as nat);
        }
        let ghost a = *self;
        self.remove_record(slot, Ghost(r), head);
        let ghost b = *self;
        let bps = self.slabs.slab_size() - 8;
        let bytes = encode_record(self.first_entry, key, value, bps);
        assert(bytes@.len() == n * bps && n >= 1) by {
            lemma_record_roundtrip(b.first_entry, key@, value@, bps as nat);
        }
        proof {
            assert forall|t: int| 0 <= t < ids@.len() implies #[trigger] b.claimable(ids@[t], b@.log.len() as int) by {
                assert(a.owns(ids@[t]) is None);
            }
            assert forall|k: int| 0 <= k < b@.free.len() implies !ids@.contains(#[trigger] b@.free[k]) by {
                if ids@.contains(b@.free[k]) {
                    let t = choose|t: int| 0 <= t < ids@.len() && ids@[t] == b@.free[k];
                    if k < a@.free.len() {
                        assert(a@.free[k] == pre.slabs@.after_alloc(n as nat).free[k]);
                    } else {
                        let u = k - a@.free.len();
                        let oid = pre@.log[r].ids[u];
                        assert(b@.free[k] == oid);
                        assert(pre.owns(oid) == Some((r, u)));
                        assert(chain_stored(pre.slabs@.slabs, pre@.log[r].ids, pre@.bytes_of(r), pre@.bps(), u));
                        assert(pre.claimable(ids@[t], pre@.log.len() as int));
                    }
                }
            }
            b.lemma_free_unowned();
        }
        Self::write_pages(&mut self.slabs, &ids, &bytes, bps);
        let new_head = ids[0];
        self.entry_array.set(slot, new_head);
        self.first_entry = new_head;
        let ghost target = b@.log.len() as int;
        proof {
            self.log@ = b.log@.push(Record { key: key@, value: value@, ids: ids@ });
            self.slot_rec@ = b.slot_rec@.update(slot as int, Some(target));
            self.rec_slot@ = b.rec_slot@.push(slot as int);
            self.owner@ = own_after(b.owner@, self.slabs@.slabs.len(), target, ids@);
            assert forall|k: int| 0 <= k < self@.free.len() implies {
                &&& #[trigger] self@.free[k] < b@.used
                &&& !ids@.contains(self@.free[k])
                &&& b.owns(self@.free[k]) is None
            } by {
                assert(self@.free[k] == b@.free[k]);
                assert(!ids@.contains(b@.free[k]));
            }
            Self::lemma_after_write(&b, self, target, slot as int, key@, value@, ids@, bytes@);
            assert(self@.log =~= pre@.after_insert(slot as int, key@, value@).log);
            assert(self@.slots =~= pre@.after_insert(slot as int, key@, value@).slots);
            assert(self@ == pre@.after_insert(slot as int, key@, value@));
            assert forall|id: int|
                0 <= id < pre@.used && !self@.log.last().ids.contains(id as u64) && (r + 1 < pre@.log.len()
                    ==> id != pre@.log[r + 1].ids[0]) implies #[trigger] self.slab_contents(id)
                == pre.slab_contents(id) by {
                assert(self@.log.last().ids == ids@);
                assert(a.slabs@.slabs[id] == pre.slabs@.slabs[id]);
                assert(b.slab_contents(id) == a.slab_contents(id));
            }
        }
    }

    /// Writes a record for `key` and `value` into the slot that a probe from
    /// `start` stops at, as the newest record; the record of the same key
    /// that the slot held, if any, is removed and its slabs released.
    pub fn insert_impl(&mut self, key: &[u8], start: usize, value: &[u8]) -> (r: Result<(), StaticHashError>)
        requires
            old(self).inv(),
            old(self)@.slots.len() > 0,
            start < old(self)@.slots.len(),
            old(self)@.slab_size >= 24,
        ensures
            final(self).inv(),
            insert_outcome(old(self)@, final(self)@, r, key@, start as int, value@),
            r is Err ==> forall|id: int| #[trigger] final(self).slab_contents(id) == old(self).slab_contents(id),
            r is Ok ==> forall|id: int|
                0 <= id < old(self)@.used && !final(self)@.log.last().ids.contains(id as u64)
                    && old(self)@.relinked(old(self)@.find_slot(key@, start as int).unwrap()) != Some(
                    id as u64,
                ) ==> #[trigger] final(self).slab_contents(id) == old(self).slab_contents(id),
    {
        let slot = match self.find_insert_slot(key, start) {
            Some(s) => s,
            None => {
                return Err(StaticHashError::CapacityExceeded);
            },
        };
        let total = (key.len() as u128) + (value.len() as u128) + 2 * (self.slabs.slab_size() as u128) + 32;
        if total > usize::MAX as u128 {
            return Err(StaticHashError::NoMoreSlabs);
        }
        proof {
            lemma_probe_in_range(self@.slots, self@.log, start as int, key@, 0);
            self.lemma_slot(slot as int);
        }
        let bps = self.slabs.slab_size() - 8;
        let n = pages_needed(key.len(), value.len(), bps);
        let free = self.get_free_count();
        let id = self.entry_array[slot];
        if id == SLOT_EMPTY || id == SLOT_DELETED {
            if free < n {
                return Err(StaticHashError::NoMoreSlabs);
            }
            self.insert_new(slot, key, value, n);
        } else {
            let ghost r = self@.slots[slot as int].unwrap();
            if free < n {
                return Err(StaticHashError::NoMoreSlabs);
            }
            self.replace_at(slot, Ghost(r), id, key, value, n);
        }
        Ok(())
    }

    /// Writes `data` over the bytes of slab `id` from offset `at` on.
    fn splice_slab(slabs: &mut SlabAllocator, id: u64, at: usize, data: &[u8])
        requires
            old(slabs).wf(),
            id < old(slabs)@.slabs.len(),
            at + data@.len() <= old(slabs)@.slab_size,
        ensures
            final(slabs).wf(),
            final(slabs)@ == (SlabsView {
                slabs: old(slabs)@.slabs.update(
                    id as int,
                    old(slabs)@.slabs[id as int].subrange(0, at as int) + data@ + old(
                        slabs,
                    )@.slabs[id as int].subrange(at + data@.len(), old(slabs)@.slab_size as int),
                ),
                ..old(slabs)@
            }),
    {
        let ghost pre = slabs@;
        let old_slab = match slabs.get(id) {
            Ok(s) => s,
            Err(_) => {
                proof {
                    assert(false);
                }
                return;
            },
        };
        assert(old_slab@.len() == pre.slab_size);
        let sl = old_slab.len();
        let mut v = Self::copy_range(old_slab, 0, at);
        let mut i: usize = 0;
        let ghost v0 = v@;
        while i < data.len()
            invariant
                i <= data@.len(),
                v@ == v0 + data@.subrange(0, i as int),
                at + data@.len() <= sl,
                sl == old_slab@.len(),
                old_slab@ == pre.slabs[id as int],
            decreases data@.len() - i,
        {
            v.push(data[i]);
            i = i + 1;
            assert(v@ =~= v0 + data@.subrange(0, i as int));
        }
        assert(data@.subrange(0, data@.len() as int) =~= data@);
        let rest = Self::copy_range(old_slab, at + data.len(), sl);
        let mut j: usize = 0;
        let ghost v1 = v@;
        while j < rest.len()
            invariant
                j <= rest@.len(),
                v@ == v1 + rest@.subrange(0, j as int),
            decreases rest@.len() - j,
        {
            v.push(rest[j]);
            j = j + 1;
            assert(v@ =~= v1 + rest@.subrange(0, j as int));
        }
        assert(rest@.subrange(0, rest@.len() as int) =~= rest@);
        let _ = slabs.write(id, v.as_slice());
        proof {
            assert(slabs@.slabs =~= pre.slabs.update(
                id as int,
                pre.slabs[id as int].subrange(0, at as int) + data@ + pre.slabs[id as int].subrange(
                    at + data@.len(),
                    pre.slab_size as int,
                ),
            ));
        }
    }

    /// The table's invariant holds once `data` is written at offset `off` of
    /// the value of record `rec`, inside its first slab.
    #[verifier::rlimit(100)]
    #[verifier::spinoff_prover]
    proof fn lemma_after_splice(pre: &Self, post: &Self, rec: int, off: nat, data: Seq<u8>)
        requires
            pre.inv(),
            0 <= rec < pre@.log.len(),
            pre@.value_write_fits(rec, off, data.len()),
            post.slabs.wf(),
            post.slabs@ == (SlabsView {
                slabs: pre.slabs@.slabs.update(
                    pre@.log[rec].ids[0] as int,
                    pre.slabs@.slabs[pre@.log[rec].ids[0] as int].subrange(
                        0,
                        (vlen_pos(pre@.log[rec].key.len(), pre@.bps()) + 8 + off) as int,
                    ) + data + pre.slabs@.slabs[pre@.log[rec].ids[0] as int].subrange(
                        (vlen_pos(pre@.log[rec].key.len(), pre@.bps()) + 8 + off + data.len()) as int,
                        pre.slabs@.slab_size as int,
                    ),
                ),
                ..pre.slabs@
            }),
            post@.log == pre@.after_value_write(rec, off, data).log,
            post.entry_array == pre.entry_array,
            post.first_entry == pre.first_entry,
            post.slot_rec == pre.slot_rec,
            post.rec_slot == pre.rec_slot,
            post.owner == pre.owner,
        ensures
            post.inv(),
    {
        reveal(StaticHashImpl::inv);
        let pv = pre@;
        let qv = post@;
        pre.lemma_record_pages(rec);
        let ids = pv.log[rec].ids;
        let head = ids[0];
        let bps = pv.bps();
        let c = vlen_pos(pv.log[rec].key.len(), bps) + 8 + off;
        assert(chain_stored(pre.slabs@.slabs, ids, pv.bytes_of(rec), bps, 0));
        assert(pre.owns(head) == Some((rec, 0int)));
        assert(post.slabs@.slabs.len() == pre.slabs@.slabs.len());
        let v = pv.log[rec].value;
        let v2 = v.subrange(0, off as int) + data + v.subrange((off + data.len()) as int, v.len() as int);
        lemma_value_splice(pv.link(rec), pv.log[rec].key, v, off, data, bps);
        assert(qv.log[rec] == Record { value: v2, ..pv.log[rec] });
        assert forall|r: int| 0 <= r < qv.log.len() implies #[trigger] qv.link(r) == pv.link(r) by {
            if r > 0 {
                assert(qv.log[r - 1].ids == pv.log[r - 1].ids);
            }
        }
        assert forall|r: int| 0 <= r < qv.log.len() implies #[trigger] post.record_stored(r) by {
            assert(pre.record_stored(r));
            assert(qv.log[r].key == pv.log[r].key);
            assert(qv.log[r].value.len() == pv.log[r].value.len());
            assert(qv.log[r].ids.len() == qv.pages_for(qv.log[r].key, qv.log[r].value));
            assert(qv.slots == pv.slots);
            assert(0 <= post.rec_slot@[r] < qv.slots.len());
            assert(qv.slots[post.rec_slot@[r]] == Some(r));
            assert forall|j: int| 0 <= j < qv.log[r].ids.len() implies #[trigger] post.owns(qv.log[r].ids[j])
                == Some((r, j)) by {
                assert(pre.owns(pv.log[r].ids[j]) == Some((r, j)));
            }
            let rids = pv.log[r].ids;
            assert(qv.log[r].ids == rids);
            if r == rec {
                let b1 = pv.bytes_of(r);
                let b2 = qv.bytes_of(r);
                assert(b2 == b1.subrange(0, c as int) + data + b1.subrange((c + data.len()) as int, b1.len() as int));
                assert(qv.pages_for(qv.log[r].key, qv.log[r].value) == pv.pages_for(pv.log[r].key, pv.log[r].value));
                assert forall|j: int| 0 <= j < rids.len() implies #[trigger] chain_stored(
                    post.slabs@.slabs,
                    qv.log[r].ids,
                    qv.bytes_of(r),
                    qv.bps(),
                    j,
                ) by {
                    assert(chain_stored(pre.slabs@.slabs, rids, b1, bps, j));
                    assert(pre.owns(rids[j]) == Some((r, j)));
                    let nx = if j + 1 < rids.len() {
                        rids[j + 1]
                    } else {
                        SLOT_EMPTY
                    };
                    lemma_be_u64_roundtrip(nx);
                    lemma_splice_page(b1, b2, c, data, bps, rids.len(), j as nat);
                    if j == 0 {
                        let p1 = page_data(b1, 0, bps);
                        let old_slab = pre.slabs@.slabs[head as int];
                        assert(old_slab == p1 + be_u64(nx));
                        assert(post.slabs@.slabs[head as int] =~= page_data(b2, 0, bps) + be_u64(nx));
                    } else {
                        assert(rids[j] != head);
                        assert(post.slabs@.slabs[rids[j] as int] == pre.slabs@.slabs[rids[j] as int]);
                    }
                }
            } else {
                assert(qv.log[r] == pv.log[r]);
                assert(qv.bytes_of(r) == pv.bytes_of(r));
                assert forall|j: int| 0 <= j < rids.len() implies #[trigger] chain_stored(
                    post.slabs@.slabs,
                    qv.log[r].ids,
                    qv.bytes_of(r),
                    qv.bps(),
                    j,
                ) by {
                    assert(chain_stored(pre.slabs@.slabs, rids, pv.bytes_of(r), bps, j));
                    assert(pre.owns(rids[j]) == Some((r, j)));
                    assert(rids[j] != head);
                    assert(post.slabs@.slabs[rids[j] as int] == pre.slabs@.slabs[rids[j] as int]);
                }
            }
        }
        assert forall|s: int| 0 <= s < qv.slots.len() implies match #[trigger] qv.slots[s] {
            None => post.entry_array@[s] == SLOT_EMPTY,
            Some(i) => 0 <= i < qv.log.len() && post.entry_array@[s] == qv.log[i].ids[0]
                && post.rec_slot@[i] == s,
        } by {
            match pv.slots[s] {
                None => {},
                Some(i) => {
                    assert(qv.log[i].ids == pv.log[i].ids);
                },
            }
        }
        assert forall|k: int| 0 <= k < qv.free.len() implies #[trigger] post.owns(qv.free[k]) is None by {
            assert(qv.free[k] == pv.free[k]);
            assert(pre.owns(pv.free[k]) is None);
        }
        assert(qv.log.last().ids == pv.log.last().ids);
    }

    /// Writes `data` at offset `offset` of the value of the record stored
    /// for `key`, probing from `start`, in that record's first slab. `Ok(false)`
    /// and no change when no record holds the key; `OutOfRange` and no change
    /// when the bytes to write do not lie within the value and within the
    /// first slab.
    #[verifier::rlimit(80)]
    #[verifier::spinoff_prover]
    pub fn get_raw_mut_impl(&mut self, key: &[u8], start: usize, offset: usize, data: &[u8]) -> (r: Result<bool, StaticHashError>)
        requires
            old(self).inv(),
            old(self)@.slots.len() > 0,
            start < old(self)@.slots.len(),
        ensures
            final(self).inv(),
            match old(self)@.lookup(key@, start as int) {
                None => r == Ok::<bool, StaticHashError>(false) && final(self)@ == old(self)@,
                Some(rec) => if old(self)@.value_write_fits(rec, offset as nat, data@.len()) {
                    &&& r == Ok::<bool, StaticHashError>(true)
                    &&& final(self)@ == old(self)@.after_value_write(rec, offset as nat, data@)
                } else {
                    &&& r == Err::<bool, StaticHashError>(StaticHashError::OutOfRange)
                    &&& final(self)@ == old(self)@
                },
            },
    {
        let entry = match self.find_entry(key, start) {
            Some(e) => e,
            None => {
                return Ok(false);
            },
        };
        proof {
            lemma_probe_in_range(self@.slots, self@.log, start as int, key@, 0);
            self.lemma_slot(entry as int);
        }
        let ghost rec = self@.slots[entry as int].unwrap();
        let ghost pre = *self;
        proof {
            self.lemma_record(rec);
        }
        let head = self.entry_array[entry];
        let bps = self.slabs.slab_size() - 8;
        let ghost b = pre@.bytes_of(rec);
        let ghost nx0 = pre@.next_id(rec, 0);
        assert(chain_stored(self.slabs@.slabs, pre@.log[rec].ids, b, pre@.bps(), 0));
        let first = match self.slabs.get(head) {
            Ok(s) => s,
            Err(_) => {
                proof {
                    assert(false);
                }
                return Ok(false);
            },
        };
        proof {
            assert(first@ == slab_image(b, 0, bps as nat, nx0));
            lemma_first_page(b, bps as nat);
            assert(first@.subrange(8, 16) =~= b.subrange(8, 16));
        }
        let klen = read_u64_at(first, 8) as usize;
        let o = (16 + klen) % bps;
        let pad = if o + 8 <= bps {
            0
        } else {
            bps - o
        };
        let q = 16 + klen + pad;
        assert(q == vlen_pos(klen as nat, bps as nat));
        if q + 8 > bps {
            return Err(StaticHashError::OutOfRange);
        }
        proof {
            assert(first@.subrange(q as int, q + 8) =~= b.subrange(q as int, q + 8));
        }
        let vlen = read_u64_at(first, q) as usize;
        if offset > vlen || data.len() > vlen - offset || data.len() + offset > bps - 8 - q {
            return Err(StaticHashError::OutOfRange);
        }
        Self::splice_slab(&mut self.slabs, head, q + 8 + offset, data);
        proof {
            self.log@ = pre@.after_value_write(rec, offset as nat, data@).log;
            Self::lemma_after_splice(&pre, self, rec, offset as nat, data@);
            assert(self@ == pre@.after_value_write(rec, offset as nat, data@));
        }
        Ok(true)
    }

    /// The stored key and value for `key`, probing from `start`.
    pub fn get_impl(&self, key: &[u8], start: usize) -> (r: Option<(Vec<u8>, Vec<u8>)>)
        requires
            self.inv(),
            self@.slots.len() > 0,
            start < self@.slots.len(),
        ensures
            match self@.lookup(key@, start as int) {
                None => r is None,
                Some(rec) => r matches Some(kv) && kv.0@ == self@.log[rec].key && kv.1@
                    == self@.log[rec].value,
            },
    {
        match self.find_entry(key, start) {
            Some(entry) => {
                proof {
                    lemma_probe_in_range(self@.slots, self@.log, start as int, key@, 0);
                    self.lemma_slot(entry as int);
                }
                let ghost rec = self@.slots[entry as int].unwrap();
                let id = self.entry_array[entry];
                let kv = self.read_value(Ghost(rec), id);
                Some(kv)
            },
            None => None,
        }
    }

    /// The first slab of the record stored for `key`, probing from `start`.
    pub fn get_raw_impl(&self, key: &[u8], start: usize) -> (r: Option<&[u8]>)
        requires
            self.inv(),
            self@.slots.len() > 0,
            start < self@.slots.len(),
        ensures
            match self@.lookup(key@, start as int) {
                None => r is None,
                Some(rec) => r matches Some(s) && s@ == slab_first_page(self@, rec),
            },
    {
        match self.find_entry(key, start) {
            Some(entry) => {
                proof {
                    lemma_probe_in_range(self@.slots, self@.log, start as int, key@, 0);
                    self.lemma_slot(entry as int);
                }
                let ghost rec = self@.slots[entry as int].unwrap();
                proof {
                    self.lemma_record(rec);
                    assert(chain_stored(self.slabs@.slabs, self@.log[rec].ids, self@.bytes_of(rec), self@.bps(), 0));
                }
                let id = self.entry_array[entry];
                match self.slabs.get(id) {
                    Ok(s) => Some(s),
                    Err(_) => {
                        proof {
                            assert(false);
                        }
                        None
                    },
                }
            },
            None => None,
        }
    }

    /// The first slab of the record stored before record `r`, whose first
    /// slab is `slab_id`; `u64::MAX` for the oldest record.
    pub(crate) fn read_link(&self, Ghost(r): Ghost<int>, slab_id: u64) -> (l: u64)
        requires
            self.inv(),
            0 <= r < self@.log.len(),
            slab_id == self@.log[r].ids[0],
        ensures
            l == self@.link(r),
    {
        proof {
            self.lemma_record(r);
            let v = self@;
            lemma_record_roundtrip(v.link(r), v.log[r].key, v.log[r].value, v.bps());
            assert(chain_stored(self.slabs@.slabs, v.log[r].ids, v.bytes_of(r), v.bps(), 0));
        }
        let first = match self.slabs.get(slab_id) {
            Ok(s) => s,
            Err(_) => {
                proof {
                    assert(false);
                }
                return SLOT_EMPTY;
            },
        };
        proof {
            let v = self@;
            let b = v.bytes_of(r);
            let nx0 = if 1 < v.log[r].ids.len() {
                v.log[r].ids[1]
            } else {
                SLOT_EMPTY
            };
            assert(first@ == slab_image(b, 0, v.bps(), nx0));
            lemma_first_page(b, v.bps());
            assert(first@.subrange(0, 8) =~= b.subrange(0, 8));
        }
        read_u64_at(first, 0)
    }

    /// The first slab of a record is never `SLOT_EMPTY`.
    pub proof fn lemma_head_not_empty(&self, r: int)
        requires
            self.inv(),
            0 <= r < self@.log.len(),
        ensures
            self@.log[r].ids.len() >= 1,
            self@.log[r].ids[0] != SLOT_EMPTY,
    {
        self.lemma_record(r);
        assert(chain_stored(self.slabs@.slabs, self@.log[r].ids, self@.bytes_of(r), self@.bps(), 0));
    }

    /// The slots of a table refer to records of its log, every record is
    /// held by a slot, and no two slots hold the same record.
    pub proof fn lemma_slots_valid(&self)
        requires
            self.inv(),
        ensures
            self@.slots_valid(),
            self@.records_live(),
            self@.records_valid(),
            self@.used <= self@.slab_count,
    {
        reveal(StaticHashImpl::inv);
        let v = self@;
        assert forall|r: int| 0 <= r < v.log.len() implies #[trigger] v.log[r].ids.len() >= 1 by {
            self.lemma_record_pages(r);
        }
        assert forall|r: int| 0 <= r < v.log.len() implies #[trigger] v.held(r) by {
            assert(self.record_stored(r));
            let s = self.rec_slot@[r];
            assert(0 <= s < v.slots.len());
            assert(v.slots[s] == Some(r));
        }
        assert forall|s1: int, s2: int|
            0 <= s1 < v.slots.len() && 0 <= s2 < v.slots.len() && s1 != s2 && v.slots[s1] is Some
            implies #[trigger] v.slots[s1] != #[trigger] v.slots[s2] by {
            match v.slots[s1] {
                Some(r) => {
                    assert(self.rec_slot@[r] == s1);
                    if v.slots[s2] == Some(r) {
                        assert(self.rec_slot@[r] == s2);
                    }
                },
                None => {},
            }
        }
    }

    /// Different records start at different slabs.
    pub proof fn lemma_heads_distinct(&self, r1: int, r2: int)
        requires
            self.inv(),
            0 <= r1 < self@.log.len(),
            0 <= r2 < self@.log.len(),
            self@.log[r1].ids[0] == self@.log[r2].ids[0],
        ensures
            r1 == r2,
    {
        self.lemma_record(r1);
        self.lemma_record(r2);
        assert(self.owns(self@.log[r1].ids[0]) == Some((r1, 0int)));
        assert(self.owns(self@.log[r2].ids[0]) == Some((r2, 0int)));
    }

    /// How record `r` lies in the store: slab `ids[j]` of its chain is in use
    /// and holds page `j` of the record's data bytes followed by the id of the
    /// next slab of the chain, `u64::MAX` after the last one.
    pub proof fn lemma_layout(&self, r: int, j: int)
        requires
            self.inv(),
            0 <= r < self@.log.len(),
            0 <= j < self@.log[r].ids.len(),
        ensures
            self@.log[r].ids[j] < self@.used,
            !self@.free.contains(self@.log[r].ids[j]),
            self.slab_contents(self@.log[r].ids[j] as int) == slab_image(
                self@.bytes_of(r),
                j as nat,
                self@.bps(),
                self@.next_id(r, j),
            ),
    {
        self.lemma_record(r);
        reveal(StaticHashImpl::inv);
        let x = self@.log[r].ids[j];
        assert(chain_stored(self.slabs@.slabs, self@.log[r].ids, self@.bytes_of(r), self@.bps(), j));
        assert(self.owns(x) == Some((r, j)));
        if self@.free.contains(x) {
            let k = choose|k: int| 0 <= k < self@.free.len() && self@.free[k] == x;
            assert(self.owns(self@.free[k]) is None);
        }
    }
}

} // verus!
