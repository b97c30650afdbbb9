//! Typed static hash tables and sets over `Serializable` keys and values.
//!
//! A typed key is stored as the bytes `Serializable::write` gives for it; the
//! probe for it starts at the slot its hash selects, the hash being the one
//! std's `DefaultHasher` computes of those bytes.
use vstd::prelude::*;
use core::marker::PhantomData;
use crate::layout::slab_image;
use crate::ser::Serializable;
use crate::slabs::{DEFAULT_SLAB_COUNT, DEFAULT_SLAB_SIZE, SlabAllocator, SlabAllocatorConfig, SlabError, SLOT_EMPTY};
use crate::static_hash::{
    insert_outcome, slab_first_page, start_slot, Record, StaticHashError, StaticHashImpl,
    StaticHashView,
};

verus! {

/// Name for the hash that std's `DefaultHasher` computes of a byte string
/// passed to `Hasher::write`.
pub uninterp spec fn default_hash(bytes: Seq<u8>) -> u64;

/// Hashes `bytes` with a `DefaultHasher` from `DefaultHasher::new`, fed
/// through `Hasher::write` and read with `Hasher::finish`. std documents that
/// every hasher from `DefaultHasher::new` is the same, so the result is named
/// as a function of the bytes.
#[verifier::external_body]
fn hash_bytes(bytes: &[u8]) -> (r: u64)
    ensures
        r == default_hash(bytes@),
{
    let mut hasher = std::collections::hash_map::DefaultHasher::new();
    std::hash::Hasher::write(&mut hasher, bytes);
    std::hash::Hasher::finish(&hasher)
}

/// What a typed lookup returns for the stored key bytes `kb` and value bytes
/// `vb`: the value, or `Deserialization` when the key or value does not
/// decode.
pub open spec fn decoded_value<K: Serializable, V: Serializable>(kb: Seq<u8>, vb: Seq<u8>) -> Result<Option<V>, StaticHashError> {
    match (K::deser(kb), V::deser(vb)) {
        (Some(_), Some(v)) => Ok(Some(v)),
        _ => Err(StaticHashError::Deserialization),
    }
}

/// What a typed lookup of the key bytes `kb` in `t` returns.
pub open spec fn get_outcome<K: Serializable, V: Serializable>(
    t: StaticHashView,
    kb: Seq<u8>,
    r: Result<Option<V>, StaticHashError>,
) -> bool {
    match t.lookup(kb, start_slot(default_hash(kb), t.slots.len())) {
        None => r == Ok::<Option<V>, StaticHashError>(None),
        Some(rec) => {
            &&& (r matches Ok(Some(_)) || r == Err::<Option<V>, StaticHashError>(
                StaticHashError::Deserialization,
            ))
            &&& (K::obeys_ser() && V::obeys_ser()) ==> r == decoded_value::<K, V>(
                t.log[rec].key,
                t.log[rec].value,
            )
        },
    }
}

/// The slab allocator `build` gives a table: the one passed, or a fresh one
/// with the default configuration.
fn slabs_or_default(slabs: Option<SlabAllocator>) -> (r: SlabAllocator)
    requires
        slabs matches Some(s) ==> s.wf(),
    ensures
        r.wf(),
        slabs matches Some(s) ==> r == s,
        slabs is None ==> r@.slab_size == DEFAULT_SLAB_SIZE && r@.slab_count
            == DEFAULT_SLAB_COUNT && r@.slabs.len() == 0 && r@.free == Seq::<u64>::empty(),
{
    match slabs {
        Some(s) => s,
        None => SlabAllocator::new(SlabAllocatorConfig::default()),
    }
}

/// The bytes `Serializable::write` gives for `x`.
fn serialize<T: Serializable>(x: &T) -> (r: Vec<u8>)
    ensures
        T::obeys_ser() ==> r@ == x.ser(),
{
    let mut out: Vec<u8> = Vec::new();
    x.write(&mut out);
    proof {
        if T::obeys_ser() {
            assert(out@ =~= x.ser());
        }
    }
    out
}

/// The slot a probe for the hash `h` starts at in a table of `len` slots.
fn start_for(h: u64, len: usize) -> (r: usize)
    requires
        len > 0,
    ensures
        r == start_slot(h, len as nat),
        r < len,
{
    (h % (len as u64)) as usize
}

/// A hash table of typed keys and values with a fixed number of slots,
/// whose records are stored in slabs.
pub struct StaticHashtable<K, V> {
    imp: StaticHashImpl,
    marker: PhantomData<(K, V)>,
}

/// A hash set of typed keys with a fixed number of slots, whose records are
/// stored in slabs.
pub struct StaticHashset<K> {
    imp: StaticHashImpl,
    marker: PhantomData<K>,
}

/// Builds `StaticHashtable`s.
pub struct StaticHashtableBuilder {}

/// Builds `StaticHashset`s.
pub struct StaticHashsetBuilder {}

impl StaticHashtableBuilder {
    /// A table of `slot_count` empty slots whose records go into `slabs`, or
    /// into a fresh allocator of the default configuration.
    pub fn build<K: Serializable, V: Serializable>(slot_count: usize, slabs: Option<SlabAllocator>) -> (r: StaticHashtable<K, V>)
        requires
            slabs matches Some(s) ==> s.wf(),
        ensures
            r.inv(),
            r@.slots == Seq::new(slot_count as nat, |i: int| None::<int>),
            r@.log.len() == 0,
            slabs matches Some(s) ==> r@.slab_size == s@.slab_size && r@.slab_count == s@.slab_count
                && r@.used == s@.slabs.len() && r@.free == s@.free,
            slabs is None ==> r@.slab_size == DEFAULT_SLAB_SIZE && r@.slab_count
                == DEFAULT_SLAB_COUNT && r@.used == 0 && r@.free == Seq::<u64>::empty(),
    {
        let s = slabs_or_default(slabs);
        StaticHashtable { imp: StaticHashImpl::new(slot_count, s), marker: PhantomData }
    }
}

impl StaticHashsetBuilder {
    /// A set of `slot_count` empty slots whose records go into `slabs`, or
    /// into a fresh allocator of the default configuration.
    pub fn build<K: Serializable>(slot_count: usize, slabs: Option<SlabAllocator>) -> (r: StaticHashset<K>)
        requires
            slabs matches Some(s) ==> s.wf(),
        ensures
            r.inv(),
            r@.slots == Seq::new(slot_count as nat, |i: int| None::<int>),
            r@.log.len() == 0,
            slabs matches Some(s) ==> r@.slab_size == s@.slab_size && r@.slab_count == s@.slab_count
                && r@.used == s@.slabs.len() && r@.free == s@.free,
            slabs is None ==> r@.slab_size == DEFAULT_SLAB_SIZE && r@.slab_count
                == DEFAULT_SLAB_COUNT && r@.used == 0 && r@.free == Seq::<u64>::empty(),
    {
        let s = slabs_or_default(slabs);
        StaticHashset { imp: StaticHashImpl::new(slot_count, s), marker: PhantomData }
    }
}

impl<K: Serializable, V: Serializable> StaticHashtable<K, V> {
    pub closed spec fn view(&self) -> StaticHashView {
        self.imp@
    }

    /// The table's invariant.
    pub closed spec fn inv(&self) -> bool {
        self.imp.inv()
    }

    /// Inserts `value` for `key` as the newest record. A record with the same
    /// key bytes, found in the slot the probe stops at, is removed and its
    /// slabs released.
    pub fn insert(&mut self, key: &K, value: &V) -> (r: Result<(), StaticHashError>)
        requires
            old(self).inv(),
            old(self)@.slots.len() > 0,
            old(self)@.slab_size >= 24,
        ensures
            final(self).inv(),
            exists|kb: Seq<u8>, vb: Seq<u8>|
                {
                    &&& K::obeys_ser() ==> kb == key.ser()
                    &&& V::obeys_ser() ==> vb == value.ser()
                    &&& #[trigger] insert_outcome(
                        old(self)@,
                        final(self)@,
                        r,
                        kb,
                        start_slot(default_hash(kb), old(self)@.slots.len()),
                        vb,
                    )
                },
    {
        let kb = serialize(key);
        let vb = serialize(value);
        let h = hash_bytes(kb.as_slice());
        let start = start_for(h, self.imp.slot_count());
        let r = self.imp.insert_impl(kb.as_slice(), start, vb.as_slice());
        assert(insert_outcome(
            old(self)@,
            self@,
            r,
            kb@,
            start_slot(default_hash(kb@), old(self)@.slots.len()),
            vb@,
        ));
        r
    }

    /// The value stored for `key`; `Deserialization` when the stored key or
    /// value does not decode.
    pub fn get(&self, key: &K) -> (r: Result<Option<V>, StaticHashError>)
        requires
            self.inv(),
            self@.slots.len() > 0,
        ensures
            exists|kb: Seq<u8>|
                {
                    &&& K::obeys_ser() ==> kb == key.ser()
                    &&& #[trigger] get_outcome::<K, V>(self@, kb, r)
                },
    {
        let kb = serialize(key);
        let h = hash_bytes(kb.as_slice());
        let start = start_for(h, self.imp.slot_count());
        let r = self.get_impl(kb.as_slice(), start);
        assert(get_outcome::<K, V>(self@, kb@, r));
        r
    }

    /// The decoded value stored for the key bytes `key`, probing from
    /// `start`.
    fn get_impl(&self, key: &[u8], start: usize) -> (r: Result<Option<V>, StaticHashError>)
        requires
            self.inv(),
            self@.slots.len() > 0,
            start == start_slot(default_hash(key@), self@.slots.len()),
        ensures
            get_outcome::<K, V>(self@, key@, r),
    {
        match self.imp.get_impl(key, start) {
            Some((kb, vb)) => self.read_kv_ser(kb.as_slice(), vb.as_slice()),
            None => Ok(None),
        }
    }

    /// Decodes a stored key and value.
    fn read_kv_ser(&self, kb: &[u8], vb: &[u8]) -> (r: Result<Option<V>, StaticHashError>)
        ensures
            r matches Ok(Some(_)) || r == Err::<Option<V>, StaticHashError>(
                StaticHashError::Deserialization,
            ),
            (K::obeys_ser() && V::obeys_ser()) ==> r == decoded_value::<K, V>(kb@, vb@),
    {
        match K::read(kb) {
            Some(_k) => match V::read(vb) {
                Some(v) => Ok(Some(v)),
                None => Err(StaticHashError::Deserialization),
            },
            None => Err(StaticHashError::Deserialization),
        }
    }

    /// Inserts the raw `value` for the raw `key`, probing from the slot the
    /// caller's `hash` selects.
    pub fn insert_raw(&mut self, key: &[u8], hash: u64, value: &[u8]) -> (r: Result<(), StaticHashError>)
        requires
            old(self).inv(),
            old(self)@.slots.len() > 0,
            old(self)@.slab_size >= 24,
        ensures
            final(self).inv(),
            insert_outcome(
                old(self)@,
                final(self)@,
                r,
                key@,
                start_slot(hash, old(self)@.slots.len()),
                value@,
            ),
            r is Err ==> forall|id: int| #[trigger] final(self).slab_contents(id) == old(self).slab_contents(id),
            r is Ok ==> forall|id: int|
                0 <= id < old(self)@.used && !final(self)@.log.last().ids.contains(id as u64)
                    && old(self)@.relinked(
                    old(self)@.find_slot(key@, start_slot(hash, old(self)@.slots.len())).unwrap(),
                ) != Some(id as u64) ==> #[trigger] final(self).slab_contents(id)
                    == old(self).slab_contents(id),
    {
        let start = start_for(hash, self.imp.slot_count());
        self.imp.insert_impl(key, start, value)
    }

    /// The first slab of the record stored for the raw `key`, probing from
    /// the slot the caller's `hash` selects.
    pub fn get_raw(&self, key: &[u8], hash: u64) -> (r: Result<Option<&[u8]>, StaticHashError>)
        requires
            self.inv(),
            self@.slots.len() > 0,
        ensures
            match self@.lookup(key@, start_slot(hash, self@.slots.len())) {
                None => r == Ok::<Option<&[u8]>, StaticHashError>(None),
                Some(rec) => r matches Ok(Some(s)) && s@ == slab_first_page(self@, rec),
            },
    {
        let start = start_for(hash, self.imp.slot_count());
        Ok(self.imp.get_raw_impl(key, start))
    }

    /// Number of slabs that can still be allocated.
    pub fn free_count(&self) -> (r: usize)
        requires
            self.inv(),
        ensures
            r == self@.free(),
    {
        self.imp.get_free_count()
    }

    /// The first slab of the newest record, `u64::MAX` when there is none.
    pub fn first_entry(&self) -> (r: u64)
        requires
            self.inv(),
        ensures
            r == self@.first_entry(),
    {
        self.imp.first_entry()
    }

    /// The slots of the table refer to records of its log, and every record
    /// is held by exactly one slot.
    pub proof fn lemma_slots_valid(&self)
        requires
            self.inv(),
        ensures
            self@.slots_valid(),
            self@.records_live(),
            self@.records_valid(),
            self@.used <= self@.slab_count,
    {
        self.imp.lemma_slots_valid();
    }

    /// The contents of slab `id` of the table's allocator.
    pub closed spec fn slab_contents(&self, id: int) -> Seq<u8> {
        self.imp.slab_contents(id)
    }

    /// How record `r` lies in the store: slab `ids[j]` of its chain is in use
    /// and holds page `j` of the record's data bytes (`bytes_of`) followed by
    /// the id of the next slab of the chain, `u64::MAX` after the last one.
    pub proof fn lemma_layout(&self, r: int, j: int)
        requires
            self.inv(),
            0 <= r < self@.log.len(),
            0 <= j < self@.log[r].ids.len(),
        ensures
            self@.log[r].ids[j] < self@.used,
            !self@.free.contains(self@.log[r].ids[j]),
            self.slab_contents(self@.log[r].ids[j] as int) == slab_image(
                self@.bytes_of(r),
                j as nat,
                self@.bps(),
                self@.next_id(r, j),
            ),
    {
        self.imp.lemma_layout(r, j);
    }

    /// The contents of slab `id`; `InvalidId` when no slab has that id.
    pub fn slab(&self, id: u64) -> (r: Result<&[u8], SlabError>)
        requires
            self.inv(),
        ensures
            id < self@.used ==> (r matches Ok(s) && s@ == self.slab_contents(id as int)),
            id >= self@.used ==> r == Err::<&[u8], SlabError>(SlabError::InvalidId),
    {
        self.imp.get_slab(id)
    }

    /// Decodes the record whose first slab is `slab_id`; `InvalidId` when no
    /// stored record starts at that slab. The records are searched along
    /// the chain that links them, newest first.
    pub fn read_kv(&self, slab_id: u64) -> (r: Result<(K, V), StaticHashError>)
        requires
            self.inv(),
        ensures
            !(exists|rec: int| 0 <= rec < self@.log.len() && #[trigger] self@.log[rec].ids[0] == slab_id)
                ==> r == Err::<(K, V), StaticHashError>(StaticHashError::InvalidId),
            (exists|rec: int| 0 <= rec < self@.log.len() && #[trigger] self@.log[rec].ids[0] == slab_id)
                ==> r is Ok || r == Err::<(K, V), StaticHashError>(StaticHashError::Deserialization),
            forall|rec: int|
                0 <= rec < self@.log.len() && #[trigger] self@.log[rec].ids[0] == slab_id
                    && K::obeys_ser() && V::obeys_ser() ==> r == match (
                    K::deser(self@.log[rec].key),
                    V::deser(self@.log[rec].value),
                ) {
                    (Some(k), Some(v)) => Ok((k, v)),
                    _ => Err(StaticHashError::Deserialization),
                },
    {
        let mut cur = self.imp.first_entry();
        let ghost mut pos: int = self@.log.len() as int;
        loop
            invariant
                self.inv(),
                0 <= pos <= self@.log.len(),
                cur == if pos == 0 {
                    SLOT_EMPTY
                } else {
                    self@.log[pos - 1].ids[0]
                },
                forall|rec: int| pos <= rec < self@.log.len() ==> #[trigger] self@.log[rec].ids[0] != slab_id,
            decreases pos,
        {
            if cur == SLOT_EMPTY {
                proof {
                    if pos > 0 {
                        self.imp.lemma_head_not_empty(pos - 1);
                    }
                }
                return Err(StaticHashError::InvalidId);
            }
            let ghost rec = pos - 1;
            if cur == slab_id {
                let (kb, vb) = self.imp.read_value(Ghost(rec), slab_id);
                proof {
                    assert forall|rec2: int|
                        0 <= rec2 < self@.log.len() && #[trigger] self@.log[rec2].ids[0] == slab_id implies rec2
                        == rec by {
                        self.imp.lemma_heads_distinct(rec, rec2);
                    }
                }
                return match K::read(kb.as_slice()) {
                    Some(k) => match V::read(vb.as_slice()) {
                        Some(v) => Ok((k, v)),
                        None => Err(StaticHashError::Deserialization),
                    },
                    None => Err(StaticHashError::Deserialization),
                };
            }
            cur = self.imp.read_link(Ghost(rec), cur);
            proof {
                pos = rec;
            }
        }
    }

    /// Writes `data` at offset `offset` of the value of the record stored for
    /// the raw `key`, probing from the slot the caller's `hash` selects, in
    /// that record's first slab: write access to the first slab that keeps
    /// the record's layout. `Ok(false)` and no change when no record holds
    /// the key; `OutOfRange` and no change when the bytes to write do not lie
    /// within the value and within the first slab.
    pub fn get_raw_mut(&mut self, key: &[u8], hash: u64, offset: usize, data: &[u8]) -> (r: Result<bool, StaticHashError>)
        requires
            old(self).inv(),
            old(self)@.slots.len() > 0,
        ensures
            final(self).inv(),
            match old(self)@.lookup(key@, start_slot(hash, old(self)@.slots.len())) {
                None => r == Ok::<bool, StaticHashError>(false) && final(self)@ == old(self)@,
                Some(rec) => if old(self)@.value_write_fits(rec, offset as nat, data@.len()) {
                    &&& r == Ok::<bool, StaticHashError>(true)
                    &&& final(self)@ == old(self)@.after_value_write(rec, offset as nat, data@)
                } else {
                    &&& r == Err::<bool, StaticHashError>(StaticHashError::OutOfRange)
                    &&& final(self)@ == old(self)@
                },
            },
    {
        let start = start_for(hash, self.imp.slot_count());
        self.imp.get_raw_mut_impl(key, start, offset, data)
    }

    /// An iterator over the records, one per stored key, newest first.
    pub fn into_iter(&self) -> (it: StaticHashtableIter<'_, K, V>)
        requires
            self.inv(),
        ensures
            it.wf(),
            it.table() == self,
            it.remaining() == self@.log.len(),
    {
        StaticHashtableIter { cur: self.imp.first_entry(), h: self, pos: Ghost(self@.log.len() as int) }
    }
}

/// What one step of a walk over `log` gives, from `pre` records left to
/// `post` left: `None` once every record has been returned, and from then
/// on; otherwise the newest record not yet returned, decoded, or `None`,
/// which ends the walk, when it does not decode.
pub open spec fn next_outcome<K: Serializable, V: Serializable>(
    log: Seq<Record>,
    pre: int,
    post: int,
    r: Option<(K, V)>,
) -> bool {
    &&& pre == 0 ==> r is None && post == 0
    &&& pre > 0 ==> {
        let rec = log[pre - 1];
        &&& r is Some ==> post == pre - 1
        &&& r is None ==> post == 0
        &&& (K::obeys_ser() && V::obeys_ser()) ==> r == match (K::deser(rec.key), V::deser(rec.value)) {
            (Some(k), Some(v)) => Some((k, v)),
            _ => None,
        }
    }
}

/// Walks the records of a `StaticHashtable`, one per stored key, the most
/// recently added key first, decoding each.
pub struct StaticHashtableIter<'a, K, V> {
    cur: u64,
    h: &'a StaticHashtable<K, V>,
    pos: Ghost<int>,
}

impl<'a, K: Serializable, V: Serializable> StaticHashtableIter<'a, K, V> {
    /// The table walked.
    pub closed spec fn table(&self) -> &'a StaticHashtable<K, V> {
        self.h
    }

    /// Number of records not yet returned: the oldest ones.
    pub closed spec fn remaining(&self) -> int {
        self.pos@
    }

    /// The iterator is positioned on a record of its table.
    pub closed spec fn wf(&self) -> bool {
        &&& self.h.inv()
        &&& 0 <= self.pos@ <= self.h@.log.len()
        &&& self.cur == if self.pos@ == 0 {
            SLOT_EMPTY
        } else {
            self.h@.log[self.pos@ - 1].ids[0]
        }
    }

    /// The next record, decoded. Returns `None` once every record has been
    /// returned, and from then on; also when a record does not decode, which
    /// ends the walk.
    pub fn next(&mut self) -> (r: Option<(K, V)>)
        requires
            old(self).wf(),
        ensures
            final(self).wf(),
            final(self).table() == old(self).table(),
            next_outcome::<K, V>(old(self).table()@.log, old(self).remaining(), final(self).remaining(), r),
    {
        self.do_next()
    }

    /// See `next`.
    fn do_next(&mut self) -> (r: Option<(K, V)>)
        requires
            old(self).wf(),
        ensures
            final(self).wf(),
            final(self).table() == old(self).table(),
            next_outcome::<K, V>(old(self).table()@.log, old(self).remaining(), final(self).remaining(), r),
    {
        if self.cur == SLOT_EMPTY {
            proof {
                if self.pos@ > 0 {
                    self.h.imp.lemma_head_not_empty(self.pos@ - 1);
                }
            }
            return None;
        }
        let ghost r = self.pos@ - 1;
        let (kb, vb) = self.h.imp.read_value(Ghost(r), self.cur);
        let next = self.h.imp.read_link(Ghost(r), self.cur);
        match K::read(kb.as_slice()) {
            Some(k) => match V::read(vb.as_slice()) {
                Some(v) => {
                    self.cur = next;
                    self.pos = Ghost(r);
                    Some((k, v))
                },
                None => {
                    self.cur = SLOT_EMPTY;
                    self.pos = Ghost(0);
                    None
                },
            },
            None => {
                self.cur = SLOT_EMPTY;
                self.pos = Ghost(0);
                None
            },
        }
    }
}

impl<K: Serializable> StaticHashset<K> {
    pub closed spec fn view(&self) -> StaticHashView {
        self.imp@
    }

    /// The set's invariant.
    pub closed spec fn inv(&self) -> bool {
        self.imp.inv()
    }

    /// Inserts `key`, stored with an empty value.
    pub fn insert(&mut self, key: &K) -> (r: Result<(), StaticHashError>)
        requires
            old(self).inv(),
            old(self)@.slots.len() > 0,
            old(self)@.slab_size >= 24,
        ensures
            final(self).inv(),
            exists|kb: Seq<u8>|
                {
                    &&& K::obeys_ser() ==> kb == key.ser()
                    &&& #[trigger] insert_outcome(
                        old(self)@,
                        final(self)@,
                        r,
                        kb,
                        start_slot(default_hash(kb), old(self)@.slots.len()),
                        Seq::empty(),
                    )
                },
    {
        let kb = serialize(key);
        let h = hash_bytes(kb.as_slice());
        let start = start_for(h, self.imp.slot_count());
        let empty: Vec<u8> = Vec::new();
        let r = self.imp.insert_impl(kb.as_slice(), start, empty.as_slice());
        assert(empty@ =~= Seq::<u8>::empty());
        assert(insert_outcome(
            old(self)@,
            self@,
            r,
            kb@,
            start_slot(default_hash(kb@), old(self)@.slots.len()),
            Seq::empty(),
        ));
        r
    }

    /// The slots of the set refer to records of its log.
    pub proof fn lemma_slots_valid(&self)
        requires
            self.inv(),
        ensures
            self@.slots_valid(),
            self@.used <= self@.slab_count,
    {
        self.imp.lemma_slots_valid();
    }

    /// Whether `key` is in the set.
    pub fn contains(&self, key: &K) -> (r: Result<bool, StaticHashError>)
        requires
            self.inv(),
            self@.slots.len() > 0,
        ensures
            exists|kb: Seq<u8>|
                {
                    &&& K::obeys_ser() ==> kb == key.ser()
                    &&& #[trigger] self@.lookup(kb, start_slot(default_hash(kb), self@.slots.len())) is Some
                        <==> r == Ok::<bool, StaticHashError>(true)
                    &&& r is Ok
                },
    {
        let kb = serialize(key);
        let h = hash_bytes(kb.as_slice());
        let start = start_for(h, self.imp.slot_count());
        let found = self.imp.find_entry(kb.as_slice(), start);
        let r = Ok(found.is_some());
        assert(self@.lookup(kb@, start_slot(default_hash(kb@), self@.slots.len())) is Some <==> r
            == Ok::<bool, StaticHashError>(true));
        r
    }
}

} // verus!
