//! Properties of the static hash table that span its operations.
use vstd::prelude::*;
use crate::ser::{Serializable, ser_roundtrips};
use crate::slabs::{created_after, free_after};
use crate::layout::vlen_pos;
use crate::static_hash::{
    insert_outcome, probe, record_fits, shift, start_slot, Record, StaticHashError, StaticHashView,
};
use crate::table::{default_hash, get_outcome, next_outcome};

verus! {

/// Every key the table holds is found by a probe from the slot its hash
/// selects: true of a table that only typed inserts have filled.
pub open spec fn well_placed(t: StaticHashView) -> bool {
    forall|s: int|
        0 <= s < t.slots.len() && #[trigger] t.slots[s] is Some ==> t.find_slot(
            t.log[t.slots[s].unwrap()].key,
            start_slot(default_hash(t.log[t.slots[s].unwrap()].key), t.slots.len()),
        ) == Some(s)
}

/// The probe, from position `i` on, stops nowhere exactly when every slot it
/// visits holds another key.
proof fn lemma_probe_none_from(slots: Seq<Option<int>>, log: Seq<Record>, start: int, key: Seq<u8>, i: nat)
    requires
        slots.len() > 0,
    ensures
        probe(slots, log, start, key, i) is None <==> forall|j: int|
            i <= j < slots.len() ==> (#[trigger] slots[(start + j) % (slots.len() as int)] matches Some(r)
                && log[r].key != key),
    decreases slots.len() - i,
{
    if i < slots.len() {
        lemma_probe_none_from(slots, log, start, key, i + 1);
        let s = (start + i) % (slots.len() as int);
        if probe(slots, log, start, key, i) is None {
            assert forall|j: int| i <= j < slots.len() implies (#[trigger] slots[(start + j) % (
            slots.len() as int)] matches Some(r) && log[r].key != key) by {
                if j > i {
                } else {
                    assert(j == i);
                }
            }
        }
    }
}

/// Capacity: a probe for `key` finds no slot to write to exactly when every
/// slot of the table holds a record with another key.
pub proof fn law_probe_none_iff_full(t: StaticHashView, key: Seq<u8>, start: int)
    requires
        t.slots.len() > 0,
    ensures
        t.find_slot(key, start) is None <==> forall|s: int|
            0 <= s < t.slots.len() ==> (#[trigger] t.slots[s] matches Some(r) && t.log[r].key
                != key),
{
    let len = t.slots.len() as int;
    lemma_probe_none_from(t.slots, t.log, start, key, 0);
    if t.find_slot(key, start) is None {
        assert forall|s: int| 0 <= s < len implies (#[trigger] t.slots[s] matches Some(r)
            && t.log[r].key != key) by {
            let j = (s - start) % len;
            vstd::arithmetic::div_mod::lemma_add_mod_noop_right(start, s - start, len);
            vstd::arithmetic::div_mod::lemma_small_mod(s as nat, len as nat);
            assert((start + j) % len == s);
            assert(t.slots[(start + j) % len] matches Some(r) && t.log[r].key != key);
        }
    }
    if forall|s: int|
        0 <= s < len ==> (#[trigger] t.slots[s] matches Some(r) && t.log[r].key != key) {
        assert forall|j: int| 0 <= j < len implies (#[trigger] t.slots[(start + j) % len] matches Some(
            r,
        ) && t.log[r].key != key) by {
            let s = (start + j) % len;
            assert(0 <= s < len);
            assert(t.slots[s] matches Some(r) && t.log[r].key != key);
        }
    }
}

/// Slot `t` of `post` holds what slot `t` of `pre` holds: nothing, or the
/// same record, wherever it now stands in the log.
pub open spec fn same_at(pre: StaticHashView, post: StaticHashView, t: int) -> bool {
    match pre.slots[t] {
        None => post.slots[t] is None,
        Some(r) => post.slots[t] matches Some(q) && post.log[q] == pre.log[r],
    }
}

/// What an insert into slot `s`, where its probe stopped, keeps and changes:
/// every other slot holds what it held, and slot `s` then holds the newest
/// record, with the key and value written. A new key adds a record; the
/// record of a key that was held is removed from its place.
pub proof fn lemma_write_effect(pre: StaticHashView, s: int, key: Seq<u8>, value: Seq<u8>)
    requires
        0 <= s < pre.slots.len(),
        pre.slots_valid(),
        pre.slots[s] is None || pre.log[pre.slots[s].unwrap()].key == key,
        pre.slots[s] is Some ==> pre.records_live(),
    ensures
        ({
            let post = pre.after_insert(s, key, value);
            &&& post.slots.len() == pre.slots.len()
            &&& forall|t: int| 0 <= t < pre.slots.len() && t != s ==> #[trigger] same_at(pre, post, t)
            &&& post.log.len() >= 1
            &&& post.slots[s] == Some(post.log.len() - 1)
            &&& post.log.last().key == key
            &&& post.log.last().value == value
            &&& pre.slots[s] is None ==> {
                &&& post.log.len() == pre.log.len() + 1
                &&& forall|r: int| 0 <= r < pre.log.len() ==> #[trigger] post.log[r] == pre.log[r]
            }
            &&& pre.slots[s] matches Some(rr) ==> {
                &&& post.log.len() == pre.log.len()
                &&& post.log.drop_last() == pre.log.remove(rr)
            }
            &&& post.slots_valid()
        }),
{
    let post = pre.after_insert(s, key, value);
    match pre.slots[s] {
        None => {},
        Some(rr) => {
            pre.log.remove_ensures(rr);
            assert(post.log.drop_last() =~= pre.log.remove(rr));
        },
    }
    assert forall|t: int| 0 <= t < pre.slots.len() && t != s implies #[trigger] same_at(pre, post, t) by {
        match pre.slots[s] {
            None => {},
            Some(rr) => {
                match pre.slots[t] {
                    None => {},
                    Some(r) => {
                        assert(pre.slots[t] != pre.slots[s]);
                        assert(0 <= r < pre.log.len());
                        if r > rr {
                            assert(post.slots[t] == Some(r - 1));
                            assert(post.log[r - 1] == pre.log.remove(rr)[r - 1]);
                        } else {
                            assert(post.slots[t] == Some(r));
                            assert(post.log[r] == pre.log.remove(rr)[r]);
                        }
                    },
                }
            },
        }
    }
    assert forall|x: int| 0 <= x < post.slots.len() implies (#[trigger] post.slots[x] matches Some(r) ==> 0 <= r
        < post.log.len()) by {
        if x != s {
            assert(same_at(pre, post, x));
        }
    }
}

/// A probe that stopped at slot `s` before an insert into `s` stops there
/// again afterwards.
proof fn lemma_probe_after_insert(pre: StaticHashView, s: int, key: Seq<u8>, value: Seq<u8>, start: int, i: nat)
    requires
        pre.slots.len() > 0,
        0 <= s < pre.slots.len(),
        probe(pre.slots, pre.log, start, key, i) == Some(s),
        pre.slots_valid(),
        pre.records_live(),
        pre.slots[s] is None || pre.log[pre.slots[s].unwrap()].key == key,
    ensures
        probe(
            pre.after_insert(s, key, value).slots,
            pre.after_insert(s, key, value).log,
            start,
            key,
            i,
        ) == Some(s),
    decreases pre.slots.len() - i,
{
    let post = pre.after_insert(s, key, value);
    lemma_write_effect(pre, s, key, value);
    let t = (start + i) % (pre.slots.len() as int);
    if t != s {
        assert(same_at(pre, post, t));
        match pre.slots[t] {
            None => {},
            Some(r) => {
                lemma_probe_after_insert(pre, s, key, value, start, i + 1);
            },
        }
    }
}

/// Read your write: after an insert of `key` and `value` into the slot a
/// probe from `start` stops at, a lookup of `key` from `start` finds the
/// record of that slot, the newest record, which holds `value`. A new key
/// adds a record; a key that was held keeps the number of records.
pub proof fn law_lookup_after_insert(pre: StaticHashView, key: Seq<u8>, value: Seq<u8>, start: int)
    requires
        pre.slots.len() > 0,
        pre.find_slot(key, start) is Some,
        pre.slots_valid(),
        pre.records_live(),
    ensures
        ({
            let s = pre.find_slot(key, start).unwrap();
            let post = pre.after_insert(s, key, value);
            &&& post.lookup(key, start) == post.slots[s]
            &&& post.slots[s] == Some(post.log.len() - 1)
            &&& post.log.last().key == key
            &&& post.log.last().value == value
            &&& pre.slots[s] is None ==> post.log.len() == pre.log.len() + 1
            &&& pre.slots[s] is Some ==> post.log.len() == pre.log.len()
        }),
{
    let s = pre.find_slot(key, start).unwrap();
    crate::static_hash::lemma_probe_in_range(pre.slots, pre.log, start, key, 0);
    lemma_probe_stops_at(pre, key, start, 0);
    lemma_write_effect(pre, s, key, value);
    lemma_probe_after_insert(pre, s, key, value, start, 0);
}

/// Typed read your write: when keys and values serialize and read back, a
/// lookup after a successful insert of `key` and `value` returns `value`.
pub proof fn law_get_after_insert<K: Serializable, V: Serializable>(
    pre: StaticHashView,
    post: StaticHashView,
    key: K,
    value: V,
    r: Result<Option<V>, StaticHashError>,
)
    requires
        ser_roundtrips::<K>(),
        ser_roundtrips::<V>(),
        pre.slots.len() > 0,
        pre.slots_valid(),
        pre.records_live(),
        insert_outcome(
            pre,
            post,
            Ok(()),
            key.ser(),
            start_slot(default_hash(key.ser()), pre.slots.len()),
            value.ser(),
        ),
        get_outcome::<K, V>(post, key.ser(), r),
    ensures
        r == Ok::<Option<V>, StaticHashError>(Some(value)),
{
    let kb = key.ser();
    let start = start_slot(default_hash(kb), pre.slots.len());
    law_lookup_after_insert(pre, kb, value.ser(), start);
    let s = pre.find_slot(kb, start).unwrap();
    crate::static_hash::lemma_probe_in_range(pre.slots, pre.log, start, kb, 0);
    assert(post == pre.after_insert(s, kb, value.ser()));
    assert(post.slots.len() == pre.slots.len());
    assert(K::deser(kb) == Some(key));
    assert(V::deser(value.ser()) == Some(value));
}

/// Whether some slot of `t` holds a record with `key`.
pub open spec fn holds_key(t: StaticHashView, key: Seq<u8>) -> bool {
    exists|x: int| 0 <= x < t.slots.len() && (#[trigger] t.slots[x] matches Some(r) && t.log[r].key == key)
}

/// A probe stops at a slot that is empty or holds the key.
proof fn lemma_probe_stops_at(t: StaticHashView, key: Seq<u8>, start: int, i: nat)
    ensures
        probe(t.slots, t.log, start, key, i) matches Some(x) ==> (t.slots[x] is None || t.log[t.slots[x].unwrap()].key == key),
    decreases t.slots.len() - i,
{
    if i < t.slots.len() {
        lemma_probe_stops_at(t, key, start, i + 1);
    }
}

/// A lookup of a key that no slot holds finds nothing.
pub proof fn law_lookup_absent(t: StaticHashView, key: Seq<u8>, start: int)
    requires
        !holds_key(t, key),
    ensures
        t.lookup(key, start) is None,
{
    lemma_probe_stops_at(t, key, start, 0);
    crate::static_hash::lemma_probe_in_range(t.slots, t.log, start, key, 0);
    match t.find_slot(key, start) {
        Some(x) => {
            if t.slots[x] is Some {
                assert(t.slots[x] matches Some(r) && t.log[r].key == key);
            }
        },
        None => {},
    }
}

/// A table with every slot empty is well placed.
pub proof fn law_empty_well_placed(t: StaticHashView)
    requires
        forall|x: int| 0 <= x < t.slots.len() ==> #[trigger] t.slots[x] is None,
    ensures
        well_placed(t),
{
}

/// A probe for `kx`, another key than the one inserted, that stopped at an
/// occupied slot `x` before the insert stops there afterwards too.
proof fn lemma_probe_other_key(
    pre: StaticHashView,
    s: int,
    key: Seq<u8>,
    value: Seq<u8>,
    kx: Seq<u8>,
    start: int,
    i: nat,
    x: int,
)
    requires
        pre.slots.len() > 0,
        pre.slots_valid(),
        pre.records_live(),
        0 <= s < pre.slots.len(),
        pre.slots[s] is None || pre.log[pre.slots[s].unwrap()].key == key,
        kx != key,
        probe(pre.slots, pre.log, start, kx, i) == Some(x),
        pre.slots[x] is Some,
    ensures
        probe(
            pre.after_insert(s, key, value).slots,
            pre.after_insert(s, key, value).log,
            start,
            kx,
            i,
        ) == Some(x),
    decreases pre.slots.len() - i,
{
    let post = pre.after_insert(s, key, value);
    lemma_write_effect(pre, s, key, value);
    let t = (start + i) % (pre.slots.len() as int);
    if i < pre.slots.len() {
        match pre.slots[t] {
            None => {},
            Some(r) => {
                if t == s {
                    assert(pre.log[r].key == key);
                } else {
                    assert(same_at(pre, post, t));
                }
                if pre.log[r].key != kx {
                    lemma_probe_other_key(pre, s, key, value, kx, start, i + 1, x);
                }
            },
        }
    }
}

/// An insert into the slot its own probe stops at keeps a table well
/// placed.
pub proof fn law_insert_keeps_well_placed(pre: StaticHashView, key: Seq<u8>, value: Seq<u8>)
    requires
        pre.slots.len() > 0,
        pre.slots_valid(),
        pre.records_live(),
        well_placed(pre),
        pre.find_slot(key, start_slot(default_hash(key), pre.slots.len())) is Some,
    ensures
        well_placed(
            pre.after_insert(
                pre.find_slot(key, start_slot(default_hash(key), pre.slots.len())).unwrap(),
                key,
                value,
            ),
        ),
        pre.after_insert(
            pre.find_slot(key, start_slot(default_hash(key), pre.slots.len())).unwrap(),
            key,
            value,
        ).slots_valid(),
{
    let len = pre.slots.len();
    let st = start_slot(default_hash(key), len);
    let s = pre.find_slot(key, st).unwrap();
    crate::static_hash::lemma_probe_in_range(pre.slots, pre.log, st, key, 0);
    lemma_probe_stops_at(pre, key, st, 0);
    let post = pre.after_insert(s, key, value);
    lemma_write_effect(pre, s, key, value);
    assert forall|x: int|
        0 <= x < post.slots.len() && #[trigger] post.slots[x] is Some implies post.find_slot(
        post.log[post.slots[x].unwrap()].key,
        start_slot(default_hash(post.log[post.slots[x].unwrap()].key), post.slots.len()),
    ) == Some(x) by {
        if x == s {
            lemma_probe_after_insert(pre, s, key, value, st, 0);
        } else {
            lemma_write_effect(pre, s, key, value);
            assert(same_at(pre, post, x));
            let r = pre.slots[x].unwrap();
            let kx = pre.log[r].key;
            assert(pre.find_slot(kx, start_slot(default_hash(kx), len)) == Some(x));
            if kx == key {
                assert(false);
            }
            lemma_probe_other_key(pre, s, key, value, kx, start_slot(default_hash(kx), len), 0, x);
        }
    }
}

/// A lookup of `key` from `start` in `post` finds what it finds in `pre`:
/// nothing, or the same record, wherever it now stands in the log.
pub open spec fn same_found(pre: StaticHashView, post: StaticHashView, key: Seq<u8>, start: int) -> bool {
    match pre.lookup(key, start) {
        None => post.lookup(key, start) is None,
        Some(r) => post.lookup(key, start) matches Some(q) && post.log[q] == pre.log[r],
    }
}

/// An insert leaves the lookup of every other key of a well placed table as
/// it was: it finds nothing, or the same record.
pub proof fn law_lookup_other_key(pre: StaticHashView, key: Seq<u8>, value: Seq<u8>, key2: Seq<u8>)
    requires
        pre.slots.len() > 0,
        pre.slots_valid(),
        pre.records_live(),
        well_placed(pre),
        pre.find_slot(key, start_slot(default_hash(key), pre.slots.len())) is Some,
        key2 != key,
    ensures
        ({
            let post = pre.after_insert(
                pre.find_slot(key, start_slot(default_hash(key), pre.slots.len())).unwrap(),
                key,
                value,
            );
            same_found(pre, post, key2, start_slot(default_hash(key2), pre.slots.len()))
        }),
{
    let len = pre.slots.len();
    let st = start_slot(default_hash(key), len);
    let st2 = start_slot(default_hash(key2), len);
    let s = pre.find_slot(key, st).unwrap();
    crate::static_hash::lemma_probe_in_range(pre.slots, pre.log, st, key, 0);
    lemma_probe_stops_at(pre, key, st, 0);
    let post = pre.after_insert(s, key, value);
    lemma_write_effect(pre, s, key, value);
    if holds_key(pre, key2) {
        let x = choose|x: int| 0 <= x < pre.slots.len() && (#[trigger] pre.slots[x] matches Some(r) && pre.log[r].key == key2);
        assert(pre.find_slot(key2, st2) == Some(x));
        lemma_probe_other_key(pre, s, key, value, key2, st2, 0, x);
        assert(x != s);
        assert(same_at(pre, post, x));
    } else {
        law_lookup_absent(pre, key2, st2);
        if holds_key(post, key2) {
            let x = choose|x: int| 0 <= x < post.slots.len() && (#[trigger] post.slots[x] matches Some(r) && post.log[r].key == key2);
            if x != s {
                assert(same_at(pre, post, x));
                let r = pre.slots[x].unwrap();
                assert(pre.slots[x] matches Some(r) && pre.log[r].key == key2);
            } else {
                assert(post.slots[s] == Some(post.log.len() - 1));
            }
        }
        law_lookup_absent(post, key2, st2);
    }
}

/// In a well placed table, a lookup of a held key from the slot its hash
/// selects finds the record that holds it.
pub proof fn law_lookup_present(t: StaticHashView, x: int)
    requires
        well_placed(t),
        0 <= x < t.slots.len(),
        t.slots[x] is Some,
    ensures
        t.lookup(
            t.log[t.slots[x].unwrap()].key,
            start_slot(default_hash(t.log[t.slots[x].unwrap()].key), t.slots.len()),
        ) == t.slots[x],
{
}

/// Number of occupied slots.
pub open spec fn occupied(slots: Seq<Option<int>>) -> nat
    decreases slots.len(),
{
    if slots.len() == 0 {
        0
    } else {
        occupied(slots.drop_last()) + if slots.last() is Some {
            1nat
        } else {
            0nat
        }
    }
}

/// Writing `v` into slot `s` changes the number of occupied slots by what
/// the slot held and what it holds.
pub proof fn lemma_occupied_update(slots: Seq<Option<int>>, s: int, v: Option<int>)
    requires
        0 <= s < slots.len(),
    ensures
        occupied(slots.update(s, v)) + (if slots[s] is Some {
            1nat
        } else {
            0nat
        }) == occupied(slots) + (if v is Some {
            1nat
        } else {
            0nat
        }),
    decreases slots.len(),
{
    let u = slots.update(s, v);
    if s == slots.len() - 1 {
        assert(u.drop_last() =~= slots.drop_last());
    } else {
        assert(u.drop_last() =~= slots.drop_last().update(s, v));
        lemma_occupied_update(slots.drop_last(), s, v);
    }
}

/// An insert that is refused changes nothing. One that succeeds adds one
/// record and occupies one more slot when the key was not held, and changes
/// neither when it replaced the key's record; the free slabs drop by the
/// slabs the new record takes, less those of the record it replaced, which
/// are released.
pub proof fn law_insert_accounting(
    pre: StaticHashView,
    post: StaticHashView,
    r: Result<(), StaticHashError>,
    key: Seq<u8>,
    start: int,
    value: Seq<u8>,
)
    requires
        pre.used <= pre.slab_count,
        pre.slab_size >= 24,
        pre.slots_valid(),
        pre.records_valid(),
        pre.records_live(),
        insert_outcome(pre, post, r, key, start, value),
    ensures
        r is Err ==> post == pre,
        r is Ok ==> ({
            let s = pre.find_slot(key, start).unwrap();
            let added: nat = if pre.slots[s] is None {
                1
            } else {
                0
            };
            &&& post.log.len() == pre.log.len() + added
            &&& occupied(post.slots) == occupied(pre.slots) + added
            &&& post.free() + pre.pages_for(key, value) == pre.free() + pre.reclaimable(s)
            &&& post.used <= post.slab_count
        }),
{
    if r is Ok {
        let s = pre.find_slot(key, start).unwrap();
        crate::static_hash::lemma_probe_in_range(pre.slots, pre.log, start, key, 0);
        lemma_probe_stops_at(pre, key, start, 0);
        lemma_write_effect(pre, s, key, value);
        let n = pre.pages_for(key, value);
        let fl = pre.free.len();
        assert(n <= pre.free());
        crate::layout::lemma_page_count(
            crate::layout::content_len(key.len(), value.len(), pre.bps()),
            pre.bps(),
        );
        assert(n >= 1);
        match pre.slots[s] {
            None => {
                lemma_occupied_update(pre.slots, s, Some(pre.log.len() as int));
                assert(post.used == created_after(pre.used, pre.free, n));
                assert(post.free == free_after(pre.free, n));
                if n <= fl {
                    assert(post.free.len() == fl - n);
                    assert(post.used == pre.used);
                } else {
                    assert(post.free.len() == 0);
                    assert(post.used == pre.used + n - fl);
                }
                assert(post.free() + n == pre.free());
            },
            Some(rr) => {
                let m = pre.log[rr].ids.len();
                assert(m >= 1);
                assert(post.used == created_after(pre.used, pre.free, n));
                assert(post.free == free_after(pre.free, n) + pre.log[rr].ids);
                if n <= fl {
                    assert(post.free.len() == fl - n + m);
                    assert(post.used == pre.used);
                } else {
                    assert(post.free.len() == m);
                    assert(post.used == pre.used + n - fl);
                }
                assert(post.free() + n == pre.free() + m);
                assert forall|t: int| 0 <= t < pre.slots.len() implies (#[trigger] post.slots[t] is Some)
                    == (pre.slots[t] is Some) by {
                    if t != s {
                        assert(same_at(pre, post, t));
                    }
                }
                lemma_occupied_same(pre.slots, post.slots);
            },
        }
    }
}

/// Two slot sequences with the same occupied slots occupy as many.
pub proof fn lemma_occupied_same(a: Seq<Option<int>>, b: Seq<Option<int>>)
    requires
        a.len() == b.len(),
        forall|t: int| 0 <= t < a.len() ==> (#[trigger] b[t] is Some) == (a[t] is Some),
    ensures
        occupied(a) == occupied(b),
    decreases a.len(),
{
    if a.len() > 0 {
        assert(b[b.len() - 1] is Some == a[a.len() - 1] is Some);
        assert forall|t: int| 0 <= t < a.drop_last().len() implies (#[trigger] b.drop_last()[t] is Some)
            == (a.drop_last()[t] is Some) by {
            assert(b[t] is Some == a[t] is Some);
        }
        lemma_occupied_same(a.drop_last(), b.drop_last());
    }
}

/// What iteration walks after an insert into the slot its probe stopped at:
/// the written record is the newest, iterated first. The other records
/// follow in the order they had: all of them for a key not held before;
/// for a key held before, all but its former record, which is gone.
pub proof fn law_iteration_after_insert(pre: StaticHashView, key: Seq<u8>, value: Seq<u8>, start: int)
    requires
        pre.slots.len() > 0,
        pre.find_slot(key, start) is Some,
        pre.slots_valid(),
        pre.records_live(),
    ensures
        ({
            let s = pre.find_slot(key, start).unwrap();
            let post = pre.after_insert(s, key, value);
            &&& post.log.last().key == key
            &&& post.log.last().value == value
            &&& pre.slots[s] is None ==> post.log.drop_last() == pre.log
            &&& pre.slots[s] matches Some(rr) ==> {
                &&& pre.log[rr].key == key
                &&& post.log.drop_last() == pre.log.remove(rr)
            }
        }),
{
    let s = pre.find_slot(key, start).unwrap();
    crate::static_hash::lemma_probe_in_range(pre.slots, pre.log, start, key, 0);
    lemma_probe_stops_at(pre, key, start, 0);
    lemma_write_effect(pre, s, key, value);
    let post = pre.after_insert(s, key, value);
    if pre.slots[s] is None {
        assert(post.log.drop_last() =~= pre.log);
    }
}

/// Inserting distinct keys one after another, from a table with no record,
/// stores one record per key, in insertion order, each with its value.
/// Iteration walks the records newest first, so it gives the pairs in the
/// reverse of the order in which they were inserted, each once.
pub proof fn law_distinct_inserts(
    states: Seq<StaticHashView>,
    keys: Seq<Seq<u8>>,
    values: Seq<Seq<u8>>,
    starts: Seq<int>,
)
    requires
        keys.len() == values.len(),
        starts.len() == keys.len(),
        states.len() == keys.len() + 1,
        states[0].log.len() == 0,
        states[0].slots.len() > 0,
        states[0].slots_valid(),
        forall|i: int, j: int| 0 <= i < j < keys.len() ==> #[trigger] keys[i] != #[trigger] keys[j],
        forall|i: int|
            0 <= i < keys.len() ==> #[trigger] insert_outcome(
                states[i],
                states[i + 1],
                Ok(()),
                keys[i],
                starts[i],
                values[i],
            ),
    ensures
        states.last().log.len() == keys.len(),
        forall|i: int|
            0 <= i < keys.len() ==> #[trigger] states.last().log[i].key == keys[i]
                && states.last().log[i].value == values[i],
        states.last().slots_valid(),
        states.last().slots.len() == states[0].slots.len(),
    decreases keys.len(),
{
    let n = keys.len() as int;
    if n > 0 {
        let st2 = states.drop_last();
        let k2 = keys.drop_last();
        let v2 = values.drop_last();
        let s2 = starts.drop_last();
        assert forall|i: int| 0 <= i < k2.len() implies #[trigger] insert_outcome(
            st2[i],
            st2[i + 1],
            Ok(()),
            k2[i],
            s2[i],
            v2[i],
        ) by {
            assert(insert_outcome(states[i], states[i + 1], Ok(()), keys[i], starts[i], values[i]));
        }
        assert forall|i: int, j: int| 0 <= i < j < k2.len() implies #[trigger] k2[i] != #[trigger] k2[j] by {
            assert(keys[i] != keys[j]);
        }
        law_distinct_inserts(st2, k2, v2, s2);
        let pre = states[n - 1];
        let post = states[n];
        let key = keys[n - 1];
        let start = starts[n - 1];
        assert(st2.last() == pre);
        assert(insert_outcome(pre, post, Ok(()), key, start, values[n - 1]));
        let s = pre.find_slot(key, start).unwrap();
        crate::static_hash::lemma_probe_in_range(pre.slots, pre.log, start, key, 0);
        lemma_probe_stops_at(pre, key, start, 0);
        match pre.slots[s] {
            Some(r) => {
                assert(pre.log[r].key == k2[r]);
                assert(keys[r] != keys[n - 1]);
            },
            None => {},
        }
        lemma_write_effect(pre, s, key, values[n - 1]);
        assert forall|i: int| 0 <= i < n implies #[trigger] post.log[i].key == keys[i] && post.log[i].value
            == values[i] by {
            if i < n - 1 {
                assert(pre.log[i].key == k2[i]);
                assert(pre.log[i].value == v2[i]);
            }
        }
    }
}

/// Read back: after a successful insert of `key` and `value`, of any
/// lengths, a lookup of `key` from the same start finds a record that holds
/// exactly that key and that value.
pub proof fn law_read_back(pre: StaticHashView, post: StaticHashView, key: Seq<u8>, value: Seq<u8>, start: int)
    requires
        pre.slots.len() > 0,
        pre.slots_valid(),
        pre.records_live(),
        insert_outcome(pre, post, Ok(()), key, start, value),
    ensures
        post.lookup(key, start) matches Some(r) && 0 <= r < post.log.len() && post.log[r].key == key
            && post.log[r].value == value,
{
    law_lookup_after_insert(pre, key, value, start);
}

/// Number of records a walk has left after `i` steps that each returned a
/// record, from `n` records.
proof fn lemma_walk_left<K: Serializable, V: Serializable>(
    log: Seq<Record>,
    left: Seq<int>,
    results: Seq<Option<(K, V)>>,
    i: int,
)
    requires
        left.len() == results.len() + 1,
        left[0] == log.len(),
        forall|t: int| #![trigger results[t]] 0 <= t < results.len() ==> next_outcome::<K, V>(log, left[t], left[t + 1], results[t]),
        forall|t: int| 0 <= t < results.len() && t < log.len() ==> #[trigger] results[t] is Some,
        0 <= i < left.len(),
    ensures
        i <= log.len() ==> left[i] == log.len() - i,
        i > log.len() ==> left[i] == 0,
    decreases i,
{
    if i > 0 {
        lemma_walk_left(log, left, results, i - 1);
        assert(next_outcome::<K, V>(log, left[i - 1], left[i], results[i - 1]));
        if i - 1 < log.len() {
            assert(results[i - 1] is Some);
        }
    }
}

/// While records are left, each step of a walk over records that all decode
/// returns one.
proof fn lemma_walk_some<K: Serializable, V: Serializable>(
    log: Seq<Record>,
    left: Seq<int>,
    results: Seq<Option<(K, V)>>,
    t: int,
)
    requires
        K::obeys_ser(),
        V::obeys_ser(),
        forall|r: int|
            0 <= r < log.len() ==> K::deser(#[trigger] log[r].key) is Some && V::deser(log[r].value) is Some,
        left.len() == results.len() + 1,
        left[0] == log.len(),
        forall|u: int| #![trigger results[u]] 0 <= u < results.len() ==> next_outcome::<K, V>(log, left[u], left[u + 1], results[u]),
        0 <= t < results.len(),
        t < log.len(),
    ensures
        left[t] == log.len() - t,
        results[t] is Some,
    decreases t,
{
    if t > 0 {
        lemma_walk_some(log, left, results, t - 1);
        assert(next_outcome::<K, V>(log, left[t - 1], left[t], results[t - 1]));
    }
    assert(next_outcome::<K, V>(log, left[t], left[t + 1], results[t]));
    let rec = log[left[t] - 1];
    assert(K::deser(rec.key) is Some && V::deser(rec.value) is Some);
}

/// A whole walk: when every record decodes, successive steps of a walk over
/// the records return each record once, newest first, and then `None` on
/// every further step. With `law_distinct_inserts`, the pairs come in the
/// reverse of the order in which they were inserted.
pub proof fn law_walk<K: Serializable, V: Serializable>(
    log: Seq<Record>,
    left: Seq<int>,
    results: Seq<Option<(K, V)>>,
)
    requires
        K::obeys_ser(),
        V::obeys_ser(),
        forall|r: int|
            0 <= r < log.len() ==> K::deser(#[trigger] log[r].key) is Some && V::deser(log[r].value) is Some,
        left.len() == results.len() + 1,
        left[0] == log.len(),
        forall|t: int| #![trigger results[t]] 0 <= t < results.len() ==> next_outcome::<K, V>(log, left[t], left[t + 1], results[t]),
    ensures
        forall|t: int|
            0 <= t < results.len() && t < log.len() ==> #[trigger] results[t] == Some(
                (K::deser(log[log.len() - 1 - t].key).unwrap(), V::deser(log[log.len() - 1 - t].value).unwrap()),
            ),
        forall|t: int| 0 <= t < results.len() && t >= log.len() ==> #[trigger] results[t] is None,
{
    assert forall|t: int| 0 <= t < results.len() && t < log.len() implies #[trigger] results[t] is Some by {
        lemma_walk_some(log, left, results, t);
    }

    assert forall|t: int| 0 <= t < results.len() && t < log.len() implies #[trigger] results[t] == Some(
        (K::deser(log[log.len() - 1 - t].key).unwrap(), V::deser(log[log.len() - 1 - t].value).unwrap()),
    ) by {
        lemma_walk_left(log, left, results, t);
        assert(next_outcome::<K, V>(log, left[t], left[t + 1], results[t]));
    }
    assert forall|t: int| 0 <= t < results.len() && t >= log.len() implies #[trigger] results[t] is None by {
        lemma_walk_left(log, left, results, t);
        assert(next_outcome::<K, V>(log, left[t], left[t + 1], results[t]));
    }
}

/// An insert into the slot its probe stopped at keeps every record held by
/// exactly one slot.
pub proof fn lemma_insert_keeps_live(pre: StaticHashView, s: int, key: Seq<u8>, value: Seq<u8>)
    requires
        0 <= s < pre.slots.len(),
        pre.slots_valid(),
        pre.records_live(),
        pre.slots[s] is None || pre.log[pre.slots[s].unwrap()].key == key,
    ensures
        pre.after_insert(s, key, value).records_live(),
{
    let post = pre.after_insert(s, key, value);
    lemma_write_effect(pre, s, key, value);
    let n = post.log.len() as int;
    // Where each slot other than `s` now points.
    assert forall|t: int| 0 <= t < pre.slots.len() && t != s implies #[trigger] post.slots[t] == match pre.slots[s] {
        None => pre.slots[t],
        Some(rr) => shift(pre.slots[t], rr),
    } by {}
    assert forall|t: int| 0 <= t < pre.slots.len() && t != s implies (#[trigger] post.slots[t] matches Some(q) ==> q
        < n - 1) by {
        match pre.slots[t] {
            None => {},
            Some(x) => {
                assert(x < pre.log.len());
            },
        }
    }
    assert forall|r: int| 0 <= r < post.log.len() implies #[trigger] post.held(r) by {
        if r == n - 1 {
            assert(post.slots[s] == Some(r));
        } else {
            let x = match pre.slots[s] {
                None => r,
                Some(rr) => if r >= rr {
                    r + 1
                } else {
                    r
                },
            };
            assert(0 <= x < pre.log.len());
            assert(pre.held(x));
            let t = choose|t: int| #![trigger pre.slots[t]] 0 <= t < pre.slots.len() && pre.slots[t] == Some(x);
            if t == s {
                assert(pre.slots[s] == Some(x));
            }
            assert(post.slots[t] == Some(r));
        }
    }
    assert forall|s1: int, s2: int|
        0 <= s1 < post.slots.len() && 0 <= s2 < post.slots.len() && s1 != s2 && post.slots[s1] is Some
        implies #[trigger] post.slots[s1] != #[trigger] post.slots[s2] by {
        if s1 != s && s2 != s && pre.slots[s1] is Some && pre.slots[s2] is Some {
            assert(pre.slots[s1] != pre.slots[s2]);
        }
    }
}

/// Through any run of inserts of other keys into a well placed table, a
/// lookup of `key` from the slot its hash selects keeps finding what it
/// found: nothing, or the same record.
pub proof fn law_lookup_through_inserts(
    states: Seq<StaticHashView>,
    keys: Seq<Seq<u8>>,
    values: Seq<Seq<u8>>,
    key: Seq<u8>,
)
    requires
        keys.len() == values.len(),
        states.len() == keys.len() + 1,
        states[0].slots.len() > 0,
        states[0].slots_valid(),
        states[0].records_live(),
        well_placed(states[0]),
        forall|i: int| 0 <= i < keys.len() ==> #[trigger] keys[i] != key,
        forall|i: int|
            0 <= i < keys.len() ==> #[trigger] insert_outcome(
                states[i],
                states[i + 1],
                Ok(()),
                keys[i],
                start_slot(default_hash(keys[i]), states[i].slots.len()),
                values[i],
            ),
    ensures
        same_found(states[0], states.last(), key, start_slot(default_hash(key), states[0].slots.len())),
        states.last().slots.len() == states[0].slots.len(),
        states.last().slots_valid(),
        states.last().records_live(),
        well_placed(states.last()),
    decreases keys.len(),
{
    let n = keys.len() as int;
    let st = start_slot(default_hash(key), states[0].slots.len());
    if n == 0 {
        match states[0].lookup(key, st) {
            None => {},
            Some(r) => {},
        }
    } else {
        let st2 = states.drop_last();
        let k2 = keys.drop_last();
        let v2 = values.drop_last();
        assert forall|i: int| 0 <= i < k2.len() implies #[trigger] insert_outcome(
            st2[i],
            st2[i + 1],
            Ok(()),
            k2[i],
            start_slot(default_hash(k2[i]), st2[i].slots.len()),
            v2[i],
        ) by {
            assert(insert_outcome(
                states[i],
                states[i + 1],
                Ok(()),
                keys[i],
                start_slot(default_hash(keys[i]), states[i].slots.len()),
                values[i],
            ));
        }
        assert forall|i: int| 0 <= i < k2.len() implies #[trigger] k2[i] != key by {
            assert(keys[i] != key);
        }
        law_lookup_through_inserts(st2, k2, v2, key);
        let pre = states[n - 1];
        let post = states[n];
        assert(st2.last() == pre);
        let kn = keys[n - 1];
        let stn = start_slot(default_hash(kn), pre.slots.len());
        assert(insert_outcome(pre, post, Ok(()), kn, stn, values[n - 1]));
        assert(keys[n - 1] != key);
        let s = pre.find_slot(kn, stn).unwrap();
        crate::static_hash::lemma_probe_in_range(pre.slots, pre.log, stn, kn, 0);
        lemma_probe_stops_at(pre, kn, stn, 0);
        lemma_write_effect(pre, s, kn, values[n - 1]);
        lemma_insert_keeps_live(pre, s, kn, values[n - 1]);
        law_insert_keeps_well_placed(pre, kn, values[n - 1]);
        law_lookup_other_key(pre, kn, values[n - 1], key);
        assert(same_found(pre, post, key, st));
        assert(same_found(states[0], pre, key, st));
    }
}

/// Writes into a stored value: a write of `data` at offset `off` of the
/// value of record `rec` is accepted exactly when its bytes lie within the
/// value (`off + data.len() <= value.len()`, so also a write that stops
/// short of the value's end) and within the record's first slab, whose data
/// bytes hold the value from offset `vlen_pos + 8` on. An accepted write
/// leaves the value `v[0..off] + data + v[off + len..]`, of the same length,
/// and changes no key, no other record, no slot and no slab accounting.
pub proof fn law_value_write(t: StaticHashView, rec: int, off: nat, data: Seq<u8>)
    requires
        0 <= rec < t.log.len(),
    ensures
        t.value_write_fits(rec, off, data.len()) <==> (off + data.len() <= t.log[rec].value.len()
            && vlen_pos(t.log[rec].key.len(), t.bps()) + 8 + off + data.len() <= t.bps()),
        off + data.len() <= t.log[rec].value.len() ==> ({
            let v = t.log[rec].value;
            let post = t.after_value_write(rec, off, data);
            &&& post.log.len() == t.log.len()
            &&& post.log[rec].key == t.log[rec].key
            &&& post.log[rec].ids == t.log[rec].ids
            &&& post.log[rec].value.len() == v.len()
            &&& forall|i: int| 0 <= i < off ==> #[trigger] post.log[rec].value[i] == v[i]
            &&& forall|i: int| 0 <= i < data.len() ==> #[trigger] post.log[rec].value[off + i] == data[i]
            &&& forall|i: int| off + data.len() <= i < v.len() ==> #[trigger] post.log[rec].value[i] == v[i]
            &&& forall|r: int| 0 <= r < t.log.len() && r != rec ==> #[trigger] post.log[r] == t.log[r]
            &&& post.slots == t.slots
            &&& post.used == t.used
            &&& post.free == t.free
        }),
{
    if off + data.len() <= t.log[rec].value.len() {
        let v = t.log[rec].value;
        let post = t.after_value_write(rec, off, data);
        assert forall|i: int| 0 <= i < data.len() implies #[trigger] post.log[rec].value[off + i] == data[i] by {
            assert(post.log[rec].value[off + i] == (v.subrange(0, off as int) + data)[off + i]);
        }
    }
}

/// Room decides a replace as it decides a new key: an insert whose probe
/// finds a slot, and whose record's sizes can be computed, fails with
/// `NoMoreSlabs` exactly when fewer slabs are free than the new record
/// takes, whether or not the slot held the key; otherwise it succeeds and
/// writes the record there. The slabs of a record being replaced are not
/// needed for it: they are released after the new record is written.
pub proof fn law_room_for_insert(
    pre: StaticHashView,
    post: StaticHashView,
    r: Result<(), StaticHashError>,
    key: Seq<u8>,
    start: int,
    value: Seq<u8>,
)
    requires
        insert_outcome(pre, post, r, key, start, value),
        pre.find_slot(key, start) is Some,
        record_fits(key, value, pre.slab_size),
    ensures
        r == Err::<(), StaticHashError>(StaticHashError::NoMoreSlabs) <==> pre.free() < pre.pages_for(
            key,
            value,
        ),
        pre.free() >= pre.pages_for(key, value) ==> {
            &&& r == Ok::<(), StaticHashError>(())
            &&& post == pre.after_insert(pre.find_slot(key, start).unwrap(), key, value)
        },
        pre.free() < pre.pages_for(key, value) ==> post == pre,
{
}

/// A key is never held twice: in a well placed table, two slots that hold
/// records with the same key are the same slot.
pub proof fn law_keys_distinct(t: StaticHashView, x: int, y: int)
    requires
        well_placed(t),
        0 <= x < t.slots.len(),
        0 <= y < t.slots.len(),
        t.slots[x] is Some,
        t.slots[y] is Some,
        t.log[t.slots[x].unwrap()].key == t.log[t.slots[y].unwrap()].key,
    ensures
        x == y,
{
}

/// Capacity: an insert fails with `CapacityExceeded` exactly when every
/// slot holds a record with another key.
pub proof fn law_capacity_exceeded(
    pre: StaticHashView,
    post: StaticHashView,
    r: Result<(), StaticHashError>,
    key: Seq<u8>,
    start: int,
    value: Seq<u8>,
)
    requires
        pre.slots.len() > 0,
        insert_outcome(pre, post, r, key, start, value),
    ensures
        r == Err::<(), StaticHashError>(StaticHashError::CapacityExceeded) <==> forall|s: int|
            0 <= s < pre.slots.len() ==> (#[trigger] pre.slots[s] matches Some(rec)
                && pre.log[rec].key != key),
{
    law_probe_none_iff_full(pre, key, start);
}

/// A set holds a key after it was inserted.
pub proof fn law_contains_after_insert<K: Serializable>(pre: StaticHashView, post: StaticHashView, key: K)
    requires
        pre.slots.len() > 0,
        pre.slots_valid(),
        pre.records_live(),
        insert_outcome(
            pre,
            post,
            Ok(()),
            key.ser(),
            start_slot(default_hash(key.ser()), pre.slots.len()),
            Seq::empty(),
        ),
    ensures
        post.lookup(key.ser(), start_slot(default_hash(key.ser()), post.slots.len())) is Some,
{
    let kb = key.ser();
    let start = start_slot(default_hash(kb), pre.slots.len());
    law_lookup_after_insert(pre, kb, Seq::empty(), start);
    crate::static_hash::lemma_probe_in_range(pre.slots, pre.log, start, kb, 0);
}

} // verus!
