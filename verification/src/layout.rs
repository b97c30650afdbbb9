//! How a key/value record is laid out over a chain of slabs.
//!
//! Each slab of `slab_size` bytes holds `slab_size - 8` data bytes followed by
//! the big-endian id of the next slab of the chain (`u64::MAX` on the last).
//! The data bytes of the chain, read in order, are:
//!
//! * the id of the first slab of the record stored before this one
//!   (`u64::MAX` for the first record), 8 bytes;
//! * the key length, 8 bytes, then the key;
//! * the value length, 8 bytes, then the value. The value length is never
//!   split over two slabs: where fewer than 8 bytes are left in the current
//!   slab, it starts at the beginning of the next one;
//! * zeros up to the end of the last slab.
use vstd::prelude::*;
use crate::bytes::{be_u64, from_be_u64, lemma_be_u64_roundtrip, u64_to_be, u64_from_be};
use crate::slabs::zeros;

verus! {

/// Bytes skipped before the value length, for a key of `klen` bytes and
/// `bps` data bytes per slab.
pub open spec fn pad_len(klen: nat, bps: nat) -> nat
    recommends
        bps > 0,
{
    let o = ((16 + klen as int) % (bps as int)) as nat;
    if o + 8 <= bps {
        0
    } else {
        (bps - o) as nat
    }
}

/// Offset of the value length in the record's data bytes.
pub open spec fn vlen_pos(klen: nat, bps: nat) -> nat {
    16 + klen + pad_len(klen, bps)
}

/// Number of meaningful data bytes of a record.
pub open spec fn content_len(klen: nat, vlen: nat, bps: nat) -> nat {
    vlen_pos(klen, bps) + 8 + vlen
}

/// Number of slabs in the chain of a record.
pub open spec fn page_count(klen: nat, vlen: nat, bps: nat) -> nat
    recommends
        bps > 0,
{
    ((content_len(klen, vlen, bps) + bps - 1) / (bps as int)) as nat
}

/// The meaningful data bytes of a record.
pub open spec fn record_content(link: u64, key: Seq<u8>, value: Seq<u8>, bps: nat) -> Seq<u8> {
    be_u64(link) + be_u64(key.len() as u64) + key + zeros(pad_len(key.len(), bps)) + be_u64(
        value.len() as u64,
    ) + value
}

/// The data bytes of all slabs of a record, in chain order.
pub open spec fn record_bytes(link: u64, key: Seq<u8>, value: Seq<u8>, bps: nat) -> Seq<u8> {
    let c = record_content(link, key, value, bps);
    c + zeros((page_count(key.len(), value.len(), bps) * bps - c.len()) as nat)
}

/// The data bytes of slab `j` of a chain whose data bytes are `bytes`.
pub open spec fn page_data(bytes: Seq<u8>, j: nat, bps: nat) -> Seq<u8> {
    bytes.subrange((j * bps) as int, ((j + 1) * bps) as int)
}

/// The first page of a chain is its first `bps` bytes.
pub proof fn lemma_first_page(bytes: Seq<u8>, bps: nat)
    ensures
        page_data(bytes, 0, bps) == bytes.subrange(0, bps as int),
{
    assert(0nat * bps == 0) by (nonlinear_arith);
    assert((0nat + 1) * bps == bps) by (nonlinear_arith);
}

/// The whole contents of slab `j` of a chain, followed by `next`.
pub open spec fn slab_image(bytes: Seq<u8>, j: nat, bps: nat, next: u64) -> Seq<u8> {
    page_data(bytes, j, bps) + be_u64(next)
}

/// The link stored in a record's data bytes.
pub open spec fn stored_link(bytes: Seq<u8>) -> u64 {
    from_be_u64(bytes.subrange(0, 8))
}

/// The key length stored in a record's data bytes.
pub open spec fn stored_klen(bytes: Seq<u8>) -> nat {
    from_be_u64(bytes.subrange(8, 16)) as nat
}

/// The key stored in a record's data bytes.
pub open spec fn stored_key(bytes: Seq<u8>) -> Seq<u8> {
    bytes.subrange(16, 16 + stored_klen(bytes) as int)
}

/// The value length stored in a record's data bytes.
pub open spec fn stored_vlen(bytes: Seq<u8>, bps: nat) -> nat {
    let q = vlen_pos(stored_klen(bytes), bps);
    from_be_u64(bytes.subrange(q as int, q + 8int)) as nat
}

/// The value stored in a record's data bytes.
pub open spec fn stored_value(bytes: Seq<u8>, bps: nat) -> Seq<u8> {
    let q = vlen_pos(stored_klen(bytes), bps);
    bytes.subrange(q + 8int, q + 8int + stored_vlen(bytes, bps) as int)
}

/// Ceiling division leaves room for all bytes and no spare slab.
pub proof fn lemma_page_count(c: nat, b: nat)
    requires
        b > 0,
    ensures
        ((c + b - 1) / (b as int)) * b >= c,
        ((c + b - 1) / (b as int)) * b < c + b,
        c > 0 ==> (c + b - 1) / (b as int) >= 1,
{
    let n = (c + b - 1) / (b as int);
    let r = (c + b - 1) % (b as int);
    assert(c + b - 1 == n * b + r && 0 <= r < b) by (nonlinear_arith)
        requires
            b > 0,
            n == (c + b - 1) / (b as int),
            r == (c + b - 1) % (b as int),
    ;
    assert(c > 0 ==> n >= 1) by (nonlinear_arith)
        requires
            c + b - 1 == n * b + r,
            0 <= r < b,
            b > 0,
    ;
}

/// Facts about the padding before the value length: it keeps the value
/// length inside one slab.
pub proof fn lemma_pad(klen: nat, bps: nat)
    requires
        bps >= 16,
    ensures
        pad_len(klen, bps) < bps,
        (vlen_pos(klen, bps) as int % (bps as int)) + 8 <= bps,
{
    let o = ((16 + klen as int) % (bps as int)) as nat;
    assert(0 <= o < bps);
    if o + 8 > bps {
        let p: int = 16 + klen + (bps - o);
        assert(p % (bps as int) == 0) by (nonlinear_arith)
            requires
                o == (16 + klen as int) % (bps as int),
                p == 16 + klen + (bps - o),
                bps > 0,
        ;
    }
}

/// Reading the data bytes of a record gives back its link, key and value.
pub proof fn lemma_record_roundtrip(link: u64, key: Seq<u8>, value: Seq<u8>, bps: nat)
    requires
        bps >= 16,
        key.len() <= u64::MAX,
        value.len() <= u64::MAX,
    ensures
        record_content(link, key, value, bps).len() == content_len(key.len(), value.len(), bps),
        record_bytes(link, key, value, bps).len() == page_count(key.len(), value.len(), bps) * bps,
        page_count(key.len(), value.len(), bps) >= 1,
        record_bytes(link, key, value, bps).len() >= content_len(key.len(), value.len(), bps),
        record_bytes(link, key, value, bps).len() < content_len(key.len(), value.len(), bps) + bps,
        stored_link(record_bytes(link, key, value, bps)) == link,
        stored_klen(record_bytes(link, key, value, bps)) == key.len(),
        stored_key(record_bytes(link, key, value, bps)) == key,
        stored_vlen(record_bytes(link, key, value, bps), bps) == value.len(),
        stored_value(record_bytes(link, key, value, bps), bps) == value,
{
    let kl = key.len();
    let vl = value.len();
    let c = record_content(link, key, value, bps);
    let b = record_bytes(link, key, value, bps);
    let pad = pad_len(kl, bps);
    let q = vlen_pos(kl, bps);
    lemma_be_u64_roundtrip(link);
    lemma_be_u64_roundtrip(kl as u64);
    lemma_be_u64_roundtrip(vl as u64);
    assert(c.len() == content_len(kl, vl, bps));
    lemma_page_count(c.len(), bps);
    assert(b.len() == page_count(kl, vl, bps) * bps);
    assert(b.subrange(0, 8) =~= be_u64(link));
    assert(b.subrange(8, 16) =~= be_u64(kl as u64));
    assert(b.subrange(16, 16 + kl as int) =~= key);
    assert(b.subrange(q as int, q + 8int) =~= be_u64(vl as u64));
    assert(b.subrange(q + 8int, q + 8int + vl as int) =~= value);
}

/// Two records that differ in their link alone differ in their first 8
/// data bytes alone.
pub proof fn lemma_relink(l1: u64, l2: u64, key: Seq<u8>, value: Seq<u8>, bps: nat)
    ensures
        record_bytes(l2, key, value, bps).len() == record_bytes(l1, key, value, bps).len(),
        record_bytes(l2, key, value, bps) == be_u64(l2) + record_bytes(l1, key, value, bps).subrange(
            8,
            record_bytes(l1, key, value, bps).len() as int,
        ),
{
    lemma_be_u64_roundtrip(l1);
    lemma_be_u64_roundtrip(l2);
    let b1 = record_bytes(l1, key, value, bps);
    let b2 = record_bytes(l2, key, value, bps);
    assert(record_content(l1, key, value, bps).len() == record_content(l2, key, value, bps).len());
    assert(b2 =~= be_u64(l2) + b1.subrange(8, b1.len() as int));
}

/// Writing `data` at offset `off` of a record's value writes it at offset
/// `vlen_pos + 8 + off` of the record's data bytes, and changes nothing else.
pub proof fn lemma_value_splice(link: u64, key: Seq<u8>, value: Seq<u8>, off: nat, data: Seq<u8>, bps: nat)
    requires
        off + data.len() <= value.len(),
    ensures
        ({
            let v2 = value.subrange(0, off as int) + data + value.subrange(
                (off + data.len()) as int,
                value.len() as int,
            );
            let b = record_bytes(link, key, value, bps);
            let c = vlen_pos(key.len(), bps) + 8 + off;
            &&& v2.len() == value.len()
            &&& c + data.len() <= b.len()
            &&& record_bytes(link, key, v2, bps) == b.subrange(0, c as int) + data + b.subrange(
                (c + data.len()) as int,
                b.len() as int,
            )
        }),
{
    let v2 = value.subrange(0, off as int) + data + value.subrange(
        (off + data.len()) as int,
        value.len() as int,
    );
    lemma_be_u64_roundtrip(link);
    lemma_be_u64_roundtrip(key.len() as u64);
    lemma_be_u64_roundtrip(value.len() as u64);
    assert(v2.len() == value.len());
    let h = be_u64(link) + be_u64(key.len() as u64) + key + zeros(pad_len(key.len(), bps)) + be_u64(
        value.len() as u64,
    );
    assert(h.len() == vlen_pos(key.len(), bps) + 8);
    assert(record_content(link, key, v2, bps) == h + v2);
    assert(record_content(link, key, value, bps) == h + value);
    let b = record_bytes(link, key, value, bps);
    let c = vlen_pos(key.len(), bps) + 8 + off;
    assert(record_bytes(link, key, v2, bps) =~= b.subrange(0, c as int) + data + b.subrange(
        (c + data.len()) as int,
        b.len() as int,
    ));
}

/// Number of slabs needed for a key of `klen` and a value of `vlen` bytes,
/// with `bps` data bytes per slab.
pub fn pages_needed(klen: usize, vlen: usize, bps: usize) -> (r: usize)
    requires
        bps >= 16,
        klen + vlen + 2 * bps + 32 <= usize::MAX,
    ensures
        r == page_count(klen as nat, vlen as nat, bps as nat),
        content_len(klen as nat, vlen as nat, bps as nat) + bps <= usize::MAX,
{
    proof {
        lemma_pad(klen as nat, bps as nat);
    }
    let o = (16 + klen) % bps;
    let pad = if o + 8 <= bps {
        0
    } else {
        bps - o
    };
    let c = 16 + klen + pad + 8 + vlen;
    (c + bps - 1) / bps
}

/// The data bytes of the chain for a record.
pub fn encode_record(link: u64, key: &[u8], value: &[u8], bps: usize) -> (r: Vec<u8>)
    requires
        bps >= 16,
        key@.len() + value@.len() + 2 * bps + 32 <= usize::MAX,
    ensures
        r@ == record_bytes(link, key@, value@, bps as nat),
{
    let n = pages_needed(key.len(), value.len(), bps);
    proof {
        lemma_pad(key@.len(), bps as nat);
        lemma_page_count(content_len(key@.len(), value@.len(), bps as nat), bps as nat);
    }
    let mut out: Vec<u8> = Vec::new();
    u64_to_be(link, &mut out);
    u64_to_be(key.len() as u64, &mut out);
    let ghost c0 = out@;
    let mut i: usize = 0;
    while i < key.len()
        invariant
            i <= key@.len(),
            out@ == c0 + key@.subrange(0, i as int),
        decreases key@.len() - i,
    {
        out.push(key[i]);
        i = i + 1;
        assert(out@ =~= c0 + key@.subrange(0, i as int));
    }
    assert(key@.subrange(0, key@.len() as int) =~= key@);
    let o = (16 + key.len()) % bps;
    let pad = if o + 8 <= bps {
        0
    } else {
        bps - o
    };
    let ghost c1 = out@;
    let mut i: usize = 0;
    while i < pad
        invariant
            i <= pad,
            out@ == c1 + zeros(i as nat),
        decreases pad - i,
    {
        out.push(0u8);
        i = i + 1;
        assert(out@ =~= c1 + zeros(i as nat));
    }
    u64_to_be(value.len() as u64, &mut out);
    let ghost c2 = out@;
    let mut i: usize = 0;
    while i < value.len()
        invariant
            i <= value@.len(),
            out@ == c2 + value@.subrange(0, i as int),
        decreases value@.len() - i,
    {
        out.push(value[i]);
        i = i + 1;
        assert(out@ =~= c2 + value@.subrange(0, i as int));
    }
    assert(value@.subrange(0, value@.len() as int) =~= value@);
    assert(out@ =~= record_content(link, key@, value@, bps as nat));
    let total = n * bps;
    let ghost c3 = out@;
    while out.len() < total
        invariant
            c3.len() <= total,
            c3.len() <= out@.len() <= total,
            out@ == c3 + zeros((out@.len() - c3.len()) as nat),
        decreases total - out@.len(),
    {
        out.push(0u8);
        assert(out@ =~= c3 + zeros((out@.len() - c3.len()) as nat));
    }
    assert(out@ =~= record_bytes(link, key@, value@, bps as nat));
    out
}

/// Reads a big-endian u64 at `off` of `bytes`.
pub fn read_u64_at(bytes: &[u8], off: usize) -> (r: u64)
    requires
        off + 8 <= bytes@.len(),
    ensures
        r == from_be_u64(bytes@.subrange(off as int, off + 8)),
{
    u64_from_be(bytes, off)
}

} // verus!
