//! Values that can be written to and read back from bytes.
//!
//! Integers are written big-endian; `()` is written as no bytes.
use vstd::prelude::*;
use crate::bytes::{
    be_u16, be_u32, be_u64, from_be_u16, from_be_u32, from_be_u64, lemma_be_u16_roundtrip,
    lemma_be_u32_roundtrip, lemma_be_u64_roundtrip, u16_from_be, u16_to_be, u32_from_be,
    u32_to_be, u64_from_be_front, u64_to_be,
};

verus! {

/// A type whose values have a byte encoding. Keys and values of the typed
/// tables are stored in this encoding.
///
/// `write` and `read` follow `ser` and `deser` for the types whose
/// `obeys_ser` is true, as for the impls in this crate. For a type that
/// keeps the defaults, nothing is promised of them.
pub trait Serializable: Sized {
    /// Whether `write` and `read` follow `ser` and `deser`.
    open spec fn obeys_ser() -> bool {
        false
    }

    /// The bytes `write` appends for `self`.
    open spec fn ser(&self) -> Seq<u8> {
        Seq::empty()
    }

    /// What `read` gives for `bytes`.
    open spec fn deser(bytes: Seq<u8>) -> Option<Self> {
        None
    }

    /// Appends the encoding of `self` to `out`.
    fn write(&self, out: &mut Vec<u8>)
        ensures
            Self::obeys_ser() ==> final(out)@ == old(out)@ + self.ser(),
    ;

    /// Reads a value from the front of `bytes`.
    fn read(bytes: &[u8]) -> (r: Option<Self>)
        ensures
            Self::obeys_ser() ==> r == Self::deser(bytes@),
    ;
}

/// `T`'s `write` and `read` follow its spec, and reading what was written
/// gives the value back.
pub open spec fn ser_roundtrips<T: Serializable>() -> bool {
    &&& T::obeys_ser()
    &&& forall|x: T| #[trigger] T::deser(x.ser()) == Some(x)
}

impl Serializable for u8 {
    open spec fn obeys_ser() -> bool {
        true
    }

    open spec fn ser(&self) -> Seq<u8> {
        seq![*self]
    }

    open spec fn deser(bytes: Seq<u8>) -> Option<u8> {
        if bytes.len() >= 1 {
            Some(bytes[0])
        } else {
            None
        }
    }

    fn write(&self, out: &mut Vec<u8>) {
        out.push(*self);
    }

    fn read(bytes: &[u8]) -> (r: Option<u8>) {
        if bytes.len() >= 1 {
            Some(bytes[0])
        } else {
            None
        }
    }
}

/// Reading a written `u8` gives it back.
pub proof fn lemma_u8_roundtrips()
    ensures
        ser_roundtrips::<u8>(),
{
}

impl Serializable for () {
    open spec fn obeys_ser() -> bool {
        true
    }

    open spec fn ser(&self) -> Seq<u8> {
        Seq::empty()
    }

    open spec fn deser(bytes: Seq<u8>) -> Option<()> {
        Some(())
    }

    fn write(&self, out: &mut Vec<u8>) {
        assert(out@ =~= out@ + Seq::<u8>::empty());
    }

    fn read(bytes: &[u8]) -> (r: Option<()>) {
        Some(())
    }
}

/// Reading a written `()` gives it back.
pub proof fn lemma_unit_roundtrips()
    ensures
        ser_roundtrips::<()>(),
{
}

impl Serializable for u16 {
    open spec fn obeys_ser() -> bool {
        true
    }

    open spec fn ser(&self) -> Seq<u8> {
        be_u16(*self)
    }

    open spec fn deser(bytes: Seq<u8>) -> Option<u16> {
        if bytes.len() >= 2 {
            Some(from_be_u16(bytes))
        } else {
            None
        }
    }

    fn write(&self, out: &mut Vec<u8>) {
        u16_to_be(*self, out);
    }

    fn read(bytes: &[u8]) -> (r: Option<u16>) {
        if bytes.len() >= 2 {
            Some(u16_from_be(bytes))
        } else {
            None
        }
    }
}

/// Reading a written `u16` gives it back.
pub proof fn lemma_u16_roundtrips()
    ensures
        ser_roundtrips::<u16>(),
{
    assert forall|x: u16| #[trigger] u16::deser(x.ser()) == Some(x) by {
        lemma_be_u16_roundtrip(x);
    }
}

impl Serializable for u32 {
    open spec fn obeys_ser() -> bool {
        true
    }

    open spec fn ser(&self) -> Seq<u8> {
        be_u32(*self)
    }

    open spec fn deser(bytes: Seq<u8>) -> Option<u32> {
        if bytes.len() >= 4 {
            Some(from_be_u32(bytes))
        } else {
            None
        }
    }

    fn write(&self, out: &mut Vec<u8>) {
        u32_to_be(*self, out);
    }

    fn read(bytes: &[u8]) -> (r: Option<u32>) {
        if bytes.len() >= 4 {
            Some(u32_from_be(bytes))
        } else {
            None
        }
    }
}

/// Reading a written `u32` gives it back.
pub proof fn lemma_u32_roundtrips()
    ensures
        ser_roundtrips::<u32>(),
{
    assert forall|x: u32| #[trigger] u32::deser(x.ser()) == Some(x) by {
        lemma_be_u32_roundtrip(x);
    }
}

impl Serializable for u64 {
    open spec fn obeys_ser() -> bool {
        true
    }

    open spec fn ser(&self) -> Seq<u8> {
        be_u64(*self)
    }

    open spec fn deser(bytes: Seq<u8>) -> Option<u64> {
        if bytes.len() >= 8 {
            Some(from_be_u64(bytes))
        } else {
            None
        }
    }

    fn write(&self, out: &mut Vec<u8>) {
        u64_to_be(*self, out);
    }

    fn read(bytes: &[u8]) -> (r: Option<u64>) {
        if bytes.len() >= 8 {
            Some(u64_from_be_front(bytes))
        } else {
            None
        }
    }
}

/// Reading a written `u64` gives it back.
pub proof fn lemma_u64_roundtrips()
    ensures
        ser_roundtrips::<u64>(),
{
    assert forall|x: u64| #[trigger] u64::deser(x.ser()) == Some(x) by {
        lemma_be_u64_roundtrip(x);
    }
}

impl Serializable for i32 {
    open spec fn obeys_ser() -> bool {
        true
    }

    open spec fn ser(&self) -> Seq<u8> {
        be_u32(*self as u32)
    }

    open spec fn deser(bytes: Seq<u8>) -> Option<i32> {
        if bytes.len() >= 4 {
            Some(from_be_u32(bytes) as i32)
        } else {
            None
        }
    }

    fn write(&self, out: &mut Vec<u8>) {
        u32_to_be(*self as u32, out);
    }

    fn read(bytes: &[u8]) -> (r: Option<i32>) {
        if bytes.len() >= 4 {
            Some(u32_from_be(bytes) as i32)
        } else {
            None
        }
    }
}

/// Reading a written `i32` gives it back.
pub proof fn lemma_i32_roundtrips()
    ensures
        ser_roundtrips::<i32>(),
{
    assert forall|x: i32| #[trigger] i32::deser(x.ser()) == Some(x) by {
        lemma_be_u32_roundtrip(x as u32);
        assert((x as u32) as i32 == x) by (bit_vector);
    }
}

impl Serializable for i64 {
    open spec fn obeys_ser() -> bool {
        true
    }

    open spec fn ser(&self) -> Seq<u8> {
        be_u64(*self as u64)
    }

    open spec fn deser(bytes: Seq<u8>) -> Option<i64> {
        if bytes.len() >= 8 {
            Some(from_be_u64(bytes) as i64)
        } else {
            None
        }
    }

    fn write(&self, out: &mut Vec<u8>) {
        u64_to_be(*self as u64, out);
    }

    fn read(bytes: &[u8]) -> (r: Option<i64>) {
        if bytes.len() >= 8 {
            Some(u64_from_be_front(bytes) as i64)
        } else {
            None
        }
    }
}

/// Reading a written `i64` gives it back.
pub proof fn lemma_i64_roundtrips()
    ensures
        ser_roundtrips::<i64>(),
{
    assert forall|x: i64| #[trigger] i64::deser(x.ser()) == Some(x) by {
        lemma_be_u64_roundtrip(x as u64);
        assert((x as u64) as i64 == x) by (bit_vector);
    }
}

} // verus!
