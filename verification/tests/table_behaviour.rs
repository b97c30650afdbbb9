use bmw_util::layout::{encode_record, pages_needed};
use bmw_util::{
    SlabAllocator, SlabAllocatorConfig, SlabError, Serializable, StaticHashError,
    StaticHashsetBuilder, StaticHashtableBuilder,
};
use std::collections::hash_map::DefaultHasher;
use std::hash::Hasher;

fn slabs(slab_size: usize, slab_count: usize) -> SlabAllocator {
    SlabAllocator::new(SlabAllocatorConfig {
        slab_size,
        slab_count,
    })
}

fn hash_of(bytes: &[u8]) -> u64 {
    let mut h = DefaultHasher::new();
    h.write(bytes);
    h.finish()
}

#[test]
fn test_replace_iterates_once() -> Result<(), StaticHashError> {
    let mut sh = StaticHashtableBuilder::build(16, None);
    sh.insert(&1u32, &2u32)?;
    assert_eq!(sh.get(&1u32)?, Some(2));
    sh.insert(&1u32, &3u32)?;
    assert_eq!(sh.get(&1u32)?, Some(3));
    let mut it = sh.into_iter();
    assert_eq!(it.next(), Some((1, 3)));
    assert_eq!(it.next(), None);
    assert_eq!(it.next(), None);
    Ok(())
}

#[test]
fn test_replace_writes_newest_and_releases_old() -> Result<(), StaticHashError> {
    // 16 data bytes per slab: a u64 key and a u64 value take 3 slabs
    let mut sh = StaticHashtableBuilder::build::<u64, u64>(16, Some(slabs(24, 40)));
    sh.insert(&1u64, &10u64)?;
    sh.insert(&2u64, &20u64)?;
    sh.insert(&3u64, &30u64)?;
    assert_eq!(sh.free_count(), 31);
    // a 40-byte value for key 2 takes 5 new slabs; its 3 old ones are released
    let kb = 2u64.to_be_bytes();
    sh.insert_raw(&kb, hash_of(&kb), &[7u8; 40])?;
    assert_eq!(sh.free_count(), 29);
    let first = sh.get_raw(&kb, hash_of(&kb))?.unwrap();
    assert_eq!(first.len(), 24);
    assert_eq!(first[8..16], [0, 0, 0, 0, 0, 0, 0, 8]);
    // the new record is the newest, on a slab taken by this insert
    assert_eq!(sh.first_entry(), 9);
    // and a u64 value gives two back
    sh.insert(&2u64, &25u64)?;
    assert_eq!(sh.free_count(), 31);
    assert_eq!(sh.get(&1u64)?, Some(10));
    assert_eq!(sh.get(&2u64)?, Some(25));
    assert_eq!(sh.get(&3u64)?, Some(30));
    let mut seen = vec![];
    let mut it = sh.into_iter();
    while let Some(kv) = it.next() {
        seen.push(kv);
    }
    assert_eq!(seen, vec![(2, 25), (3, 30), (1, 10)]);
    Ok(())
}

#[test]
fn test_replace_needs_free_slabs() -> Result<(), StaticHashError> {
    let mut sh = StaticHashtableBuilder::build::<u64, u64>(16, Some(slabs(24, 9)));
    sh.insert(&1u64, &10u64)?;
    sh.insert(&2u64, &20u64)?;
    sh.insert(&3u64, &30u64)?;
    assert_eq!(sh.free_count(), 0);
    let head = sh.first_entry();
    assert_eq!(sh.insert(&2u64, &21u64), Err(StaticHashError::NoMoreSlabs));
    assert_eq!(sh.get(&2u64)?, Some(20));
    assert_eq!(sh.first_entry(), head);
    Ok(())
}

#[test]
fn test_get_raw_mut() -> Result<(), StaticHashError> {
    // 56 data bytes per slab: "hi" and "ok" fit in the first slab, the
    // value at data bytes 26 and 27
    let mut sh = StaticHashtableBuilder::build::<(), ()>(8, Some(slabs(64, 10)));
    let h = hash_of(b"hi");
    assert_eq!(sh.get_raw_mut(b"hi", h, 0, b"no"), Ok(false));
    assert!(sh.get_raw(b"hi", h)?.is_none());
    sh.insert_raw(b"hi", h, b"ok")?;
    assert_eq!(sh.get_raw_mut(b"hi", h, 0, b"OK"), Ok(true));
    let first = sh.get_raw(b"hi", h)?.unwrap();
    assert_eq!(first[16..28], [104, 105, 0, 0, 0, 0, 0, 0, 0, 2, 79, 75]);
    assert_eq!(sh.get_raw_mut(b"hi", h, 1, b"!"), Ok(true));
    assert_eq!(sh.get_raw(b"hi", h)?.unwrap()[26..28], [79, 33]);
    assert_eq!(sh.get_raw_mut(b"hi", h, 1, b"xy"), Err(StaticHashError::OutOfRange));
    assert_eq!(sh.get_raw(b"hi", h)?.unwrap()[26..28], [79, 33]);
    Ok(())
}

#[test]
fn test_iteration_newest_first() -> Result<(), StaticHashError> {
    let mut sh = StaticHashtableBuilder::build(64, Some(slabs(48, 100)));
    for i in 1..=5u64 {
        sh.insert(&i, &(i * 10))?;
    }
    let mut seen = vec![];
    let mut it = sh.into_iter();
    while let Some(kv) = it.next() {
        seen.push(kv);
    }
    assert_eq!(seen, vec![(5, 50), (4, 40), (3, 30), (2, 20), (1, 10)]);
    Ok(())
}

#[test]
fn test_capacity_exceeded() -> Result<(), StaticHashError> {
    let mut sh = StaticHashtableBuilder::build(2, None);
    sh.insert(&1i32, &1i32)?;
    sh.insert(&2i32, &2i32)?;
    assert_eq!(sh.insert(&3i32, &3i32), Err(StaticHashError::CapacityExceeded));
    assert_eq!(sh.get(&3i32)?, None);
    // a key that is already there can still be replaced
    sh.insert(&2i32, &5i32)?;
    assert_eq!(sh.get(&2i32)?, Some(5));
    assert_eq!(sh.get(&1i32)?, Some(1));
    Ok(())
}

#[test]
fn test_no_more_slabs() -> Result<(), StaticHashError> {
    // one slab of 128 bytes holds one small record
    let mut sh = StaticHashtableBuilder::build(10, Some(slabs(128, 1)));
    sh.insert(&1i32, &2i32)?;
    assert_eq!(sh.get(&1i32)?, Some(2));
    assert_eq!(sh.insert(&2i32, &3i32), Err(StaticHashError::NoMoreSlabs));
    assert_eq!(sh.get(&2i32)?, None);
    assert_eq!(sh.get(&1i32)?, Some(2));

    // a record of 32 data bytes needs two slabs of 16 data bytes
    let mut sh2 = StaticHashtableBuilder::build(10, Some(slabs(24, 1)));
    assert_eq!(sh2.insert(&1u32, &2u32), Err(StaticHashError::NoMoreSlabs));
    assert_eq!(sh2.get(&1u32)?, None);
    Ok(())
}

#[test]
fn test_records_over_many_slabs() -> Result<(), StaticHashError> {
    let mut sh = StaticHashtableBuilder::build(100, Some(slabs(24, 10_000)));
    for i in 0..50u64 {
        let key: Vec<u64> = (0..i).collect();
        let value: Vec<u64> = (0..i * 3).map(|x| x * 7).collect();
        let mut kb = vec![];
        for k in &key {
            k.write(&mut kb);
        }
        let mut vb = vec![];
        for v in &value {
            v.write(&mut vb);
        }
        sh.insert(&i, &i)?;
        let h = hash_of(&kb);
        sh.insert_raw(&kb, h, &vb)?;
        let first = sh.get_raw(&kb, h)?.unwrap();
        assert_eq!(first.len(), 24);
        assert_eq!(first[8..16], (kb.len() as u64).to_be_bytes());
        assert_eq!(sh.get(&i)?, Some(i));
    }
    Ok(())
}

#[test]
fn test_value_length_moves_to_next_slab() -> Result<(), StaticHashError> {
    // 24 data bytes per slab: after 16 header bytes and a 2-byte key only 6
    // bytes are left, so the value length starts the next slab
    let mut sh = StaticHashtableBuilder::build::<(), ()>(8, Some(slabs(32, 10)));
    let h = hash_of(b"hi");
    sh.insert_raw(b"hi", h, b"ok")?;
    let first = sh.get_raw(b"hi", h)?.unwrap();
    assert_eq!(
        first,
        [
            255, 255, 255, 255, 255, 255, 255, 255, 0, 0, 0, 0, 0, 0, 0, 2, 104, 105, 0, 0, 0, 0,
            0, 0, 0, 0, 0, 0, 0, 0, 0, 1
        ]
    );
    let second = sh.slab(1).unwrap();
    assert_eq!(second[0..10], [0, 0, 0, 0, 0, 0, 0, 2, 111, 107]);
    assert_eq!(second[24..32], [255; 8]);
    assert_eq!(sh.first_entry(), 0);
    Ok(())
}

#[test]
fn test_link_to_previous_record() -> Result<(), StaticHashError> {
    let mut sh = StaticHashtableBuilder::build(8, Some(slabs(64, 10)));
    sh.insert(&1u8, &2u8)?;
    sh.insert(&3u8, &4u8)?;
    assert_eq!(sh.first_entry(), 1);
    let newest = sh.slab(1).unwrap();
    assert_eq!(newest[0..8], [0; 8]);
    assert_eq!(sh.read_kv(1)?, (3, 4));
    assert_eq!(sh.read_kv(0)?, (1, 2));
    assert_eq!(sh.read_kv(2), Err(StaticHashError::InvalidId));
    assert_eq!(sh.read_kv(u64::MAX), Err(StaticHashError::InvalidId));
    assert_eq!(sh.slab(2), Err(SlabError::InvalidId));
    Ok(())
}

#[test]
fn test_undecodable_value() -> Result<(), StaticHashError> {
    let mut sh = StaticHashtableBuilder::build::<u32, u64>(8, None);
    let kb = 7u32.to_be_bytes();
    sh.insert_raw(&kb, hash_of(&kb), b"ab")?;
    assert_eq!(sh.get(&7u32), Err(StaticHashError::Deserialization));
    let mut it = sh.into_iter();
    assert_eq!(it.next(), None);
    Ok(())
}

#[test]
fn test_hashset_contains_only_inserted() -> Result<(), StaticHashError> {
    let mut set = StaticHashsetBuilder::build(4, Some(slabs(32, 10)));
    assert_eq!(set.contains(&5u16)?, false);
    set.insert(&5u16)?;
    set.insert(&6u16)?;
    assert!(set.contains(&5u16)?);
    assert!(set.contains(&6u16)?);
    assert!(!set.contains(&7u16)?);
    set.insert(&7u16)?;
    set.insert(&8u16)?;
    assert_eq!(set.insert(&9u16), Err(StaticHashError::CapacityExceeded));
    assert!(!set.contains(&9u16)?);
    Ok(())
}

#[test]
fn test_serializable_big_endian() {
    let mut out = vec![];
    0x0102u16.write(&mut out);
    0x03040506u32.write(&mut out);
    0x0708090a0b0c0d0eu64.write(&mut out);
    (-2i32).write(&mut out);
    (-3i64).write(&mut out);
    9u8.write(&mut out);
    ().write(&mut out);
    assert_eq!(
        out,
        vec![
            1, 2, 3, 4, 5, 6, 7, 8, 9, 10, 11, 12, 13, 14, 255, 255, 255, 254, 255, 255, 255, 255,
            255, 255, 255, 253, 9
        ]
    );
    assert_eq!(u16::read(&out[0..2]), Some(0x0102));
    assert_eq!(u32::read(&out[2..6]), Some(0x03040506));
    assert_eq!(u64::read(&out[6..14]), Some(0x0708090a0b0c0d0e));
    assert_eq!(i32::read(&out[14..18]), Some(-2));
    assert_eq!(i64::read(&out[18..26]), Some(-3));
    assert_eq!(u8::read(&out[26..27]), Some(9));
    assert_eq!(<()>::read(&[]), Some(()));
    assert_eq!(u32::read(&out[0..3]), None);
    assert_eq!(u64::read(&out[0..7]), None);
}

#[test]
fn test_slab_allocator() {
    let mut s = slabs(4, 2);
    assert_eq!(s.slab_size(), 4);
    assert_eq!(s.slab_count(), 2);
    assert_eq!(s.free_count(), 2);
    assert_eq!(s.get(0), Err(SlabError::InvalidId));
    assert_eq!(s.allocate(), Ok(0));
    assert_eq!(s.allocate(), Ok(1));
    assert_eq!(s.allocate(), Err(SlabError::OutOfSlabs));
    assert_eq!(s.free_count(), 0);
    assert_eq!(s.get(1), Ok(&[0u8, 0, 0, 0][..]));
    assert_eq!(s.write(1, &[1, 2, 3, 4]), Ok(()));
    assert_eq!(s.get(1), Ok(&[1u8, 2, 3, 4][..]));
    assert_eq!(s.write(2, &[1, 2, 3, 4]), Err(SlabError::InvalidId));
    assert_eq!(s.free(1), Ok(()));
    assert_eq!(s.free(1), Err(SlabError::InvalidId));
    assert_eq!(s.free(2), Err(SlabError::InvalidId));
    assert_eq!(s.free_count(), 1);
    assert_eq!(s.free(0), Ok(()));
    // the most recently released slab comes back first, as it was
    assert_eq!(s.allocate(), Ok(0));
    assert_eq!(s.allocate(), Ok(1));
    assert_eq!(s.get(1), Ok(&[1u8, 2, 3, 4][..]));
    assert_eq!(s.allocate(), Err(SlabError::OutOfSlabs));
    let d = SlabAllocatorConfig::default();
    assert_eq!((d.slab_size, d.slab_count), (1024, 40960));
}

#[test]
fn test_record_layout() {
    // 16 header bytes, 2 key bytes, 8 length bytes, 2 value bytes: 28 bytes
    // in slabs of 16 data bytes
    assert_eq!(pages_needed(2, 2, 16), 2);
    assert_eq!(pages_needed(0, 0, 16), 2);
    assert_eq!(pages_needed(0, 0, 24), 1);
    // value length pushed past the end of the first slab
    assert_eq!(pages_needed(2, 0, 24), 2);
    let bytes = encode_record(u64::MAX, b"hi", b"ok", 24);
    assert_eq!(bytes.len(), 48);
    assert_eq!(bytes[0..18], [255, 255, 255, 255, 255, 255, 255, 255, 0, 0, 0, 0, 0, 0, 0, 2, 104, 105]);
    assert_eq!(bytes[18..24], [0; 6]);
    assert_eq!(bytes[24..34], [0, 0, 0, 0, 0, 0, 0, 2, 111, 107]);
    assert_eq!(bytes[34..48], [0; 14]);
}
