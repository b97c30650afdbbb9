use bmw_util::{
    SlabAllocator, SlabAllocatorConfig, Serializable, StaticHashError, StaticHashsetBuilder,
    StaticHashtableBuilder,
};
use std::collections::hash_map::DefaultHasher;
use std::hash::{Hash, Hasher};

/// Slots of a table built from the default configuration: one million
/// entries at a load factor of 0.75.
fn default_slots() -> usize {
    (1_000_000u64 as f64 / 0.75).floor() as usize
}

#[derive(Debug, Hash, PartialEq, Eq, PartialOrd, Ord)]
struct BigThing {
    val1: u32,
    val2: u32,
    middle: Vec<u8>,
}

impl BigThing {
    fn new(val1: u32, val2: u32) -> Self {
        let mut middle = vec![];
        for i in 0..val1 {
            middle.push((i % 256) as u8);
        }
        Self { val1, val2, middle }
    }
}

impl Serializable for BigThing {
    fn write(&self, out: &mut Vec<u8>) {
        out.extend_from_slice(&self.val1.to_be_bytes());
        for i in 0..self.val1 {
            out.push(self.middle[i as usize]);
        }
        out.extend_from_slice(&self.val2.to_be_bytes());
    }

    fn read(bytes: &[u8]) -> Option<Self> {
        if bytes.len() < 4 {
            return None;
        }
        let val1 = u32::from_be_bytes([bytes[0], bytes[1], bytes[2], bytes[3]]);
        let end = 4 + val1 as usize;
        if bytes.len() < end + 4 {
            return None;
        }
        let middle = bytes[4..end].to_vec();
        let val2 = u32::from_be_bytes([bytes[end], bytes[end + 1], bytes[end + 2], bytes[end + 3]]);
        Some(Self { val1, val2, middle })
    }
}

#[test]
fn test_small_static_hashtable() -> Result<(), StaticHashError> {
    let slabs = SlabAllocator::new(SlabAllocatorConfig::default());
    let mut sh = StaticHashtableBuilder::build(default_slots(), Some(slabs));
    sh.insert(&1, &2)?;
    assert_eq!(sh.get(&1)?, Some(2));

    let mut sh2 = StaticHashtableBuilder::build(default_slots(), None);
    for i in 0..20 {
        sh2.insert(&BigThing::new(i, i), &BigThing::new(i, i))?;
        assert_eq!(sh2.get(&BigThing::new(i, i))?, Some(BigThing::new(i, i)));
    }

    let mut sh3 = StaticHashtableBuilder::build(default_slots(), None);
    sh3.insert(&10, &20)?;
    assert_eq!(sh3.get(&10)?, Some(20));

    let mut count = 0;
    let mut ks = vec![];
    let mut vs = vec![];
    let mut it = sh2.into_iter();
    while let Some((x, y)) = it.next() {
        ks.push(x);
        vs.push(y);
        count += 1;
    }
    assert_eq!(count, 20);
    ks.sort();
    vs.sort();
    for i in 0..20 {
        assert_eq!(ks[i].val1, i as u32);
        assert_eq!(vs[i].val1, i as u32);
        assert_eq!(ks[i].val2, i as u32);
        assert_eq!(vs[i].val2, i as u32);
    }
    sh2.insert(&BigThing::new(8, 3), &BigThing::new(1, 3))?;

    Ok(())
}

#[test]
fn test_hashtable_replace() -> Result<(), StaticHashError> {
    let mut sh = StaticHashtableBuilder::build(default_slots(), None);
    sh.insert(&1, &2)?;
    assert_eq!(sh.get(&1)?, Some(2));
    sh.insert(&1, &3)?;
    assert_eq!(sh.get(&1)?, Some(3));
    let mut count = 0;
    let mut it = sh.into_iter();
    while let Some((k, v)) = it.next() {
        assert_eq!((k, v), (1, 3));
        count += 1;
    }
    assert_eq!(count, 1);
    Ok(())
}

#[test]
fn test_static_hashtable() -> Result<(), StaticHashError> {
    let _slabs1 = SlabAllocator::new(SlabAllocatorConfig {
        slab_count: 30_000,
        ..Default::default()
    });
    let _slabs2 = SlabAllocator::new(SlabAllocatorConfig::default());
    let mut sh = StaticHashtableBuilder::build(default_slots(), None);
    sh.insert(&1, &2)?;
    assert_eq!(sh.get(&1)?, Some(2));

    let mut sh2 = StaticHashtableBuilder::build(default_slots(), None);

    for i in 0..4000 {
        sh2.insert(&BigThing::new(i, i), &BigThing::new(i, i))?;
        assert_eq!(sh2.get(&BigThing::new(i, i))?, Some(BigThing::new(i, i)));
    }

    let mut sh3 = StaticHashtableBuilder::build(default_slots(), None);
    sh3.insert(&10, &20)?;
    assert_eq!(sh3.get(&10)?, Some(20));

    Ok(())
}

#[test]
fn test_static_hashset() -> Result<(), StaticHashError> {
    let _slabs1 = SlabAllocator::new(SlabAllocatorConfig::default());
    let mut sh = StaticHashsetBuilder::build(default_slots(), None);
    sh.insert(&1u32)?;
    sh.insert(&9)?;
    sh.insert(&18)?;

    for i in 0..20 {
        if i == 1 || i == 9 || i == 18 {
            assert!(sh.contains(&i)?);
        } else {
            assert!(!sh.contains(&i)?);
        }
    }
    Ok(())
}

#[test]
fn test_hashtable_raw() -> Result<(), StaticHashError> {
    let _slabs1 = SlabAllocator::new(SlabAllocatorConfig::default());
    let mut sh = StaticHashtableBuilder::build::<(), ()>(default_slots(), None);

    let mut hasher = DefaultHasher::new();
    (b"hi").hash(&mut hasher);
    let hash = hasher.finish();
    sh.insert_raw(b"hi", hash, b"ok")?;
    let slab = sh.get_raw(b"hi", hash)?.unwrap();
    // key = 104/105 (hi), value = 111/107 (ok)
    assert_eq!(
        slab[0..28],
        [
            255, 255, 255, 255, 255, 255, 255, 255, 0, 0, 0, 0, 0, 0, 0, 2, 104, 105, 0, 0, 0, 0,
            0, 0, 0, 2, 111, 107
        ]
    );
    Ok(())
}
