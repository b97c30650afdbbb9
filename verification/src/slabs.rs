//! A store of fixed-size byte slabs, handed out by id.
//!
//! Slabs are allocated lazily, in id order, up to the configured count. A
//! fresh slab holds zeros.
use vstd::prelude::*;

verus! {

/// The slab id that marks an empty slot of a static hash table.
pub const SLOT_EMPTY: u64 = 0xffff_ffff_ffff_ffffu64;

/// The slab id that marks a deleted slot of a static hash table.
pub const SLOT_DELETED: u64 = 0xffff_ffff_ffff_fffeu64;

/// Size and number of the slabs of a `SlabAllocator`.
pub struct SlabAllocatorConfig {
    /// Bytes per slab.
    pub slab_size: usize,
    /// Largest number of slabs that can be allocated.
    pub slab_count: usize,
}

/// The slab size of `SlabAllocatorConfig::default()`.
pub const DEFAULT_SLAB_SIZE: usize = 1024usize;

/// The slab count of `SlabAllocatorConfig::default()`.
pub const DEFAULT_SLAB_COUNT: usize = 40960usize;

impl Default for SlabAllocatorConfig {
    fn default() -> (r: Self)
        ensures
            r.slab_size == DEFAULT_SLAB_SIZE,
            r.slab_count == DEFAULT_SLAB_COUNT,
    {
        SlabAllocatorConfig { slab_size: DEFAULT_SLAB_SIZE, slab_count: DEFAULT_SLAB_COUNT }
    }
}

/// Errors of the slab allocator.
#[derive(Debug, Clone, Copy, PartialEq, Eq, Structural)]
pub enum SlabError {
    /// Every slab has been allocated.
    OutOfSlabs,
    /// The id does not name an allocated slab.
    InvalidId,
}

/// A store of `slab_count` slabs of `slab_size` bytes each.
pub struct SlabAllocator {
    slab_size: usize,
    slab_count: usize,
    slabs: Vec<Vec<u8>>,
    in_use: Vec<bool>,
    free_ids: Vec<u64>,
}

/// The abstract state of a `SlabAllocator`: its sizes, the contents of the
/// slabs created so far, indexed by id, and the ids of released slabs, most
/// recently released last.
pub struct SlabsView {
    pub slab_size: nat,
    pub slab_count: nat,
    pub slabs: Seq<Seq<u8>>,
    pub free: Seq<u64>,
}

/// `n` zero bytes.
pub open spec fn zeros(n: nat) -> Seq<u8> {
    Seq::new(n, |i: int| 0u8)
}

/// The ids that `n` allocations hand out, in order, when `created` slabs
/// exist and `free` lists the released ones: released slabs first, most
/// recently released first, then new slabs in id order.
pub open spec fn alloc_ids(created: nat, free: Seq<u64>, n: nat) -> Seq<u64> {
    Seq::new(
        n,
        |t: int|
            if t < free.len() {
                free[free.len() - 1 - t]
            } else {
                (created + t - free.len()) as u64
            },
    )
}

/// The released ids left after `n` allocations.
pub open spec fn free_after(free: Seq<u64>, n: nat) -> Seq<u64> {
    if n <= free.len() {
        free.subrange(0, free.len() - n)
    } else {
        Seq::empty()
    }
}

/// The number of slabs created after `n` allocations.
pub open spec fn created_after(created: nat, free: Seq<u64>, n: nat) -> nat {
    if n <= free.len() {
        created
    } else {
        (created + n - free.len()) as nat
    }
}

impl SlabsView {
    /// Number of slabs that can still be allocated.
    pub open spec fn available(self) -> nat {
        (self.slab_count - self.slabs.len() + self.free.len()) as nat
    }

    /// The ids that the next `n` allocations hand out.
    pub open spec fn next_ids(self, n: nat) -> Seq<u64> {
        alloc_ids(self.slabs.len(), self.free, n)
    }

    /// The state after `n` allocations: released slabs are reused as they
    /// are, new slabs hold zeros.
    pub open spec fn after_alloc(self, n: nat) -> SlabsView {
        SlabsView {
            slabs: self.slabs + Seq::new(
                (created_after(self.slabs.len(), self.free, n) - self.slabs.len()) as nat,
                |i: int| zeros(self.slab_size),
            ),
            free: free_after(self.free, n),
            ..self
        }
    }
}

/// `n + 1` allocations are `n` allocations followed by one more.
pub proof fn lemma_alloc_step(v: SlabsView, n: nat)
    ensures
        v.after_alloc(n).after_alloc(1) == v.after_alloc(n + 1),
        v.next_ids(n + 1) == v.next_ids(n).push(v.after_alloc(n).next_ids(1)[0]),
        v.after_alloc(0) == v,
        v.next_ids(0) == Seq::<u64>::empty(),
        v.slabs.len() <= v.slab_count && n <= v.available() ==> {
            &&& v.after_alloc(n).available() == v.available() - n
            &&& v.after_alloc(n).slabs.len() <= v.slab_count
        },
{
    let w = v.after_alloc(n);
    assert(v.after_alloc(0).slabs =~= v.slabs);
    assert(v.after_alloc(0).free =~= v.free);
    assert(v.next_ids(0) =~= Seq::<u64>::empty());
    if n < v.free.len() {
        assert(w.slabs =~= v.slabs);
        assert(w.free.last() == v.free[v.free.len() - 1 - n]);
        assert(w.after_alloc(1).free =~= v.after_alloc(n + 1).free);
        assert(w.after_alloc(1).slabs =~= v.after_alloc(n + 1).slabs);
    } else {
        assert(w.free =~= Seq::<u64>::empty());
        assert(w.slabs.len() == v.slabs.len() + n - v.free.len());
        assert(w.after_alloc(1).slabs =~= v.after_alloc(n + 1).slabs);
        assert(w.after_alloc(1).free =~= v.after_alloc(n + 1).free);
    }
    assert(v.next_ids(n + 1) =~= v.next_ids(n).push(w.next_ids(1)[0]));
}

/// The ids that allocations hand out are distinct, and each is a released
/// id or a new one.
pub proof fn lemma_next_ids_distinct(v: SlabsView, n: nat)
    requires
        v.free.no_duplicates(),
        forall|k: int| 0 <= k < v.free.len() ==> #[trigger] v.free[k] < v.slabs.len(),
        v.slabs.len() <= v.slab_count,
        v.slab_count < SLOT_DELETED,
        n <= v.available(),
    ensures
        v.next_ids(n).no_duplicates(),
        forall|t: int|
            0 <= t < n ==> (t < v.free.len() && #[trigger] v.next_ids(n)[t] == v.free[v.free.len() - 1 - t])
                || (t >= v.free.len() && v.next_ids(n)[t] == v.slabs.len() + t - v.free.len()),
{
    let s = v.next_ids(n);
    let fl = v.free.len() as int;
    assert forall|t: int| 0 <= t < n && t >= fl implies #[trigger] s[t] == v.slabs.len() + t - fl by {
        assert(v.slabs.len() + t - fl < SLOT_DELETED);
    }
    assert forall|i: int, j: int| 0 <= i < s.len() && 0 <= j < s.len() && i != j implies s[i] != s[j] by {
        if i < fl && j < fl {
            assert(v.free[fl - 1 - i] != v.free[fl - 1 - j]);
        } else if i < fl {
            assert(v.free[fl - 1 - i] < v.slabs.len());
            assert(s[j] == v.slabs.len() + j - fl);
        } else if j < fl {
            assert(v.free[fl - 1 - j] < v.slabs.len());
            assert(s[i] == v.slabs.len() + i - fl);
        } else {
            assert(s[j] == v.slabs.len() + j - fl);
            assert(s[i] == v.slabs.len() + i - fl);
        }
    }
}

impl SlabAllocator {
    pub closed spec fn view(&self) -> SlabsView {
        SlabsView {
            slab_size: self.slab_size as nat,
            slab_count: self.slab_count as nat,
            slabs: self.slabs@.map_values(|s: Vec<u8>| s@),
            free: self.free_ids@,
        }
    }

    /// Every slab has the configured size; no more than `slab_count` are
    /// created; ids stay below the two slot markers; the released ids are
    /// distinct ids of created slabs.
    pub open spec fn wf(&self) -> bool {
        &&& self@.slabs.len() <= self@.slab_count
        &&& self@.slab_count < SLOT_DELETED
        &&& forall|i: int| 0 <= i < self@.slabs.len() ==> #[trigger] self@.slabs[i].len() == self@.slab_size
        &&& self@.free.no_duplicates()
        &&& forall|k: int| 0 <= k < self@.free.len() ==> #[trigger] self@.free[k] < self@.slabs.len()
        &&& self.marks_ok()
    }

    /// The in-use marks agree with the list of released ids.
    pub closed spec fn marks_ok(&self) -> bool {
        &&& self.in_use@.len() == self.slabs@.len()
        &&& forall|id: int|
            0 <= id < self.in_use@.len() ==> (#[trigger] self.in_use@[id] <==> !self.free_ids@.contains(
                id as u64,
            ))
    }

    /// Number of slabs that can still be allocated.
    pub open spec fn free_slabs(&self) -> nat {
        self@.available()
    }

    /// An allocator with the given configuration and no slab allocated.
    /// Slab ids `u64::MAX` and `u64::MAX - 1` mark empty and deleted slots
    /// of a static hash table, so the count stays below them.
    pub fn new(config: SlabAllocatorConfig) -> (r: Self)
        requires
            config.slab_count < SLOT_DELETED,
        ensures
            r.wf(),
            r@.slab_size == config.slab_size,
            r@.slab_count == config.slab_count,
            r@.slabs == Seq::<Seq<u8>>::empty(),
            r@.free == Seq::<u64>::empty(),
    {
        let r = SlabAllocator {
            slab_size: config.slab_size,
            slab_count: config.slab_count,
            slabs: Vec::new(),
            in_use: Vec::new(),
            free_ids: Vec::new(),
        };
        assert(r@.slabs =~= Seq::<Seq<u8>>::empty());
        r
    }

    /// Bytes per slab.
    pub fn slab_size(&self) -> (r: usize)
        ensures
            r == self@.slab_size,
    {
        self.slab_size
    }

    /// Largest number of slabs.
    pub fn slab_count(&self) -> (r: usize)
        ensures
            r == self@.slab_count,
    {
        self.slab_count
    }

    /// Number of slabs that can still be allocated.
    pub fn free_count(&self) -> (r: usize)
        requires
            self.wf(),
        ensures
            r == self.free_slabs(),
    {
        proof {
            self.lemma_free_len();
        }
        self.slab_count - self.slabs.len() + self.free_ids.len()
    }

    /// There are no more released ids than created slabs.
    proof fn lemma_free_len(&self)
        requires
            self.wf(),
        ensures
            self@.free.len() <= self@.slabs.len(),
    {
        broadcast use vstd::seq_lib::seq_to_set_is_finite;
        let f = self@.free;
        let len = self@.slabs.len() as int;
        let r = vstd::set_lib::set_int_range(0, len);
        vstd::set_lib::lemma_int_range(0, len);
        let m = r.map(|i: int| i as u64);
        vstd::set_lib::lemma_map_size_bound(r, m, |i: int| i as u64);
        assert forall|x: u64| f.to_set().contains(x) implies m.contains(x) by {
            let k = choose|k: int| 0 <= k < f.len() && f[k] == x;
            assert(f[k] < len);
            assert(r.contains(x as int));
            assert((x as int) as u64 == x);
        }
        assert(f.to_set().subset_of(m));
        vstd::set_lib::lemma_len_subset(f.to_set(), m);
        f.unique_seq_to_set();
    }

    /// Allocates a slab: the most recently released one, with its contents
    /// as they are, or else a new zeroed slab whose id is the number of slabs
    /// created before. Fails when all `slab_count` slabs are taken.
    pub fn allocate(&mut self) -> (r: Result<u64, SlabError>)
        requires
            old(self).wf(),
        ensures
            final(self).wf(),
            old(self).free_slabs() > 0 ==> {
                &&& r == Ok::<u64, SlabError>(old(self)@.next_ids(1)[0])
                &&& final(self)@ == old(self)@.after_alloc(1)
            },
            old(self).free_slabs() == 0 ==> {
                &&& r == Err::<u64, SlabError>(SlabError::OutOfSlabs)
                &&& final(self)@ == old(self)@
            },
    {
        proof {
            self.lemma_free_len();
        }
        let ghost pre = self@;
        if let Some(id) = self.free_ids.pop() {
            proof {
                assert(pre.free.last() == id);
                assert(self@.free =~= pre.free.drop_last());
                assert forall|x: int| #![trigger self.free_ids@.contains(x as u64)] 0 <= x < self.in_use@.len() && x != id implies (
                    self.free_ids@.contains(x as u64) <==> pre.free.contains(x as u64)) by {
                    if pre.free.contains(x as u64) {
                        let k = choose|k: int| 0 <= k < pre.free.len() && pre.free[k] == x as u64;
                        assert(k != pre.free.len() - 1);
                        assert(self.free_ids@[k] == x as u64);
                    }
                }
                assert(!self.free_ids@.contains(id)) by {
                    if self.free_ids@.contains(id) {
                        let k = choose|k: int| 0 <= k < self.free_ids@.len() && self.free_ids@[k] == id;
                        assert(pre.free[k] == pre.free[pre.free.len() - 1]);
                    }
                }
            }
            self.in_use.set(id as usize, true);
            proof {
                assert(self@.slabs =~= pre.after_alloc(1).slabs);
                assert(self@.free =~= pre.after_alloc(1).free);
            }
            return Ok(id);
        }
        if self.slabs.len() >= self.slab_count {
            return Err(SlabError::OutOfSlabs);
        }
        let id = self.slabs.len() as u64;
        let mut slab: Vec<u8> = Vec::new();
        let mut i: usize = 0;
        while i < self.slab_size
            invariant
                i <= self.slab_size,
                slab@ == zeros(i as nat),
            decreases self.slab_size - i,
        {
            slab.push(0u8);
            i = i + 1;
            assert(slab@ =~= zeros(i as nat));
        }
        self.slabs.push(slab);
        self.in_use.push(true);
        proof {
            assert(pre.free =~= Seq::<u64>::empty());
            assert(!self.free_ids@.contains(id));
            assert(self@.slabs =~= pre.after_alloc(1).slabs);
            assert(self@.free =~= pre.after_alloc(1).free);
        }
        Ok(id)
    }

    /// Releases slab `id`, which later allocations hand out again. Fails
    /// when `id` names no slab in use.
    pub fn free(&mut self, id: u64) -> (r: Result<(), SlabError>)
        requires
            old(self).wf(),
        ensures
            final(self).wf(),
            id < old(self)@.slabs.len() && !old(self)@.free.contains(id) ==> {
                &&& r == Ok::<(), SlabError>(())
                &&& final(self)@ == SlabsView { free: old(self)@.free.push(id), ..old(self)@ }
            },
            !(id < old(self)@.slabs.len() && !old(self)@.free.contains(id)) ==> {
                &&& r == Err::<(), SlabError>(SlabError::InvalidId)
                &&& final(self)@ == old(self)@
            },
    {
        let ghost pre = self@;
        if id >= self.slabs.len() as u64 {
            return Err(SlabError::InvalidId);
        }
        if !self.in_use[id as usize] {
            return Err(SlabError::InvalidId);
        }
        self.in_use.set(id as usize, false);
        self.free_ids.push(id);
        proof {
            assert forall|x: int| #![trigger self.free_ids@.contains(x as u64)] 0 <= x < self.in_use@.len() && x != id implies (
                self.free_ids@.contains(x as u64) <==> pre.free.contains(x as u64)) by {
                if pre.free.contains(x as u64) {
                    let k = choose|k: int| 0 <= k < pre.free.len() && pre.free[k] == x as u64;
                    assert(self.free_ids@[k] == x as u64);
                }
            }
            assert(self.free_ids@[pre.free.len() as int] == id);
            assert(self@.free =~= pre.free.push(id));
            assert(self@.slabs =~= pre.slabs);
        }
        Ok(())
    }

    /// The bytes of slab `id`; fails when no slab has that id.
    pub fn get(&self, id: u64) -> (r: Result<&[u8], SlabError>)
        requires
            self.wf(),
        ensures
            id < self@.slabs.len() ==> (r matches Ok(s) && s@ == self@.slabs[id as int]),
            id >= self@.slabs.len() ==> r == Err::<&[u8], SlabError>(SlabError::InvalidId),
    {
        if id >= self.slabs.len() as u64 {
            return Err(SlabError::InvalidId);
        }
        let s = self.slabs[id as usize].as_slice();
        Ok(s)
    }

    /// Replaces the contents of slab `id` with `data`, which has the slab
    /// size.
    pub fn write(&mut self, id: u64, data: &[u8]) -> (r: Result<(), SlabError>)
        requires
            old(self).wf(),
            data@.len() == old(self)@.slab_size,
        ensures
            final(self).wf(),
            id < old(self)@.slabs.len() ==> {
                &&& r == Ok::<(), SlabError>(())
                &&& final(self)@ == SlabsView { slabs: old(self)@.slabs.update(id as int, data@), ..old(self)@ }
            },
            id >= old(self)@.slabs.len() ==> {
                &&& r == Err::<(), SlabError>(SlabError::InvalidId)
                &&& final(self)@ == old(self)@
            },
    {
        if id >= self.slabs.len() as u64 {
            return Err(SlabError::InvalidId);
        }
        let mut v: Vec<u8> = Vec::new();
        let mut i: usize = 0;
        while i < data.len()
            invariant
                i <= data@.len(),
                v@ == data@.subrange(0, i as int),
            decreases data@.len() - i,
        {
            v.push(data[i]);
            i = i + 1;
            assert(v@ =~= data@.subrange(0, i as int));
        }
        assert(v@ =~= data@);
        self.slabs.set(id as usize, v);
        assert(self@.slabs =~= old(self)@.slabs.update(id as int, data@));
        Ok(())
    }
}

} // verus!
