use vstd::prelude::*;

verus! {

/// Identifies one slot of the index space together with the generation at
/// which it was handed out. Generation 0 never names a live entry.
#[derive(Clone, Copy, PartialEq, Eq, Structural, Debug)]
pub struct Key {
    generation: u32,
    index: u32,
}

impl Key {
    pub closed spec fn gen(self) -> u32 {
        self.generation
    }

    pub closed spec fn idx(self) -> u32 {
        self.index
    }

    /// Two keys are equal exactly when their indices and generations are.
    pub proof fn lemma_eq_by_parts(a: Key, b: Key)
        ensures
            (a == b) <==> (a.gen() == b.gen() && a.idx() == b.idx()),
    {
    }

    /// The key that names nothing: index 0 at generation 0.
    pub fn null() -> (r: Key)
        ensures
            r.gen() == 0,
            r.idx() == 0,
    {
        Key { generation: 0, index: 0 }
    }

    pub fn generation(&self) -> (r: u32)
        ensures
            r == self.gen(),
    {
        self.generation
    }

    pub fn index(&self) -> (r: u32)
        ensures
            r == self.idx(),
    {
        self.index
    }
}

/// Hands out keys, reusing the indices of freed keys at a higher generation.
pub struct KeyAllocator {
    /// Freed indices, each already stamped with the generation it will be
    /// handed out at next.
    gaps: Vec<Key>,
    /// The lowest index that has never been handed out.
    next: u32,
    /// Keys handed out and not freed since.
    live: Ghost<Set<Key>>,
    /// Every key ever handed out.
    issued: Ghost<Set<Key>>,
}

impl KeyAllocator {
    pub closed spec fn live(&self) -> Set<Key> {
        self.live@
    }

    pub closed spec fn issued(&self) -> Set<Key> {
        self.issued@
    }

    /// The freed keys waiting to be handed out again, each at the generation
    /// it will carry; the last is reused first.
    pub closed spec fn gaps(&self) -> Seq<Key> {
        self.gaps@
    }

    /// The lowest index that has never been handed out.
    pub closed spec fn next_index(&self) -> u32 {
        self.next
    }

    /// The key that the next `allocate` returns.
    pub closed spec fn next_key(&self) -> Key {
        if self.gaps@.len() > 0 {
            self.gaps@.last()
        } else {
            Key { generation: 1, index: self.next }
        }
    }

    /// How many more keys can be handed out before the indices run out, were
    /// nothing freed meanwhile.
    pub open spec fn spare(&self) -> int {
        self.gaps().len() + (u32::MAX - self.next_index())
    }

    /// Another key can be handed out without running out of indices.
    pub open spec fn can_alloc(&self) -> bool {
        self.spare() > 0
    }

    pub closed spec fn wf(&self) -> bool {
        &&& self.live@.subset_of(self.issued@)
        &&& forall|k: Key| #[trigger]
            self.issued@.contains(k) ==> k.index < self.next && k.generation >= 1
        &&& forall|i: int|
            0 <= i < self.gaps@.len() ==> (#[trigger] self.gaps@[i]).index < self.next
                && self.gaps@[i].generation >= 1
        &&& forall|i: int, j: int|
            0 <= i < j < self.gaps@.len() ==> (#[trigger] self.gaps@[i]).index
                != (#[trigger] self.gaps@[j]).index
        &&& forall|i: int, k: Key|
            0 <= i < self.gaps@.len() && #[trigger] self.live@.contains(k) ==> k.index
                != (#[trigger] self.gaps@[i]).index
        &&& forall|i: int, k: Key|
            0 <= i < self.gaps@.len() && #[trigger] self.issued@.contains(k) && k.index
                == (#[trigger] self.gaps@[i]).index ==> k.generation < self.gaps@[i].generation
        &&& forall|k1: Key, k2: Key| #[trigger]
            self.live@.contains(k1) && #[trigger] self.live@.contains(k2) && k1.index
                == k2.index ==> k1 == k2
        &&& forall|k: Key, s: Key| #[trigger]
            self.live@.contains(k) && #[trigger] self.issued@.contains(s) && s.index
                == k.index ==> s.generation <= k.generation
    }

    pub fn new() -> (r: KeyAllocator)
        ensures
            r.wf(),
            r.live() == Set::<Key>::empty(),
            r.issued() == Set::<Key>::empty(),
            r.next_key().gen() == 1,
            r.next_key().idx() == 0,
            r.gaps() == Seq::<Key>::empty(),
            r.next_index() == 0,
            r.spare() == u32::MAX,
    {
        KeyAllocator {
            gaps: Vec::new(),
            next: 0,
            live: Ghost(Set::empty()),
            issued: Ghost(Set::empty()),
        }
    }

    /// What a well-formed allocator guarantees its callers: every live key was
    /// handed out, carries a generation of at least 1 and an index below the
    /// counter, and no two live keys share an index.
    pub proof fn lemma_wf_facts(&self)
        requires
            self.wf(),
        ensures
            self.live().subset_of(self.issued()),
            forall|k: Key| #[trigger]
                self.issued().contains(k) ==> k.gen() >= 1 && k.idx() < self.next_index(),
            forall|k1: Key, k2: Key| #[trigger]
                self.live().contains(k1) && #[trigger] self.live().contains(k2) && k1.idx() == k2.idx()
                    ==> k1 == k2,
    {
    }

    /// Whether another key can be handed out.
    pub fn can_allocate(&self) -> (r: bool)
        ensures
            r == self.can_alloc(),
    {
        self.gaps.len() > 0 || self.next < u32::MAX
    }

    /// Returns the most recently freed index at its new generation, or else
    /// a fresh index at generation 1.
    pub fn allocate(&mut self) -> (r: Key)
        requires
            old(self).wf(),
            old(self).can_alloc(),
        ensures
            final(self).wf(),
            r == old(self).next_key(),
            old(self).gaps().len() > 0 ==> r == old(self).gaps().last() && final(self).gaps()
                == old(self).gaps().drop_last() && final(self).next_index() == old(self).next_index(),
            old(self).gaps().len() == 0 ==> r.gen() == 1 && r.idx() == old(self).next_index()
                && final(self).gaps() == old(self).gaps() && final(self).next_index()
                == old(self).next_index() + 1,
            r.gen() >= 1,
            !old(self).issued().contains(r),
            final(self).live().contains(r),
            forall|k: Key| #[trigger] old(self).live().contains(k) ==> k.idx() != r.idx(),
            final(self).spare() == old(self).spare() - 1,
            forall|s: Key| #[trigger]
                old(self).issued().contains(s) && s.idx() == r.idx() ==> s.gen() < r.gen(),
            final(self).live() == old(self).live().insert(r),
            final(self).issued() == old(self).issued().insert(r),
    {
        match self.gaps.pop() {
            Some(key) => {
                proof {
                    let gi = self.gaps@.len() as int;
                    assert(old(self).gaps@[gi] == key);
                    self.live@ = self.live@.insert(key);
                    self.issued@ = self.issued@.insert(key);
                    assert forall|i: int, k: Key|
                        0 <= i < self.gaps@.len() && #[trigger] self.live@.contains(k) implies k.index
                            != (#[trigger] self.gaps@[i]).index by {
                        assert(old(self).gaps@[i] == self.gaps@[i]);
                    }
                    assert forall|i: int, k: Key|
                        0 <= i < self.gaps@.len() && #[trigger] self.issued@.contains(k) && k.index
                            == (#[trigger] self.gaps@[i]).index implies k.generation
                            < self.gaps@[i].generation by {
                        assert(old(self).gaps@[i] == self.gaps@[i]);
                    }
                }
                key
            },
            None => {
                let key = Key { generation: 1, index: self.next };
                self.next = self.next + 1;
                proof {
                    self.live@ = self.live@.insert(key);
                    self.issued@ = self.issued@.insert(key);
                }
                key
            },
        }
    }

    /// Gives `key`'s index back for reuse; the next `allocate` returns that
    /// index one generation higher.
    pub fn free(&mut self, key: Key)
        requires
            old(self).wf(),
            old(self).live().contains(key),
            key.gen() < u32::MAX,
        ensures
            final(self).wf(),
            final(self).live() == old(self).live().remove(key),
            final(self).issued() == old(self).issued(),
            final(self).next_key().gen() == key.gen() + 1,
            final(self).next_key().idx() == key.idx(),
            final(self).gaps().len() == old(self).gaps().len() + 1,
            final(self).gaps().drop_last() == old(self).gaps(),
            final(self).gaps().last().gen() == key.gen() + 1,
            final(self).gaps().last().idx() == key.idx(),
            final(self).next_index() == old(self).next_index(),
            final(self).spare() == old(self).spare() + 1,
    {
        let gap = Key { generation: key.generation + 1, index: key.index };
        self.gaps.push(gap);
        proof {
            self.live@ = self.live@.remove(key);
            let n = self.gaps@.len() - 1;
            assert forall|i: int| 0 <= i < n implies self.gaps@[i] == old(self).gaps@[i] by {}
            assert(self.gaps@[n] == gap);
        }
    }
}

/// A sparse table from keys to values of one attribute, laid out by index.
pub struct UniqueStore<T: Copy> {
    /// One `(generation, value)` slot per index; generation 0 marks an empty slot.
    buffer: Vec<(u32, T)>,
}

/// What a table holds for `k`, read from its slots.
pub closed spec fn slot_lookup<T>(slots: Seq<(u32, T)>, k: Key) -> Option<T> {
    if k.index < slots.len() && k.generation != 0 && slots[k.index as int].0 == k.generation {
        Some(slots[k.index as int].1)
    } else {
        None
    }
}

/// The keys of `s` strictly increase by index.
pub open spec fn ascending<V>(s: Seq<(Key, V)>) -> bool {
    forall|i: int, j: int| 0 <= i < j < s.len() ==> (#[trigger] s[i]).0.idx() < (#[trigger] s[j]).0.idx()
}

/// `s` lists, in ascending index order, exactly the entries that `slots` holds.
pub closed spec fn lists_slots<T>(slots: Seq<(u32, T)>, s: Seq<(Key, T)>) -> bool {
    &&& ascending(s)
    &&& forall|t: int| 0 <= t < s.len() ==> slot_lookup(slots, (#[trigger] s[t]).0) == Some(s[t].1)
    &&& forall|k: Key| #[trigger]
        slot_lookup(slots, k).is_some() ==> exists|t: int| 0 <= t < s.len() && (#[trigger] s[t]).0 == k
}

/// Turns slots into the `(key, value)` entries of the non-empty ones, by index.
fn convert_iter<T: Copy>(slots: &Vec<(u32, T)>) -> (r: Vec<(Key, T)>)
    requires
        slots@.len() <= u32::MAX + 1,
    ensures
        lists_slots(slots@, r@),
{
    let mut r: Vec<(Key, T)> = Vec::new();
    let mut i: usize = 0;
    while i < slots.len()
        invariant
            i <= slots@.len(),
            slots@.len() <= u32::MAX + 1,
            ascending(r@),
            forall|t: int| 0 <= t < r@.len() ==> (#[trigger] r@[t]).0.index < i,
            forall|t: int| 0 <= t < r@.len() ==> slot_lookup(slots@, (#[trigger] r@[t]).0) == Some(r@[t].1),
            forall|k: Key| #[trigger]
                slot_lookup(slots@, k).is_some() && k.index < i ==> exists|t: int|
                    0 <= t < r@.len() && (#[trigger] r@[t]).0 == k,
        decreases slots@.len() - i,
    {
        let (generation, value) = slots[i];
        if generation != 0 {
            let key = Key { generation, index: i as u32 };
            let ghost prev = r@;
            r.push((key, value));
            assert forall|k: Key| #[trigger]
                slot_lookup(slots@, k).is_some() && k.index < i + 1 implies exists|t: int|
                    0 <= t < r@.len() && (#[trigger] r@[t]).0 == k by {
                if k.index == i {
                    assert(k == key);
                    assert(r@[prev.len() as int].0 == k);
                } else {
                    let t = choose|t: int| 0 <= t < prev.len() && (#[trigger] prev[t]).0 == k;
                    assert(r@[t] == prev[t]);
                }
            }
        } else {
            assert forall|k: Key| #[trigger]
                slot_lookup(slots@, k).is_some() && k.index < i + 1 implies exists|t: int|
                    0 <= t < r@.len() && (#[trigger] r@[t]).0 == k by {
                if k.index == i {
                    assert(slot_lookup(slots@, k).is_none());
                }
            }
        }
        i += 1;
    }
    r
}

impl<T: Copy> UniqueStore<T> {
    pub closed spec fn slots(&self) -> Seq<(u32, T)> {
        self.buffer@
    }

    /// The value stored for `k`, if the slot at its index holds its generation.
    pub closed spec fn lookup(&self, k: Key) -> Option<T> {
        slot_lookup(self.buffer@, k)
    }

    pub open spec fn wf(&self) -> bool {
        self.slots().len() <= u32::MAX + 1
    }

    /// What the table holds for `k`, read from its slot array: the value of
    /// the slot at `k`'s index, when that slot carries `k`'s generation.
    pub proof fn lemma_lookup_slots(&self, k: Key)
        ensures
            self.lookup(k) == if k.idx() < self.slots().len() && k.gen() != 0
                && self.slots()[k.idx() as int].0 == k.gen() {
                Some(self.slots()[k.idx() as int].1)
            } else {
                None
            },
    {
    }

    pub fn new() -> (r: UniqueStore<T>)
        ensures
            r.wf(),
            forall|k: Key| #[trigger] r.lookup(k).is_none(),
    {
        UniqueStore { buffer: Vec::new() }
    }

    pub fn get(&self, key: Key) -> (r: Option<&T>)
        ensures
            self.lookup(key) == (match r {
                Some(v) => Some(*v),
                None => None::<T>,
            }),
    {
        let i = key.index as usize;
        if i < self.buffer.len() && key.generation != 0 && self.buffer[i].0 == key.generation {
            Some(&self.buffer[i].1)
        } else {
            None
        }
    }

    /// A mutable reference to the value stored for `key`; writing through it
    /// changes that value only.
    pub fn get_mut(&mut self, key: Key) -> (r: Option<&mut T>)
        ensures
            old(self).lookup(key).is_none() ==> r.is_none() && *final(self) == *old(self),
            old(self).lookup(key).is_some() ==> r.is_some() && Some(*r.unwrap()) == old(
                self,
            ).lookup(key) && final(self).slots() == old(self).slots().update(
                key.idx() as int,
                (key.gen(), *final(r.unwrap())),
            ),
            old(self).wf() ==> final(self).wf(),
            old(self).lookup(key).is_some() ==> forall|k: Key| #[trigger]
                final(self).lookup(k) == if k == key {
                    Some(*final(r.unwrap()))
                } else {
                    old(self).lookup(k)
                },
    {
        let i = key.index as usize;
        if i < self.buffer.len() && key.generation != 0 && self.buffer[i].0 == key.generation {
            let slot = &mut self.buffer[i];
            Some(&mut slot.1)
        } else {
            None
        }
    }

    pub fn contains(&self, key: Key) -> (r: bool)
        ensures
            r == self.lookup(key).is_some(),
    {
        match self.get(key) {
            Some(_) => true,
            None => false,
        }
    }

    /// Stores `value` for `key`, replacing whatever the slot at its index held.
    pub fn insert(&mut self, key: Key, value: T)
        requires
            old(self).wf(),
        ensures
            final(self).wf(),
            final(self).slots().len() == if old(self).slots().len() > key.idx() {
                old(self).slots().len() as int
            } else {
                key.idx() as int + 1
            },
            final(self).slots()[key.idx() as int] == (key.gen(), value),
            forall|j: int|
                0 <= j < old(self).slots().len() && j != key.idx() ==> #[trigger] final(self).slots()[j]
                    == old(self).slots()[j],
            forall|j: int|
                old(self).slots().len() <= j < key.idx() ==> (#[trigger] final(self).slots()[j]).0 == 0,
            key.gen() != 0 ==> final(self).lookup(key) == Some(value),
            forall|k: Key| #[trigger]
                final(self).lookup(k) == if k.idx() == key.idx() {
                    if k.gen() == key.gen() && key.gen() != 0 {
                        Some(value)
                    } else {
                        None
                    }
                } else {
                    old(self).lookup(k)
                },
    {
        let i = key.index as usize;
        while self.buffer.len() < i
            invariant
                i <= u32::MAX,
                self.buffer@.len() <= i || self.buffer@.len() == old(self).buffer@.len(),
                self.buffer@.len() >= old(self).buffer@.len(),
                forall|j: int| 0 <= j < old(self).buffer@.len() ==> self.buffer@[j] == old(self).buffer@[j],
                forall|j: int| old(self).buffer@.len() <= j < self.buffer@.len() ==> (#[trigger] self.buffer@[j]).0 == 0,
            decreases i - self.buffer@.len(),
        {
            self.buffer.push((0, value));
        }
        let ghost mid = self.buffer@;
        if self.buffer.len() == i {
            self.buffer.push((key.generation, value));
        } else {
            self.buffer.set(i, (key.generation, value));
        }
        assert forall|k: Key| #[trigger]
            self.lookup(k) == if k.idx() == key.idx() {
                if k.gen() == key.gen() && key.gen() != 0 {
                    Some(value)
                } else {
                    None
                }
            } else {
                old(self).lookup(k)
            } by {
            if k.index != key.index && k.index < self.buffer@.len() {
                assert(self.buffer@[k.index as int] == mid[k.index as int]);
            }
        }
    }

    /// Every present entry, in ascending index order.
    pub fn iter(&self) -> (r: Vec<(Key, T)>)
        requires
            self.wf(),
        ensures
            ascending(r@),
            forall|t: int| 0 <= t < r@.len() ==> self.lookup((#[trigger] r@[t]).0) == Some(r@[t].1),
            forall|k: Key| #[trigger]
                self.lookup(k).is_some() ==> exists|t: int| 0 <= t < r@.len() && (#[trigger] r@[t]).0 == k,
    {
        let r = convert_iter(&self.buffer);
        assert forall|k: Key| #[trigger]
            self.lookup(k).is_some() implies exists|t: int| 0 <= t < r@.len() && (#[trigger] r@[t]).0 == k by {
            assert(slot_lookup(self.buffer@, k).is_some());
        }
        r
    }

    /// Replaces the value of every present entry, in ascending index order,
    /// with `f(key, value)`.
    pub fn iter_mut<F: Fn(Key, T) -> T>(&mut self, f: F)
        requires
            old(self).wf(),
            forall|k: Key, v: T| #[trigger] f.requires((k, v)),
        ensures
            final(self).wf(),
            final(self).slots().len() == old(self).slots().len(),
            forall|j: int|
                0 <= j < old(self).slots().len() ==> (#[trigger] final(self).slots()[j]).0 == old(
                    self,
                ).slots()[j].0,
            forall|k: Key| #[trigger]
                old(self).lookup(k).is_none() ==> final(self).lookup(k).is_none(),
            forall|k: Key| #[trigger]
                old(self).lookup(k).is_some() ==> final(self).lookup(k).is_some() && f.ensures(
                    (k, old(self).lookup(k).unwrap()),
                    final(self).lookup(k).unwrap(),
                ),
    {
        let mut i: usize = 0;
        while i < self.buffer.len()
            invariant
                i <= self.buffer@.len(),
                self.buffer@.len() == old(self).buffer@.len(),
                self.buffer@.len() <= u32::MAX + 1,
                forall|k: Key, v: T| #[trigger] f.requires((k, v)),
                forall|j: int|
                    0 <= j < self.buffer@.len() ==> (#[trigger] self.buffer@[j]).0 == old(
                        self,
                    ).buffer@[j].0,
                forall|j: int|
                    i <= j < self.buffer@.len() ==> #[trigger] self.buffer@[j] == old(
                        self,
                    ).buffer@[j],
                forall|j: int|
                    0 <= j < i && old(self).buffer@[j].0 == 0 ==> #[trigger] self.buffer@[j] == old(
                        self,
                    ).buffer@[j],
                forall|j: int|
                    0 <= j < i && old(self).buffer@[j].0 != 0 ==> f.ensures(
                        (Key { generation: old(self).buffer@[j].0, index: j as u32 }, old(self).buffer@[j].1),
                        (#[trigger] self.buffer@[j]).1,
                    ),
            decreases self.buffer@.len() - i,
        {
            let (generation, value) = self.buffer[i];
            if generation != 0 {
                let fresh = f(Key { generation, index: i as u32 }, value);
                self.buffer.set(i, (generation, fresh));
            }
            i += 1;
        }
        assert forall|k: Key| #[trigger]
            old(self).lookup(k).is_some() implies self.lookup(k).is_some() && f.ensures(
                (k, old(self).lookup(k).unwrap()),
                self.lookup(k).unwrap(),
            ) by {
            let j = k.index as int;
            assert(self.buffer@[j].0 == old(self).buffer@[j].0);
            assert(k == Key { generation: old(self).buffer@[j].0, index: j as u32 });
        }
        assert forall|k: Key| #[trigger]
            old(self).lookup(k).is_none() implies self.lookup(k).is_none() by {
            if k.index < self.buffer@.len() {
                assert(self.buffer@[k.index as int].0 == old(self).buffer@[k.index as int].0);
            }
        }
    }

    /// For every key present both here and in `other`, replaces this table's
    /// value `v` with `f(key, v, u)`, `u` being `other`'s value; entries whose
    /// key `other` lacks are left as they are.
    pub fn update_with<U: Copy, F: Fn(Key, T, U) -> T>(&mut self, other: &UniqueStore<U>, f: F)
        requires
            old(self).wf(),
            forall|k: Key, v: T, u: U| #[trigger] f.requires((k, v, u)),
        ensures
            final(self).wf(),
            final(self).slots().len() == old(self).slots().len(),
            forall|j: int|
                0 <= j < old(self).slots().len() ==> (#[trigger] final(self).slots()[j]).0 == old(
                    self,
                ).slots()[j].0,
            forall|k: Key| #[trigger]
                old(self).lookup(k).is_none() ==> final(self).lookup(k).is_none(),
            forall|k: Key| #[trigger]
                old(self).lookup(k).is_some() && other.lookup(k).is_none() ==> final(self).lookup(k)
                    == old(self).lookup(k),
            forall|k: Key| #[trigger]
                old(self).lookup(k).is_some() && other.lookup(k).is_some() ==> final(self).lookup(
                    k,
                ).is_some() && f.ensures(
                    (k, old(self).lookup(k).unwrap(), other.lookup(k).unwrap()),
                    final(self).lookup(k).unwrap(),
                ),
    {
        let mut i: usize = 0;
        while i < self.buffer.len()
            invariant
                i <= self.buffer@.len(),
                self.buffer@.len() == old(self).buffer@.len(),
                self.buffer@.len() <= u32::MAX + 1,
                forall|k: Key, v: T, u: U| #[trigger] f.requires((k, v, u)),
                forall|j: int|
                    0 <= j < self.buffer@.len() ==> (#[trigger] self.buffer@[j]).0 == old(
                        self,
                    ).buffer@[j].0,
                forall|j: int|
                    i <= j < self.buffer@.len() ==> #[trigger] self.buffer@[j] == old(
                        self,
                    ).buffer@[j],
                forall|j: int|
                    0 <= j < i && (old(self).buffer@[j].0 == 0 || other.lookup(
                        Key { generation: old(self).buffer@[j].0, index: j as u32 },
                    ).is_none()) ==> #[trigger] self.buffer@[j] == old(self).buffer@[j],
                forall|j: int|
                    0 <= j < i && old(self).buffer@[j].0 != 0 && other.lookup(
                        Key { generation: old(self).buffer@[j].0, index: j as u32 },
                    ).is_some() ==> f.ensures(
                        (
                            Key { generation: old(self).buffer@[j].0, index: j as u32 },
                            old(self).buffer@[j].1,
                            other.lookup(Key { generation: old(self).buffer@[j].0, index: j as u32 }).unwrap(),
                        ),
                        (#[trigger] self.buffer@[j]).1,
                    ),
            decreases self.buffer@.len() - i,
        {
            let (generation, value) = self.buffer[i];
            if generation != 0 {
                let key = Key { generation, index: i as u32 };
                match other.get(key) {
                    Some(u) => {
                        let fresh = f(key, value, *u);
                        self.buffer.set(i, (generation, fresh));
                    },
                    None => {},
                }
            }
            i += 1;
        }
        assert forall|k: Key| #[trigger]
            old(self).lookup(k).is_some() implies self.lookup(k).is_some() && (other.lookup(k).is_none()
                ==> self.lookup(k) == old(self).lookup(k)) && (other.lookup(k).is_some() ==> f.ensures(
                (k, old(self).lookup(k).unwrap(), other.lookup(k).unwrap()),
                self.lookup(k).unwrap(),
            )) by {
            let j = k.index as int;
            assert(self.buffer@[j].0 == old(self).buffer@[j].0);
            assert(k == Key { generation: old(self).buffer@[j].0, index: j as u32 });
        }
        assert forall|k: Key| #[trigger]
            old(self).lookup(k).is_none() implies self.lookup(k).is_none() by {
            if k.index < self.buffer@.len() {
                assert(self.buffer@[k.index as int].0 == old(self).buffer@[k.index as int].0);
            }
        }
    }

    /// Empties the slot at `key`'s index, whatever generation it holds.
    pub fn remove(&mut self, key: Key)
        requires
            old(self).wf(),
        ensures
            final(self).wf(),
            key.idx() < old(self).slots().len() ==> final(self).slots() == old(self).slots().update(
                key.idx() as int,
                (0u32, old(self).slots()[key.idx() as int].1),
            ),
            key.idx() >= old(self).slots().len() ==> final(self).slots() == old(self).slots(),
            final(self).lookup(key).is_none(),
            forall|k: Key| #[trigger]
                final(self).lookup(k) == if k.idx() == key.idx() {
                    None
                } else {
                    old(self).lookup(k)
                },
    {
        let i = key.index as usize;
        if i < self.buffer.len() {
            let value = self.buffer[i].1;
            self.buffer.set(i, (0, value));
        }
        assert forall|k: Key| #[trigger]
            self.lookup(k) == if k.idx() == key.idx() {
                None
            } else {
                old(self).lookup(k)
            } by {
            if k.index != key.index && k.index < self.buffer@.len() {
                assert(self.buffer@[k.index as int] == old(self).buffer@[k.index as int]);
            }
        }
    }
}

/// `s` holds the entry `(k, v)`.
pub open spec fn has_entry<V>(s: Seq<(Key, V)>, k: Key, v: V) -> bool {
    exists|i: int| 0 <= i < s.len() && #[trigger] s[i] == (k, v)
}

/// Every entry of `r` pairs an entry of `a` with an entry of `b` under the same
/// key, and every two such entries are paired in `r`, in ascending index order.
pub open spec fn is_join<T, U>(a: Seq<(Key, T)>, b: Seq<(Key, U)>, r: Seq<(Key, (T, U))>) -> bool {
    &&& ascending(r)
    &&& forall|t: int|
        0 <= t < r.len() ==> has_entry(a, (#[trigger] r[t]).0, r[t].1.0) && has_entry(b, r[t].0, r[t].1.1)
    &&& forall|i: int, j: int|
        0 <= i < a.len() && 0 <= j < b.len() && (#[trigger] a[i]).0 == (#[trigger] b[j]).0 ==> has_entry(
            r,
            a[i].0,
            (a[i].1, b[j].1),
        )
}

/// Merges two index-ordered entry lists into the entries whose key both hold.
pub fn join_key<T: Copy, U: Copy>(a: Vec<(Key, T)>, b: Vec<(Key, U)>) -> (r: Vec<(Key, (T, U))>)
    requires
        ascending(a@),
        ascending(b@),
    ensures
        is_join(a@, b@, r@),
{
    let mut r: Vec<(Key, (T, U))> = Vec::new();
    let mut i: usize = 0;
    let mut j: usize = 0;
    let ghost mut wa: Seq<int> = Seq::empty();
    let ghost mut wb: Seq<int> = Seq::empty();
    while i < a.len() && j < b.len()
        invariant
            i <= a@.len(),
            j <= b@.len(),
            ascending(a@),
            ascending(b@),
            r@.len() == wa.len(),
            r@.len() == wb.len(),
            forall|t: int|
                0 <= t < r@.len() ==> 0 <= #[trigger] wa[t] < i && 0 <= wb[t] < j && a@[wa[t]] == (
                    r@[t].0,
                    r@[t].1.0,
                ) && b@[wb[t]] == (r@[t].0, r@[t].1.1),
            forall|s: int, t: int| 0 <= s < t < r@.len() ==> #[trigger] wa[s] < #[trigger] wa[t],
            forall|i1: int, j1: int|
                0 <= i1 < a@.len() && 0 <= j1 < b@.len() && (i1 < i || j1 < j) && (#[trigger] a@[i1]).0
                    == (#[trigger] b@[j1]).0 ==> has_entry(r@, a@[i1].0, (a@[i1].1, b@[j1].1)),
        decreases a@.len() - i + b@.len() - j,
    {
        let (ka, va) = a[i];
        let (kb, vb) = b[j];
        if ka == kb {
            let ghost prev = r@;
            r.push((kb, (va, vb)));
            proof {
                wa = wa.push(i as int);
                wb = wb.push(j as int);
                assert forall|i1: int, j1: int|
                    0 <= i1 < a@.len() && 0 <= j1 < b@.len() && (i1 < i + 1 || j1 < j + 1) && (#[trigger] a@[i1]).0
                        == (#[trigger] b@[j1]).0 implies has_entry(r@, a@[i1].0, (a@[i1].1, b@[j1].1)) by {
                    if i1 < i || j1 < j {
                        let t = choose|t: int|
                            0 <= t < prev.len() && #[trigger] prev[t] == (a@[i1].0, (a@[i1].1, b@[j1].1));
                        assert(r@[t] == prev[t]);
                    } else if i1 == i {
                        if j1 > j {
                            assert(b@[j as int].0.idx() < b@[j1].0.idx());
                        }
                        assert(r@[prev.len() as int] == (a@[i1].0, (a@[i1].1, b@[j1].1)));
                    } else {
                        assert(a@[i as int].0.idx() < a@[i1].0.idx());
                    }
                }
            }
            i += 1;
            j += 1;
        } else if ka.index < kb.index {
            proof {
                assert forall|i1: int, j1: int|
                    0 <= i1 < a@.len() && 0 <= j1 < b@.len() && (i1 < i + 1 || j1 < j) && (#[trigger] a@[i1]).0
                        == (#[trigger] b@[j1]).0 implies has_entry(r@, a@[i1].0, (a@[i1].1, b@[j1].1)) by {
                    if !(i1 < i || j1 < j) {
                        if j1 > j {
                            assert(b@[j as int].0.idx() < b@[j1].0.idx());
                        }
                    }
                }
            }
            i += 1;
        } else {
            proof {
                assert forall|i1: int, j1: int|
                    0 <= i1 < a@.len() && 0 <= j1 < b@.len() && (i1 < i || j1 < j + 1) && (#[trigger] a@[i1]).0
                        == (#[trigger] b@[j1]).0 implies has_entry(r@, a@[i1].0, (a@[i1].1, b@[j1].1)) by {
                    if !(i1 < i || j1 < j) {
                        if i1 > i {
                            assert(a@[i as int].0.idx() < a@[i1].0.idx());
                        }
                    }
                }
            }
            j += 1;
        }
    }
    assert forall|t: int| 0 <= t < r@.len() implies has_entry(a@, (#[trigger] r@[t]).0, r@[t].1.0)
        && has_entry(b@, r@[t].0, r@[t].1.1) by {
        assert(a@[wa[t]] == (r@[t].0, r@[t].1.0));
        assert(b@[wb[t]] == (r@[t].0, r@[t].1.1));
    }
    assert forall|s: int, t: int| 0 <= s < t < r@.len() implies (#[trigger] r@[s]).0.idx() < (
    #[trigger] r@[t]).0.idx() by {
        assert(wa[s] < wa[t]);
        assert(a@[wa[s]].0.idx() < a@[wa[t]].0.idx());
    }
    assert forall|i1: int, j1: int|
        0 <= i1 < a@.len() && 0 <= j1 < b@.len() && (#[trigger] a@[i1]).0 == (#[trigger] b@[j1]).0 implies has_entry(
        r@,
        a@[i1].0,
        (a@[i1].1, b@[j1].1),
    ) by {
        assert(i1 < i || j1 < j);
    }
    r
}

/// At most one live key exists for any index.
pub proof fn lemma_live_keys_unique(a: &KeyAllocator)
    requires
        a.wf(),
    ensures
        forall|k1: Key, k2: Key| #[trigger]
            a.live().contains(k1) && #[trigger] a.live().contains(k2) && k1.idx() == k2.idx() ==> k1
                == k2,
{
}

/// A freed key finds nothing in a table whose slot at its index has since been
/// written for the key that reuses that index.
pub proof fn lemma_stale_key_absent<T: Copy>(
    a: &KeyAllocator,
    stale: Key,
    fresh: Key,
    table: &UniqueStore<T>,
)
    requires
        a.wf(),
        a.issued().contains(stale),
        !a.live().contains(stale),
        a.live().contains(fresh),
        fresh.idx() == stale.idx(),
        table.lookup(fresh).is_some(),
    ensures
        table.lookup(stale).is_none(),
{
    assert(stale.generation <= fresh.generation);
    assert(stale != fresh);
}

/// A strictly increasing map from `0..n` into the naturals never falls below
/// its argument.
proof fn lemma_increasing_at_least(h: spec_fn(int) -> int, n: int)
    requires
        forall|i: int, j: int| 0 <= i < j < n ==> #[trigger] h(i) < #[trigger] h(j),
        forall|i: int| 0 <= i < n ==> #[trigger] h(i) >= 0,
    ensures
        forall|i: int| 0 <= i < n ==> #[trigger] h(i) >= i,
    decreases n,
{
    if n > 0 {
        lemma_increasing_at_least(h, n - 1);
        if n >= 2 {
            assert(h(n - 2) < h(n - 1));
        }
    }
}

/// Joining with an empty list yields nothing, on either side.
pub proof fn lemma_join_empty<T, U>(a: Seq<(Key, T)>, b: Seq<(Key, U)>, r: Seq<(Key, (T, U))>)
    requires
        a.len() == 0 || b.len() == 0,
        is_join(a, b, r),
    ensures
        r.len() == 0,
{
    if r.len() > 0 {
        assert(has_entry(a, r[0].0, r[0].1.0));
        assert(has_entry(b, r[0].0, r[0].1.1));
    }
}

/// Joining two ordered lists that hold the same keys in the same order pairs
/// them up entry by entry; in particular, joining a list with itself pairs
/// every entry with itself.
pub proof fn lemma_join_self<T, U>(a: Seq<(Key, T)>, b: Seq<(Key, U)>, r: Seq<(Key, (T, U))>)
    requires
        ascending(a),
        b.len() == a.len(),
        forall|i: int| 0 <= i < a.len() ==> (#[trigger] b[i]).0 == a[i].0,
        is_join(a, b, r),
    ensures
        r.len() == a.len(),
        forall|t: int| 0 <= t < r.len() ==> #[trigger] r[t] == (a[t].0, (a[t].1, b[t].1)),
{
    // Where each entry of `r` sits in `a`, and where each entry of `a` sits in `r`.
    let f = |t: int| choose|i: int| 0 <= i < a.len() && #[trigger] a[i] == (r[t].0, r[t].1.0);
    let g = |i: int| choose|t: int| 0 <= t < r.len() && #[trigger] r[t] == (a[i].0, (a[i].1, b[i].1));
    assert forall|t: int| 0 <= t < r.len() implies 0 <= #[trigger] f(t) < a.len() && a[f(t)] == (
        r[t].0,
        r[t].1.0,
    ) by {
        assert(has_entry(a, r[t].0, r[t].1.0));
    }
    assert forall|i: int| 0 <= i < a.len() implies 0 <= #[trigger] g(i) < r.len() && r[g(i)] == (
        a[i].0,
        (a[i].1, b[i].1),
    ) by {
        assert(a[i].0 == b[i].0);
        assert(has_entry(r, a[i].0, (a[i].1, b[i].1)));
    }
    assert forall|i: int, j: int| 0 <= i < j < r.len() implies #[trigger] f(i) < #[trigger] f(j) by {
        assert(r[i].0.idx() < r[j].0.idx());
        if f(j) <= f(i) {
            if f(j) < f(i) {
                assert(a[f(j)].0.idx() < a[f(i)].0.idx());
            }
        }
    }
    assert forall|i: int, j: int| 0 <= i < j < a.len() implies #[trigger] g(i) < #[trigger] g(j) by {
        assert(a[i].0.idx() < a[j].0.idx());
        if g(j) <= g(i) {
            if g(j) < g(i) {
                assert(r[g(j)].0.idx() < r[g(i)].0.idx());
            }
        }
    }
    lemma_increasing_at_least(f, r.len() as int);
    lemma_increasing_at_least(g, a.len() as int);
    if r.len() > 0 {
        assert(f(r.len() - 1) >= r.len() - 1);
    }
    if a.len() > 0 {
        assert(g(a.len() - 1) >= a.len() - 1);
    }
    assert forall|t: int| 0 <= t < r.len() implies #[trigger] r[t] == (a[t].0, (a[t].1, b[t].1)) by {
        assert(g(t) >= t);
        assert(f(t) >= t);
        let i = f(t);
        // `g(f(t))` is the place of `r[t]`'s key in `r`, which is `t`.
        assert(r[g(i)].0 == a[i].0);
        if g(i) != t {
            if g(i) < t {
                assert(r[g(i)].0.idx() < r[t].0.idx());
            } else {
                assert(r[t].0.idx() < r[g(i)].0.idx());
            }
        }
        if i > t {
            // Then `g(t) >= t` and `g(t) < g(i) == t`.
            assert(g(t) < g(i));
        }
        assert(has_entry(b, r[t].0, r[t].1.1));
        let j = choose|j: int| 0 <= j < b.len() && #[trigger] b[j] == (r[t].0, r[t].1.1);
        assert(b[j].0 == a[j].0);
        if j != i {
            if j < i {
                assert(a[j].0.idx() < a[i].0.idx());
            } else {
                assert(a[i].0.idx() < a[j].0.idx());
            }
        }
    }
}

} // verus!
