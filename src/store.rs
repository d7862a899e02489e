use vstd::prelude::*;

use crate::contact::{embed_target, embed_target_of, CollisionProp};
use crate::unique_store::{Key, KeyAllocator, UniqueStore};

verus! {

/// `after` differs from `before` only in holding `value` for `key`, which
/// displaces whatever else sat at that key's index.
pub open spec fn written<T: Copy>(before: &UniqueStore<T>, after: &UniqueStore<T>, key: Key, value: T) -> bool {
    forall|k: Key| #[trigger]
        after.lookup(k) == if k.idx() == key.idx() {
            if k.gen() == key.gen() {
                Some(value)
            } else {
                None
            }
        } else {
            before.lookup(k)
        }
}

/// `after` is what one pass of `g` leaves of `before`: `g` applied where the
/// other table held `param`, nothing done where it held none.
pub open spec fn pass_result<W, P, G: Fn(Key, W, P) -> W>(g: G, k: Key, before: W, param: Option<P>, after: W) -> bool {
    match param {
        Some(p) => g.ensures((k, before, p), after),
        None => after == before,
    }
}

/// The running totals of adding the vectors of `ps` one after another to
/// `start` with `plus`: `partial[0]` is `start`, and each next total is `plus`
/// of the one before and the next vector.
pub open spec fn running_totals<V, FA: Fn(V, V) -> V>(plus: FA, start: V, ps: Seq<V>, partial: Seq<V>) -> bool {
    &&& partial.len() == ps.len() + 1
    &&& partial[0] == start
    &&& forall|i: int| 0 <= i < ps.len() ==> plus.ensures((#[trigger] partial[i], ps[i]), partial[i + 1])
}

/// `end` is what adding the vectors of `ps` one after another to `start`
/// with `plus` gives.
pub open spec fn sums_to<V, FA: Fn(V, V) -> V>(plus: FA, start: V, ps: Seq<V>, end: V) -> bool {
    exists|partial: Seq<V>| #[trigger] running_totals(plus, start, ps, partial) && partial.last() == end
}

/// Adds the vectors of `ps` to `start`, first to last.
fn sum_into<V: Copy, FA: Fn(V, V) -> V>(start: V, ps: &Vec<V>, plus: FA) -> (r: V)
    requires
        forall|x: V, y: V| #[trigger] plus.requires((x, y)),
    ensures
        sums_to(plus, start, ps@, r),
{
    let mut acc = start;
    let mut i: usize = 0;
    let ghost mut partial: Seq<V> = seq![start];
    while i < ps.len()
        invariant
            i <= ps@.len(),
            forall|x: V, y: V| #[trigger] plus.requires((x, y)),
            partial.len() == i + 1,
            partial[0] == start,
            partial.last() == acc,
            forall|j: int| 0 <= j < i ==> plus.ensures((#[trigger] partial[j], ps@[j]), partial[j + 1]),
        decreases ps@.len() - i,
    {
        acc = plus(acc, ps[i]);
        proof {
            let prev = partial;
            partial = partial.push(acc);
            assert forall|j: int| 0 <= j < i + 1 implies plus.ensures((#[trigger] partial[j], ps@[j]), partial[j + 1]) by {
                if j < i {
                    assert(partial[j] == prev[j]);
                    assert(partial[j + 1] == prev[j + 1]);
                }
            }
        }
        i += 1;
    }
    assert(running_totals(plus, start, ps@, partial));
    acc
}

/// The per-entity attribute tables of one world, with the allocator of their
/// keys. `Ty` is the entity's kind, `V` a vector, `F` a friction factor and
/// `H` a handle into the collision engine.
pub struct Store<Ty: Copy, V: Copy, F: Copy, H: Copy> {
    pub key_alloc: KeyAllocator,
    pub bounds: UniqueStore<H>,
    pub types: UniqueStore<Ty>,
    pub velocity: UniqueStore<V>,
    pub acceleration: UniqueStore<V>,
    /// The fraction of the velocity kept from one frame to the next.
    pub friction: UniqueStore<F>,
    /// The summed vector by which the entity sank into terrain this frame.
    pub embed: UniqueStore<V>,
    pub velocity_cap: UniqueStore<V>,
    /// The zero vector, which new entities start at.
    pub zero: V,
    /// The friction that damps nothing.
    pub no_damping: F,
}

impl<Ty: Copy, V: Copy, F: Copy, H: Copy> Store<Ty, V, F, H> {
    pub open spec fn wf(&self) -> bool {
        &&& self.key_alloc.wf()
        &&& self.bounds.wf()
        &&& self.types.wf()
        &&& self.velocity.wf()
        &&& self.acceleration.wf()
        &&& self.friction.wf()
        &&& self.embed.wf()
        &&& self.velocity_cap.wf()
    }

    pub fn new(zero: V, no_damping: F) -> (r: Self)
        ensures
            r.wf(),
            r.key_alloc.live() == Set::<Key>::empty(),
            r.key_alloc.issued() == Set::<Key>::empty(),
            r.key_alloc.spare() == u32::MAX,
            r.key_alloc.gaps() == Seq::<Key>::empty(),
            r.key_alloc.next_index() == 0,
            r.key_alloc.next_key().gen() == 1,
            r.key_alloc.next_key().idx() == 0,
            r.zero == zero,
            r.no_damping == no_damping,
            forall|k: Key| #[trigger] r.bounds.lookup(k).is_none(),
            forall|k: Key| #[trigger] r.types.lookup(k).is_none(),
            forall|k: Key| #[trigger] r.velocity.lookup(k).is_none(),
            forall|k: Key| #[trigger] r.acceleration.lookup(k).is_none(),
            forall|k: Key| #[trigger] r.friction.lookup(k).is_none(),
            forall|k: Key| #[trigger] r.embed.lookup(k).is_none(),
            forall|k: Key| #[trigger] r.velocity_cap.lookup(k).is_none(),
    {
        Store {
            key_alloc: KeyAllocator::new(),
            bounds: UniqueStore::new(),
            types: UniqueStore::new(),
            velocity: UniqueStore::new(),
            acceleration: UniqueStore::new(),
            friction: UniqueStore::new(),
            embed: UniqueStore::new(),
            velocity_cap: UniqueStore::new(),
            zero,
            no_damping,
        }
    }

    /// Allocates a key for a new entity of kind `entity_type` at rest: zero
    /// velocity, acceleration and embed, and friction that damps nothing. Its
    /// collision object and velocity cap are left for the caller to plus.
    pub fn create_physical_entity(&mut self, entity_type: Ty) -> (r: Key)
        requires
            old(self).wf(),
            old(self).key_alloc.can_alloc(),
        ensures
            final(self).wf(),
            r == old(self).key_alloc.next_key(),
            old(self).key_alloc.gaps().len() > 0 ==> r == old(self).key_alloc.gaps().last()
                && final(self).key_alloc.gaps() == old(self).key_alloc.gaps().drop_last()
                && final(self).key_alloc.next_index() == old(self).key_alloc.next_index(),
            old(self).key_alloc.gaps().len() == 0 ==> r.gen() == 1 && r.idx()
                == old(self).key_alloc.next_index() && final(self).key_alloc.gaps()
                == old(self).key_alloc.gaps() && final(self).key_alloc.next_index()
                == old(self).key_alloc.next_index() + 1,
            !old(self).key_alloc.issued().contains(r),
            final(self).key_alloc.live().contains(r),
            forall|k: Key| #[trigger] old(self).key_alloc.live().contains(k) ==> k.idx() != r.idx(),
            final(self).key_alloc.spare() == old(self).key_alloc.spare() - 1,
            final(self).key_alloc.live() == old(self).key_alloc.live().insert(r),
            final(self).key_alloc.issued() == old(self).key_alloc.issued().insert(r),
            final(self).zero == old(self).zero,
            final(self).no_damping == old(self).no_damping,
            written(&old(self).types, &final(self).types, r, entity_type),
            written(&old(self).velocity, &final(self).velocity, r, old(self).zero),
            written(&old(self).acceleration, &final(self).acceleration, r, old(self).zero),
            written(&old(self).friction, &final(self).friction, r, old(self).no_damping),
            written(&old(self).embed, &final(self).embed, r, old(self).zero),
            final(self).bounds == old(self).bounds,
            final(self).velocity_cap == old(self).velocity_cap,
    {
        let key = self.key_alloc.allocate();
        self.types.insert(key, entity_type);
        self.velocity.insert(key, self.zero);
        self.acceleration.insert(key, self.zero);
        self.friction.insert(key, self.no_damping);
        self.embed.insert(key, self.zero);
        key
    }
    /// Advances every velocity by one frame, in this order: plus the entity's
    /// acceleration, damp by its friction, clamp to its cap. Each pass skips
    /// the entities that lack the entry it reads.
    pub fn integrate_velocity<
        FA: Fn(Key, V, V) -> V,
        FD: Fn(Key, V, F) -> V,
        FC: Fn(Key, V, V) -> V,
    >(&mut self, accelerate: FA, damp: FD, clamp: FC)
        requires
            old(self).wf(),
            forall|k: Key, v: V, a: V| #[trigger] accelerate.requires((k, v, a)),
            forall|k: Key, v: V, f: F| #[trigger] damp.requires((k, v, f)),
            forall|k: Key, v: V, c: V| #[trigger] clamp.requires((k, v, c)),
        ensures
            final(self).wf(),
            final(self).key_alloc == old(self).key_alloc,
            final(self).bounds == old(self).bounds,
            final(self).types == old(self).types,
            final(self).acceleration == old(self).acceleration,
            final(self).friction == old(self).friction,
            final(self).embed == old(self).embed,
            final(self).velocity_cap == old(self).velocity_cap,
            final(self).zero == old(self).zero,
            final(self).no_damping == old(self).no_damping,
            forall|k: Key| #[trigger]
                old(self).velocity.lookup(k).is_none() ==> final(self).velocity.lookup(k).is_none(),
            forall|k: Key| #[trigger]
                old(self).velocity.lookup(k).is_some() ==> final(self).velocity.lookup(k).is_some()
                    && exists|v1: V, v2: V|
                    pass_result(accelerate, k, old(self).velocity.lookup(k).unwrap(), old(self).acceleration.lookup(k), v1)
                        && pass_result(damp, k, v1, old(self).friction.lookup(k), v2)
                        && pass_result(clamp, k, v2, old(self).velocity_cap.lookup(k), final(self).velocity.lookup(k).unwrap()),
    {
        self.velocity.update_with(&self.acceleration, accelerate);
        let ghost after_accelerate = self.velocity;
        self.velocity.update_with(&self.friction, damp);
        let ghost after_damp = self.velocity;
        self.velocity.update_with(&self.velocity_cap, clamp);
        assert forall|k: Key| #[trigger]
            old(self).velocity.lookup(k).is_some() implies self.velocity.lookup(k).is_some()
                && exists|v1: V, v2: V|
                pass_result(accelerate, k, old(self).velocity.lookup(k).unwrap(), old(self).acceleration.lookup(k), v1)
                    && pass_result(damp, k, v1, old(self).friction.lookup(k), v2)
                    && pass_result(clamp, k, v2, old(self).velocity_cap.lookup(k), self.velocity.lookup(k).unwrap()) by {
            let v1 = after_accelerate.lookup(k).unwrap();
            let v2 = after_damp.lookup(k).unwrap();
            assert(pass_result(accelerate, k, old(self).velocity.lookup(k).unwrap(), old(self).acceleration.lookup(k), v1));
            assert(pass_result(damp, k, v1, old(self).friction.lookup(k), v2));
        }
    }
    /// Sets the acceleration of `key` to the sum of this frame's `impulses`,
    /// starting from zero. An entity without an acceleration entry is left
    /// alone.
    pub fn set_acceleration<FA: Fn(V, V) -> V>(&mut self, key: Key, impulses: &Vec<V>, plus: FA)
        requires
            old(self).wf(),
            forall|x: V, y: V| #[trigger] plus.requires((x, y)),
        ensures
            final(self).wf(),
            final(self).key_alloc == old(self).key_alloc,
            final(self).bounds == old(self).bounds,
            final(self).types == old(self).types,
            final(self).velocity == old(self).velocity,
            final(self).friction == old(self).friction,
            final(self).embed == old(self).embed,
            final(self).velocity_cap == old(self).velocity_cap,
            final(self).zero == old(self).zero,
            final(self).no_damping == old(self).no_damping,
            old(self).acceleration.lookup(key).is_none() ==> final(self).acceleration
                == old(self).acceleration,
            old(self).acceleration.lookup(key).is_some() ==> final(self).acceleration.lookup(key).is_some()
                && sums_to(plus, old(self).zero, impulses@, final(self).acceleration.lookup(key).unwrap())
                && forall|k: Key| #[trigger]
                final(self).acceleration.lookup(k) == if k == key {
                    final(self).acceleration.lookup(key)
                } else {
                    old(self).acceleration.lookup(k)
                },
    {
        let total = sum_into(self.zero, impulses, plus);
        match self.acceleration.get_mut(key) {
            Some(acceleration) => {
                *acceleration = total;
            },
            None => {},
        }
    }

    /// Feeds a contact that started this frame between objects tagged `a` and
    /// `b` into the embed correction: where it is between terrain and an entity
    /// that has an embed entry, each of `penetrations` is added to that entry in
    /// turn. Any other contact changes nothing.
    pub fn record_contact<FA: Fn(V, V) -> V>(
        &mut self,
        a: CollisionProp,
        b: CollisionProp,
        penetrations: &Vec<V>,
        plus: FA,
    )
        requires
            old(self).wf(),
            forall|x: V, y: V| #[trigger] plus.requires((x, y)),
        ensures
            final(self).wf(),
            final(self).key_alloc == old(self).key_alloc,
            final(self).bounds == old(self).bounds,
            final(self).types == old(self).types,
            final(self).velocity == old(self).velocity,
            final(self).acceleration == old(self).acceleration,
            final(self).friction == old(self).friction,
            final(self).velocity_cap == old(self).velocity_cap,
            final(self).zero == old(self).zero,
            final(self).no_damping == old(self).no_damping,
            embed_target_of(a, b).is_none() ==> final(self).embed == old(self).embed,
            embed_target_of(a, b).is_some() && old(self).embed.lookup(embed_target_of(a, b).unwrap()).is_none()
                ==> final(self).embed == old(self).embed,
            embed_target_of(a, b).is_some() && old(self).embed.lookup(embed_target_of(a, b).unwrap()).is_some()
                ==> ({
                let k = embed_target_of(a, b).unwrap();
                &&& final(self).embed.lookup(k).is_some()
                &&& sums_to(plus, old(self).embed.lookup(k).unwrap(), penetrations@, final(self).embed.lookup(k).unwrap())
                &&& forall|j: Key| #[trigger]
                    final(self).embed.lookup(j) == if j == k {
                        final(self).embed.lookup(k)
                    } else {
                        old(self).embed.lookup(j)
                    }
            }),
    {
        match embed_target(a, b) {
            Some(key) => {
                match self.embed.get_mut(key) {
                    Some(embed) => {
                        *embed = sum_into(*embed, penetrations, plus);
                    },
                    None => {},
                }
            },
            None => {},
        }
    }
}


} // verus!
