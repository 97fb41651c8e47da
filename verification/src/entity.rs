//! Entity handles and the registry that allocates them.
//!
//! The registry owns handle allocation and, per entity, the set of component
//! keys currently attached. Handles are assigned monotonically from zero and
//! never reused, so a handle is valid exactly when it is below the number of
//! entities created so far.

use vstd::prelude::*;

use crate::EcsError;

verus! {

/// An opaque entity identifier. Equality is by raw value.
#[derive(Clone, Copy, Debug, PartialEq, Eq, Structural)]
pub struct EntityHandle(pub u32);

/// Per-entity bookkeeping: the handle and the set of component keys attached.
pub struct EntityData {
    /// The handle this record belongs to.
    pub handle: EntityHandle,
    /// Component keys currently attached; holds no duplicates.
    pub components: Vec<usize>,
}

impl EntityData {
    /// A fresh record for `handle` with no components attached.
    pub fn new(handle: EntityHandle) -> (d: EntityData)
        ensures
            d.handle == handle,
            d.components@ =~= Seq::<usize>::empty(),
    {
        EntityData { handle, components: Vec::new() }
    }
}

/// Allocates entity handles and records which component keys each entity holds.
pub struct EntityRegistry {
    next_entity: u32,
    entities: Vec<EntityData>,
}

impl EntityRegistry {
    /// Number of entities created so far.
    pub closed spec fn entity_count(self) -> int {
        self.entities@.len() as int
    }

    /// A handle is a live entity exactly when it was handed out by `create`.
    pub open spec fn is_entity(self, e: u32) -> bool {
        (e as int) < self.entity_count()
    }

    /// The recorded component set: entity `e` holds component key `k`.
    pub closed spec fn has_key(self, e: u32, k: usize) -> bool {
        self.is_entity(e) && self.entities@[e as int].components@.contains(k)
    }

    /// Structural invariant: handles equal their index, the counter matches,
    /// and no per-entity component list holds a duplicate.
    pub closed spec fn wf(self) -> bool {
        &&& self.next_entity as int == self.entities@.len()
        &&& forall|i: int|
            0 <= i < self.entities@.len() ==> (#[trigger] self.entities@[i]).handle.0 as int == i
        &&& forall|i: int, a: int, b: int|
            0 <= i < self.entities@.len() && 0 <= a < b < self.entities@[i].components@.len()
                ==> #[trigger] self.entities@[i].components@[a]
                    != #[trigger] self.entities@[i].components@[b]
    }

    /// Only live entities ever hold keys.
    pub proof fn lemma_keys_of_live_entities(self)
        ensures
            forall|e: u32, k: usize| #[trigger] self.has_key(e, k) ==> self.is_entity(e),
    {
    }

    /// An empty registry: no entities, counter at zero.
    pub fn new() -> (r: EntityRegistry)
        ensures
            r.wf(),
            r.entity_count() == 0,
            forall|e: u32, k: usize| !r.has_key(e, k),
    {
        EntityRegistry { next_entity: 0, entities: Vec::new() }
    }

    /// Allocates the next sequential handle with an empty component set.
    /// Never fails; the handle equals the previous entity count.
    pub fn create(&mut self) -> (h: EntityHandle)
        requires
            old(self).wf(),
            old(self).entity_count() < u32::MAX,
        ensures
            final(self).wf(),
            h.0 as int == old(self).entity_count(),
            final(self).entity_count() == old(self).entity_count() + 1,
            forall|e: u32, k: usize| old(self).has_key(e, k) == #[trigger] final(self).has_key(e, k),
            forall|k: usize| !final(self).has_key(h.0, k),
    {
        let new_handle = EntityHandle(self.next_entity);
        self.entities.push(EntityData::new(new_handle));
        self.next_entity = self.next_entity + 1;
        proof {
            assert(self.entities@[new_handle.0 as int].components@ =~= Seq::<usize>::empty());
        }
        new_handle
    }

    /// True exactly when `k` is in `handle`'s recorded component set
    /// (false for a handle never created here).
    #[verifier::loop_isolation(false)]
    pub fn has_component(&self, handle: EntityHandle, k: usize) -> (r: bool)
        requires
            self.wf(),
        ensures
            r == self.has_key(handle.0, k),
    {
        let idx = handle.0 as usize;
        if idx >= self.entities.len() {
            return false;
        }
        let comps: &Vec<usize> = &self.entities[idx].components;
        let mut i: usize = 0;
        while i < comps.len()
            invariant
                i <= comps.len(),
                forall|j: int| 0 <= j < i ==> comps@[j] != k,
            decreases comps.len() - i,
        {
            if comps[i] == k {
                assert(self.entities@[handle.0 as int].components@[i as int] == k);
                return true;
            }
            i = i + 1;
        }
        false
    }

    /// Looks up the record for `handle`; `UnknownEntity` if it was never created.
    pub fn lookup(&self, handle: EntityHandle) -> (r: Result<&EntityData, EcsError>)
        requires
            self.wf(),
        ensures
            match r {
                Ok(d) => {
                    &&& self.is_entity(handle.0)
                    &&& d.handle == handle
                    &&& forall|k: usize| d.components@.contains(k) == self.has_key(handle.0, k)
                },
                Err(e) => !self.is_entity(handle.0) && e == EcsError::UnknownEntity,
            },
    {
        let idx = handle.0 as usize;
        if idx < self.entities.len() {
            Ok(&self.entities[idx])
        } else {
            Err(EcsError::UnknownEntity)
        }
    }

    /// Records that `k` was attached to `handle`.
    /// Fails with `DuplicateComponent` if already recorded, `UnknownEntity`
    /// if the handle was never created; on success only that one pair changes.
    pub fn record_component_added(&mut self, handle: EntityHandle, k: usize) -> (r: Result<
        (),
        EcsError,
    >)
        requires
            old(self).wf(),
        ensures
            final(self).wf(),
            final(self).entity_count() == old(self).entity_count(),
            match r {
                Ok(()) => {
                    &&& old(self).is_entity(handle.0)
                    &&& !old(self).has_key(handle.0, k)
                    &&& final(self).has_key(handle.0, k)
                    &&& forall|e: u32, k2: usize|
                        e != handle.0 || k2 != k ==> #[trigger] final(self).has_key(e, k2)
                            == old(self).has_key(e, k2)
                },
                Err(e) => {
                    &&& *final(self) == *old(self)
                    &&& (e == EcsError::UnknownEntity || e == EcsError::DuplicateComponent)
                    &&& (e == EcsError::UnknownEntity <==> !old(self).is_entity(handle.0))
                    &&& (e == EcsError::DuplicateComponent <==> old(self).is_entity(handle.0)
                        && old(self).has_key(handle.0, k))
                },
            },
    {
        if self.has_component(handle, k) {
            return Err(EcsError::DuplicateComponent);
        }
        let idx = handle.0 as usize;
        if idx >= self.entities.len() {
            return Err(EcsError::UnknownEntity);
        }
        let ghost old_comps = self.entities@[idx as int].components@;
        let data: &mut EntityData = &mut self.entities[idx];
        data.components.push(k);
        proof {
            let comps = self.entities@[idx as int].components@;
            assert(comps == old_comps.push(k));
            assert(comps[comps.len() - 1] == k);
            assert forall|e: u32, k2: usize|
                (e != handle.0 || k2 != k) && old(self).has_key(e, k2) implies #[trigger] self
                .has_key(e, k2) by {
                if e == handle.0 {
                    let j = choose|j: int| 0 <= j < old_comps.len() && old_comps[j] == k2;
                    assert(comps[j] == k2);
                }
            }
            assert forall|e: u32, k2: usize|
                (e != handle.0 || k2 != k) && #[trigger] self.has_key(e, k2) implies old(
                self,
            ).has_key(e, k2) by {
                if e == handle.0 {
                    let j = choose|j: int| 0 <= j < comps.len() && comps[j] == k2;
                    assert(old_comps[j] == k2);
                }
            }
            assert forall|a: int, b: int| 0 <= a < b < comps.len() implies comps[a] != comps[b] by {
                if b == comps.len() - 1 {
                    assert(!old_comps.contains(comps[a]) ==> comps[a] != k);
                    assert(old_comps[a] == comps[a]);
                }
            }
        }
        Ok(())
    }
    /// Records that `k` was detached from `handle`: a no-op if `k` was not
    /// recorded, otherwise the key is swap-removed (order among the remaining
    /// keys is not preserved). `UnknownEntity` if the handle was never created.
    pub fn record_component_removed(&mut self, handle: EntityHandle, k: usize) -> (r: Result<
        (),
        EcsError,
    >)
        requires
            old(self).wf(),
        ensures
            final(self).wf(),
            final(self).entity_count() == old(self).entity_count(),
            match r {
                Ok(()) => {
                    &&& old(self).is_entity(handle.0)
                    &&& !final(self).has_key(handle.0, k)
                    &&& forall|e: u32, k2: usize|
                        e != handle.0 || k2 != k ==> #[trigger] final(self).has_key(e, k2)
                            == old(self).has_key(e, k2)
                },
                Err(e) => {
                    &&& *final(self) == *old(self)
                    &&& !old(self).is_entity(handle.0)
                    &&& e == EcsError::UnknownEntity
                },
            },
    {
        let idx = handle.0 as usize;
        if idx >= self.entities.len() {
            return Err(EcsError::UnknownEntity);
        }
        let ghost old_comps = self.entities@[idx as int].components@;
        let data: &mut EntityData = &mut self.entities[idx];
        let comps: &mut Vec<usize> = &mut data.components;
        let mut found: Option<usize> = None;
        let n = comps.len();
        let mut i: usize = 0;
        while i < n
            invariant
                n == comps@.len(),
                i <= n,
                match found {
                    Some(f) => f < n && comps@[f as int] == k,
                    None => forall|j: int| 0 <= j < i ==> comps@[j] != k,
                },
            decreases n - i,
        {
            if comps[i] == k {
                found = Some(i);
            }
            i = i + 1;
        }
        match found {
            Some(f) => {
                let last = n - 1;
                let moved = comps[last];
                comps[f] = moved;
                comps.pop();
                proof {
                    let newc = self.entities@[idx as int].components@;
                    assert(newc =~= old_comps.update(f as int, old_comps[n - 1]).take(n - 1));
                    assert forall|j: int| 0 <= j < newc.len() implies newc[j] != k by {
                        if j != f {
                            assert(newc[j] == old_comps[j]);
                        }
                    }
                    assert(!newc.contains(k));
                    assert forall|e: u32, k2: usize|
                        (e != handle.0 || k2 != k) && old(self).has_key(e, k2) implies #[trigger] self
                        .has_key(e, k2) by {
                        if e == handle.0 {
                            let j = choose|j: int|
                                0 <= j < old_comps.len() && old_comps[j] == k2;
                            if j == n - 1 {
                                assert(j != f);
                                assert(newc[f as int] == k2);
                            } else if j != f {
                                assert(newc[j] == k2);
                            }
                        }
                    }
                    assert forall|e: u32, k2: usize|
                        (e != handle.0 || k2 != k) && #[trigger] self.has_key(e, k2) implies old(
                        self,
                    ).has_key(e, k2) by {
                        if e == handle.0 {
                            let j = choose|j: int| 0 <= j < newc.len() && newc[j] == k2;
                            if j == f {
                                assert(old_comps[n - 1] == k2);
                            } else {
                                assert(old_comps[j] == k2);
                            }
                        }
                    }
                    assert forall|a: int, b: int| 0 <= a < b < newc.len() implies newc[a]
                        != newc[b] by {
                        if a == f {
                            assert(newc[a] == old_comps[n - 1] && newc[b] == old_comps[b]);
                        } else if b == f {
                            assert(newc[b] == old_comps[n - 1] && newc[a] == old_comps[a]);
                        } else {
                            assert(newc[a] == old_comps[a] && newc[b] == old_comps[b]);
                        }
                    }
                }
                Ok(())
            },
            None => {
                proof {
                    assert(self.entities@ =~= old(self).entities@);
                }
                Ok(())
            },
        }
    }

    /// Removes key `k` from every entity's recorded set; no other key of
    /// any entity changes.
    pub fn clear_key(&mut self, k: usize)
        requires
            old(self).wf(),
        ensures
            final(self).wf(),
            final(self).entity_count() == old(self).entity_count(),
            forall|e: u32| !final(self).has_key(e, k),
            forall|e: u32, k2: usize|
                k2 != k ==> #[trigger] final(self).has_key(e, k2) == old(self).has_key(e, k2),
    {
        let n = self.entities.len();
        let mut i: usize = 0;
        while i < n
            invariant
                self.wf(),
                i <= n,
                n == self.entity_count(),
                self.entity_count() == old(self).entity_count(),
                n <= u32::MAX,
                forall|e: u32| (e as int) < i ==> !(#[trigger] self.has_key(e, k)),
                forall|e: u32|
                    i <= (e as int) ==> #[trigger] self.has_key(e, k) == old(self).has_key(e, k),
                forall|e: u32, k2: usize|
                    k2 != k ==> #[trigger] self.has_key(e, k2) == old(self).has_key(e, k2),
            decreases n - i,
        {
            let h = EntityHandle(i as u32);
            match self.record_component_removed(h, k) {
                Ok(()) => (),
                Err(_) => (),
            }
            i = i + 1;
        }
    }
}

} // verus!
