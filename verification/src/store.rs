//! The type-erased component store: an entity registry composed with one
//! packed byte blob per registered component kind.
//!
//! A component kind is registered up front with its payload width and is
//! addressed afterwards by the key that registration returned. The registry's
//! per-entity key sets and the blobs are updated together, so an entity's
//! recorded set always equals the set of kinds for which a live record
//! exists.

use vstd::prelude::*;

use crate::EcsError;
use crate::blob::ComponentBlob;
use crate::entity::{EntityHandle, EntityRegistry};

verus! {

/// Entity registry plus one component blob per registered kind.
pub struct DECS {
    registry: EntityRegistry,
    blobs: Vec<ComponentBlob>,
}

impl DECS {
    /// Number of entities created so far.
    pub closed spec fn entity_count(self) -> int {
        self.registry.entity_count()
    }

    /// A handle is live exactly when `create_entity` handed it out.
    pub open spec fn is_entity(self, e: u32) -> bool {
        (e as int) < self.entity_count()
    }

    /// Number of component kinds registered so far.
    pub closed spec fn key_count(self) -> int {
        self.blobs@.len() as int
    }

    /// A key addresses a registered component kind.
    pub open spec fn registered(self, k: usize) -> bool {
        (k as int) < self.key_count()
    }

    /// Payload width in bytes of the kind behind key `k`.
    pub closed spec fn width_of(self, k: usize) -> int {
        self.blobs@[k as int].width()
    }

    /// Length in bytes of the packed blob behind key `k`.
    pub closed spec fn byte_len_of(self, k: usize) -> int {
        self.blobs@[k as int].byte_len()
    }

    /// Entity `e` holds a component of the kind behind key `k`.
    pub closed spec fn has(self, e: u32, k: usize) -> bool {
        self.registered(k) && self.blobs@[k as int].has(e)
    }

    /// The payload stored for entity `e` under key `k`
    /// (meaningful only when `has(e, k)`).
    pub closed spec fn value_of(self, e: u32, k: usize) -> Seq<u8> {
        self.blobs@[k as int].payload_of(e)
    }

    /// Structural invariant: both halves are well formed and transactionally
    /// coupled — the registry records key `k` for entity `e` exactly when
    /// blob `k` holds a record owned by `e`.
    pub closed spec fn wf(self) -> bool {
        &&& self.registry.wf()
        &&& forall|k: int| 0 <= k < self.blobs@.len() ==> (#[trigger] self.blobs@[k]).wf()
        &&& forall|e: u32, k: usize|
            #[trigger] self.registry.has_key(e, k) ==> (k as int) < self.blobs@.len()
        &&& forall|e: u32, k: usize|
            (k as int) < self.blobs@.len() ==> self.registry.has_key(e, k)
                == #[trigger] self.blobs@[k as int].has(e)
    }

    /// Frame condition: `post` differs from `pre` in at most the one
    /// (entity `e`, key `k`) pair — counts, widths, every other pair's
    /// presence and payload are all the same.
    pub open spec fn unchanged_except(pre: DECS, post: DECS, e: u32, k: usize) -> bool {
        &&& post.entity_count() == pre.entity_count()
        &&& post.key_count() == pre.key_count()
        &&& forall|k2: usize| pre.registered(k2) ==> #[trigger] post.width_of(k2) == pre.width_of(k2)
        &&& forall|k2: usize|
            k2 != k && pre.registered(k2) ==> #[trigger] post.byte_len_of(k2) == pre.byte_len_of(
                k2,
            )
        &&& forall|e2: u32, k2: usize|
            e2 != e || k2 != k ==> #[trigger] post.has(e2, k2) == pre.has(e2, k2)
        &&& forall|e2: u32, k2: usize|
            (e2 != e || k2 != k) && pre.has(e2, k2) ==> #[trigger] post.value_of(e2, k2)
                == pre.value_of(e2, k2)
    }

    /// The blob behind a registered key is always an exact multiple of its
    /// record width long.
    pub proof fn lemma_blob_len_multiple(self, k: usize)
        requires
            self.wf(),
            self.registered(k),
        ensures
            self.byte_len_of(k) % self.width_of(k) == 0,
    {
        self.blobs@[k as int].lemma_len_multiple();
    }

    /// An empty store: no entities, no registered kinds.
    pub fn new() -> (s: DECS)
        ensures
            s.wf(),
            s.entity_count() == 0,
            s.key_count() == 0,
    {
        DECS { registry: EntityRegistry::new(), blobs: Vec::new() }
    }

    /// Allocates the next sequential entity handle; never fails.
    /// The new entity holds no components; nothing else changes.
    pub fn create_entity(&mut self) -> (h: EntityHandle)
        requires
            old(self).wf(),
            old(self).entity_count() < u32::MAX,
        ensures
            final(self).wf(),
            h.0 as int == old(self).entity_count(),
            final(self).entity_count() == old(self).entity_count() + 1,
            final(self).key_count() == old(self).key_count(),
            forall|k: usize|
                old(self).registered(k) ==> #[trigger] final(self).width_of(k) == old(
                    self,
                ).width_of(k) && final(self).byte_len_of(k) == old(self).byte_len_of(k),
            forall|e: u32, k: usize|
                #[trigger] final(self).has(e, k) == old(self).has(e, k) && (old(self).has(e, k)
                    ==> final(self).value_of(e, k) == old(self).value_of(e, k)),
            forall|k: usize| !final(self).has(h.0, k),
    {
        let h = self.registry.create();
        proof {
            old(self).registry.lemma_keys_of_live_entities();
            assert forall|k: usize| !self.has(h.0, k) by {
                if self.registered(k) {
                    assert(old(self).registry.has_key(h.0, k) == self.blobs@[k as int].has(h.0));
                }
            }
        }
        h
    }

    /// Registers a component kind of `width` payload bytes and returns its
    /// key. No entity holds the new kind; existing kinds are untouched.
    pub fn register_component(&mut self, width: usize) -> (k: usize)
        requires
            old(self).wf(),
            width >= 1,
        ensures
            final(self).wf(),
            k as int == old(self).key_count(),
            final(self).key_count() == old(self).key_count() + 1,
            final(self).registered(k),
            final(self).width_of(k) == width,
            final(self).byte_len_of(k) == 0,
            final(self).entity_count() == old(self).entity_count(),
            forall|k2: usize|
                old(self).registered(k2) ==> #[trigger] final(self).width_of(k2) == old(
                    self,
                ).width_of(k2) && final(self).byte_len_of(k2) == old(self).byte_len_of(k2),
            forall|e: u32, k2: usize|
                k2 != k ==> #[trigger] final(self).has(e, k2) == old(self).has(e, k2) && (old(
                    self,
                ).has(e, k2) ==> final(self).value_of(e, k2) == old(self).value_of(e, k2)),
            forall|e: u32| !final(self).has(e, k),
    {
        let k = self.blobs.len();
        self.blobs.push(ComponentBlob::new(width));
        proof {
            assert forall|e: u32, k2: usize|
                (k2 as int) < self.blobs@.len() implies self.registry.has_key(e, k2)
                == #[trigger] self.blobs@[k2 as int].has(e) by {
                if k2 != k {
                    assert(self.blobs@[k2 as int] == old(self).blobs@[k2 as int]);
                }
            }
        }
        k
    }

    /// Discards every stored component of the kind behind `key`, keeping
    /// the kind registered with its width: an explicit schema reset, offered
    /// in place of silent re-registration. Fails with `NotRegistered` if
    /// `key` was never returned by `register_component`, leaving the store
    /// untouched; no other kind's components change.
    pub fn reset_component(&mut self, key: usize) -> (r: Result<(), EcsError>)
        requires
            old(self).wf(),
        ensures
            final(self).wf(),
            final(self).entity_count() == old(self).entity_count(),
            final(self).key_count() == old(self).key_count(),
            match r {
                Ok(()) => {
                    &&& old(self).registered(key)
                    &&& final(self).width_of(key) == old(self).width_of(key)
                    &&& final(self).byte_len_of(key) == 0
                    &&& forall|e: u32| !final(self).has(e, key)
                    &&& forall|k2: usize|
                        old(self).registered(k2) ==> #[trigger] final(self).width_of(k2) == old(
                            self,
                        ).width_of(k2)
                    &&& forall|e2: u32, k2: usize|
                        k2 != key ==> #[trigger] final(self).has(e2, k2) == old(self).has(e2, k2)
                            && (old(self).has(e2, k2) ==> final(self).value_of(e2, k2) == old(
                            self,
                        ).value_of(e2, k2))
                },
                Err(e) => {
                    &&& *final(self) == *old(self)
                    &&& e == EcsError::NotRegistered
                    &&& !old(self).registered(key)
                },
            },
    {
        if key >= self.blobs.len() {
            return Err(EcsError::NotRegistered);
        }
        self.registry.clear_key(key);
        let ghost mid = *self;
        let blob = &mut self.blobs[key];
        blob.clear();
        proof {
            assert(self.blobs@ =~= mid.blobs@.update(key as int, self.blobs@[key as int]));
            assert forall|e2: u32, k2: usize|
                #[trigger] self.registry.has_key(e2, k2) implies (k2 as int)
                < self.blobs@.len() by {
                if k2 != key {
                    assert(old(self).registry.has_key(e2, k2));
                }
            }
            assert forall|e2: u32, k2: usize|
                (k2 as int) < self.blobs@.len() implies self.registry.has_key(e2, k2)
                == #[trigger] self.blobs@[k2 as int].has(e2) by {
                if k2 != key {
                    assert(self.blobs@[k2 as int] == old(self).blobs@[k2 as int]);
                }
            }
            assert forall|e2: u32, k2: usize|
                k2 != key implies #[trigger] self.has(e2, k2) == old(self).has(e2, k2) && (old(
                self,
            ).has(e2, k2) ==> self.value_of(e2, k2) == old(self).value_of(e2, k2)) by {
                if (k2 as int) < self.blobs@.len() {
                    assert(self.blobs@[k2 as int] == old(self).blobs@[k2 as int]);
                }
            }
        }
        Ok(())
    }

    /// True exactly when entity `handle` currently holds the kind behind `k`.
    pub fn has_component(&self, handle: EntityHandle, k: usize) -> (r: bool)
        requires
            self.wf(),
        ensures
            r == self.has(handle.0, k),
    {
        let r = self.registry.has_component(handle, k);
        proof {
            if r {
                assert(self.registered(k));
            }
        }
        r
    }

    /// Attaches `payload` as entity `entity`'s component of the kind behind
    /// `key`. Fails with `NotRegistered` if `key` was never returned by
    /// `register_component`, `UnknownEntity` if the handle was never created,
    /// and `DuplicateComponent` if the entity already holds that kind, in
    /// that order of precedence; on failure the store is untouched. On
    /// success exactly the one (entity, kind) pair is added.
    #[verifier::spinoff_prover]
    #[verifier::rlimit(100)]
    pub fn add_component(&mut self, key: usize, entity: EntityHandle, payload: &Vec<u8>) -> (r:
        Result<(), EcsError>)
        requires
            old(self).wf(),
            old(self).registered(key) ==> payload@.len() == old(self).width_of(key),
            old(self).registered(key) ==> old(self).byte_len_of(key) + old(self).width_of(key)
                <= usize::MAX,
        ensures
            final(self).wf(),
            final(self).entity_count() == old(self).entity_count(),
            final(self).key_count() == old(self).key_count(),
            match r {
                Ok(()) => {
                    &&& old(self).registered(key)
                    &&& old(self).is_entity(entity.0)
                    &&& !old(self).has(entity.0, key)
                    &&& final(self).has(entity.0, key)
                    &&& final(self).value_of(entity.0, key) == payload@
                    &&& final(self).byte_len_of(key) == old(self).byte_len_of(key) + old(
                        self,
                    ).width_of(key)
                    &&& DECS::unchanged_except(*old(self), *final(self), entity.0, key)
                },
                Err(e) => {
                    &&& *final(self) == *old(self)
                    &&& (e == EcsError::NotRegistered || e == EcsError::UnknownEntity || e
                        == EcsError::DuplicateComponent)
                    &&& (e == EcsError::NotRegistered <==> !old(self).registered(key))
                    &&& (e == EcsError::UnknownEntity <==> old(self).registered(key) && !old(
                        self,
                    ).is_entity(entity.0))
                    &&& (e == EcsError::DuplicateComponent <==> old(self).registered(key) && old(
                        self,
                    ).is_entity(entity.0) && old(self).has(entity.0, key))
                },
            },
    {
        if key >= self.blobs.len() {
            return Err(EcsError::NotRegistered);
        }
        match self.registry.record_component_added(entity, key) {
            Err(e) => Err(e),
            Ok(()) => {
                let ghost mid = *self;
                let blob = &mut self.blobs[key];
                blob.push_record(entity.0, payload);
                proof {
                    assert(self.blobs@ =~= mid.blobs@.update(key as int, self.blobs@[key as int]));
                    assert forall|e2: u32, k2: usize|
                        #[trigger] self.registry.has_key(e2, k2) implies (k2 as int)
                        < self.blobs@.len() by {
                        if e2 != entity.0 || k2 != key {
                            assert(old(self).registry.has_key(e2, k2));
                        }
                    }
                    assert forall|e2: u32, k2: usize|
                        (k2 as int) < self.blobs@.len() implies self.registry.has_key(e2, k2)
                        == #[trigger] self.blobs@[k2 as int].has(e2) by {
                        if k2 != key {
                            assert(self.blobs@[k2 as int] == old(self).blobs@[k2 as int]);
                        } else {
                            if e2 != entity.0 {
                                assert(self.blobs@[key as int].has(e2) == old(self).blobs@[
                                    key as int].has(e2));
                            }
                        }
                    }
                    assert(self.wf());
                    assert(!old(self).has(entity.0, key));
                    assert(self.has(entity.0, key));
                    assert(self.value_of(entity.0, key) == payload@);
                    assert forall|k2: usize|
                        old(self).registered(k2) implies #[trigger] self.width_of(k2) == old(
                        self,
                    ).width_of(k2) by {
                        if k2 != key {
                            assert(self.blobs@[k2 as int] == old(self).blobs@[k2 as int]);
                        }
                    }
                    assert forall|e2: u32, k2: usize|
                        e2 != entity.0 || k2 != key implies #[trigger] self.has(e2, k2) == old(
                        self,
                    ).has(e2, k2) by {
                        if k2 == key {
                            assert(e2 != entity.0);
                            assert(self.blobs@[key as int].has(e2) == old(self).blobs@[
                                key as int].has(e2));
                        } else if (k2 as int) < self.blobs@.len() {
                            assert(self.blobs@[k2 as int] == old(self).blobs@[k2 as int]);
                        }
                    }
                    assert forall|e2: u32, k2: usize|
                        (e2 != entity.0 || k2 != key) && old(self).has(e2, k2)
                            implies #[trigger] self.value_of(e2, k2) == old(self).value_of(
                        e2,
                        k2,
                    ) by {
                        if k2 == key {
                            assert(e2 != entity.0);
                            assert(self.blobs@[key as int].has(e2) == old(self).blobs@[
                                key as int].has(e2));
                            assert(self.blobs@[key as int].payload_of(e2) == old(self).blobs@[
                                key as int].payload_of(e2));
                        } else {
                            assert(self.blobs@[k2 as int] == old(self).blobs@[k2 as int]);
                        }
                    }
                    assert(DECS::unchanged_except(*old(self), *self, entity.0, key));
                }
                Ok(())
            },
        }
    }

    /// Reads entity `entity`'s component of the kind behind `key`, copying
    /// out its payload bytes. Returns `None` when the kind is unregistered
    /// or the entity holds no such component; this is a query, not an error.
    pub fn get_component(&self, key: usize, entity: EntityHandle) -> (r: Option<Vec<u8>>)
        requires
            self.wf(),
        ensures
            r is Some <==> self.has(entity.0, key),
            match r {
                Some(v) => v@ == self.value_of(entity.0, key),
                None => true,
            },
    {
        if key >= self.blobs.len() {
            return None;
        }
        let blob = &self.blobs[key];
        match blob.find(entity.0) {
            Some(i) => Some(blob.payload_copy(i)),
            None => None,
        }
    }

    /// Overwrites entity `entity`'s component of the kind behind `key` in
    /// place, returning whether such a component existed. When it does not,
    /// the store is untouched; no other component's bytes ever change.
    pub fn set_component(&mut self, key: usize, entity: EntityHandle, payload: &Vec<u8>) -> (r:
        bool)
        requires
            old(self).wf(),
            old(self).registered(key) ==> payload@.len() == old(self).width_of(key),
        ensures
            final(self).wf(),
            r == old(self).has(entity.0, key),
            final(self).entity_count() == old(self).entity_count(),
            final(self).key_count() == old(self).key_count(),
            forall|k2: usize|
                old(self).registered(k2) ==> #[trigger] final(self).width_of(k2) == old(
                    self,
                ).width_of(k2) && final(self).byte_len_of(k2) == old(self).byte_len_of(k2),
            forall|e2: u32, k2: usize|
                #[trigger] final(self).has(e2, k2) == old(self).has(e2, k2),
            r ==> final(self).value_of(entity.0, key) == payload@,
            forall|e2: u32, k2: usize|
                (e2 != entity.0 || k2 != key) && old(self).has(e2, k2)
                    ==> #[trigger] final(self).value_of(e2, k2) == old(self).value_of(e2, k2),
            !r ==> *final(self) == *old(self),
    {
        if key >= self.blobs.len() {
            return false;
        }
        let ghost old_self = *old(self);
        let found = self.blobs[key].find(entity.0);
        match found {
            Some(i) => {
                let blob = &mut self.blobs[key];
                blob.write_payload(i, payload);
                proof {
                    assert(self.blobs@ =~= old_self.blobs@.update(
                        key as int,
                        self.blobs@[key as int],
                    ));
                    assert forall|e2: u32, k2: usize|
                        (k2 as int) < self.blobs@.len() implies self.registry.has_key(e2, k2)
                        == #[trigger] self.blobs@[k2 as int].has(e2) by {
                        if k2 != key {
                            assert(self.blobs@[k2 as int] == old_self.blobs@[k2 as int]);
                        }
                    }
                    assert(old_self.blobs@[key as int].handle_at(i as int) == entity.0);
                    assert(self.value_of(entity.0, key) == payload@);
                    assert forall|e2: u32, k2: usize|
                        (e2 != entity.0 || k2 != key) && old_self.has(e2, k2)
                            implies #[trigger] self.value_of(e2, k2) == old_self.value_of(
                        e2,
                        k2,
                    ) by {
                        if k2 == key {
                            assert(e2 != entity.0);
                            assert(self.blobs@[key as int].has(e2) == old_self.blobs@[
                                key as int].has(e2));
                            assert(self.blobs@[key as int].payload_of(e2) == old_self.blobs@[
                                key as int].payload_of(e2));
                        } else {
                            assert(self.blobs@[k2 as int] == old_self.blobs@[k2 as int]);
                        }
                    }
                    assert forall|e2: u32, k2: usize| #[trigger]
                        self.has(e2, k2) == old_self.has(e2, k2) by {
                        if k2 != key && (k2 as int) < self.blobs@.len() {
                            assert(self.blobs@[k2 as int] == old_self.blobs@[k2 as int]);
                        }
                    }
                }
                true
            },
            None => false,
        }
    }

    /// Detaches entity `entity`'s component of the kind behind `key` by
    /// swap-removal: the last record of the blob takes its place and the
    /// blob shrinks by one record width. Removal of an absent component is
    /// a no-op, not an error. Fails with `NotRegistered` if `key` was never
    /// returned by `register_component` and `UnknownEntity` if the handle
    /// was never created; on failure the store is untouched. Every other
    /// (entity, kind) pair keeps its payload, though its position in the
    /// blob may change.
    #[verifier::spinoff_prover]
    #[verifier::rlimit(100)]
    pub fn remove_component(&mut self, key: usize, entity: EntityHandle) -> (r: Result<
        (),
        EcsError,
    >)
        requires
            old(self).wf(),
        ensures
            final(self).wf(),
            final(self).entity_count() == old(self).entity_count(),
            final(self).key_count() == old(self).key_count(),
            match r {
                Ok(()) => {
                    &&& old(self).registered(key)
                    &&& old(self).is_entity(entity.0)
                    &&& !final(self).has(entity.0, key)
                    &&& final(self).byte_len_of(key) == if old(self).has(entity.0, key) {
                        old(self).byte_len_of(key) - old(self).width_of(key)
                    } else {
                        old(self).byte_len_of(key)
                    }
                    &&& DECS::unchanged_except(*old(self), *final(self), entity.0, key)
                },
                Err(e) => {
                    &&& *final(self) == *old(self)
                    &&& (e == EcsError::NotRegistered || e == EcsError::UnknownEntity)
                    &&& (e == EcsError::NotRegistered <==> !old(self).registered(key))
                    &&& (e == EcsError::UnknownEntity <==> old(self).registered(key) && !old(
                        self,
                    ).is_entity(entity.0))
                },
            },
    {
        if key >= self.blobs.len() {
            return Err(EcsError::NotRegistered);
        }
        match self.registry.record_component_removed(entity, key) {
            Err(e) => Err(e),
            Ok(()) => {
                let ghost mid = *self;
                let blob = &mut self.blobs[key];
                match blob.find(entity.0) {
                    Some(i) => {
                        proof {
                            assert(mid.blobs@[key as int].handle_at(i as int) == entity.0);
                        }
                        blob.swap_remove_at(i);
                    },
                    None => {
                        proof {
                            assert(!old(self).has(entity.0, key));
                        }
                    },
                }
                proof {
                    assert(self.blobs@ =~= mid.blobs@.update(key as int, self.blobs@[key as int]));
                    assert forall|e2: u32, k2: usize|
                        #[trigger] self.registry.has_key(e2, k2) implies (k2 as int)
                        < self.blobs@.len() by {
                        if e2 != entity.0 || k2 != key {
                            assert(old(self).registry.has_key(e2, k2));
                        }
                    }
                    assert forall|e2: u32, k2: usize|
                        (k2 as int) < self.blobs@.len() implies self.registry.has_key(e2, k2)
                        == #[trigger] self.blobs@[k2 as int].has(e2) by {
                        if k2 != key {
                            assert(self.blobs@[k2 as int] == old(self).blobs@[k2 as int]);
                        } else {
                            if e2 != entity.0 {
                                assert(self.blobs@[key as int].has(e2) == old(self).blobs@[
                                    key as int].has(e2));
                            }
                        }
                    }
                    assert(self.wf());
                    assert(!self.has(entity.0, key));
                    assert forall|k2: usize|
                        old(self).registered(k2) implies #[trigger] self.width_of(k2) == old(
                        self,
                    ).width_of(k2) by {
                        if k2 != key {
                            assert(self.blobs@[k2 as int] == old(self).blobs@[k2 as int]);
                        }
                    }
                    assert forall|e2: u32, k2: usize|
                        e2 != entity.0 || k2 != key implies #[trigger] self.has(e2, k2) == old(
                        self,
                    ).has(e2, k2) by {
                        if k2 == key {
                            assert(e2 != entity.0);
                            assert(self.blobs@[key as int].has(e2) == old(self).blobs@[
                                key as int].has(e2));
                        } else if (k2 as int) < self.blobs@.len() {
                            assert(self.blobs@[k2 as int] == old(self).blobs@[k2 as int]);
                        }
                    }
                    assert forall|e2: u32, k2: usize|
                        (e2 != entity.0 || k2 != key) && old(self).has(e2, k2)
                            implies #[trigger] self.value_of(e2, k2) == old(self).value_of(
                        e2,
                        k2,
                    ) by {
                        if k2 == key {
                            assert(e2 != entity.0);
                            assert(self.blobs@[key as int].has(e2) == old(self).blobs@[
                                key as int].has(e2));
                            assert(self.blobs@[key as int].payload_of(e2) == old(self).blobs@[
                                key as int].payload_of(e2));
                        } else {
                            assert(self.blobs@[k2 as int] == old(self).blobs@[k2 as int]);
                        }
                    }
                    assert(DECS::unchanged_except(*old(self), *self, entity.0, key));
                }
                Ok(())
            },
        }
    }
}

} // verus!
