//! The wheel's task index: a `DeferredMap` from task keys to task locations.

use crate::task::{key_owner, key_raw, TaskId, TaskLocation};
use deferred_map::{DeferredMap, DefaultKey, Handle};
use vstd::prelude::*;

verus! {

/// `deferred_map::DefaultKey`: the key of a `DeferredMap` entry.
#[verifier::external_type_specification]
#[verifier::external_body]
pub struct ExDefaultKey(DefaultKey);

/// A handle reserved in a wheel's index, to insert one task with.
///
/// It holds a `deferred_map::Handle`; since that type is generic over an
/// outside trait, it is kept behind this opaque struct.
#[verifier::external_body]
pub struct TaskHandle {
    handle: Handle,
}

/// The key that a handle reserves.
pub uninterp spec fn handle_key(h: TaskHandle) -> DefaultKey;

impl TaskHandle {
    /// Calls `Handle::key`: the identifier that the task inserted with this
    /// handle will have.
    #[verifier::external_body]
    pub fn task_id(&self) -> (r: TaskId)
        ensures
            r.key() == handle_key(*self),
    {
        TaskId(self.handle.key())
    }
}

/// The index of a wheel's tasks: a `deferred_map::DeferredMap<TaskLocation>`,
/// kept behind this opaque struct since that type is generic over an outside
/// trait.
#[verifier::external_body]
pub struct TaskIndex {
    map: DeferredMap<TaskLocation>,
}

/// What the map holds: for each occupied entry, its key's number and its value.
pub uninterp spec fn index_contents(i: TaskIndex) -> Map<u64, TaskLocation>;

/// The key numbers that the map has handed out in handles and not yet filled.
pub uninterp spec fn index_reserved(i: TaskIndex) -> Set<u64>;

/// The identity of the map, which its keys carry.
pub uninterp spec fn index_owner(i: TaskIndex) -> u64;

/// The number of slots the map has created, its sentinel slot included.
pub uninterp spec fn index_slot_count(i: TaskIndex) -> nat;

/// Facts that hold of every map: occupied and reserved entries are distinct
/// slots other than the sentinel, and the slot count fits the 32-bit index.
pub open spec fn index_wf(i: TaskIndex) -> bool {
    &&& index_contents(i).dom().finite()
    &&& index_reserved(i).finite()
    &&& index_contents(i).dom().disjoint(index_reserved(i))
    &&& index_contents(i).dom().len() + index_reserved(i).len() < index_slot_count(i)
    &&& index_slot_count(i) <= u32::MAX
}

impl TaskIndex {
    /// Calls `DeferredMap::with_capacity`: an empty map with room for
    /// `capacity` entries, whose only slot is the sentinel.
    #[verifier::external_body]
    pub fn with_capacity(capacity: usize) -> (r: Self)
        requires
            capacity < usize::MAX,
        ensures
            index_wf(r),
            index_contents(r).is_empty(),
            index_reserved(r).is_empty(),
            index_slot_count(r) == 1,
    {
        TaskIndex { map: DeferredMap::with_capacity(capacity) }
    }

    /// Calls `DeferredMap::allocate_handle`: reserves a slot, reusing a vacant
    /// one or adding one, and returns a handle whose key is neither occupied nor
    /// reserved in the map.
    #[verifier::external_body]
    pub fn allocate_handle(&mut self) -> (h: TaskHandle)
        requires
            index_wf(*old(self)),
            index_slot_count(*old(self)) < u32::MAX,
        ensures
            index_wf(*final(self)),
            index_contents(*final(self)) == index_contents(*old(self)),
            !index_contents(*old(self)).contains_key(key_raw(handle_key(h))),
            !index_reserved(*old(self)).contains(key_raw(handle_key(h))),
            index_reserved(*final(self)) == index_reserved(*old(self)).insert(
                key_raw(handle_key(h)),
            ),
            index_owner(*final(self)) == index_owner(*old(self)),
            key_owner(handle_key(h)) == index_owner(*old(self)),
            index_slot_count(*final(self)) <= index_slot_count(*old(self)) + 1,
    {
        TaskHandle { handle: self.map.allocate_handle() }
    }

    /// Calls `DeferredMap::insert`: fills the slot that the handle reserved.
    #[verifier::external_body]
    pub fn insert(&mut self, handle: TaskHandle, value: TaskLocation)
        requires
            index_wf(*old(self)),
            key_owner(handle_key(handle)) == index_owner(*old(self)),
            index_reserved(*old(self)).contains(key_raw(handle_key(handle))),
        ensures
            index_wf(*final(self)),
            index_contents(*final(self)) == index_contents(*old(self)).insert(
                key_raw(handle_key(handle)),
                value,
            ),
            index_reserved(*final(self)) == index_reserved(*old(self)).remove(
                key_raw(handle_key(handle)),
            ),
            index_owner(*final(self)) == index_owner(*old(self)),
            index_slot_count(*final(self)) == index_slot_count(*old(self)),
    {
        self.map.insert(handle.handle, value)
    }

    /// Calls `DeferredMap::get`: the value stored under the key, if the key is
    /// occupied.
    #[verifier::external_body]
    pub fn get(&self, id: TaskId) -> (r: Option<TaskLocation>)
        requires
            key_owner(id.key()) == index_owner(*self),
        ensures
            r == index_contents(*self).get(id.value()),
    {
        self.map.get(id.0).copied()
    }

    /// Calls `DeferredMap::get_mut` and, if the key is occupied, writes `value`
    /// through the returned reference; returns whether it was occupied.
    #[verifier::external_body]
    pub fn set(&mut self, id: TaskId, value: TaskLocation) -> (r: bool)
        requires
            index_wf(*old(self)),
            key_owner(id.key()) == index_owner(*old(self)),
        ensures
            index_wf(*final(self)),
            r == index_contents(*old(self)).contains_key(id.value()),
            index_contents(*final(self)) == (if r {
                index_contents(*old(self)).insert(id.value(), value)
            } else {
                index_contents(*old(self))
            }),
            index_reserved(*final(self)) == index_reserved(*old(self)),
            index_owner(*final(self)) == index_owner(*old(self)),
            index_slot_count(*final(self)) == index_slot_count(*old(self)),
    {
        match self.map.get_mut(id.0) {
            Some(slot) => {
                *slot = value;
                true
            },
            None => false,
        }
    }

    /// Calls `DeferredMap::remove`: takes the value stored under the key out of
    /// the map, if the key is occupied.
    #[verifier::external_body]
    pub fn remove(&mut self, id: TaskId) -> (r: Option<TaskLocation>)
        requires
            index_wf(*old(self)),
            key_owner(id.key()) == index_owner(*old(self)),
        ensures
            index_wf(*final(self)),
            r == index_contents(*old(self)).get(id.value()),
            index_contents(*final(self)) == index_contents(*old(self)).remove(id.value()),
            index_reserved(*final(self)) == index_reserved(*old(self)),
            index_owner(*final(self)) == index_owner(*old(self)),
            index_slot_count(*final(self)) == index_slot_count(*old(self)),
    {
        self.map.remove(id.0)
    }

    /// Calls `DeferredMap::is_empty`: whether no entry is occupied.
    #[verifier::external_body]
    pub fn is_empty(&self) -> (r: bool)
        ensures
            r == index_contents(*self).is_empty(),
    {
        self.map.is_empty()
    }
}

} // verus!
