//! The object registry: published objects by id, one insertion per id, in
//! a concurrent map.

use std::sync::Arc;

use dashmap::DashMap;
use vstd::prelude::*;

use crate::object::{ObjectId, VistleObject};

verus! {

#[verifier::external_type_specification]
#[verifier::external_body]
#[verifier::reject_recursive_types(K)]
#[verifier::reject_recursive_types(V)]
#[verifier::reject_recursive_types(S)]
pub struct ExDashMap<K, V, S>(DashMap<K, V, S>);

/// A concurrent map from id values to shared objects.
pub type ObjectMap = DashMap<u128, Arc<VistleObject>>;

/// What a map of objects holds: each key's object.
pub uninterp spec fn stored_objects(m: ObjectMap) -> Map<u128, VistleObject>;

/// Relies on `DashMap::new`: a new map is empty.
#[verifier::external_body]
fn map_new() -> (r: ObjectMap)
    ensures
        stored_objects(r).dom() == Set::<u128>::empty(),
{
    DashMap::new()
}

/// Relies on `DashMap::insert`: afterwards the key maps to the value and
/// every other key is unchanged.
#[verifier::external_body]
fn map_insert(m: &mut ObjectMap, k: u128, v: Arc<VistleObject>)
    ensures
        stored_objects(*final(m)) == stored_objects(*old(m)).insert(k, *v),
{
    m.insert(k, v);
}

/// Relies on `DashMap::contains_key`.
#[verifier::external_body]
fn map_contains(m: &ObjectMap, k: u128) -> (r: bool)
    ensures
        r == stored_objects(*m).contains_key(k),
{
    m.contains_key(&k)
}

/// Relies on `DashMap::get`: a shared reference to the value under the key.
#[verifier::external_body]
fn map_get(m: &ObjectMap, k: u128) -> (r: Option<Arc<VistleObject>>)
    ensures
        r is Some == stored_objects(*m).contains_key(k),
        r matches Some(a) ==> *a == stored_objects(*m)[k],
{
    m.get(&k).map(|e| e.value().clone())
}

/// Relies on `Arc::strong_count`: the number of shared references to the
/// object, this one included.
#[verifier::external_body]
fn holders(a: &Arc<VistleObject>) -> (r: usize)
    ensures
        r >= 1,
{
    Arc::strong_count(a)
}

/// Relies on `DashMap::remove`: afterwards the key is absent and every other
/// key is unchanged.
#[verifier::external_body]
fn map_remove(m: &mut ObjectMap, k: u128)
    ensures
        stored_objects(*final(m)) == stored_objects(*old(m)).remove(k),
{
    m.remove(&k);
}

/// Relies on `DashMap::iter`: one entry per key, in no particular order.
#[verifier::external_body]
fn map_entries(m: &ObjectMap) -> (r: Vec<(u128, Arc<VistleObject>)>)
    ensures
        forall|i: int| 0 <= i < r@.len() ==> stored_objects(*m).contains_key((#[trigger] r@[i]).0)
            && *r@[i].1 == stored_objects(*m)[r@[i].0],
        forall|k: u128| stored_objects(*m).contains_key(k) ==> exists|i: int| 0 <= i < r@.len() && (#[trigger] r@[i]).0 == k,
        forall|i: int, j: int| 0 <= i < j < r@.len() ==> (#[trigger] r@[i]).0 != (#[trigger] r@[j]).0,
{
    m.iter().map(|e| (*e.key(), e.value().clone())).collect()
}

/// Whether an object may leave the registry, given how many shared
/// references to it exist while `remove` holds one to count them: only the
/// registry's own and that one may remain.
pub fn may_remove(holders: usize) -> (r: bool)
    ensures
        r == (holders <= 2),
{
    holders <= 2
}

/// Why the registry refused an operation.
#[derive(Debug, Clone, Copy, PartialEq, Eq, Structural)]
pub enum RegistryError {
    /// An object with this id is already published.
    AlreadyExists,
    /// Shared references to the object are still held.
    InUse,
}

/// Published objects by id.
pub struct ObjectRegistry {
    objects: ObjectMap,
}

impl ObjectRegistry {
    /// The published objects, by the value of their id.
    pub closed spec fn contents(&self) -> Map<u128, VistleObject> {
        stored_objects(self.objects)
    }

    /// Every object is stored under its own id.
    pub open spec fn wf(&self) -> bool {
        forall|k: u128| #[trigger] self.contents().contains_key(k) ==> self.contents()[k].id.0 == k
    }

    pub fn new() -> (r: Self)
        ensures
            r.wf(),
            r.contents() == Map::<u128, VistleObject>::empty(),
    {
        let r = ObjectRegistry { objects: map_new() };
        assert(r.contents() =~= Map::<u128, VistleObject>::empty());
        r
    }

    /// Publishes an object under its own id; an id is published once.
    pub fn store(&mut self, object: Arc<VistleObject>) -> (r: Result<ObjectId, RegistryError>)
        requires
            old(self).wf(),
        ensures
            final(self).wf(),
            old(self).contents().contains_key(object.id.0) ==> r == Err::<ObjectId, RegistryError>(RegistryError::AlreadyExists)
                && final(self).contents() == old(self).contents(),
            !old(self).contents().contains_key(object.id.0) ==> r == Ok::<ObjectId, RegistryError>(object.id)
                && final(self).contents() == old(self).contents().insert(object.id.0, *object),
    {
        let id = object.id;
        if map_contains(&self.objects, id.0) {
            return Err(RegistryError::AlreadyExists);
        }
        map_insert(&mut self.objects, id.0, object);
        Ok(id)
    }

    /// A shared reference to the object with this id, if published.
    pub fn get(&self, id: ObjectId) -> (r: Option<Arc<VistleObject>>)
        ensures
            r is Some == self.contents().contains_key(id.0),
            r matches Some(a) ==> *a == self.contents()[id.0],
    {
        map_get(&self.objects, id.0)
    }

    /// Removes an object unless shared references to it are still held
    /// elsewhere (beyond the registry's own and the one taken to count
    /// them). `Ok(false)` when no such object is published.
    pub fn remove(&mut self, id: ObjectId) -> (r: Result<bool, RegistryError>)
        requires
            old(self).wf(),
        ensures
            final(self).wf(),
            !old(self).contents().contains_key(id.0) ==> r == Ok::<bool, RegistryError>(false),
            r is Err ==> r == Err::<bool, RegistryError>(RegistryError::InUse),
            r != Ok::<bool, RegistryError>(true) ==> final(self).contents() == old(self).contents(),
            r == Ok::<bool, RegistryError>(true) ==> old(self).contents().contains_key(id.0)
                && final(self).contents() == old(self).contents().remove(id.0),
    {
        let in_use = match map_get(&self.objects, id.0) {
            None => {
                return Ok(false);
            },
            Some(a) => !may_remove(holders(&a)),
        };
        if in_use {
            return Err(RegistryError::InUse);
        }
        map_remove(&mut self.objects, id.0);
        Ok(true)
    }

    /// A snapshot of the published objects, in no particular order.
    pub fn iter(&self) -> (r: Vec<(ObjectId, Arc<VistleObject>)>)
        requires
            self.wf(),
        ensures
            forall|i: int| 0 <= i < r@.len() ==> self.contents().contains_key((#[trigger] r@[i]).0.0)
                && *r@[i].1 == self.contents()[r@[i].0.0],
            forall|k: u128| self.contents().contains_key(k) ==> exists|i: int| 0 <= i < r@.len() && (#[trigger] r@[i]).0.0 == k,
    {
        let entries = map_entries(&self.objects);
        let n = entries.len();
        let mut out: Vec<(ObjectId, Arc<VistleObject>)> = Vec::new();
        let mut i: usize = 0;
        while i < n
            invariant
                n == entries@.len(),
                0 <= i <= n,
                out@.len() == i,
                forall|j: int| 0 <= j < i ==> (#[trigger] out@[j]).0.0 == entries@[j].0 && *out@[j].1 == *entries@[j].1,
            decreases n - i,
        {
            let a = entries[i].1.clone();
            out.push((ObjectId(entries[i].0), a));
            i += 1;
        }
        proof {
            assert forall|k: u128| self.contents().contains_key(k) implies exists|j: int| 0 <= j < out@.len() && (#[trigger] out@[j]).0.0 == k by {
                let j = choose|j: int| 0 <= j < entries@.len() && (#[trigger] entries@[j]).0 == k;
                assert(out@[j].0.0 == k);
            }
        }
        out
    }
}

/// Once an object that was not yet published has been stored, its id is
/// published and looks up that very object (the contract of `store` gives
/// the new contents; that of `get` reads them; a second `store` of the id
/// is refused because the id is now present).
pub proof fn law_store_then_get(before: ObjectRegistry, after: ObjectRegistry, x: VistleObject)
    requires
        before.wf(),
        !before.contents().contains_key(x.id.0),
        after.contents() == before.contents().insert(x.id.0, x),
    ensures
        after.contents().contains_key(x.id.0),
        after.contents()[x.id.0] == x,
        after.wf(),
{
}

} // verus!
