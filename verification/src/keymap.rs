//! The mapping from keys to their running statistics, backed by a hash map
//! whose contents are modelled as a `Map` from key bytes to records.
//!
//! `hashbrown::HashMap` takes an allocator type parameter, which keeps its
//! type from being declared to the verifier directly; the map is therefore
//! held in a private field of an opaque struct, and every operation the
//! library needs is a small trusted wrapper over one `hashbrown` method.

use crate::record::Record;
use vstd::prelude::*;

verus! {

/// A map from key bytes to the record aggregated for that key.
#[verifier::external_body]
pub struct KeyMap {
    inner: hashbrown::HashMap<Vec<u8>, Record>,
}

/// The entries held by a `KeyMap`.
pub uninterp spec fn key_map_model(m: KeyMap) -> Map<Seq<u8>, Record>;

impl View for KeyMap {
    type V = Map<Seq<u8>, Record>;

    open spec fn view(&self) -> Map<Seq<u8>, Record> {
        key_map_model(*self)
    }
}

impl KeyMap {
    /// Relies on `hashbrown::HashMap::new`: a map with no entries.
    #[verifier::external_body]
    pub fn new() -> (r: KeyMap)
        ensures
            r@ =~= Map::empty(),
    {
        KeyMap { inner: hashbrown::HashMap::new() }
    }

    /// Relies on `hashbrown::HashMap::get`: the value stored under an equal
    /// key, or `None` when the key is absent.
    #[verifier::external_body]
    pub fn get(&self, k: &[u8]) -> (r: Option<Record>)
        ensures
            r == if key_map_model(*self).contains_key(k@) {
                Some(key_map_model(*self)[k@])
            } else {
                None::<Record>
            },
    {
        self.inner.get(k).copied()
    }

    /// Relies on `hashbrown::HashMap::insert`: maps the key to the value,
    /// replacing any entry an equal key held before.
    #[verifier::external_body]
    pub fn insert(&mut self, k: Vec<u8>, v: Record)
        ensures
            key_map_model(*final(self)) == key_map_model(*old(self)).insert(k@, v),
    {
        self.inner.insert(k, v);
    }

    /// Relies on `hashbrown::HashMap::keys`: every key of the map, each
    /// exactly once, in no promised order.
    #[verifier::external_body]
    pub fn keys(&self) -> (r: Vec<Vec<u8>>)
        ensures
            forall|i: int, j: int| 0 <= i < j < r@.len() ==> r@[i]@ != r@[j]@,
            forall|i: int|
                0 <= i < r@.len() ==> key_map_model(*self).contains_key(#[trigger] r@[i]@),
            forall|k: Seq<u8>|
                key_map_model(*self).contains_key(k) ==> exists|i: int|
                    0 <= i < r@.len() && #[trigger] r@[i]@ == k,
    {
        self.inner.keys().cloned().collect()
    }
}

} // verus!
