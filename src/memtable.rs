//! The memtable: the ordered map of recent writes, each key to its value or
//! to a deletion mark, with a count of the mutations applied since it was
//! last emptied.
use crate::keys::{key_lt, strictly_ascending};
use crate::wal::opt_view;
use crossbeam_skiplist::SkipMap;
use vstd::prelude::*;

verus! {

#[verifier::external_type_specification]
#[verifier::external_body]
#[verifier::reject_recursive_types(K)]
#[verifier::reject_recursive_types(V)]
pub struct ExSkipMap<K, V>(SkipMap<K, V>);

/// What a skip map from keys to values or deletion marks holds.
pub uninterp spec fn skip_contents(m: SkipMap<Vec<u8>, Option<Vec<u8>>>) -> Map<
    Seq<u8>,
    Option<Seq<u8>>,
>;

/// The contents of an empty map.
pub open spec fn no_entries() -> Map<Seq<u8>, Option<Seq<u8>>> {
    Map::empty()
}

/// Relies on `SkipMap::new`: a new map is empty.
#[verifier::external_body]
fn skip_new() -> (r: SkipMap<Vec<u8>, Option<Vec<u8>>>)
    ensures
        skip_contents(r) == no_entries(),
{
    SkipMap::new()
}

/// Relies on `SkipMap::insert`: the key maps to the value afterwards, any
/// earlier entry of the key removed, the other entries kept.
#[verifier::external_body]
fn skip_insert(m: &mut SkipMap<Vec<u8>, Option<Vec<u8>>>, key: Vec<u8>, value: Option<Vec<u8>>)
    ensures
        skip_contents(*final(m)) == skip_contents(*old(m)).insert(key@, opt_view(value)),
{
    m.insert(key, value);
}

/// Relies on `SkipMap::get`: the entry of the key, if there is one.
#[verifier::external_body]
fn skip_get(m: &SkipMap<Vec<u8>, Option<Vec<u8>>>, key: &[u8]) -> (r: Option<Option<Vec<u8>>>)
    ensures
        r is Some <==> skip_contents(*m).contains_key(key@),
        r matches Some(v) ==> opt_view(v) == skip_contents(*m)[key@],
{
    m.get(key).map(|e| e.value().clone())
}

/// Relies on `SkipMap::clear`: no entry is left.
#[verifier::external_body]
fn skip_clear(m: &mut SkipMap<Vec<u8>, Option<Vec<u8>>>)
    ensures
        skip_contents(*final(m)) == no_entries(),
{
    m.clear();
}

/// Relies on `SkipMap::iter`: every entry once, sorted by key.
#[verifier::external_body]
fn skip_entries(m: &SkipMap<Vec<u8>, Option<Vec<u8>>>) -> (r: Vec<(Vec<u8>, Option<Vec<u8>>)>)
    ensures
        strictly_ascending(r@.map_values(|e: (Vec<u8>, Option<Vec<u8>>)| e.0@)),
        forall|i: int|
            0 <= i < r@.len() ==> skip_contents(*m).contains_key((#[trigger] r@[i]).0@)
                && skip_contents(*m)[r@[i].0@] == opt_view(r@[i].1),
        forall|k: Seq<u8>|
            #[trigger] skip_contents(*m).contains_key(k) ==> exists|i: int|
                0 <= i < r@.len() && (#[trigger] r@[i]).0@ == k,
{
    m.iter().map(|e| (e.key().clone(), e.value().clone())).collect()
}

/// The number of mutations after which the memtable asks to be flushed.
pub const FLUSH_THRESHOLD: u64 = 256;

/// What a mutation of the memtable leaves the caller to do.
#[derive(Debug, PartialEq, Eq, Structural)]
pub enum MemtableStatus {
    /// The mutation is stored; nothing more is needed.
    Accepted,
    /// The mutation is stored and the memtable is full: flush it.
    FlushNeeded,
}

/// Recent writes: each key to its value, or to `None` where it was deleted.
pub struct Memtable {
    memtable: SkipMap<Vec<u8>, Option<Vec<u8>>>,
    size: u64,
}

impl Memtable {
    pub closed spec fn view(&self) -> Map<Seq<u8>, Option<Seq<u8>>> {
        skip_contents(self.memtable)
    }

    /// The status after a mutation that brought the count to `size`.
    pub open spec fn status_for(size: u64) -> MemtableStatus {
        if size >= FLUSH_THRESHOLD {
            MemtableStatus::FlushNeeded
        } else {
            MemtableStatus::Accepted
        }
    }

    /// The number of mutations since the memtable was last emptied.
    pub closed spec fn count(&self) -> u64 {
        self.size
    }

    /// The number of mutations since the memtable was last emptied.
    pub fn size(&self) -> (r: u64)
        ensures
            r == self.count(),
    {
        self.size
    }

    /// An empty memtable.
    pub fn new() -> (r: Memtable)
        ensures
            r@ == no_entries(),
            r.count() == 0,
    {
        Memtable { memtable: skip_new(), size: 0 }
    }

    /// The value of `key`: `Ok(Some(v))` for a value, `Ok(None)` for a
    /// deletion, `Err(KeyNotFound)` where the memtable holds nothing for it.
    pub fn get(&self, key: &[u8]) -> (r: crate::errors::Result<Option<Vec<u8>>>)
        ensures
            !self@.contains_key(key@) <==> r matches Err(crate::errors::ShortDBErrors::KeyNotFound),
            r matches Ok(v) ==> self@.contains_key(key@) && opt_view(v) == self@[key@],
            r is Ok || r matches Err(crate::errors::ShortDBErrors::KeyNotFound),
    {
        match skip_get(&self.memtable, key) {
            Some(v) => Ok(v),
            None => Err(crate::errors::ShortDBErrors::KeyNotFound),
        }
    }

    fn apply(&mut self, key: &[u8], value: Option<Vec<u8>>) -> (r: MemtableStatus)
        ensures
            final(self)@ == old(self)@.insert(key@, opt_view(value)),
            final(self).count() == if old(self).count() < u64::MAX { old(self).count() + 1 } else { u64::MAX as int },
            r == Self::status_for(final(self).count()),
    {
        let k = crate::codec::copy_range(key, 0, key.len());
        assert(k@ =~= key@);
        skip_insert(&mut self.memtable, k, value);
        self.size = self.size.saturating_add(1);
        if self.size >= FLUSH_THRESHOLD {
            MemtableStatus::FlushNeeded
        } else {
            MemtableStatus::Accepted
        }
    }

    /// Stores `value` under `key` and counts the mutation.
    pub fn set(&mut self, key: &[u8], value: &[u8]) -> (r: MemtableStatus)
        ensures
            final(self)@ == old(self)@.insert(key@, Some(value@)),
            final(self).count() == if old(self).count() < u64::MAX { old(self).count() + 1 } else { u64::MAX as int },
            r == Self::status_for(final(self).count()),
    {
        let v = crate::codec::copy_range(value, 0, value.len());
        assert(v@ =~= value@);
        self.apply(key, Some(v))
    }

    /// Marks `key` deleted and counts the mutation.
    pub fn delete(&mut self, key: &[u8]) -> (r: MemtableStatus)
        ensures
            final(self)@ == old(self)@.insert(key@, None),
            final(self).count() == if old(self).count() < u64::MAX { old(self).count() + 1 } else { u64::MAX as int },
            r == Self::status_for(final(self).count()),
    {
        self.apply(key, None)
    }

    /// Empties the memtable and resets its count.
    pub fn clear(&mut self)
        ensures
            final(self)@ == no_entries(),
            final(self).count() == 0,
    {
        skip_clear(&mut self.memtable);
        self.size = 0;
    }

    /// Every entry, in ascending key order.
    pub fn entries(&self) -> (r: Vec<(Vec<u8>, Option<Vec<u8>>)>)
        ensures
            strictly_ascending(r@.map_values(|e: (Vec<u8>, Option<Vec<u8>>)| e.0@)),
            forall|i: int|
                0 <= i < r@.len() ==> self@.contains_key((#[trigger] r@[i]).0@)
                    && self@[r@[i].0@] == opt_view(r@[i].1),
            forall|k: Seq<u8>|
                #[trigger] self@.contains_key(k) ==> exists|i: int|
                    0 <= i < r@.len() && (#[trigger] r@[i]).0@ == k,
    {
        skip_entries(&self.memtable)
    }
}

} // verus!
