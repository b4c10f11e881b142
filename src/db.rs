//! The store: the write-ahead log, the memtable and the sorted table behind
//! `get`, `set` and `delete`, with the flush policy and recovery on open.
//!
//! The store does no I/O itself. Each mutation returns the bytes to append
//! to the log file, which the caller makes durable before it reports
//! success, and the bytes to append to the table file.
use crate::errors::{Result, ShortDBErrors};
use crate::memtable::{Memtable, MemtableStatus, FLUSH_THRESHOLD};
use crate::sst::{lemma_latest, parse_sst, table_view, RecView, SST};
use crate::keys::{key_lt, lemma_key_lt_irreflexive};
use crate::keys::strictly_ascending;
use crate::wal::{
    lemma_replay_recovers, opt_view, parse_wal, parse_wal_record, wal_record, wal_records, WALEntry,
    TOMBSTONE_LEN, WAL,
};
use vstd::prelude::*;

verus! {

/// Each key to its value, or to `None` where its latest mutation deleted it.
pub type StoreView = Map<Seq<u8>, Option<Seq<u8>>>;

/// What `get` answers for `k` in a store holding `s`.
pub open spec fn lookup(s: StoreView, k: Seq<u8>) -> Option<Seq<u8>> {
    if s.contains_key(k) {
        s[k]
    } else {
        None
    }
}

/// A store holding `s` after the mutations of `log`, in order.
pub open spec fn apply_log(s: StoreView, log: Seq<(Seq<u8>, Option<Seq<u8>>)>) -> StoreView
    decreases log.len(),
{
    if log.len() == 0 {
        s
    } else {
        apply_log(s, log.drop_last()).insert(log.last().0, log.last().1)
    }
}

/// Table records made of the entries `es`, each stamped with `ts`.
pub open spec fn flushed(es: Seq<(Vec<u8>, Option<Vec<u8>>)>, ts: u64) -> Seq<RecView> {
    es.map_values(|e: (Vec<u8>, Option<Vec<u8>>)| (e.0@, opt_view(e.1), ts as nat))
}

/// The bytes that one mutation asks to append to the two files.
pub struct Persist {
    /// The log record, to be made durable before the mutation counts as done.
    pub wal: Vec<u8>,
    /// Committed table bytes; empty where no batch was written.
    pub sst: Vec<u8>,
}

pub struct ShorterDB {
    memtable: Memtable,
    wal: WAL,
    sst: SST,
}

/// Every table record appended after `rs` whose keys strictly ascend leaves
/// each of those keys at its new value, and every other key as it was.
proof fn lemma_table_append(rs: Seq<RecView>, es: Seq<RecView>)
    requires
        forall|i: int, j: int| 0 <= i < j < es.len() ==> key_lt((#[trigger] es[i]).0, (#[trigger] es[j]).0),
    ensures
        table_view(rs + es) == table_view(rs).union_prefer_right(
            Map::new(|k: Seq<u8>| exists|i: int| 0 <= i < es.len() && (#[trigger] es[i]).0 == k,
                |k: Seq<u8>| es[choose|i: int| 0 <= i < es.len() && (#[trigger] es[i]).0 == k].1),
        ),
    decreases es.len(),
{
    let all = rs + es;
    let m = Map::new(|k: Seq<u8>| exists|i: int| 0 <= i < es.len() && (#[trigger] es[i]).0 == k,
        |k: Seq<u8>| es[choose|i: int| 0 <= i < es.len() && (#[trigger] es[i]).0 == k].1);
    assert forall|k: Seq<u8>| #[trigger] table_view(all).contains_key(k) == table_view(rs).union_prefer_right(m).contains_key(k)
        && (table_view(all).contains_key(k) ==> table_view(all)[k] == table_view(rs).union_prefer_right(m)[k]) by {
        if exists|i: int| 0 <= i < es.len() && (#[trigger] es[i]).0 == k {
            let i = choose|i: int| 0 <= i < es.len() && (#[trigger] es[i]).0 == k;
            assert forall|j: int| rs.len() + i < j < all.len() implies (#[trigger] all[j]).0 != k by {
                assert(all[j] == es[j - rs.len()]);
                lemma_key_lt_irreflexive(k);
            }
            assert(all[rs.len() + i] == es[i]);
            lemma_latest(all, rs.len() + i, k);
        } else {
            lemma_prefix_kept(rs, es, k);
        }
    }
    assert(table_view(all) =~= table_view(rs).union_prefer_right(m));
}

/// A key that no appended record has keeps its entry.
proof fn lemma_prefix_kept(rs: Seq<RecView>, es: Seq<RecView>, k: Seq<u8>)
    requires
        forall|i: int| 0 <= i < es.len() ==> (#[trigger] es[i]).0 != k,
    ensures
        table_view(rs + es).contains_key(k) == table_view(rs).contains_key(k),
        table_view(rs).contains_key(k) ==> table_view(rs + es)[k] == table_view(rs)[k],
    decreases es.len(),
{
    if es.len() > 0 {
        assert((rs + es).drop_last() =~= rs + es.drop_last());
        lemma_prefix_kept(rs, es.drop_last(), k);
    } else {
        assert(rs + es =~= rs);
    }
}

/// Flushing keeps what the store holds: writing the memtable's entries, in
/// ascending key order, after the table's records gives a table that holds
/// what the table overridden by the memtable held.
pub proof fn lemma_flush_preserves(
    rs: Seq<RecView>,
    m: StoreView,
    es: Seq<(Vec<u8>, Option<Vec<u8>>)>,
    ts: u64,
)
    requires
        strictly_ascending(es.map_values(|e: (Vec<u8>, Option<Vec<u8>>)| e.0@)),
        forall|i: int|
            0 <= i < es.len() ==> m.contains_key((#[trigger] es[i]).0@) && m[es[i].0@] == opt_view(es[i].1),
        forall|k: Seq<u8>|
            #[trigger] m.contains_key(k) ==> exists|i: int| 0 <= i < es.len() && (#[trigger] es[i]).0@ == k,
    ensures
        table_view(rs + flushed(es, ts)) == table_view(rs).union_prefer_right(m),
{
    let e = flushed(es, ts);
    let ks = es.map_values(|x: (Vec<u8>, Option<Vec<u8>>)| x.0@);
    assert forall|i: int, j: int| 0 <= i < j < e.len() implies key_lt((#[trigger] e[i]).0, (#[trigger] e[j]).0) by {
        assert(ks[i] == e[i].0 && ks[j] == e[j].0);
    }
    lemma_table_append(rs, e);
    let me = Map::new(|k: Seq<u8>| exists|i: int| 0 <= i < e.len() && (#[trigger] e[i]).0 == k,
        |k: Seq<u8>| e[choose|i: int| 0 <= i < e.len() && (#[trigger] e[i]).0 == k].1);
    assert forall|k: Seq<u8>| #[trigger] me.contains_key(k) == m.contains_key(k) by {
        if m.contains_key(k) {
            let i = choose|i: int| 0 <= i < es.len() && (#[trigger] es[i]).0@ == k;
            assert(e[i].0 == k);
        }
        if me.contains_key(k) {
            let i = choose|i: int| 0 <= i < e.len() && (#[trigger] e[i]).0 == k;
            assert(es[i].0@ == k);
        }
    }
    assert forall|k: Seq<u8>| #[trigger] me.contains_key(k) implies me[k] == m[k] by {
        let i = choose|i: int| 0 <= i < e.len() && (#[trigger] e[i]).0 == k;
        assert(es[i].0@ == k);
    }
    assert(me =~= m);
}

/// `set(k, v)` followed by `get(k)` gives `v`.
pub proof fn lemma_round_trip(s: StoreView, k: Seq<u8>, v: Seq<u8>)
    ensures
        lookup(s.insert(k, Some(v)), k) == Some(v),
{
}

/// `set(k, v)`, then `delete(k)`: `get(k)` finds nothing.
pub proof fn lemma_delete_visibility(s: StoreView, k: Seq<u8>, v: Seq<u8>)
    ensures
        lookup(s.insert(k, Some(v)).insert(k, None), k) is None,
{
}

/// `set(k, v1)`, then `set(k, v2)`: `get(k)` gives `v2`.
pub proof fn lemma_overwrite(s: StoreView, k: Seq<u8>, v1: Seq<u8>, v2: Seq<u8>)
    ensures
        lookup(s.insert(k, Some(v1)).insert(k, Some(v2)), k) == Some(v2),
{
}

/// After any run of `set`s on distinct keys, flushes among them or not,
/// every key set reads back its value: each `set` maps the store's view to
/// `view.insert(k, Some(v))`, whatever it flushed.
pub proof fn lemma_many_sets(s: StoreView, log: Seq<(Seq<u8>, Option<Seq<u8>>)>, i: int)
    requires
        0 <= i < log.len(),
        forall|a: int, b: int| 0 <= a < b < log.len() ==> (#[trigger] log[a]).0 != (#[trigger] log[b]).0,
        forall|a: int| 0 <= a < log.len() ==> (#[trigger] log[a]).1 is Some,
    ensures
        lookup(apply_log(s, log), log[i].0) == log[i].1,
    decreases log.len(),
{
    if i < log.len() - 1 {
        let shorter = log.drop_last();
        assert(shorter[i] == log[i]);
        assert forall|a: int, b: int| 0 <= a < b < shorter.len() implies (#[trigger] shorter[a]).0
            != (#[trigger] shorter[b]).0 by {
            assert(shorter[a] == log[a] && shorter[b] == log[b]);
        }
        assert forall|a: int| 0 <= a < shorter.len() implies (#[trigger] shorter[a]).1 is Some by {
            assert(shorter[a] == log[a]);
        }
        lemma_many_sets(s, shorter, i);
        assert(log[i].0 != log[log.len() - 1].0);
    }
}

/// A mutation leaves every other key as it was.
pub proof fn lemma_other_keys(s: StoreView, k: Seq<u8>, v: Option<Seq<u8>>, other: Seq<u8>)
    requires
        other != k,
    ensures
        lookup(s.insert(k, v), other) == lookup(s, other),
{
}

/// After `set(k, v)` has returned its log record and that record is on
/// disk, reopening the store gives `v` for `k`: whatever the table file
/// holds, whatever was logged before, and also where the process stopped
/// while writing a later record, of which only a part reached the disk.
pub proof fn lemma_crash_recovery(
    table: StoreView,
    before: Seq<(Seq<u8>, Option<Seq<u8>>)>,
    k: Seq<u8>,
    v: Seq<u8>,
    torn: Seq<u8>,
)
    requires
        forall|i: int|
            0 <= i < before.len() ==> {
                &&& (#[trigger] before[i]).0.len() < TOMBSTONE_LEN
                &&& (before[i].1 matches Some(w) ==> w.len() < TOMBSTONE_LEN)
            },
        k.len() < TOMBSTONE_LEN,
        v.len() < TOMBSTONE_LEN,
        parse_wal_record(torn) is None,
    ensures
        lookup(apply_log(table, parse_wal(wal_records(before.push((k, Some(v)))) + torn)), k) == Some(v),
{
    let log = before.push((k, Some(v)));
    assert forall|i: int|
        0 <= i < log.len() implies {
            &&& (#[trigger] log[i]).0.len() < TOMBSTONE_LEN
            &&& (log[i].1 matches Some(w) ==> w.len() < TOMBSTONE_LEN)
        } by {
        if i < before.len() {
            assert(log[i] == before[i]);
        }
    }
    lemma_replay_recovers(log, torn);
    assert(log.drop_last() =~= before);
}

proof fn lemma_prefix_extend(p: Seq<RecView>, a: Seq<RecView>, x: Seq<RecView>)
    requires
        p.is_prefix_of(a),
    ensures
        p.is_prefix_of(a + x),
{
    assert((a + x).subrange(0, p.len() as int) =~= a.subrange(0, p.len() as int));
}

fn copy_value(v: &Option<Vec<u8>>) -> (r: Option<Vec<u8>>)
    ensures
        opt_view(r) == opt_view(*v),
{
    match v {
        None => None,
        Some(b) => {
            let c = crate::codec::copy_range(b.as_slice(), 0, b.len());
            assert(c@ =~= b@);
            Some(c)
        },
    }
}

/// `es` lists the entries of `m` once each, in ascending key order.
pub open spec fn sorted_entries_of(es: Seq<(Seq<u8>, Option<Seq<u8>>)>, m: StoreView) -> bool {
    &&& strictly_ascending(es.map_values(|e: (Seq<u8>, Option<Seq<u8>>)| e.0))
    &&& forall|i: int| 0 <= i < es.len() ==> m.contains_key((#[trigger] es[i]).0) && m[es[i].0] == es[i].1
    &&& forall|k: Seq<u8>| #[trigger] m.contains_key(k) ==> exists|i: int| 0 <= i < es.len() && (#[trigger] es[i]).0 == k
}

/// Table records made of entries, each stamped with `ts`.
pub open spec fn stamped(es: Seq<(Seq<u8>, Option<Seq<u8>>)>, ts: u64) -> Seq<RecView> {
    es.map_values(|e: (Seq<u8>, Option<Seq<u8>>)| (e.0, e.1, ts as nat))
}

/// A flush of the memtable `m` at `ts` took the table's records from
/// `before` to `after`: it appended `m`'s entries in ascending key order.
pub open spec fn flush_appends(before: Seq<RecView>, after: Seq<RecView>, m: StoreView, ts: u64) -> bool {
    exists|es: Seq<(Seq<u8>, Option<Seq<u8>>)>| sorted_entries_of(es, m) && after == before + stamped(es, ts)
}

impl ShorterDB {
    /// What the store holds: the sorted table, overridden by the memtable.
    pub closed spec fn view(&self) -> StoreView {
        self.sst.view().union_prefer_right(self.memtable@)
    }

    /// The bytes of the log: the mutations since the last flush.
    pub closed spec fn log(&self) -> Seq<u8> {
        self.wal@
    }

    /// The committed records of the sorted table, oldest first.
    pub closed spec fn table_records(&self) -> Seq<RecView> {
        self.sst.records()
    }

    /// The committed bytes of the sorted table.
    pub closed spec fn table_bytes(&self) -> Seq<u8> {
        self.sst.bytes()
    }

    /// What the memtable holds.
    pub closed spec fn pending(&self) -> StoreView {
        self.memtable@
    }

    /// The number of mutations since the memtable was last flushed.
    pub closed spec fn unflushed(&self) -> nat {
        self.memtable.count() as nat
    }

    pub closed spec fn wf(&self) -> bool {
        &&& self.memtable.count() < FLUSH_THRESHOLD
        &&& self.sst.wf()
        &&& self.sst.queued().len() == 0
    }

    /// The table bytes are its records one after the other, and the store
    /// holds the table's contents overridden by the memtable's.
    pub proof fn lemma_layers(&self)
        requires
            self.wf(),
        ensures
            self.table_bytes() == crate::sst::sst_records(self.table_records()),
            self.view() == table_view(self.table_records()).union_prefer_right(self.pending()),
    {
        self.sst.lemma_bytes_are_records();
    }

    /// Moves every memtable entry into the sorted table, in key order, and
    /// empties the memtable. What the store holds does not change.
    #[verifier::rlimit(60)]
    #[verifier::spinoff_prover]
    fn flush_memtable(&mut self, timestamp: u64) -> (r: Vec<u8>)
        requires
            old(self).sst.wf(),
            old(self).sst.queued().len() == 0,
        ensures
            final(self).wf(),
            final(self).memtable.count() == 0,
            final(self).pending() == crate::memtable::no_entries(),
            final(self).wal == old(self).wal,
            final(self).view() == old(self).view(),
            flush_appends(old(self).table_records(), final(self).table_records(), old(self).pending(), timestamp),
            final(self).table_bytes() == old(self).table_bytes() + r@,
    {
        let es = self.memtable.entries();
        let ghost m = self.memtable@;
        let ghost e = flushed(es@, timestamp);
        let ghost r0 = self.sst.records();
        let ghost b0 = self.sst.bytes();
        let mut out: Vec<u8> = Vec::new();
        let mut i: usize = 0;
        assert(r0 + e.subrange(0, 0) =~= r0);
        assert(r0 + self.sst.queued() =~= r0);
        while i < es.len()
            invariant
                self.sst.wf(),
                self.memtable == old(self).memtable,
                self.wal == old(self).wal,
                e == flushed(es@, timestamp),
                i <= es@.len(),
                self.sst.records() + self.sst.queued() == r0 + e.subrange(0, i as int),
                self.sst.bytes() == b0 + out@,
            decreases es@.len() - i,
        {
            let v = copy_value(&es[i].1);
            let b = self.sst.set(es[i].0.as_slice(), v, timestamp);
            out.extend_from_slice(b.as_slice());
            assert(e.subrange(0, i + 1) =~= e.subrange(0, i as int).push(e[i as int]));
            assert(r0 + e.subrange(0, i + 1) =~= (r0 + e.subrange(0, i as int)).push(e[i as int]));
            i = i + 1;
        }
        let b = self.sst.flush();
        out.extend_from_slice(b.as_slice());
        self.memtable.clear();
        proof {
            assert(e.subrange(0, i as int) =~= e);
            lemma_flush_preserves(r0, m, es@, timestamp);
            assert(self.sst.view().union_prefer_right(self.memtable@) =~= self.sst.view());
            assert(self.sst.bytes() =~= b0 + out@);
            let ev = es@.map_values(|x: (Vec<u8>, Option<Vec<u8>>)| (x.0@, opt_view(x.1)));
            assert(stamped(ev, timestamp) =~= e);
            let ks = es@.map_values(|x: (Vec<u8>, Option<Vec<u8>>)| x.0@);
            assert(ev.map_values(|x: (Seq<u8>, Option<Seq<u8>>)| x.0) =~= ks);
            assert forall|k: Seq<u8>| #[trigger] m.contains_key(k) implies exists|i: int|
                0 <= i < ev.len() && (#[trigger] ev[i]).0 == k by {
                let i = choose|i: int| 0 <= i < es@.len() && (#[trigger] es@[i]).0@ == k;
                assert(ev[i].0 == k);
            }
            assert(sorted_entries_of(ev, m));
        }
        out
    }

    /// The value of `key`: `Ok(Some(value))` where the store holds one,
    /// `Err(KeyNotFound)` where the key was never set or was deleted last.
    pub fn get(&self, key: &[u8]) -> (r: Result<Option<Vec<u8>>>)
        requires
            self.wf(),
        ensures
            lookup(self.view(), key@) matches Some(v) ==> r matches Ok(Some(x)) && x@ == v,
            lookup(self.view(), key@) is None ==> r matches Err(ShortDBErrors::KeyNotFound),
    {
        match self.memtable.get(key) {
            Ok(Some(v)) => Ok(Some(v)),
            Ok(None) => Err(ShortDBErrors::KeyNotFound),
            Err(_) => match self.sst.get(key) {
                Some(Some(v)) => Ok(Some(v)),
                _ => Err(ShortDBErrors::KeyNotFound),
            },
        }
    }

    /// Applies a mutation already written to the log, flushing where the
    /// memtable asks for it.
    fn apply(&mut self, key: &[u8], value: Option<Vec<u8>>, timestamp: u64) -> (r: Vec<u8>)
        requires
            old(self).wf(),
        ensures
            final(self).wf(),
            final(self).view() == old(self).view().insert(key@, opt_view(value)),
            final(self).table_bytes() == old(self).table_bytes() + r@,
            final(self).wal == old(self).wal,
            old(self).unflushed() + 1 >= FLUSH_THRESHOLD ==> {
                &&& final(self).unflushed() == 0
                &&& final(self).pending() == crate::memtable::no_entries()
                &&& flush_appends(old(self).table_records(), final(self).table_records(),
                    old(self).pending().insert(key@, opt_view(value)), timestamp)
            },
            old(self).unflushed() + 1 < FLUSH_THRESHOLD ==> {
                &&& final(self).unflushed() == old(self).unflushed() + 1
                &&& final(self).pending() == old(self).pending().insert(key@, opt_view(value))
                &&& final(self).table_records() == old(self).table_records()
                &&& r@.len() == 0
            },
    {
        let ghost v = opt_view(value);
        let status = match value {
            Some(b) => self.memtable.set(key, b.as_slice()),
            None => self.memtable.delete(key),
        };
        assert(self.view() =~= old(self).view().insert(key@, v));
        if status == MemtableStatus::FlushNeeded {
            self.flush_memtable(timestamp)
        } else {
            let r: Vec<u8> = Vec::new();
            assert(self.table_bytes() =~= old(self).table_bytes() + r@);
            r
        }
    }

    /// The log record of storing `value` under `key`, which the caller makes
    /// durable before it calls `set`.
    pub fn set_record(key: &[u8], value: &[u8]) -> (r: Vec<u8>)
        requires
            key@.len() < TOMBSTONE_LEN,
            value@.len() < TOMBSTONE_LEN,
        ensures
            r@ == wal_record(key@, Some(value@)),
    {
        let k = crate::codec::copy_range(key, 0, key.len());
        let v = crate::codec::copy_range(value, 0, value.len());
        assert(k@ =~= key@ && v@ =~= value@);
        WAL::encode(&WALEntry { key: k, value: Some(v) })
    }

    /// The log record of deleting `key`, which the caller makes durable
    /// before it calls `delete`.
    pub fn delete_record(key: &[u8]) -> (r: Vec<u8>)
        requires
            key@.len() < TOMBSTONE_LEN,
        ensures
            r@ == wal_record(key@, None),
    {
        let k = crate::codec::copy_range(key, 0, key.len());
        assert(k@ =~= key@);
        WAL::encode(&WALEntry { key: k, value: None })
    }

    /// Stores `value` under `key`. Returns the log record and any table
    /// bytes that a flush committed. A flush appends the memtable's entries
    /// to the table in ascending key order, stamped with `timestamp`, and
    /// empties the memtable. The log only ever grows.
    pub fn set(&mut self, key: &[u8], value: &[u8], timestamp: u64) -> (r: Persist)
        requires
            old(self).wf(),
            key@.len() < TOMBSTONE_LEN,
            value@.len() < TOMBSTONE_LEN,
        ensures
            final(self).wf(),
            final(self).view() == old(self).view().insert(key@, Some(value@)),
            r.wal@ == wal_record(key@, Some(value@)),
            final(self).log() == old(self).log() + r.wal@,
            final(self).table_bytes() == old(self).table_bytes() + r.sst@,
            old(self).unflushed() + 1 >= FLUSH_THRESHOLD ==> {
                &&& final(self).unflushed() == 0
                &&& final(self).pending() == crate::memtable::no_entries()
                &&& flush_appends(old(self).table_records(), final(self).table_records(),
                    old(self).pending().insert(key@, Some(value@)), timestamp)
            },
            old(self).unflushed() + 1 < FLUSH_THRESHOLD ==> {
                &&& final(self).unflushed() == old(self).unflushed() + 1
                &&& final(self).pending() == old(self).pending().insert(key@, Some(value@))
                &&& final(self).table_records() == old(self).table_records()
                &&& r.sst@.len() == 0
            },
    {
        let k = crate::codec::copy_range(key, 0, key.len());
        let v = crate::codec::copy_range(value, 0, value.len());
        assert(k@ =~= key@ && v@ =~= value@);
        let entry = WALEntry { key: k, value: Some(v) };
        let wal = self.wal.write(&entry);
        let v2 = crate::codec::copy_range(value, 0, value.len());
        assert(v2@ =~= value@);
        let sst = self.apply(key, Some(v2), timestamp);
        Persist { wal, sst }
    }

    /// Deletes `key`: a deletion goes to the log and the memtable, with the
    /// same flush as `set`.
    pub fn delete(&mut self, key: &[u8], timestamp: u64) -> (r: Persist)
        requires
            old(self).wf(),
            key@.len() < TOMBSTONE_LEN,
        ensures
            final(self).wf(),
            final(self).view() == old(self).view().insert(key@, None),
            r.wal@ == wal_record(key@, None),
            final(self).log() == old(self).log() + r.wal@,
            final(self).table_bytes() == old(self).table_bytes() + r.sst@,
            old(self).unflushed() + 1 >= FLUSH_THRESHOLD ==> {
                &&& final(self).unflushed() == 0
                &&& final(self).pending() == crate::memtable::no_entries()
                &&& flush_appends(old(self).table_records(), final(self).table_records(),
                    old(self).pending().insert(key@, None), timestamp)
            },
            old(self).unflushed() + 1 < FLUSH_THRESHOLD ==> {
                &&& final(self).unflushed() == old(self).unflushed() + 1
                &&& final(self).pending() == old(self).pending().insert(key@, None)
                &&& final(self).table_records() == old(self).table_records()
                &&& r.sst@.len() == 0
            },
    {
        let k = crate::codec::copy_range(key, 0, key.len());
        assert(k@ =~= key@);
        let entry = WALEntry { key: k, value: None };
        let wal = self.wal.write(&entry);
        let sst = self.apply(key, None, timestamp);
        Persist { wal, sst }
    }

    /// Opens a store whose log file holds `wal_bytes` and whose table file
    /// holds `sst_bytes`: loads the table, then replays the log on top of it,
    /// flushing with `timestamp` where the memtable fills. The bloom filter
    /// gets `bitmap_size` bytes. The table's records begin with those read
    /// from `sst_bytes`, and the log is kept as it was.
    #[verifier::rlimit(60)]
    #[verifier::spinoff_prover]
    pub fn new(wal_bytes: &[u8], sst_bytes: &[u8], bitmap_size: usize, timestamp: u64) -> (r: ShorterDB)
        requires
            0 < bitmap_size < 0x2000_0000_0000_0000,
        ensures
            r.wf(),
            r.view() == apply_log(table_view(parse_sst(sst_bytes@)), parse_wal(wal_bytes@)),
            parse_sst(sst_bytes@).is_prefix_of(r.table_records()),
            r.log() == wal_bytes@,
    {
        let wal = WAL::new(wal_bytes);
        let sst = SST::new(sst_bytes, bitmap_size);
        let mut db = ShorterDB { memtable: Memtable::new(), wal, sst };
        let ghost t0 = table_view(parse_sst(sst_bytes@));
        let ghost p0 = parse_sst(sst_bytes@);
        assert(db.view() =~= t0);
        assert(db.sst.records().subrange(0, p0.len() as int) =~= p0);
        assert(p0.is_prefix_of(db.sst.records()));
        let entries = WAL::read_entries(wal_bytes);
        let ghost log = parse_wal(wal_bytes@);
        let mut i: usize = 0;
        assert(log.subrange(0, 0) =~= Seq::<(Seq<u8>, Option<Seq<u8>>)>::empty());
        while i < entries.len()
            invariant
                db.wf(),
                db.wal@ == wal_bytes@,
                log == parse_wal(wal_bytes@),
                entries@.map_values(|e: WALEntry| e@) == log,
                i <= entries@.len(),
                db.view() == apply_log(t0, log.subrange(0, i as int)),
                p0.is_prefix_of(db.sst.records()),
            decreases entries@.len() - i,
        {
            let v = copy_value(&entries[i].value);
            assert(log[i as int] == entries@[i as int]@);
            let ghost rs_before = db.sst.records();
            let ghost m1 = db.memtable@.insert(entries@[i as int].key@, opt_view(v));
            let ghost flushing = db.memtable.count() + 1 >= FLUSH_THRESHOLD;
            db.apply(entries[i].key.as_slice(), v, timestamp);
            proof {
                if flushing {
                    let es = choose|es: Seq<(Seq<u8>, Option<Seq<u8>>)>|
                        sorted_entries_of(es, m1) && db.sst.records() == rs_before + stamped(es, timestamp);
                    lemma_prefix_extend(p0, rs_before, stamped(es, timestamp));
                }
            }
            assert(log.subrange(0, i + 1).drop_last() =~= log.subrange(0, i as int));
            i = i + 1;
        }
        assert(log.subrange(0, i as int) =~= log);
        db
    }

    /// The committed bytes of the sorted table, as its file should hold them.
    pub fn committed_table(&self) -> (r: &Vec<u8>)
        ensures
            r@ == self.table_bytes(),
    {
        self.sst.committed()
    }
}

} // verus!
