//! The sorted table: records appended to one growing byte image in flush
//! order, with a bloom filter over every key written and a sparse index of
//! checkpoints for each ascending run of keys.
//!
//! A record is bincode's encoding of `(key, value, timestamp)`: the key as a
//! length-prefixed field, then the value, a byte 0 for a deletion or a byte 1
//! and the value as a length-prefixed field, then the timestamp as eight
//! little-endian bytes. Batches are appended at the
//! end of what is committed; nothing committed is ever written over.
use crate::codec::{
    copy_range, field, le_bytes, le_value, lemma_le_bytes_len, lemma_parse_field, parse_field,
};
use crate::keys::{
    compare_keys, key_lt, lemma_key_lt_irreflexive, lemma_key_lt_total, lemma_key_lt_transitive,
};
use crate::wal::opt_view;
use bloomfilter::Bloom;
use vstd::prelude::*;

verus! {

/// A record as the table sees it: key, value or deletion, timestamp.
pub type RecView = (Seq<u8>, Option<Seq<u8>>, nat);

/// The bytes of one record.
pub open spec fn sst_record(r: RecView) -> Seq<u8> {
    field(r.0) + match r.1 {
        None => seq![0u8],
        Some(v) => seq![1u8] + field(v),
    } + le_bytes(r.2, 8)
}

/// The bytes of records written one after the other.
pub open spec fn sst_records(rs: Seq<RecView>) -> Seq<u8>
    decreases rs.len(),
{
    if rs.len() == 0 {
        Seq::empty()
    } else {
        sst_records(rs.drop_last()) + sst_record(rs.last())
    }
}

/// Where record `i` of `rs` starts.
pub open spec fn offset(rs: Seq<RecView>, i: int) -> nat {
    sst_records(rs.subrange(0, i)).len()
}

/// Every length of a record fits its length word, and its timestamp fits
/// eight bytes.
pub open spec fn record_fits(r: RecView) -> bool {
    &&& r.0.len() < 0x1_0000_0000_0000_0000
    &&& (r.1 matches Some(v) ==> v.len() < 0x1_0000_0000_0000_0000)
    &&& r.2 < 0x1_0000_0000_0000_0000
}

/// Reads the record at the start of `s`, with its length in bytes, or
/// `None` where `s` holds no whole record there.
pub open spec fn parse_sst_record(s: Seq<u8>) -> Option<(RecView, nat)> {
    match parse_field(s) {
        None => None,
        Some((k, n1)) => {
            let t = s.subrange(n1 as int, s.len() as int);
            if t.len() < 1 {
                None
            } else if t[0] == 0 {
                if t.len() < 9 {
                    None
                } else {
                    Some(((k, None, le_value(t.subrange(1, 9))), n1 + 9))
                }
            } else if t[0] == 1 {
                match parse_field(t.subrange(1, t.len() as int)) {
                    None => None,
                    Some((v, n2)) => {
                        let u = t.subrange(1 + n2 as int, t.len() as int);
                        if u.len() < 8 {
                            None
                        } else {
                            Some(((k, Some(v), le_value(u.subrange(0, 8))), n1 + 1 + n2 + 8))
                        }
                    },
                }
            } else {
                None
            }
        },
    }
}

/// Every record of a table image, from the start up to its end or up to
/// bytes that hold no whole record.
pub open spec fn parse_sst(s: Seq<u8>) -> Seq<RecView>
    decreases s.len(),
{
    match parse_sst_record(s) {
        None => Seq::empty(),
        Some((r, n)) => if 0 < n <= s.len() {
            seq![r] + parse_sst(s.subrange(n as int, s.len() as int))
        } else {
            Seq::empty()
        },
    }
}

/// What the table holds: each key written to the value or deletion of its
/// latest record.
pub open spec fn table_view(rs: Seq<RecView>) -> Map<Seq<u8>, Option<Seq<u8>>>
    decreases rs.len(),
{
    if rs.len() == 0 {
        Map::empty()
    } else {
        table_view(rs.drop_last()).insert(rs.last().0, rs.last().1)
    }
}

proof fn lemma_records_concat(a: Seq<RecView>, b: Seq<RecView>)
    ensures
        sst_records(a + b) == sst_records(a) + sst_records(b),
    decreases b.len(),
{
    if b.len() == 0 {
        assert(a + b =~= a);
        assert(sst_records(a) + sst_records(b) =~= sst_records(a));
    } else {
        assert((a + b).drop_last() =~= a + b.drop_last());
        lemma_records_concat(a, b.drop_last());
        assert(sst_records(a + b) =~= sst_records(a) + sst_records(b));
    }
}

/// Record `i` starts at its offset, followed by the records after it.
proof fn lemma_record_at(rs: Seq<RecView>, i: int)
    requires
        0 <= i < rs.len(),
    ensures
        sst_records(rs).subrange(offset(rs, i) as int, sst_records(rs).len() as int)
            == sst_record(rs[i]) + sst_records(rs.subrange(i + 1, rs.len() as int)),
        offset(rs, i + 1) == offset(rs, i) + sst_record(rs[i]).len(),
        offset(rs, i + 1) <= sst_records(rs).len(),
{
    let a = rs.subrange(0, i);
    let b = rs.subrange(i + 1, rs.len() as int);
    assert(rs =~= a + (seq![rs[i]] + b));
    lemma_records_concat(a, seq![rs[i]] + b);
    lemma_records_concat(seq![rs[i]], b);
    lemma_single_record(rs[i]);
    assert(rs.subrange(0, i + 1) =~= a + seq![rs[i]]);
    lemma_records_concat(a, seq![rs[i]]);
    let s = sst_records(rs);
    assert(s.subrange(offset(rs, i) as int, s.len() as int) =~= sst_record(rs[i]) + sst_records(b));
}

proof fn lemma_single_record(r: RecView)
    ensures
        sst_records(seq![r]) == sst_record(r),
{
    let one = seq![r];
    assert(one.drop_last() =~= Seq::<RecView>::empty());
    assert(one.last() == r);
    assert(sst_records(Seq::<RecView>::empty()) =~= Seq::<u8>::empty());
    assert(sst_records(one) =~= sst_records(one.drop_last()) + sst_record(one.last()));
}

/// A record placed at the start of a byte string is read back whole.
pub proof fn lemma_parse_sst_record(r: RecView, rest: Seq<u8>)
    requires
        record_fits(r),
    ensures
        parse_sst_record(sst_record(r) + rest) == Some((r, sst_record(r).len())),
{
    let mid = match r.1 {
        None => seq![0u8],
        Some(v) => seq![1u8] + field(v),
    };
    let ts = le_bytes(r.2, 8);
    lemma_le_bytes_len(r.2, 8);
    crate::codec::lemma_pow256_8();
    crate::codec::lemma_le_round_trip(r.2, 8);
    let s = sst_record(r) + rest;
    assert(s =~= field(r.0) + (mid + ts + rest));
    lemma_parse_field(r.0, mid + ts + rest);
    let t = s.subrange(8 + r.0.len() as int, s.len() as int);
    assert(t =~= mid + ts + rest);
    match r.1 {
        None => {
            assert(t.subrange(1, 9) =~= ts);
        },
        Some(v) => {
            assert(t.subrange(1, t.len() as int) =~= field(v) + (ts + rest));
            lemma_parse_field(v, ts + rest);
            let u = t.subrange(1 + 8 + v.len() as int, t.len() as int);
            assert(u =~= ts + rest);
            assert(u.subrange(0, 8) =~= ts);
        },
    }
}

/// The value of `k` in the table is that of its latest record.
pub proof fn lemma_latest(rs: Seq<RecView>, p: int, k: Seq<u8>)
    requires
        0 <= p < rs.len(),
        rs[p].0 == k,
        forall|i: int| p < i < rs.len() ==> (#[trigger] rs[i]).0 != k,
    ensures
        table_view(rs).contains_key(k),
        table_view(rs)[k] == rs[p].1,
    decreases rs.len(),
{
    if p < rs.len() - 1 {
        lemma_latest(rs.drop_last(), p, k);
    }
}

/// A key that no record has is not in the table.
proof fn lemma_absent(rs: Seq<RecView>, k: Seq<u8>)
    requires
        forall|i: int| 0 <= i < rs.len() ==> (#[trigger] rs[i]).0 != k,
    ensures
        !table_view(rs).contains_key(k),
    decreases rs.len(),
{
    if rs.len() > 0 {
        lemma_absent(rs.drop_last(), k);
    }
}

/// A key is in the table exactly where some record has it.
proof fn lemma_in_table(rs: Seq<RecView>, k: Seq<u8>)
    ensures
        table_view(rs).contains_key(k) <==> exists|i: int| 0 <= i < rs.len() && (#[trigger] rs[i]).0 == k,
    decreases rs.len(),
{
    if rs.len() > 0 {
        lemma_in_table(rs.drop_last(), k);
        if table_view(rs.drop_last()).contains_key(k) {
            let i = choose|i: int| 0 <= i < rs.drop_last().len() && (#[trigger] rs.drop_last()[i]).0 == k;
            assert(rs[i].0 == k);
        }
        if exists|i: int| 0 <= i < rs.len() && (#[trigger] rs[i]).0 == k {
            let i = choose|i: int| 0 <= i < rs.len() && (#[trigger] rs[i]).0 == k;
            if i < rs.len() - 1 {
                assert(rs.drop_last()[i].0 == k);
            }
        }
    }
}

/// A record of the table.
pub struct KeyValuePair {
    pub key: Vec<u8>,
    pub value: Option<Vec<u8>>,
    pub timestamp: u64,
}

impl KeyValuePair {
    pub open spec fn view(&self) -> RecView {
        (self.key@, opt_view(self.value), self.timestamp as nat)
    }
}

/// A record held in memory fits the layout: its lengths are `usize` values,
/// which Verus learns from reading them.
fn record_in_memory_fits(kv: &KeyValuePair)
    ensures
        record_fits(kv@),
{
    let key_len: usize = kv.key.len();
    if let Some(v) = &kv.value {
        let value_len: usize = v.len();
        assert(value_len == v@.len());
    }
    assert(key_len == kv.key@.len());
}

/// Relies on `bincode::serialize` (bincode 1, fixed-width integers): a
/// byte vector is its length as eight little-endian bytes and its bytes, an
/// option a tag byte 0 or 1 and the value, a `u64` eight little-endian
/// bytes. Serializing these types into a vector does not fail.
#[verifier::external_body]
fn encode_record(kv: &KeyValuePair) -> (r: Vec<u8>)
    ensures
        r@ == sst_record(kv@),
{
    bincode::serialize(&(&kv.key, &kv.value, kv.timestamp)).unwrap_or_default()
}

/// Relies on `bincode::deserialize` of `(Vec<u8>, Option<Vec<u8>>, u64)`
/// from the bytes at `pos`, with the layout of `encode_record`: it fails
/// where the bytes end early or a tag is neither 0 nor 1, and ignores what
/// follows the record. The size is `bincode::serialized_size` of the record.
#[verifier::external_body]
fn decode_record(data: &[u8], pos: usize) -> (r: Option<(KeyValuePair, usize)>)
    requires
        pos <= data@.len(),
    ensures
        match parse_sst_record(data@.subrange(pos as int, data@.len() as int)) {
            Some((rec, n)) => r matches Some((kv, size)) && kv@ == rec && size == n,
            None => r is None,
        },
{
    match bincode::deserialize::<(Vec<u8>, Option<Vec<u8>>, u64)>(&data[pos..]) {
        Ok((key, value, timestamp)) => {
            let size = bincode::serialized_size(&(&key, &value, timestamp)).unwrap_or_default();
            Some((KeyValuePair { key, value, timestamp }, size as usize))
        },
        Err(_) => None,
    }
}

/// Appends the bytes of `kv` to `out`.
fn push_record(out: &mut Vec<u8>, kv: &KeyValuePair)
    ensures
        final(out)@ == old(out)@ + sst_record(kv@),
{
    let bytes = encode_record(kv);
    out.extend_from_slice(bytes.as_slice());
}

/// Reads the record that starts at `pos`, and the position after it.
fn read_record(data: &[u8], pos: usize) -> (r: Option<(KeyValuePair, usize)>)
    requires
        pos <= data@.len(),
    ensures
        match parse_sst_record(data@.subrange(pos as int, data@.len() as int)) {
            Some((rec, n)) => r matches Some((kv, next)) && kv@ == rec && next == pos + n,
            None => r is None,
        },
{
    let len = data.len();
    match decode_record(data, pos) {
        None => None,
        Some((kv, size)) => {
            proof {
                lemma_parsed_within(data@.subrange(pos as int, data@.len() as int));
                assert(pos + size <= len);
            }
            Some((kv, pos + size))
        },
    }
}

/// A record read from `s` takes no more than `s`.
proof fn lemma_parsed_within(s: Seq<u8>)
    ensures
        parse_sst_record(s) matches Some((r, n)) ==> n <= s.len(),
{
}

/// A checkpoint of the sparse index: a record's key and where it starts.
pub struct IndexEntry {
    pub key: Vec<u8>,
    pub position: usize,
}

/// The keys of index entries, in order.
pub open spec fn index_keys(index: Seq<IndexEntry>) -> Seq<Seq<u8>> {
    index.map_values(|e: IndexEntry| e.key@)
}

/// The index entry to start a scan for `key` from: the last one whose key is
/// not above `key`, or `None` where `key` sorts before every entry.
pub fn locate(index: &[IndexEntry], key: &[u8]) -> (r: Option<usize>)
    requires
        crate::keys::strictly_ascending(index_keys(index@)),
    ensures
        r is None <==> (index@.len() == 0 || key_lt(key@, index@[0].key@)),
        r matches Some(t) ==> t < index@.len() && !key_lt(key@, index@[t as int].key@) && (t + 1
            == index@.len() || key_lt(key@, index@[t + 1].key@)),
{
    let mut lo: usize = 0;
    let mut hi: usize = index.len();
    while lo < hi
        invariant
            lo <= hi <= index@.len(),
            crate::keys::strictly_ascending(index_keys(index@)),
            forall|t: int| 0 <= t < lo ==> !key_lt(key@, (#[trigger] index@[t]).key@),
            forall|t: int| hi <= t < index@.len() ==> key_lt(key@, (#[trigger] index@[t]).key@),
        decreases hi - lo,
    {
        let mid = lo + (hi - lo) / 2;
        let c = compare_keys(index[mid].key.as_slice(), key);
        if c <= 0 {
            assert forall|t: int| 0 <= t < mid + 1 implies !key_lt(key@, (#[trigger] index@[t]).key@) by {
                if t < mid {
                    assert(index_keys(index@)[t] == index@[t].key@);
                    assert(index_keys(index@)[mid as int] == index@[mid as int].key@);
                    lemma_key_lt_total(key@, index@[t].key@);
                    lemma_key_lt_total(index@[mid as int].key@, key@);
                    if c < 0 {
                        lemma_key_lt_transitive(index@[t].key@, index@[mid as int].key@, key@);
                    }
                    lemma_key_lt_total(index@[t].key@, key@);
                } else {
                    lemma_key_lt_total(key@, index@[t].key@);
                    lemma_key_lt_irreflexive(key@);
                }
            }
            lo = mid + 1;
        } else {
            assert forall|t: int| mid <= t < index@.len() implies key_lt(key@, (#[trigger] index@[t]).key@) by {
                if t > mid {
                    assert(index_keys(index@)[t] == index@[t].key@);
                    assert(index_keys(index@)[mid as int] == index@[mid as int].key@);
                    lemma_key_lt_transitive(key@, index@[mid as int].key@, index@[t].key@);
                }
            }
            hi = mid;
        }
    }
    if lo == 0 {
        None
    } else {
        Some(lo - 1)
    }
}

/// Scans records from `m` up to `hi`, which hold ascending keys, for `key`.
/// Every record from `lo` to `m` is known to sort before `key`.
fn scan(
    data: &[u8],
    from: usize,
    end: usize,
    key: &[u8],
    Ghost(rs): Ghost<Seq<RecView>>,
    Ghost(lo): Ghost<int>,
    Ghost(m): Ghost<int>,
    Ghost(hi): Ghost<int>,
) -> (r: Option<Option<Vec<u8>>>)
    requires
        data@ == sst_records(rs),
        forall|i: int| 0 <= i < rs.len() ==> record_fits(#[trigger] rs[i]),
        0 <= lo <= m <= hi <= rs.len(),
        from == offset(rs, m),
        end == offset(rs, hi),
        forall|i: int, j: int| lo <= i < j < hi ==> key_lt((#[trigger] rs[i]).0, (#[trigger] rs[j]).0),
        forall|i: int| lo <= i < m ==> key_lt((#[trigger] rs[i]).0, key@),
    ensures
        r matches Some(v) ==> exists|p: int| lo <= p < hi && (#[trigger] rs[p]).0 == key@ && rs[p].1 == opt_view(v),
        r is None ==> forall|i: int| lo <= i < hi ==> (#[trigger] rs[i]).0 != key@,
{
    let mut pos = from;
    let ghost mut i: int = m;
    while pos < end
        invariant
            end == offset(rs, hi),
            data@ == sst_records(rs),
            forall|i: int| 0 <= i < rs.len() ==> record_fits(#[trigger] rs[i]),
            0 <= lo <= m <= i <= hi <= rs.len(),
            pos == offset(rs, i),
            forall|i: int, j: int| lo <= i < j < hi ==> key_lt((#[trigger] rs[i]).0, (#[trigger] rs[j]).0),
            forall|j: int| lo <= j < i ==> key_lt((#[trigger] rs[j]).0, key@),
        decreases hi - i,
    {
        proof {
            if i == hi {
                assert(pos == end);
            }
            lemma_record_at(rs, i);
            lemma_parse_sst_record(rs[i], sst_records(rs.subrange(i + 1, rs.len() as int)));
        }
        let (kv, next) = match read_record(data, pos) {
            Some(x) => x,
            None => {
                assert(false);
                return None;
            },
        };
        let c = compare_keys(kv.key.as_slice(), key);
        if c == 0 {
            return Some(kv.value);
        } else if c > 0 {
            assert forall|j: int| lo <= j < hi implies (#[trigger] rs[j]).0 != key@ by {
                if j > i {
                    lemma_key_lt_transitive(key@, rs[i].0, rs[j].0);
                    lemma_key_lt_irreflexive(key@);
                } else if j < i {
                    lemma_key_lt_irreflexive(key@);
                }
            }
            return None;
        }
        pos = next;
        proof {
            i = i + 1;
        }
    }
    proof {
        if i < hi {
            lemma_offset_mono(rs, i, hi);
        }
    }
    assert forall|j: int| lo <= j < hi implies (#[trigger] rs[j]).0 != key@ by {
        lemma_key_lt_irreflexive(key@);
    }
    None
}

proof fn lemma_offsets_push(rs0: Seq<RecView>, x: RecView)
    ensures
        forall|i: int| 0 <= i <= rs0.len() ==> #[trigger] offset(rs0.push(x), i) == offset(rs0, i),
{
    assert forall|i: int| 0 <= i <= rs0.len() implies #[trigger] offset(rs0.push(x), i) == offset(rs0, i) by {
        assert(rs0.push(x).subrange(0, i) =~= rs0.subrange(0, i));
    }
}

/// A run stays as it was when a record is appended after it.
proof fn lemma_segment_stays(sg: Segment, rs0: Seq<RecView>, x: RecView)
    requires
        sg.wf(rs0),
    ensures
        sg.wf(rs0.push(x)),
{
    let rs = rs0.push(x);
    lemma_offsets_push(rs0, x);
    assert forall|i: int, j: int|
        sg.first <= i < j < sg.first + sg.count implies key_lt((#[trigger] rs[i]).0, (#[trigger] rs[j]).0) by {
        assert(rs[i] == rs0[i] && rs[j] == rs0[j]);
    }
    assert forall|t: int|
        0 <= t < sg.marks@.len() implies sg.first <= #[trigger] sg.marks@[t] < sg.first + sg.count
            && sg.index@[t].key@ == rs[sg.marks@[t]].0 && sg.index@[t].position
            == offset(rs, sg.marks@[t]) by {
        assert(rs[sg.marks@[t]] == rs0[sg.marks@[t]]);
    }
    assert(rs[sg.first + sg.count - 1] == rs0[sg.first + sg.count - 1]);
}

/// Each record takes bytes.
proof fn lemma_records_len(rs: Seq<RecView>)
    ensures
        sst_records(rs).len() >= rs.len(),
    decreases rs.len(),
{
    if rs.len() > 0 {
        lemma_records_len(rs.drop_last());
    }
}

/// Later records start further on.
proof fn lemma_offset_mono(rs: Seq<RecView>, i: int, j: int)
    requires
        0 <= i < j <= rs.len(),
    ensures
        offset(rs, i) < offset(rs, j),
    decreases j - i,
{
    lemma_record_at(rs, i);
    if i + 1 < j {
        lemma_offset_mono(rs, i + 1, j);
    }
}

#[verifier::external_type_specification]
#[verifier::external_body]
#[verifier::reject_recursive_types(T)]
pub struct ExBloom<T: ?Sized>(Bloom<T>);

/// The keys that a bloom filter reports present: every key it was told of,
/// and any other key whose bits happen to be set.
pub uninterp spec fn bloom_keys(b: Bloom<Vec<u8>>) -> Set<Seq<u8>>;

/// Relies on `Bloom::new`: a filter of `bitmap_size` bytes for about
/// `items_count` keys, told of none yet. It panics on a zero size or count,
/// and where the size in bits overflows a `u64`.
#[verifier::external_body]
fn bloom_new(bitmap_size: usize, items_count: usize) -> (r: Bloom<Vec<u8>>)
    requires
        0 < bitmap_size < 0x2000_0000_0000_0000,
        0 < items_count,
    ensures
        bloom_keys(r) == Set::<Seq<u8>>::empty(),
{
    Bloom::new(bitmap_size, items_count)
}

/// Relies on `Bloom::set`: it only sets bits, so the key is reported
/// present afterwards and every key reported present before still is.
#[verifier::external_body]
fn bloom_set(b: &mut Bloom<Vec<u8>>, key: &Vec<u8>)
    ensures
        bloom_keys(*old(b)).insert(key@).subset_of(bloom_keys(*final(b))),
{
    b.set(key)
}

/// Relies on `Bloom::check`: whether all of the key's bits are set, that
/// is, whether the filter reports the key present.
#[verifier::external_body]
fn bloom_check(b: &Bloom<Vec<u8>>, key: &Vec<u8>) -> (r: bool)
    ensures
        r == bloom_keys(*b).contains(key@),
{
    b.check(key)
}

/// The number of records between two checkpoints of the sparse index.
pub const INDEX_INTERVAL: usize = 1000000;

/// The number of queued records that are written as one batch.
pub const WRITE_BATCH_SIZE: usize = 1000;

/// The number of keys that the bloom filter is sized for.
pub const BLOOM_FILTER_SIZE: usize = 1000000;

/// A run of consecutive records with strictly ascending keys, with its own
/// sparse index.
struct Segment {
    first: usize,
    count: usize,
    start: usize,
    end: usize,
    last_key: Vec<u8>,
    index: Vec<IndexEntry>,
    since_mark: usize,
    marks: Ghost<Seq<int>>,
}

impl Segment {
    spec fn wf(&self, rs: Seq<RecView>) -> bool {
        let hi = self.first + self.count;
        &&& self.count >= 1
        &&& hi <= rs.len()
        &&& self.start == offset(rs, self.first as int)
        &&& self.end == offset(rs, hi)
        &&& forall|i: int, j: int|
            self.first <= i < j < hi ==> key_lt((#[trigger] rs[i]).0, (#[trigger] rs[j]).0)
        &&& self.last_key@ == rs[hi - 1].0
        &&& self.index@.len() == self.marks@.len()
        &&& self.marks@.len() >= 1
        &&& self.marks@[0] == self.first
        &&& forall|t: int, u: int|
            0 <= t < u < self.marks@.len() ==> #[trigger] self.marks@[t] < #[trigger] self.marks@[u]
        &&& forall|t: int|
            0 <= t < self.marks@.len() ==> self.first <= #[trigger] self.marks@[t] < hi
                && self.index@[t].key@ == rs[self.marks@[t]].0 && self.index@[t].position
                == offset(rs, self.marks@[t])
        &&& 1 <= self.since_mark <= INDEX_INTERVAL
        &&& self.since_mark == hi - self.marks@.last()
    }
}

/// Runs that cover the records `rs`, one after the other.
spec fn segs_wf(segs: Seq<Segment>, rs: Seq<RecView>) -> bool {
    &&& (rs.len() == 0 <==> segs.len() == 0)
    &&& forall|j: int| 0 <= j < segs.len() ==> (#[trigger] segs[j]).wf(rs)
    &&& segs.len() > 0 ==> segs[0].first == 0
    &&& segs.len() > 0 ==> segs.last().first + segs.last().count == rs.len()
    &&& forall|j: int| 0 <= j < segs.len() - 1 ==>
        #[trigger] segs[j + 1].first == segs[j].first + segs[j].count
}

/// Record `i` starts a new ascending run: it is the first record, or its
/// key does not sort after the key before it.
pub open spec fn starts_run(rs: Seq<RecView>, i: int) -> bool {
    i == 0 || !key_lt(rs[i - 1].0, rs[i].0)
}

/// The number of records since the last checkpoint, the one at it included.
spec fn since(segs: Seq<Segment>) -> int {
    if segs.len() == 0 {
        0
    } else {
        segs.last().since_mark as int
    }
}

/// A checkpoint stands at record `i`.
spec fn marked(segs: Seq<Segment>, i: int) -> bool {
    exists|j: int, t: int|
        0 <= j < segs.len() && 0 <= t < segs[j].marks@.len() && #[trigger] segs[j].marks@[t] == i
}

/// Runs whose old checkpoints stay and whose new ones all stand at record
/// `n` have the same checkpoints as before at every other record.
proof fn lemma_marks_frame(old_segs: Seq<Segment>, new_segs: Seq<Segment>, n: int)
    requires
        old_segs.len() <= new_segs.len(),
        forall|j: int, t: int|
            0 <= j < old_segs.len() && 0 <= t < old_segs[j].marks@.len() ==> t < new_segs[j].marks@.len()
                && #[trigger] new_segs[j].marks@[t] == old_segs[j].marks@[t],
        forall|j: int, t: int|
            0 <= j < new_segs.len() && 0 <= t < new_segs[j].marks@.len() && (j >= old_segs.len() || t
                >= old_segs[j].marks@.len()) ==> #[trigger] new_segs[j].marks@[t] == n,
    ensures
        forall|i: int| i != n ==> #[trigger] marked(new_segs, i) == marked(old_segs, i),
{
    assert forall|i: int| i != n implies #[trigger] marked(new_segs, i) == marked(old_segs, i) by {
        if marked(old_segs, i) {
            let (j, t) = choose|j: int, t: int|
                0 <= j < old_segs.len() && 0 <= t < old_segs[j].marks@.len() && #[trigger] old_segs[j].marks@[t] == i;
            assert(new_segs[j].marks@[t] == i);
        }
        if marked(new_segs, i) {
            let (j, t) = choose|j: int, t: int|
                0 <= j < new_segs.len() && 0 <= t < new_segs[j].marks@.len() && #[trigger] new_segs[j].marks@[t] == i;
            assert(j < old_segs.len() && t < old_segs[j].marks@.len());
            assert(old_segs[j].marks@[t] == i);
        }
    }
}

/// Files record `n`, just appended at byte `pos` with its end at `end`,
/// into the runs: it extends the last run where its key sorts after that
/// run's last key, and starts a run of its own otherwise. A checkpoint goes
/// to it where it starts a run, where asked for, or where the interval
/// since the last one is full.
fn place(
    segments: &mut Vec<Segment>,
    kv: &KeyValuePair,
    pos: usize,
    end: usize,
    checkpoint: bool,
    Ghost(rs0): Ghost<Seq<RecView>>,
)
    requires
        segs_wf(old(segments)@, rs0),
        pos == sst_records(rs0).len(),
        end == sst_records(rs0.push(kv@)).len(),
    ensures
        segs_wf(final(segments)@, rs0.push(kv@)),
        marked(final(segments)@, rs0.len() as int) == (starts_run(rs0.push(kv@), rs0.len() as int) || checkpoint
            || since(old(segments)@) == INDEX_INTERVAL),
        forall|i: int| i != rs0.len() ==> #[trigger] marked(final(segments)@, i) == marked(old(segments)@, i),
        since(final(segments)@) == if marked(final(segments)@, rs0.len() as int) { 1 } else { since(old(segments)@) + 1 },
{
    let nseg = segments.len();
    if nseg > 0 && compare_keys(segments[nseg - 1].last_key.as_slice(), kv.key.as_slice()) < 0 {
        proof {
            assert(segments@[nseg - 1] == segments@.last());
        }
        place_extend(segments, kv, pos, end, checkpoint, Ghost(rs0));
    } else {
        proof {
            if nseg > 0 {
                assert(segments@[nseg - 1] == segments@.last());
            }
        }
        place_new(segments, kv, pos, end, checkpoint, Ghost(rs0));
    }
}

/// `place` where record `n` continues the last run.
#[verifier::rlimit(100)]
#[verifier::spinoff_prover]
fn place_extend(
    segments: &mut Vec<Segment>,
    kv: &KeyValuePair,
    pos: usize,
    end: usize,
    checkpoint: bool,
    Ghost(rs0): Ghost<Seq<RecView>>,
)
    requires
        segs_wf(old(segments)@, rs0),
        pos == sst_records(rs0).len(),
        end == sst_records(rs0.push(kv@)).len(),
        old(segments)@.len() > 0,
        key_lt(old(segments)@.last().last_key@, kv.key@),
    ensures
        segs_wf(final(segments)@, rs0.push(kv@)),
        marked(final(segments)@, rs0.len() as int) == (starts_run(rs0.push(kv@), rs0.len() as int) || checkpoint
            || since(old(segments)@) == INDEX_INTERVAL),
        forall|i: int| i != rs0.len() ==> #[trigger] marked(final(segments)@, i) == marked(old(segments)@, i),
        since(final(segments)@) == if marked(final(segments)@, rs0.len() as int) { 1 } else { since(old(segments)@) + 1 },
{
    let ghost rs = rs0.push(kv@);
    let ghost n = rs0.len() as int;
    proof {
        assert(rs.drop_last() =~= rs0);
        assert(rs0.subrange(0, n) =~= rs0);
        assert(rs.subrange(0, n + 1) =~= rs);
        lemma_offsets_push(rs0, kv@);
        lemma_records_len(rs);
    }
    let nseg = segments.len();
    let kcopy = copy_range(kv.key.as_slice(), 0, kv.key.len());
    assert(kcopy@ =~= kv.key@);
    let ghost old_segs = segments@;
    let extend = true;
    let mut seg = segments.pop().unwrap();
    assert(seg == old_segs[nseg - 1]);
    assert(seg.wf(rs0));
    let ghost hi0 = seg.first + seg.count;
    assert(hi0 == n);
    seg.count = seg.count + 1;
    seg.end = end;
    if seg.since_mark == INDEX_INTERVAL || checkpoint {
        let kc = copy_range(kv.key.as_slice(), 0, kv.key.len());
        seg.index.push(IndexEntry { key: kc, position: pos });
        let ghost new_marks = seg.marks@.push(n);
        seg.marks = Ghost(new_marks);
        seg.since_mark = 1;
    } else {
        seg.since_mark = seg.since_mark + 1;
    }
    seg.last_key = kcopy;
    proof {
        assert forall|i: int, j: int|
            seg.first <= i < j < n + 1 implies key_lt((#[trigger] rs[i]).0, (#[trigger] rs[j]).0) by {
            if j == n && i < n - 1 {
                assert(rs[i] == rs0[i]);
                assert(rs[n - 1] == rs0[n - 1]);
                lemma_key_lt_transitive(rs[i].0, rs[n - 1].0, rs[j].0);
            }
        }
        assert forall|t: int|
            0 <= t < seg.marks@.len() implies seg.first <= #[trigger] seg.marks@[t] < n + 1
                && seg.index@[t].key@ == rs[seg.marks@[t]].0 && seg.index@[t].position
                == offset(rs, seg.marks@[t]) by {
            if t < old_segs[nseg - 1].marks@.len() {
                assert(offset(rs, seg.marks@[t]) == offset(rs0, seg.marks@[t]));
            }
        }
        assert(offset(rs, seg.first as int) == offset(rs0, seg.first as int));
        assert(seg.wf(rs));
    }
    let ghost last_mark = (seg.marks@.len() - 1) as int;
    segments.push(seg);
    assert(segments@[nseg - 1].since_mark == 1 ==> segments@[nseg - 1].marks@[last_mark] == n);
    proof {
        assert forall|j: int| 0 <= j < segments@.len() implies (#[trigger] segments@[j]).wf(rs) by {
            if j < nseg && !(extend && j == nseg - 1) {
                assert(old_segs[j].wf(rs0));
                assert(segments@[j] == old_segs[j]);
                lemma_segment_stays(old_segs[j], rs0, kv@);
            }
        }
        if nseg > 0 {
            assert(old_segs[0].wf(rs0));
            assert(old_segs[nseg - 1].wf(rs0));
        }
        assert forall|j: int, t: int|
            0 <= j < old_segs.len() && 0 <= t < old_segs[j].marks@.len() implies t < segments@[j].marks@.len()
                && #[trigger] segments@[j].marks@[t] == old_segs[j].marks@[t] by {}
        lemma_marks_frame(old_segs, segments@, n);
        assert(!marked(old_segs, n)) by {
            if marked(old_segs, n) {
                let (j, t) = choose|j: int, t: int|
                    0 <= j < old_segs.len() && 0 <= t < old_segs[j].marks@.len() && #[trigger] old_segs[j].marks@[t] == n;
                lemma_segment_end(old_segs, rs0, j);
                assert(old_segs[j].wf(rs0));
            }
        }
        if marked(segments@, n) {
            let (j, t) = choose|j: int, t: int|
                0 <= j < segments@.len() && 0 <= t < segments@[j].marks@.len() && #[trigger] segments@[j].marks@[t] == n;
            assert(!(j < old_segs.len() && t < old_segs[j].marks@.len()));
        }
    }
}

/// `place` where record `n` starts a run of its own.
#[verifier::rlimit(100)]
#[verifier::spinoff_prover]
fn place_new(
    segments: &mut Vec<Segment>,
    kv: &KeyValuePair,
    pos: usize,
    end: usize,
    checkpoint: bool,
    Ghost(rs0): Ghost<Seq<RecView>>,
)
    requires
        segs_wf(old(segments)@, rs0),
        pos == sst_records(rs0).len(),
        end == sst_records(rs0.push(kv@)).len(),
        !(old(segments)@.len() > 0 && key_lt(old(segments)@.last().last_key@, kv.key@)),
    ensures
        segs_wf(final(segments)@, rs0.push(kv@)),
        marked(final(segments)@, rs0.len() as int) == (starts_run(rs0.push(kv@), rs0.len() as int) || checkpoint
            || since(old(segments)@) == INDEX_INTERVAL),
        forall|i: int| i != rs0.len() ==> #[trigger] marked(final(segments)@, i) == marked(old(segments)@, i),
        since(final(segments)@) == if marked(final(segments)@, rs0.len() as int) { 1 } else { since(old(segments)@) + 1 },
{
    let ghost rs = rs0.push(kv@);
    let ghost n = rs0.len() as int;
    proof {
        assert(rs.drop_last() =~= rs0);
        assert(rs0.subrange(0, n) =~= rs0);
        assert(rs.subrange(0, n + 1) =~= rs);
        lemma_offsets_push(rs0, kv@);
        lemma_records_len(rs);
    }
    let nseg = segments.len();
    let kcopy = copy_range(kv.key.as_slice(), 0, kv.key.len());
    assert(kcopy@ =~= kv.key@);
    let ghost old_segs = segments@;
    let extend = false;
    let kc = copy_range(kv.key.as_slice(), 0, kv.key.len());
    let first = if nseg == 0 {
        0
    } else {
        segments[nseg - 1].first + segments[nseg - 1].count
    };
    proof {
        if nseg > 0 {
            assert(old_segs[nseg - 1].wf(rs0));
        }
    }
    let ghost one_mark = seq![n];
    let mut idx: Vec<IndexEntry> = Vec::new();
    idx.push(IndexEntry { key: kc, position: pos });
    let seg = Segment {
        first,
        count: 1,
        start: pos,
        end,
        last_key: kcopy,
        index: idx,
        since_mark: 1,
        marks: Ghost(one_mark),
    };
    assert(seg.wf(rs));
    segments.push(seg);
    assert(segments@[nseg as int].marks@[0] == n);
    proof {
        assert forall|j: int| 0 <= j < segments@.len() implies (#[trigger] segments@[j]).wf(rs) by {
            if j < nseg && !(extend && j == nseg - 1) {
                assert(old_segs[j].wf(rs0));
                assert(segments@[j] == old_segs[j]);
                lemma_segment_stays(old_segs[j], rs0, kv@);
            }
        }
        if nseg > 0 {
            assert(old_segs[0].wf(rs0));
            assert(old_segs[nseg - 1].wf(rs0));
        }
        assert forall|j: int, t: int|
            0 <= j < old_segs.len() && 0 <= t < old_segs[j].marks@.len() implies t < segments@[j].marks@.len()
                && #[trigger] segments@[j].marks@[t] == old_segs[j].marks@[t] by {}
        lemma_marks_frame(old_segs, segments@, n);
        assert(!marked(old_segs, n)) by {
            if marked(old_segs, n) {
                let (j, t) = choose|j: int, t: int|
                    0 <= j < old_segs.len() && 0 <= t < old_segs[j].marks@.len() && #[trigger] old_segs[j].marks@[t] == n;
                lemma_segment_end(old_segs, rs0, j);
                assert(old_segs[j].wf(rs0));
            }
        }
        if marked(segments@, n) {
            let (j, t) = choose|j: int, t: int|
                0 <= j < segments@.len() && 0 <= t < segments@[j].marks@.len() && #[trigger] segments@[j].marks@[t] == n;
            assert(!(j < old_segs.len() && t < old_segs[j].marks@.len()));
        }
    }
}

/// Every run ends at or before the end of the records.
proof fn lemma_segment_end(segs: Seq<Segment>, rs: Seq<RecView>, j: int)
    requires
        segs_wf(segs, rs),
        0 <= j < segs.len(),
    ensures
        segs[j].first + segs[j].count <= rs.len(),
{
    assert(segs[j].wf(rs));
}

/// The sorted table: what is committed, and the records queued for the next
/// batch.
pub struct SST {
    data: Vec<u8>,
    bloom_filter: Bloom<Vec<u8>>,
    segments: Vec<Segment>,
    write_queue: Vec<KeyValuePair>,
    recs: Ghost<Seq<RecView>>,
}

impl SST {
    /// The committed records, oldest first.
    pub closed spec fn records(&self) -> Seq<RecView> {
        self.recs@
    }

    /// The committed bytes.
    pub closed spec fn bytes(&self) -> Seq<u8> {
        self.data@
    }

    /// The records queued and not yet committed, oldest first.
    pub closed spec fn queued(&self) -> Seq<RecView> {
        self.write_queue@.map_values(|kv: KeyValuePair| kv@)
    }

    /// What the committed records hold: each key to its latest value or
    /// deletion.
    pub open spec fn view(&self) -> Map<Seq<u8>, Option<Seq<u8>>> {
        table_view(self.records())
    }

    /// Whether record `i` starts a checkpoint of the sparse index.
    pub closed spec fn checkpoint_at(&self, i: int) -> bool {
        marked(self.segments@, i)
    }

    /// The number of records since the last checkpoint, that one included.
    closed spec fn since_checkpoint(&self) -> int {
        since(self.segments@)
    }

    /// The keys that the bloom filter reports present.
    pub closed spec fn filter_keys(&self) -> Set<Seq<u8>> {
        bloom_keys(self.bloom_filter)
    }

    closed spec fn committed_wf(&self) -> bool {
        let rs = self.recs@;
        &&& self.data@ == sst_records(rs)
        &&& forall|i: int| 0 <= i < rs.len() ==> record_fits(#[trigger] rs[i])
        &&& forall|i: int| 0 <= i < rs.len() ==> bloom_keys(self.bloom_filter).contains((#[trigger] rs[i]).0)
        &&& segs_wf(self.segments@, rs)
    }

    pub closed spec fn wf(&self) -> bool {
        &&& self.committed_wf()
        &&& self.write_queue@.len() < WRITE_BATCH_SIZE
        &&& forall|i: int| 0 <= i < self.write_queue@.len() ==> record_fits(#[trigger] self.write_queue@[i]@)
    }

    /// Where records `i` up to `hi` of a run hold ascending keys, so do the
    /// run's index entries.
    proof fn lemma_index_ascending(seg: &Segment, rs: Seq<RecView>)
        requires
            seg.wf(rs),
        ensures
            crate::keys::strictly_ascending(index_keys(seg.index@)),
    {
        assert forall|t: int, u: int|
            0 <= t < u < index_keys(seg.index@).len() implies key_lt(
            #[trigger] index_keys(seg.index@)[t],
            #[trigger] index_keys(seg.index@)[u],
        ) by {
            assert(seg.marks@[t] < seg.marks@[u]);
            assert(rs[seg.marks@[t]].0 == seg.index@[t].key@);
            assert(rs[seg.marks@[u]].0 == seg.index@[u].key@);
        }
    }

    /// The latest value or deletion of `key` among the committed records, or
    /// `None` where none has it. A key that the bloom filter rules out is
    /// answered without a scan.
    #[verifier::rlimit(80)]
    #[verifier::spinoff_prover]
    pub fn get(&self, key: &[u8]) -> (r: Option<Option<Vec<u8>>>)
        requires
            self.wf(),
        ensures
            r is Some <==> self.view().contains_key(key@),
            r matches Some(v) ==> opt_view(v) == self.view()[key@],
    {
        let ghost rs = self.recs@;
        let k = copy_range(key, 0, key.len());
        assert(k@ =~= key@);
        if !bloom_check(&self.bloom_filter, &k) {
            proof {
                lemma_in_table(rs, key@);
            }
            return None;
        }
        let data = self.data.as_slice();
        let mut j: usize = self.segments.len();
        while j > 0
            invariant
                self.wf(),
                rs == self.recs@,
                data@ == self.data@,
                j <= self.segments@.len(),
                forall|i: int|
                    (if j == self.segments@.len() { rs.len() as int } else { self.segments@[j as int].first as int }) <= i < rs.len()
                        ==> (#[trigger] rs[i]).0 != key@,
            decreases j,
        {
            j = j - 1;
            let seg = &self.segments[j];
            assert(seg.wf(rs));
            let ghost lo = seg.first as int;
            let ghost hi = seg.first + seg.count;
            assert(hi == (if j + 1 == self.segments@.len() { rs.len() as int } else { self.segments@[j + 1].first as int }));
            proof {
                Self::lemma_index_ascending(seg, rs);
            }
            match locate(seg.index.as_slice(), key) {
                None => {
                    assert forall|i: int| lo <= i < hi implies (#[trigger] rs[i]).0 != key@ by {
                        assert(rs[seg.marks@[0]].0 == seg.index@[0].key@);
                        if i > lo {
                            lemma_key_lt_transitive(key@, rs[lo].0, rs[i].0);
                        }
                        lemma_key_lt_irreflexive(key@);
                    }
                },
                Some(t) => {
                    let ghost m = seg.marks@[t as int];
                    assert(rs[m].0 == seg.index@[t as int].key@);
                    assert forall|i: int| lo <= i < m implies key_lt((#[trigger] rs[i]).0, key@) by {
                        lemma_key_lt_total(key@, rs[m].0);
                        if rs[m].0 != key@ {
                            lemma_key_lt_transitive(rs[i].0, rs[m].0, key@);
                        }
                    }
                    match scan(data, seg.index[t].position, seg.end, key, Ghost(rs), Ghost(lo), Ghost(m), Ghost(hi)) {
                        Some(v) => {
                            proof {
                                let p = choose|p: int| lo <= p < hi && (#[trigger] rs[p]).0 == key@ && rs[p].1 == opt_view(v);
                                assert forall|i: int| p < i < rs.len() implies (#[trigger] rs[i]).0 != key@ by {
                                    if i < hi {
                                        lemma_key_lt_irreflexive(key@);
                                    }
                                }
                                lemma_latest(rs, p, key@);
                            }
                            return Some(v);
                        },
                        None => {},
                    }
                },
            }
        }
        proof {
            if self.segments@.len() > 0 {
                assert(self.segments@[0].wf(rs));
            }
            lemma_absent(rs, key@);
        }
        None
    }

    /// Appends one record at the end of what is committed, and to `out`.
    #[verifier::rlimit(100)]
    #[verifier::spinoff_prover]
    fn append(&mut self, kv: &KeyValuePair, out: &mut Vec<u8>, checkpoint: bool)
        requires
            old(self).committed_wf(),
            record_fits(kv@),
        ensures
            final(self).committed_wf(),
            final(self).recs@ == old(self).recs@.push(kv@),
            final(self).data@ == old(self).data@ + sst_record(kv@),
            final(self).write_queue@ == old(self).write_queue@,
            final(out)@ == old(out)@ + sst_record(kv@),
            bloom_keys(old(self).bloom_filter).insert(kv@.0).subset_of(bloom_keys(final(self).bloom_filter)),
            final(self).checkpoint_at(old(self).recs@.len() as int) == (starts_run(final(self).recs@, old(self).recs@.len() as int)
                || checkpoint || old(self).since_checkpoint() == INDEX_INTERVAL),
            forall|i: int| i != old(self).recs@.len() ==> #[trigger] final(self).checkpoint_at(i) == old(self).checkpoint_at(i),
            final(self).since_checkpoint() == if final(self).checkpoint_at(old(self).recs@.len() as int) { 1 } else {
                old(self).since_checkpoint() + 1 },
    {
        let ghost rs0 = self.recs@;
        let ghost rs = rs0.push(kv@);
        let ghost n = rs0.len() as int;
        let pos = self.data.len();
        push_record(&mut self.data, kv);
        push_record(out, kv);
        bloom_set(&mut self.bloom_filter, &kv.key);
        self.recs = Ghost(rs);
        proof {
            assert(rs.drop_last() =~= rs0);
        }
        let end = self.data.len();
        place(&mut self.segments, kv, pos, end, checkpoint, Ghost(rs0));
        proof {
            assert forall|i: int| 0 <= i < rs.len() implies bloom_keys(self.bloom_filter).contains((#[trigger] rs[i]).0) by {
                if i < n {
                    assert(rs[i] == rs0[i]);
                }
            }
            assert forall|i: int| 0 <= i < rs.len() implies record_fits(#[trigger] rs[i]) by {
                if i < n {
                    assert(rs[i] == rs0[i]);
                }
            }
        }
    }

    /// Commits every queued record, in order, as one batch appended at the
    /// end of what is committed. Returns the bytes appended.
    #[verifier::rlimit(80)]
    #[verifier::spinoff_prover]
    fn write_batch(&mut self) -> (r: Vec<u8>)
        requires
            old(self).committed_wf(),
            old(self).write_queue@.len() <= WRITE_BATCH_SIZE,
            forall|i: int| 0 <= i < old(self).write_queue@.len() ==> record_fits(#[trigger] old(self).write_queue@[i]@),
        ensures
            final(self).wf(),
            final(self).records() == old(self).records() + old(self).queued(),
            final(self).queued().len() == 0,
            final(self).bytes() == old(self).bytes() + r@,
            old(self).filter_keys().subset_of(final(self).filter_keys()),
            forall|i: int|
                old(self).recs@.len() <= i < final(self).recs@.len() ==> (#[trigger] final(self).checkpoint_at(i)
                    <==> (i == old(self).recs@.len() || starts_run(final(self).recs@, i))),
            forall|i: int| 0 <= i < old(self).recs@.len() ==> #[trigger] final(self).checkpoint_at(i) == old(self).checkpoint_at(i),
    {
        let mut q: Vec<KeyValuePair> = Vec::new();
        std::mem::swap(&mut q, &mut self.write_queue);
        let ghost rs0 = self.recs@;
        let ghost qv = q@.map_values(|kv: KeyValuePair| kv@);
        let ghost data0 = self.data@;
        let ghost keys0 = bloom_keys(self.bloom_filter);
        let mut out: Vec<u8> = Vec::new();
        let mut i: usize = 0;
        while i < q.len()
            invariant
                self.committed_wf(),
                self.write_queue@.len() == 0,
                qv == q@.map_values(|kv: KeyValuePair| kv@),
                forall|i: int| 0 <= i < q@.len() ==> record_fits(#[trigger] q@[i]@),
                i <= q@.len(),
                self.recs@ == rs0 + qv.subrange(0, i as int),
                self.data@ == data0 + out@,
                keys0.subset_of(bloom_keys(self.bloom_filter)),
                q@.len() <= WRITE_BATCH_SIZE,
                0 < i ==> 1 <= self.since_checkpoint() <= i,
                forall|j: int|
                    rs0.len() <= j < self.recs@.len() ==> (#[trigger] self.checkpoint_at(j) <==> (j == rs0.len()
                        || starts_run(self.recs@, j))),
                forall|j: int| 0 <= j < rs0.len() ==> #[trigger] self.checkpoint_at(j) == old(self).checkpoint_at(j),
            decreases q@.len() - i,
        {
            let ghost before = self.recs@;
            self.append(&q[i], &mut out, i == 0);
            assert forall|j: int| 0 <= j < before.len() implies #[trigger] starts_run(self.recs@, j) == starts_run(before, j) by {
                if j > 0 {
                    assert(self.recs@[j] == before[j] && self.recs@[j - 1] == before[j - 1]);
                }
            }
            assert(qv.subrange(0, i + 1) =~= qv.subrange(0, i as int).push(q@[i as int]@));
            assert(rs0 + qv.subrange(0, i + 1) =~= (rs0 + qv.subrange(0, i as int)).push(q@[i as int]@));
            i = i + 1;
        }
        assert(qv.subrange(0, i as int) =~= qv);
        assert(self.queued() =~= Seq::<RecView>::empty());
        out
    }

    /// An empty table whose bloom filter has `bitmap_size` bytes, loaded
    /// with the records that `existing` holds from its start, up to its end
    /// or up to bytes that hold no whole record.
    #[verifier::rlimit(80)]
    #[verifier::spinoff_prover]
    pub fn new(existing: &[u8], bitmap_size: usize) -> (r: SST)
        requires
            0 < bitmap_size < 0x2000_0000_0000_0000,
        ensures
            r.wf(),
            r.records() == parse_sst(existing@),
            r.queued().len() == 0,
    {
        let mut sst = SST {
            data: Vec::new(),
            bloom_filter: bloom_new(bitmap_size, BLOOM_FILTER_SIZE),
            segments: Vec::new(),
            write_queue: Vec::new(),
            recs: Ghost(Seq::empty()),
        };
        let mut out: Vec<u8> = Vec::new();
        let mut pos: usize = 0;
        assert(existing@.subrange(0, existing@.len() as int) =~= existing@);
        assert(sst.recs@ + parse_sst(existing@) =~= parse_sst(existing@));
        while pos < existing.len()
            invariant
                sst.committed_wf(),
                sst.write_queue@.len() == 0,
                pos <= existing@.len(),
                sst.recs@ + parse_sst(existing@.subrange(pos as int, existing@.len() as int)) == parse_sst(existing@),
            decreases existing@.len() - pos,
        {
            let ghost s = existing@.subrange(pos as int, existing@.len() as int);
            match read_record(existing, pos) {
                None => {
                    assert(parse_sst(s) =~= Seq::<RecView>::empty());
                    assert(sst.recs@ =~= parse_sst(existing@));
                    return sst;
                },
                Some((kv, next)) => {
                    let ghost before = sst.recs@;
                    assert(s.subrange(next - pos, s.len() as int) =~= existing@.subrange(next as int, existing@.len() as int));
                    record_in_memory_fits(&kv);
                    sst.append(&kv, &mut out, false);
                    assert(sst.recs@ + parse_sst(existing@.subrange(next as int, existing@.len() as int))
                        =~= before + parse_sst(s));
                    pos = next;
                },
            }
        }
        assert(existing@.subrange(pos as int, existing@.len() as int) =~= Seq::<u8>::empty());
        assert(parse_sst(Seq::<u8>::empty()) =~= Seq::<RecView>::empty());
        assert(sst.recs@ =~= parse_sst(existing@));
        sst
    }

    /// Queues a record of `key` and `value` (`None` for a deletion) made at
    /// `timestamp`. When the queue reaches a full batch, the batch is
    /// committed and its bytes returned; otherwise nothing is appended.
    pub fn set(&mut self, key: &[u8], value: Option<Vec<u8>>, timestamp: u64) -> (r: Vec<u8>)
        requires
            old(self).wf(),
        ensures
            final(self).wf(),
            final(self).records() + final(self).queued() == old(self).records() + old(self).queued().push(
                (key@, opt_view(value), timestamp as nat),
            ),
            final(self).bytes() == old(self).bytes() + r@,
            old(self).queued().len() + 1 == WRITE_BATCH_SIZE ==> final(self).queued().len() == 0
                && final(self).checkpoint_at(old(self).records().len() as int),
            old(self).queued().len() + 1 < WRITE_BATCH_SIZE ==> final(self).records() == old(self).records() && r@.len() == 0,
    {
        let k = copy_range(key, 0, key.len());
        assert(k@ =~= key@);
        let kv = KeyValuePair { key: k, value, timestamp };
        record_in_memory_fits(&kv);
        let ghost q0 = self.write_queue@;
        let ghost r0 = self.records();
        assert((r0 + q0.map_values(|kv: KeyValuePair| kv@)).push(kv@) =~= r0 + q0.map_values(
            |kv: KeyValuePair| kv@,
        ).push(kv@));
        self.write_queue.push(kv);
        assert(self.queued() =~= q0.map_values(|kv: KeyValuePair| kv@).push(kv@));
        if self.write_queue.len() >= WRITE_BATCH_SIZE {
            let r = self.write_batch();
            assert(self.records() + self.queued() =~= self.records());
            r
        } else {
            assert(self.bytes() =~= self.bytes() + Seq::<u8>::empty());
            let r: Vec<u8> = Vec::new();
            assert(r@.len() == 0);
            r
        }
    }

    /// Commits every queued record now, as one batch. Returns the bytes
    /// appended. The batch's first record gets a checkpoint, and so does each
    /// record whose key does not sort after the one before it; no other does.
    pub fn flush(&mut self) -> (r: Vec<u8>)
        requires
            old(self).wf(),
        ensures
            final(self).wf(),
            final(self).records() == old(self).records() + old(self).queued(),
            final(self).queued().len() == 0,
            final(self).bytes() == old(self).bytes() + r@,
            forall|i: int|
                old(self).records().len() <= i < final(self).records().len() ==> (#[trigger] final(self).checkpoint_at(i)
                    <==> (i == old(self).records().len() || starts_run(final(self).records(), i))),
            forall|i: int| 0 <= i < old(self).records().len() ==> #[trigger] final(self).checkpoint_at(i) == old(self).checkpoint_at(i),
    {
        self.write_batch()
    }

    /// The committed bytes, as they stand in the table's file.
    pub fn committed(&self) -> (r: &Vec<u8>)
        ensures
            r@ == self.bytes(),
    {
        &self.data
    }

    /// A checkpoint at record `i` is an index entry holding that record's
    /// key and the position where the record starts.
    pub proof fn lemma_checkpoint_meaning(&self, i: int)
        requires
            self.wf(),
            self.checkpoint_at(i),
        ensures
            0 <= i < self.records().len(),
            exists|e: IndexEntry|
                e.key@ == self.records()[i].0 && e.position == offset(self.records(), i)
                    && #[trigger] self.index_holds(e),
    {
        let (j, t) = choose|j: int, t: int|
            0 <= j < self.segments@.len() && 0 <= t < self.segments@[j].marks@.len()
                && #[trigger] self.segments@[j].marks@[t] == i;
        assert(self.segments@[j].wf(self.recs@));
        let e = self.segments@[j].index@[t];
        assert(self.index_holds(e));
    }

    /// Whether `e` is an entry of the sparse index.
    pub closed spec fn index_holds(&self, e: IndexEntry) -> bool {
        exists|j: int, t: int|
            0 <= j < self.segments@.len() && 0 <= t < self.segments@[j].index@.len()
                && #[trigger] self.segments@[j].index@[t] == e
    }

    /// The committed bytes are the committed records, one after the other.
    pub proof fn lemma_bytes_are_records(&self)
        requires
            self.wf(),
        ensures
            self.bytes() == sst_records(self.records()),
    {
    }

    /// Every key written to the table is one that the filter was told of:
    /// the filter never reports a written key absent.
    pub proof fn lemma_filter_covers(&self, k: Seq<u8>)
        requires
            self.wf(),
            self.view().contains_key(k),
        ensures
            self.filter_keys().contains(k),
    {
        lemma_in_table(self.recs@, k);
    }
}

} // verus!
