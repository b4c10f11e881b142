//! The write-ahead log: an append-only byte image of every mutation, in the
//! order applied, and its replay.
//!
//! A record is the key's length as eight little-endian bytes, the key, then
//! either the value's length and the value, or, for a deletion, the length
//! word `u64::MAX` alone. No value is that long, so a deletion can never be
//! mistaken for a value.
use crate::codec::{
    encode_u64, field, le_bytes, le_value, lemma_le_bytes_len, lemma_le_round_trip, lemma_parse_field,
    lemma_pow256_8, parse_field, push_field, read_field, decode_u64,
};
use vstd::prelude::*;

verus! {

/// The length word that marks a deletion in place of a value.
pub const TOMBSTONE_LEN: u64 = 0xffff_ffff_ffff_ffff;

/// `Some` bytes of a value, or `None` for a deletion.
pub open spec fn opt_view(v: Option<Vec<u8>>) -> Option<Seq<u8>> {
    match v {
        Some(b) => Some(b@),
        None => None,
    }
}

/// A mutation: a key and its new value, `None` where the key is deleted.
pub struct WALEntry {
    pub key: Vec<u8>,
    pub value: Option<Vec<u8>>,
}

impl WALEntry {
    pub open spec fn view(&self) -> (Seq<u8>, Option<Seq<u8>>) {
        (self.key@, opt_view(self.value))
    }

    /// Whether every length fits the record layout.
    pub open spec fn fits(&self) -> bool {
        &&& self.key@.len() < TOMBSTONE_LEN
        &&& (self.value matches Some(v) ==> v@.len() < TOMBSTONE_LEN)
    }
}

/// The bytes of one log record.
pub open spec fn wal_record(key: Seq<u8>, value: Option<Seq<u8>>) -> Seq<u8> {
    field(key) + match value {
        Some(v) => field(v),
        None => le_bytes(TOMBSTONE_LEN as nat, 8),
    }
}

/// The bytes of a run of log records, one after the other.
pub open spec fn wal_records(recs: Seq<(Seq<u8>, Option<Seq<u8>>)>) -> Seq<u8>
    decreases recs.len(),
{
    if recs.len() == 0 {
        Seq::empty()
    } else {
        wal_record(recs[0].0, recs[0].1) + wal_records(recs.drop_first())
    }
}

/// Reads the log record at the start of `s`: key, value and length in bytes,
/// or `None` where `s` ends before the record does.
pub open spec fn parse_wal_record(s: Seq<u8>) -> Option<(Seq<u8>, Option<Seq<u8>>, nat)> {
    match parse_field(s) {
        None => None,
        Some((k, n1)) => {
            let t = s.subrange(n1 as int, s.len() as int);
            if t.len() < 8 {
                None
            } else if le_value(t.subrange(0, 8)) == TOMBSTONE_LEN {
                Some((k, None, n1 + 8))
            } else {
                match parse_field(t) {
                    None => None,
                    Some((v, n2)) => Some((k, Some(v), n1 + n2)),
                }
            }
        },
    }
}

/// Every record of a log image, from the start up to its end or up to the
/// first record that it holds only in part.
pub open spec fn parse_wal(s: Seq<u8>) -> Seq<(Seq<u8>, Option<Seq<u8>>)>
    decreases s.len(),
{
    match parse_wal_record(s) {
        None => Seq::empty(),
        Some((k, v, n)) => if 0 < n <= s.len() {
            seq![(k, v)] + parse_wal(s.subrange(n as int, s.len() as int))
        } else {
            Seq::empty()
        },
    }
}

/// A record placed at the start of a byte string is read back whole.
pub proof fn lemma_parse_wal_record(key: Seq<u8>, value: Option<Seq<u8>>, rest: Seq<u8>)
    requires
        key.len() < TOMBSTONE_LEN,
        value matches Some(v) ==> v.len() < TOMBSTONE_LEN,
    ensures
        parse_wal_record(wal_record(key, value) + rest) == Some(
            (key, value, wal_record(key, value).len()),
        ),
        wal_record(key, value).len() >= 8,
{
    let tail = match value {
        Some(v) => field(v),
        None => le_bytes(TOMBSTONE_LEN as nat, 8),
    };
    let s = wal_record(key, value) + rest;
    assert(s =~= field(key) + (tail + rest));
    lemma_parse_field(key, tail + rest);
    let t = s.subrange(8 + key.len() as int, s.len() as int);
    assert(t =~= tail + rest);
    match value {
        Some(v) => {
            lemma_parse_field(v, rest);
            lemma_le_bytes_len(v.len(), 8);
            assert(t.subrange(0, 8) =~= le_bytes(v.len(), 8));
            lemma_pow256_8();
            lemma_le_round_trip(v.len(), 8);
        },
        None => {
            lemma_le_bytes_len(TOMBSTONE_LEN as nat, 8);
            assert(t.subrange(0, 8) =~= le_bytes(TOMBSTONE_LEN as nat, 8));
            lemma_pow256_8();
            lemma_le_round_trip(TOMBSTONE_LEN as nat, 8);
        },
    }
}

/// Replaying a log gives back every record written to it, also when the
/// process stopped while writing one more record: the part of that record on
/// disk is no record and ends the replay.
pub proof fn lemma_replay_recovers(
    recs: Seq<(Seq<u8>, Option<Seq<u8>>)>,
    torn: Seq<u8>,
)
    requires
        forall|i: int|
            0 <= i < recs.len() ==> {
                &&& (#[trigger] recs[i]).0.len() < TOMBSTONE_LEN
                &&& (recs[i].1 matches Some(v) ==> v.len() < TOMBSTONE_LEN)
            },
        parse_wal_record(torn) is None,
    ensures
        parse_wal(wal_records(recs) + torn) == recs,
    decreases recs.len(),
{
    if recs.len() == 0 {
        assert(wal_records(recs) + torn =~= torn);
    } else {
        let r = wal_record(recs[0].0, recs[0].1);
        let more = wal_records(recs.drop_first()) + torn;
        assert(wal_records(recs) + torn =~= r + more);
        lemma_parse_wal_record(recs[0].0, recs[0].1, more);
        assert((r + more).subrange(r.len() as int, (r + more).len() as int) =~= more);
        lemma_replay_recovers(recs.drop_first(), torn);
        assert(recs =~= seq![recs[0]] + recs.drop_first());
    }
}

/// The log. It keeps no bytes: callers append each record to the log's file
/// and replay the file's bytes at open. What the file holds is its image.
pub struct WAL {
    image: Ghost<Seq<u8>>,
}

impl WAL {
    pub closed spec fn view(&self) -> Seq<u8> {
        self.image@
    }

    /// The log whose file holds `existing`.
    pub fn new(existing: &[u8]) -> (r: WAL)
        ensures
            r@ == existing@,
    {
        WAL { image: Ghost(existing@) }
    }

    /// Appends `entry`: returns the bytes to append to the file.
    pub fn write(&mut self, entry: &WALEntry) -> (r: Vec<u8>)
        requires
            entry.fits(),
        ensures
            r@ == wal_record(entry.key@, opt_view(entry.value)),
            final(self)@ == old(self)@ + r@,
    {
        let out = Self::encode(entry);
        self.image = Ghost(self.image@ + out@);
        out
    }

    /// The bytes of the log record of `entry`, to be made durable before
    /// the mutation is applied.
    pub fn encode(entry: &WALEntry) -> (r: Vec<u8>)
        requires
            entry.fits(),
        ensures
            r@ == wal_record(entry.key@, opt_view(entry.value)),
    {
        let mut out: Vec<u8> = Vec::new();
        push_field(&mut out, entry.key.as_slice());
        match &entry.value {
            Some(v) => push_field(&mut out, v.as_slice()),
            None => {
                let marker = encode_u64(TOMBSTONE_LEN);
                out.extend_from_slice(marker.as_slice());
            },
        }
        assert(out@ =~= wal_record(entry.key@, opt_view(entry.value)));
        out
    }

    /// The whole records of the log image `data`, without the part of a
    /// record that a crash may have left after them: what the log's file
    /// should hold before more records are appended.
    pub fn valid_records(data: &[u8]) -> (r: Vec<u8>)
        ensures
            r@ == wal_records(parse_wal(data@)),
    {
        let entries = Self::read_entries(data);
        let ghost recs = entries@.map_values(|e: WALEntry| e@);
        let mut out: Vec<u8> = Vec::new();
        let mut i: usize = 0;
        assert(recs.subrange(0, 0) =~= Seq::<(Seq<u8>, Option<Seq<u8>>)>::empty());
        while i < entries.len()
            invariant
                recs == entries@.map_values(|e: WALEntry| e@),
                forall|j: int| 0 <= j < entries@.len() ==> (#[trigger] entries@[j]).fits(),
                i <= entries@.len(),
                out@ == wal_records(recs.subrange(0, i as int)),
            decreases entries@.len() - i,
        {
            let b = Self::encode(&entries[i]);
            proof {
                lemma_wal_records_push(recs.subrange(0, i as int), recs[i as int]);
                assert(recs.subrange(0, i + 1) =~= recs.subrange(0, i as int).push(recs[i as int]));
            }
            out.extend_from_slice(b.as_slice());
            i = i + 1;
        }
        assert(recs.subrange(0, i as int) =~= recs);
        out
    }

    /// Every record of the log image `data` from its start, up to its end or
    /// to a record that it holds only in part.
    pub fn read_entries(data: &[u8]) -> (r: Vec<WALEntry>)
        ensures
            r@.map_values(|e: WALEntry| e@) == parse_wal(data@),
            forall|i: int| 0 <= i < r@.len() ==> (#[trigger] r@[i]).fits(),
    {
        let mut out: Vec<WALEntry> = Vec::new();
        let mut pos: usize = 0;
        assert(data@.subrange(0, data@.len() as int) =~= data@);
        assert(out@.map_values(|e: WALEntry| e@) + parse_wal(data@) =~= parse_wal(data@));
        while pos < data.len()
            invariant
                pos <= data@.len(),
                forall|i: int| 0 <= i < out@.len() ==> (#[trigger] out@[i]).fits(),
                out@.map_values(|e: WALEntry| e@) + parse_wal(
                    data@.subrange(pos as int, data@.len() as int),
                ) == parse_wal(data@),
            decreases data@.len() - pos,
        {
            let ghost s = data@.subrange(pos as int, data@.len() as int);
            match read_record(data, pos) {
                None => {
                    assert(parse_wal(s) =~= Seq::<(Seq<u8>, Option<Seq<u8>>)>::empty());
                    assert(out@.map_values(|e: WALEntry| e@) =~= parse_wal(data@));
                    return out;
                },
                Some((entry, next)) => {
                    let ghost before = out@;
                    assert(s.subrange(next - pos, s.len() as int) =~= data@.subrange(
                        next as int,
                        data@.len() as int,
                    ));
                    out.push(entry);
                    assert(out@.map_values(|e: WALEntry| e@) =~= before.map_values(
                        |e: WALEntry| e@,
                    ).push(entry@));
                    assert(out@.map_values(|e: WALEntry| e@) + parse_wal(
                        data@.subrange(next as int, data@.len() as int),
                    ) =~= before.map_values(|e: WALEntry| e@) + parse_wal(s));
                    pos = next;
                },
            }
        }
        assert(data@.subrange(pos as int, data@.len() as int) =~= Seq::<u8>::empty());
        assert(parse_wal(Seq::<u8>::empty()) =~= Seq::<(Seq<u8>, Option<Seq<u8>>)>::empty());
        assert(out@.map_values(|e: WALEntry| e@) =~= parse_wal(data@));
        out
    }
}

/// Reads the log record that starts at `pos`.
fn read_record(data: &[u8], pos: usize) -> (r: Option<(WALEntry, usize)>)
    requires
        pos <= data@.len(),
    ensures
        match parse_wal_record(data@.subrange(pos as int, data@.len() as int)) {
            Some((k, v, n)) => r matches Some((e, next)) && e@ == (k, v) && next == pos + n && e.fits(),
            None => r is None,
        },
{
    let len = data.len();
    let ghost s = data@.subrange(pos as int, data@.len() as int);
    let (key, key_end) = match read_field(data, pos) {
        None => return None,
        Some(x) => x,
    };
    let ghost t = s.subrange((key_end - pos) as int, s.len() as int);
    assert(t =~= data@.subrange(key_end as int, data@.len() as int));
    if data.len() - key_end < 8 {
        return None;
    }
    let n = decode_u64(data, key_end);
    assert(t.subrange(0, 8) =~= data@.subrange(key_end as int, key_end + 8));
    if n == TOMBSTONE_LEN {
        return Some((WALEntry { key, value: None }, key_end + 8));
    }
    match read_field(data, key_end) {
        None => None,
        Some((v, value_end)) => {
            assert(data@.subrange(key_end as int, data@.len() as int).subrange(0, 8)
                =~= data@.subrange(key_end as int, key_end + 8));
            assert(v@.len() == n);
            Some((WALEntry { key, value: Some(v) }, value_end))
        },
    }
}

/// The bytes of a run of records with one more record after them.
proof fn lemma_wal_records_push(recs: Seq<(Seq<u8>, Option<Seq<u8>>)>, x: (Seq<u8>, Option<Seq<u8>>))
    ensures
        wal_records(recs.push(x)) == wal_records(recs) + wal_record(x.0, x.1),
    decreases recs.len(),
{
    if recs.len() == 0 {
        assert(recs.push(x).drop_first() =~= Seq::<(Seq<u8>, Option<Seq<u8>>)>::empty());
        assert(recs.push(x)[0] == x);
        assert(wal_records(Seq::<(Seq<u8>, Option<Seq<u8>>)>::empty()) =~= Seq::<u8>::empty());
        assert(wal_records(recs) =~= Seq::<u8>::empty());
        assert(wal_records(recs.push(x)) =~= wal_records(recs) + wal_record(x.0, x.1));
    } else {
        assert(recs.push(x).drop_first() =~= recs.drop_first().push(x));
        assert(recs.push(x)[0] == recs[0]);
        lemma_wal_records_push(recs.drop_first(), x);
        assert(wal_records(recs.push(x)) =~= wal_records(recs) + wal_record(x.0, x.1));
    }
}

} // verus!
