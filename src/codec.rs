//! Little-endian integers and length-prefixed byte fields: the framing shared
//! by the write-ahead log and the sorted table.
use vstd::prelude::*;

verus! {

/// 256 to the power `k`.
pub open spec fn pow256(k: nat) -> nat
    decreases k,
{
    if k == 0 {
        1
    } else {
        256 * pow256((k - 1) as nat)
    }
}

/// The number that the bytes `s` spell, least significant byte first.
pub open spec fn le_value(s: Seq<u8>) -> nat
    decreases s.len(),
{
    if s.len() == 0 {
        0
    } else {
        s[0] as nat + 256 * le_value(s.drop_first())
    }
}

/// The `k` low bytes of `n`, least significant first.
pub open spec fn le_bytes(n: nat, k: nat) -> Seq<u8>
    decreases k,
{
    if k == 0 {
        Seq::empty()
    } else {
        seq![(n % 256) as u8] + le_bytes(n / 256, (k - 1) as nat)
    }
}

/// A byte string preceded by its length as eight little-endian bytes.
pub open spec fn field(b: Seq<u8>) -> Seq<u8> {
    le_bytes(b.len(), 8) + b
}

/// Reads a length-prefixed field at the start of `s`: the field's bytes and
/// how many bytes of `s` it takes, or `None` when `s` is too short for it.
pub open spec fn parse_field(s: Seq<u8>) -> Option<(Seq<u8>, nat)> {
    if s.len() < 8 {
        None
    } else {
        let n = le_value(s.subrange(0, 8));
        if 8 + n <= s.len() {
            Some((s.subrange(8, 8 + n as int), 8 + n))
        } else {
            None
        }
    }
}

pub proof fn lemma_pow256_8()
    ensures
        pow256(8) == 0x1_0000_0000_0000_0000,
{
    reveal_with_fuel(pow256, 9);
}

pub proof fn lemma_le_bytes_len(n: nat, k: nat)
    ensures
        le_bytes(n, k).len() == k,
    decreases k,
{
    if k > 0 {
        lemma_le_bytes_len(n / 256, (k - 1) as nat);
    }
}

pub proof fn lemma_le_value_bound(s: Seq<u8>)
    ensures
        le_value(s) < pow256(s.len()),
    decreases s.len(),
{
    if s.len() > 0 {
        lemma_le_value_bound(s.drop_first());
        let a = s[0] as nat;
        let b = le_value(s.drop_first());
        let p = pow256((s.len() - 1) as nat);
        assert(a + 256 * b < 256 * p) by (nonlinear_arith)
            requires
                a < 256,
                b < p,
        ;
    }
}

/// Spelling a number in `k` bytes and reading it back gives the number.
pub proof fn lemma_le_round_trip(n: nat, k: nat)
    requires
        n < pow256(k),
    ensures
        le_value(le_bytes(n, k)) == n,
    decreases k,
{
    if k > 0 {
        let p = pow256((k - 1) as nat);
        assert(n / 256 < p) by (nonlinear_arith)
            requires
                n < 256 * p,
        ;
        lemma_le_round_trip(n / 256, (k - 1) as nat);
        let s = le_bytes(n, k);
        assert(s.drop_first() =~= le_bytes(n / 256, (k - 1) as nat));
        assert(n == n % 256 + 256 * (n / 256)) by (nonlinear_arith);
    }
}

/// A field placed at the start of a byte string is read back whole,
/// whatever follows it.
pub proof fn lemma_parse_field(b: Seq<u8>, rest: Seq<u8>)
    requires
        b.len() < 0x1_0000_0000_0000_0000,
    ensures
        parse_field(field(b) + rest) == Some((b, 8 + b.len())),
        field(b).len() == 8 + b.len(),
{
    lemma_le_bytes_len(b.len(), 8);
    lemma_pow256_8();
    lemma_le_round_trip(b.len(), 8);
    let s = field(b) + rest;
    assert(s.subrange(0, 8) =~= le_bytes(b.len(), 8));
    assert(s.subrange(8, 8 + b.len() as int) =~= b);
}

/// Eight little-endian bytes of `n`.
pub fn encode_u64(n: u64) -> (r: Vec<u8>)
    ensures
        r@ == le_bytes(n as nat, 8),
{
    let mut out: Vec<u8> = Vec::new();
    let mut x: u64 = n;
    let mut i: usize = 0;
    while i < 8
        invariant
            i <= 8,
            out@ + le_bytes(x as nat, (8 - i) as nat) == le_bytes(n as nat, 8),
        decreases 8 - i,
    {
        let ghost before = out@;
        let ghost rest = le_bytes(x as nat, (8 - i) as nat);
        assert(rest =~= seq![(x % 256) as u8] + le_bytes((x / 256) as nat, (8 - i - 1) as nat));
        out.push((x % 256) as u8);
        x = x / 256;
        i = i + 1;
        assert(out@ + le_bytes(x as nat, (8 - i) as nat) =~= before + rest);
    }
    assert(out@ =~= out@ + le_bytes(x as nat, 0));
    out
}

/// Appends `b` to `out` as a length-prefixed field.
pub fn push_field(out: &mut Vec<u8>, b: &[u8])
    ensures
        final(out)@ == old(out)@ + field(b@),
{
    let len = encode_u64(b.len() as u64);
    let ghost start = out@;
    out.extend_from_slice(len.as_slice());
    out.extend_from_slice(b);
    assert(out@ =~= start + field(b@));
}

/// The number spelt by the eight bytes of `data` from `pos`.
pub fn decode_u64(data: &[u8], pos: usize) -> (r: u64)
    requires
        pos + 8 <= data@.len(),
    ensures
        r as nat == le_value(data@.subrange(pos as int, pos + 8)),
{
    let len = data.len();
    let mut acc: u64 = 0;
    let mut i: usize = 8;
    while i > 0
        invariant
            i <= 8,
            len == data@.len(),
            pos + 8 <= data@.len(),
            acc as nat == le_value(data@.subrange(pos + i, pos + 8)),
        decreases i,
    {
        let ghost tail = data@.subrange(pos + i, pos + 8);
        proof {
            lemma_le_value_bound(tail);
            lemma_pow256_7_or_less((8 - i) as nat);
        }
        let ghost s = data@.subrange(pos + i - 1, pos + 8);
        assert(s.drop_first() =~= tail);
        let b = data[pos + i - 1];
        assert(acc * 256 + b < 0x1_0000_0000_0000_0000) by (nonlinear_arith)
            requires
                acc < pow256((8 - i) as nat),
                pow256((8 - i) as nat) <= pow256(7),
                pow256(7) == 0x100_0000_0000_0000,
                b < 256,
        ;
        acc = acc * 256 + b as u64;
        i = i - 1;
    }
    acc
}

proof fn lemma_pow256_7_or_less(k: nat)
    requires
        k <= 7,
    ensures
        pow256(k) <= pow256(7),
        pow256(7) == 0x100_0000_0000_0000,
    decreases 7 - k,
{
    reveal_with_fuel(pow256, 8);
    if k < 7 {
        lemma_pow256_7_or_less(k + 1);
    }
}

/// Reads the length-prefixed field that starts at `pos`: its bytes and the
/// position just past it, or `None` when the data ends first.
pub fn read_field(data: &[u8], pos: usize) -> (r: Option<(Vec<u8>, usize)>)
    requires
        pos <= data@.len(),
    ensures
        match parse_field(data@.subrange(pos as int, data@.len() as int)) {
            Some((b, n)) => r matches Some((v, next)) && v@ == b && next == pos + n,
            None => r is None,
        },
{
    let ghost s = data@.subrange(pos as int, data@.len() as int);
    if data.len() - pos < 8 {
        return None;
    }
    let n = decode_u64(data, pos);
    assert(s.subrange(0, 8) =~= data@.subrange(pos as int, pos + 8));
    if n > (data.len() - pos - 8) as u64 {
        return None;
    }
    let start = pos + 8;
    let end = start + n as usize;
    let v = copy_range(data, start, end);
    assert(v@ =~= s.subrange(8, 8 + n as int));
    Some((v, end))
}

/// The bytes of `data` from `start` up to `end`.
pub fn copy_range(data: &[u8], start: usize, end: usize) -> (r: Vec<u8>)
    requires
        start <= end <= data@.len(),
    ensures
        r@ == data@.subrange(start as int, end as int),
{
    let mut out: Vec<u8> = Vec::with_capacity(end - start);
    let mut i: usize = start;
    while i < end
        invariant
            start <= i <= end <= data@.len(),
            out@ == data@.subrange(start as int, i as int),
        decreases end - i,
    {
        out.push(data[i]);
        i = i + 1;
        assert(out@ =~= data@.subrange(start as int, i as int));
    }
    out
}

} // verus!
