//! Base-128 variable-length integers, as the protobuf wire format writes them.
use vstd::prelude::*;

verus! {

/// The varint encoding of `v`: seven bits per byte, least significant group
/// first, the high bit set on every byte but the last.
pub open spec fn varint(v: nat) -> Seq<u8>
    decreases v,
{
    if v < 128 {
        seq![v as u8]
    } else {
        seq![(v % 128 + 128) as u8] + varint(v / 128)
    }
}

/// Reads a varint of at most `k` bytes at position `i` of `b`, reading
/// nothing at or past `end`: its value and the number of bytes it takes.
pub open spec fn read_varint(b: Seq<u8>, i: int, end: int, k: nat) -> Option<(nat, nat)>
    decreases k,
{
    if k == 0 || i < 0 || i >= end || end > b.len() {
        None
    } else if b[i] < 128 {
        Some((b[i] as nat, 1))
    } else {
        match read_varint(b, i + 1, end, (k - 1) as nat) {
            Some((v, n)) => Some(((b[i] - 128) as nat + 128 * v, n + 1)),
            None => None,
        }
    }
}

/// Reads a 64-bit varint at position `i` as protobuf does: at most ten
/// bytes, the value taken modulo 2^64.
pub open spec fn read_u64(b: Seq<u8>, i: int, end: int) -> Option<(u64, nat)> {
    match read_varint(b, i, end, 10) {
        Some((v, n)) => Some(((v % 0x1_0000_0000_0000_0000) as u64, n)),
        None => None,
    }
}

pub proof fn lemma_read_varint_len(b: Seq<u8>, i: int, end: int, k: nat)
    ensures
        read_varint(b, i, end, k) matches Some((v, n)) ==> 1 <= n <= k && i + n <= end,
    decreases k,
{
    if k > 0 && 0 <= i < end <= b.len() && b[i] >= 128 {
        lemma_read_varint_len(b, i + 1, end, (k - 1) as nat);
    }
}

/// What is written at `i` as a varint reads back from there.
pub proof fn lemma_read_written(b: Seq<u8>, i: int, end: int, v: nat, k: nat)
    requires
        0 <= i,
        i + varint(v).len() <= end <= b.len(),
        b.subrange(i, i + varint(v).len()) == varint(v),
        varint(v).len() <= k,
    ensures
        read_varint(b, i, end, k) == Some((v, varint(v).len())),
    decreases v,
{
    assert(b[i] == b.subrange(i, i + varint(v).len())[0]);
    if v >= 128 {
        let w = varint(v / 128);
        assert(b.subrange(i + 1, i + 1 + w.len()) =~= b.subrange(i, i + varint(v).len()).subrange(1, 1 + w.len() as int));
        assert(varint(v).subrange(1, 1 + w.len() as int) =~= w);
        lemma_read_written(b, i + 1, end, v / 128, (k - 1) as nat);
    }
}

pub open spec fn pow128(m: nat) -> nat
    decreases m,
{
    if m == 0 {
        1
    } else {
        128 * pow128((m - 1) as nat)
    }
}

pub proof fn lemma_varint_len_bound(v: nat, m: nat)
    requires
        1 <= m,
        v < pow128(m),
    ensures
        1 <= varint(v).len() <= m,
    decreases v,
{
    if v >= 128 {
        assert(pow128(1) == 128) by {
            reveal_with_fuel(pow128, 2);
        }
        assert(m > 1);
        let p = pow128((m - 1) as nat);
        assert(v < 128 * p);
        assert(v / 128 < p) by (nonlinear_arith)
            requires
                v < 128 * p,
        ;
        lemma_varint_len_bound(v / 128, (m - 1) as nat);
    }
}

/// A 64-bit value takes at most ten bytes.
pub proof fn lemma_varint_u64(v: u64)
    ensures
        1 <= varint(v as nat).len() <= 10,
{
    reveal_with_fuel(pow128, 11);
    assert(pow128(10) == 1180591620717411303424);
    lemma_varint_len_bound(v as nat, 10);
}

/// A 64-bit varint written at `i` reads back from there.
pub proof fn lemma_read_u64_written(b: Seq<u8>, i: int, end: int, v: u64)
    requires
        0 <= i,
        i + varint(v as nat).len() <= end <= b.len(),
        b.subrange(i, i + varint(v as nat).len()) == varint(v as nat),
    ensures
        read_u64(b, i, end) == Some((v, varint(v as nat).len())),
{
    lemma_varint_u64(v);
    lemma_read_written(b, i, end, v as nat, 10);
}

/// Appends the varint encoding of `v`.
pub fn write_varint(out: &mut Vec<u8>, v: u64)
    ensures
        final(out)@ == old(out)@ + varint(v as nat),
    decreases v,
{
    if v < 128 {
        out.push(v as u8);
    } else {
        let ghost before = out@;
        out.push((v % 128 + 128) as u8);
        write_varint(out, v / 128);
        assert(out@ =~= before + varint(v as nat));
    }
}

/// Relies on protobuf's `CodedInputStream::read_raw_varint64`, reading from
/// `b[i..end]`: it takes bytes up to and including the first one below 0x80,
/// at most ten, and fails where the input ends first or the tenth byte does
/// not end the varint. The value gathers seven bits of each byte, lowest
/// first, dropping what lies past 64 bits. `pos` then counts the bytes taken.
#[verifier::external_body]
fn protobuf_read_varint(b: &[u8], i: usize, end: usize) -> (r: Option<(u64, usize)>)
    requires
        i <= end <= b@.len(),
    ensures
        r == match read_u64(b@, i as int, end as int) {
            Some((v, n)) => Some((v, n as usize)),
            None => None,
        },
{
    let mut s = protobuf::CodedInputStream::from_bytes(&b[i..end]);
    match s.read_raw_varint64() {
        Ok(v) => Some((v, s.pos() as usize)),
        Err(_) => None,
    }
}

/// Reads a 64-bit varint at position `i`, reading nothing at or past `end`:
/// its value and the number of bytes it takes.
pub fn read_u64_at(b: &[u8], i: usize, end: usize) -> (r: Option<(u64, usize)>)
    requires
        i <= end <= b@.len(),
    ensures
        match r {
            Some((v, n)) => read_u64(b@, i as int, end as int) == Some((v, n as nat)) && 1 <= n
                <= 10 && i + n <= end,
            None => read_u64(b@, i as int, end as int) is None,
        },
{
    proof {
        lemma_read_varint_len(b@, i as int, end as int, 10);
    }
    protobuf_read_varint(b, i, end)
}

} // verus!
