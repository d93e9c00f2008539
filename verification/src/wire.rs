//! Big-endian integer fields and the wire frame layout.
//!
//! Every frame on the wire is `magic (2 bytes) . type id (2 bytes) .
//! payload length (8 bytes) . payload`, with all integers big-endian.

use vstd::prelude::*;

verus! {

/// The 2-byte constant that opens every well-formed frame header.
pub const MAGIC_HEADER: u16 = 17380;

/// Number of bytes in a frame header: two u16 fields and one u64 field.
pub const SIZE_HEADER: usize = 12;

/// `256^n`, the number of values an `n`-byte field can hold.
pub open spec fn pow256(n: nat) -> nat
    decreases n,
{
    if n == 0 {
        1
    } else {
        256 * pow256((n - 1) as nat)
    }
}

/// The value of a byte sequence read as a big-endian integer.
pub open spec fn be_val(s: Seq<u8>) -> nat
    decreases s.len(),
{
    if s.len() == 0 {
        0
    } else {
        (be_val(s.drop_last()) * 256 + s.last()) as nat
    }
}

/// The `n`-byte big-endian encoding of `x % 256^n`.
pub open spec fn be_bytes(x: nat, n: nat) -> Seq<u8>
    decreases n,
{
    if n == 0 {
        Seq::empty()
    } else {
        be_bytes(x / 256, (n - 1) as nat).push((x % 256) as u8)
    }
}

/// The wire frame carrying `payload` under type identifier `type_id`.
pub open spec fn spec_frame(type_id: u16, payload: Seq<u8>) -> Seq<u8> {
    be_bytes(MAGIC_HEADER as nat, 2) + be_bytes(type_id as nat, 2) + be_bytes(payload.len(), 8)
        + payload
}

pub proof fn lemma_pow256_pos(n: nat)
    ensures
        pow256(n) >= 1,
    decreases n,
{
    if n > 0 {
        lemma_pow256_pos((n - 1) as nat);
    }
}

pub proof fn lemma_be_bytes_len(x: nat, n: nat)
    ensures
        be_bytes(x, n).len() == n,
    decreases n,
{
    if n > 0 {
        lemma_be_bytes_len(x / 256, (n - 1) as nat);
    }
}

pub proof fn lemma_pow256_mono(m: nat, n: nat)
    requires
        m <= n,
    ensures
        pow256(m) <= pow256(n),
    decreases n,
{
    if m < n && n > 0 {
        lemma_pow256_mono(m, (n - 1) as nat);
        lemma_pow256_pos((n - 1) as nat);
    }
}

pub proof fn lemma_be_val_bound(s: Seq<u8>)
    ensures
        be_val(s) < pow256(s.len()),
    decreases s.len(),
{
    if s.len() > 0 {
        lemma_be_val_bound(s.drop_last());
    }
}

/// Reading back an `n`-byte big-endian encoding recovers the value.
pub proof fn lemma_be_bytes_val(x: nat, n: nat)
    requires
        x < pow256(n),
    ensures
        be_val(be_bytes(x, n)) == x,
    decreases n,
{
    if n > 0 {
        let rest = be_bytes(x / 256, (n - 1) as nat);
        lemma_be_bytes_len(x / 256, (n - 1) as nat);
        assert(x / 256 < pow256((n - 1) as nat)) by {
            lemma_pow256_pos((n - 1) as nat);
            assert(256 * (x / 256) <= x) by (nonlinear_arith);
            assert(256 * (x / 256) < 256 * pow256((n - 1) as nat));
            assert(x / 256 < pow256((n - 1) as nat)) by (nonlinear_arith)
                requires
                    256 * (x / 256) < 256 * pow256((n - 1) as nat),
            ;
        }
        lemma_be_bytes_val(x / 256, (n - 1) as nat);
        let whole = rest.push((x % 256) as u8);
        assert(whole.drop_last() =~= rest);
        assert(whole.last() == (x % 256) as u8);
        assert(be_val(whole) == (x / 256) * 256 + x % 256);
        assert((x / 256) * 256 + x % 256 == x) by (nonlinear_arith);
    }
}

/// Reads the 2-byte big-endian field of `buf` starting at `i`.
pub fn read_be16(buf: &Vec<u8>, i: usize) -> (r: u16)
    requires
        i + 2 <= buf@.len(),
    ensures
        r as nat == be_val(buf@.subrange(i as int, i + 2)),
{
    let n: usize = buf.len();
    let hi: u8 = buf[i];
    let lo: u8 = buf[i + 1];
    let r: u16 = (hi as u16) * 256 + (lo as u16);
    proof {
        reveal_with_fuel(be_val, 3);
        let s = buf@.subrange(i as int, i + 2);
        assert(s.drop_last() =~= seq![hi]);
        assert(seq![hi].drop_last() =~= Seq::<u8>::empty());
        assert(be_val(seq![hi]) == hi as nat);
        assert(s.last() == lo);
    }
    r
}

/// Reads the 8-byte big-endian field of `buf` starting at `i`.
pub fn read_be64(buf: &Vec<u8>, i: usize) -> (r: u64)
    requires
        i + 8 <= buf@.len(),
    ensures
        r as nat == be_val(buf@.subrange(i as int, i + 8)),
{
    let n: usize = buf.len();
    let mut acc: u64 = 0;
    let mut j: usize = 0;
    while j < 8
        invariant
            j <= 8,
            i + 8 <= n == buf@.len(),
            acc as nat == be_val(buf@.subrange(i as int, i + j)),
        decreases 8 - j,
    {
        proof {
            let pre = buf@.subrange(i as int, i + j);
            lemma_be_val_bound(pre);
            lemma_pow256_mono(pre.len(), 7);
            assert(pow256(7) == 0x100000000000000) by {
                reveal_with_fuel(pow256, 8);
            }
            assert(acc < 0x100000000000000);
            let ext = buf@.subrange(i as int, i + j + 1);
            assert(ext.drop_last() =~= pre);
            assert(ext.last() == buf@[i + j]);
        }
        acc = acc * 256 + (buf[i + j] as u64);
        j = j + 1;
    }
    acc
}

/// Appends the 2-byte big-endian encoding of `x` to `out`.
pub fn push_be16(out: &mut Vec<u8>, x: u16)
    ensures
        final(out)@ == old(out)@ + be_bytes(x as nat, 2),
{
    let hi: u8 = (x / 256) as u8;
    let lo: u8 = (x % 256) as u8;
    out.push(hi);
    out.push(lo);
    proof {
        reveal_with_fuel(be_bytes, 3);
        assert((x as nat) / 256 < 256);
        assert(((x as nat) / 256) % 256 == (x as nat) / 256);
        assert(be_bytes((x as nat) / 256, 1) =~= seq![hi]);
        assert(be_bytes(x as nat, 2) =~= seq![hi, lo]);
        assert(final(out)@ =~= old(out)@ + be_bytes(x as nat, 2));
    }
}

/// Appends the 8-byte big-endian encoding of `x` to `out`.
pub fn push_be64(out: &mut Vec<u8>, x: u64)
    ensures
        final(out)@ == old(out)@ + be_bytes(x as nat, 8),
{
    let x1: u64 = x / 256;
    let x2: u64 = x1 / 256;
    let x3: u64 = x2 / 256;
    let x4: u64 = x3 / 256;
    let x5: u64 = x4 / 256;
    let x6: u64 = x5 / 256;
    let x7: u64 = x6 / 256;
    out.push((x7 % 256) as u8);
    out.push((x6 % 256) as u8);
    out.push((x5 % 256) as u8);
    out.push((x4 % 256) as u8);
    out.push((x3 % 256) as u8);
    out.push((x2 % 256) as u8);
    out.push((x1 % 256) as u8);
    out.push((x % 256) as u8);
    proof {
        assert(x7 / 256 == 0);
        assert(be_bytes(x7 as nat / 256, 0) =~= Seq::<u8>::empty());
        assert(be_bytes(x as nat, 8) =~= seq![
            (x7 % 256) as u8,
            (x6 % 256) as u8,
            (x5 % 256) as u8,
            (x4 % 256) as u8,
            (x3 % 256) as u8,
            (x2 % 256) as u8,
            (x1 % 256) as u8,
            (x % 256) as u8,
        ]) by {
            reveal_with_fuel(be_bytes, 9);
        }
        assert(final(out)@ =~= old(out)@ + be_bytes(x as nat, 8));
    }
}

} // verus!
