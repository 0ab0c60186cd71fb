//! Little-endian integers as byte sequences.

use vstd::prelude::*;

verus! {

/// The number that bytes stand for, least significant byte first.
pub open spec fn le_value(s: Seq<u8>) -> nat
    decreases s.len(),
{
    if s.len() == 0 {
        0
    } else {
        s[0] as nat + 256 * le_value(s.skip(1))
    }
}

/// The low `n` bytes of `v`, least significant byte first.
pub open spec fn le_bytes(v: nat, n: nat) -> Seq<u8>
    decreases n,
{
    if n == 0 {
        Seq::empty()
    } else {
        seq![(v % 256) as u8] + le_bytes(v / 256, (n - 1) as nat)
    }
}

/// 256 to the power of `n`.
pub open spec fn pow256(n: nat) -> nat
    decreases n,
{
    if n == 0 {
        1
    } else {
        256 * pow256((n - 1) as nat)
    }
}

/// The powers of 256 that the fixed-width integers need.
pub proof fn lemma_pow256_values()
    ensures
        pow256(1) == 0x100,
        pow256(2) == 0x1_0000,
        pow256(4) == 0x1_0000_0000,
        pow256(8) == 0x1_0000_0000_0000_0000,
{
    reveal_with_fuel(pow256, 9);
}

/// `n` bytes stand for a number below 256 to the power of `n`.
pub proof fn lemma_le_value_bound(s: Seq<u8>)
    ensures
        le_value(s) < pow256(s.len()),
    decreases s.len(),
{
    if s.len() > 0 {
        lemma_le_value_bound(s.skip(1));
    }
}

/// The bytes of a number have the asked length.
pub proof fn lemma_le_bytes_len(v: nat, n: nat)
    ensures
        le_bytes(v, n).len() == n,
    decreases n,
{
    if n > 0 {
        lemma_le_bytes_len(v / 256, (n - 1) as nat);
    }
}

/// Reading the bytes of a number gives the number back.
pub proof fn lemma_le_round_trip(v: nat, n: nat)
    requires
        v < pow256(n),
    ensures
        le_value(le_bytes(v, n)) == v,
    decreases n,
{
    if n > 0 {
        lemma_le_round_trip(v / 256, (n - 1) as nat);
        assert(le_bytes(v, n).skip(1) =~= le_bytes(v / 256, (n - 1) as nat));
    }
}

/// Writing the number that bytes stand for gives the bytes back.
pub proof fn lemma_le_bytes_of_value(s: Seq<u8>)
    ensures
        le_bytes(le_value(s), s.len()) == s,
    decreases s.len(),
{
    if s.len() > 0 {
        lemma_le_bytes_of_value(s.skip(1));
        let r = le_value(s.skip(1));
        assert((s[0] as nat + 256 * r) % 256 == s[0] as nat);
        assert((s[0] as nat + 256 * r) / 256 == r);
        assert(le_bytes(le_value(s), s.len()) =~= s);
    } else {
        assert(s =~= Seq::<u8>::empty());
    }
}

/// The number in the `n` bytes from `pos` on.
pub fn get_le(data: &[u8], pos: usize, n: usize) -> (v: u64)
    requires
        n <= 8,
        pos + n <= data@.len(),
    ensures
        v == le_value(data@.subrange(pos as int, pos + n)),
        v < pow256(n as nat),
{
    let len: usize = data.len();
    let mut v: u64 = 0;
    let mut i: usize = n;
    while i > 0
        invariant
            i <= n <= 8,
            pos + n <= len == data@.len(),
            v == le_value(data@.subrange(pos + i, pos + n)),
        decreases i,
    {
        let ghost tail = data@.subrange(pos + i, pos + n);
        i -= 1;
        let ghost cur = data@.subrange(pos + i, pos + n);
        proof {
            assert(cur.skip(1) =~= tail);
            lemma_le_value_bound(tail);
            reveal_with_fuel(pow256, 9);
            assert(v < 0x100_0000_0000_0000);
        }
        v = v * 256 + data[pos + i] as u64;
    }
    proof {
        lemma_le_value_bound(data@.subrange(pos as int, pos + n));
    }
    v
}

/// Appends the low `n` bytes of `v`.
pub fn put_le(out: &mut Vec<u8>, v: u64, n: usize)
    ensures
        final(out)@ == old(out)@ + le_bytes(v as nat, n as nat),
{
    let mut x: u64 = v;
    let mut i: usize = 0;
    let ghost start = out@;
    proof {
        assert(start + Seq::<u8>::empty() =~= start);
    }
    while i < n
        invariant
            i <= n,
            start + le_bytes(v as nat, n as nat) == out@ + le_bytes(x as nat, (n - i) as nat),
        decreases n - i,
    {
        proof {
            let rest = le_bytes(x as nat / 256, (n - i - 1) as nat);
            assert(out@ + (seq![(x % 256) as u8] + rest) =~= out@.push((x % 256) as u8) + rest);
        }
        out.push((x % 256) as u8);
        x = x / 256;
        i += 1;
    }
    proof {
        assert(out@ + le_bytes(x as nat, 0) =~= out@);
    }
}

/// Appends bytes.
pub fn put_bytes(out: &mut Vec<u8>, bytes: &[u8])
    ensures
        final(out)@ == old(out)@ + bytes@,
{
    let ghost start = out@;
    let mut i: usize = 0;
    while i < bytes.len()
        invariant
            i <= bytes@.len(),
            out@ == start + bytes@.take(i as int),
        decreases bytes.len() - i,
    {
        out.push(bytes[i]);
        i += 1;
        proof {
            assert(bytes@.take(i as int) =~= bytes@.take(i - 1).push(bytes@[i - 1]));
        }
    }
    proof {
        assert(bytes@.take(i as int) =~= bytes@);
    }
}

/// A copy of the `n` bytes from `pos` on.
pub fn copy_range(data: &[u8], pos: usize, n: usize) -> (v: Vec<u8>)
    requires
        pos + n <= data@.len(),
    ensures
        v@ == data@.subrange(pos as int, pos + n),
{
    let len: usize = data.len();
    let mut v: Vec<u8> = Vec::new();
    let mut i: usize = 0;
    while i < n
        invariant
            i <= n,
            pos + n <= len == data@.len(),
            v@ == data@.subrange(pos as int, pos + i),
        decreases n - i,
    {
        v.push(data[pos + i]);
        i += 1;
        proof {
            assert(data@.subrange(pos as int, pos + i) =~= data@.subrange(pos as int, pos + i - 1).push(
                data@[pos + i - 1],
            ));
        }
    }
    v
}

/// `v` read as a two's complement number of `bits` bits, where `half` is half of
/// the range.
pub open spec fn signed(v: nat, half: nat) -> int {
    if v < half {
        v as int
    } else {
        v - 2 * half
    }
}

} // verus!
