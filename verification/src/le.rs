//! Little-endian encoding of unsigned integers, as on-disk and in-memory
//! structures of the kernel lay them out.

use vstd::prelude::*;
use vstd::arithmetic::power::pow;

verus! {

/// The value of little-endian bytes.
pub open spec fn le_value(s: Seq<u8>) -> nat
    decreases s.len(),
{
    if s.len() == 0 {
        0
    } else {
        s[0] as nat + 256 * le_value(s.drop_first())
    }
}

/// The `k` little-endian bytes of `v` (taken modulo `256^k`).
pub open spec fn le_bytes(v: nat, k: nat) -> Seq<u8>
    decreases k,
{
    if k == 0 {
        Seq::empty()
    } else {
        seq![(v % 256) as u8] + le_bytes(v / 256, (k - 1) as nat)
    }
}

pub proof fn lemma_le_bytes_len(v: nat, k: nat)
    ensures
        le_bytes(v, k).len() == k,
    decreases k,
{
    if k > 0 {
        lemma_le_bytes_len(v / 256, (k - 1) as nat);
    }
}

/// Decoding the bytes of a value that fits gives the value back.
pub proof fn lemma_le_round_trip(v: nat, k: nat)
    requires
        v < pow(256, k),
    ensures
        le_value(le_bytes(v, k)) == v,
        le_bytes(v, k).len() == k,
    decreases k,
{
    lemma_le_bytes_len(v, k);
    if k == 0 {
        vstd::arithmetic::power::lemma_pow0(256);
    } else {
        vstd::arithmetic::power::lemma_pow_adds(256, 1, (k - 1) as nat);
        vstd::arithmetic::power::lemma_pow1(256);
        assert(v / 256 < pow(256, (k - 1) as nat)) by (nonlinear_arith)
            requires
                v < 256 * pow(256, (k - 1) as nat),
        ;
        lemma_le_round_trip(v / 256, (k - 1) as nat);
        let s = le_bytes(v, k);
        assert(s.drop_first() =~= le_bytes(v / 256, (k - 1) as nat));
    }
}

/// Little-endian bytes of length `k` have a value below `256^k`.
pub proof fn lemma_le_value_bound(s: Seq<u8>)
    ensures
        le_value(s) < pow(256, s.len()),
    decreases s.len(),
{
    if s.len() == 0 {
        vstd::arithmetic::power::lemma_pow0(256);
    } else {
        lemma_le_value_bound(s.drop_first());
        vstd::arithmetic::power::lemma_pow_adds(256, 1, (s.len() - 1) as nat);
        vstd::arithmetic::power::lemma_pow1(256);
        let r = le_value(s.drop_first());
        let p = pow(256, (s.len() - 1) as nat);
        assert(s[0] as nat + 256 * r < 256 * p) by (nonlinear_arith)
            requires
                r < p,
                s[0] < 256,
        ;
    }
}

/// Encoding the value of bytes gives the bytes back.
pub proof fn lemma_le_bytes_of_value(s: Seq<u8>)
    ensures
        le_bytes(le_value(s), s.len()) =~= s,
    decreases s.len(),
{
    if s.len() > 0 {
        let r = le_value(s.drop_first());
        lemma_le_bytes_of_value(s.drop_first());
        assert((s[0] as nat + 256 * r) % 256 == s[0] as nat) by (nonlinear_arith)
            requires s[0] < 256;
        assert((s[0] as nat + 256 * r) / 256 == r) by (nonlinear_arith)
            requires s[0] < 256;
        assert(le_bytes(le_value(s), s.len()) =~= seq![s[0]] + le_bytes(r, (s.len() - 1) as nat));
    }
}

pub proof fn lemma_pow256_values()
    ensures
        pow(256, 2) == 0x1_0000,
        pow(256, 4) == 0x1_0000_0000,
        pow(256, 8) == 0x1_0000_0000_0000_0000,
{
    reveal_with_fuel(pow, 9);
}

/// Reads `k` little-endian bytes at `off` (`k` at most 8).
pub fn read_le(buf: &[u8], off: usize, k: usize) -> (r: u64)
    requires
        k <= 8,
        off + k <= buf@.len(),
    ensures
        r == le_value(buf@.subrange(off as int, off + k)),
{
    let blen = buf.len();
    let mut acc: u64 = 0;
    let mut i: usize = k;
    proof {
        lemma_pow256_values();
    }
    while i > 0
        invariant
            k <= 8,
            blen == buf@.len(),
            off + k <= buf@.len(),
            i <= k,
            acc == le_value(buf@.subrange(off + i, off + k)),
        decreases i,
    {
        let ghost tail = buf@.subrange(off + i, off + k);
        proof {
            lemma_le_value_bound(tail);
            vstd::arithmetic::power::lemma_pow_increases(256, tail.len(), 7);
            lemma_pow256_values();
            vstd::arithmetic::power::lemma_pow_adds(256, 7, 1);
            vstd::arithmetic::power::lemma_pow1(256);
        }
        i -= 1;
        let b = buf[off + i];
        assert(acc * 256 + b < 0x1_0000_0000_0000_0000) by (nonlinear_arith)
            requires
                acc < pow(256, 7),
                pow(256, 8) == 256 * pow(256, 7),
                pow(256, 8) == 0x1_0000_0000_0000_0000,
                b < 256,
        ;
        proof {
            let s = buf@.subrange(off + i, off + k);
            assert(s.drop_first() =~= tail);
        }
        acc = acc * 256 + b as u64;
    }
    acc
}

/// Writes the `k` little-endian bytes of `v` at `off`.
pub fn write_le(buf: &mut Vec<u8>, off: usize, k: usize, v: u64)
    requires
        off + k <= old(buf)@.len(),
    ensures
        final(buf)@.len() == old(buf)@.len(),
        final(buf)@.subrange(off as int, off + k) =~= le_bytes(v as nat, k as nat),
        forall|j: int|
            0 <= j < old(buf)@.len() && !(off <= j < off + k) ==> final(buf)@[j] == old(buf)@[j],
{
    let blen = buf.len();
    let mut i: usize = 0;
    let mut rest = v;
    while i < k
        invariant
            blen == buf@.len(),
            off + k <= buf@.len(),
            buf@.len() == old(buf)@.len(),
            i <= k,
            le_bytes(v as nat, k as nat) =~= buf@.subrange(off as int, off + i) + le_bytes(
                rest as nat,
                (k - i) as nat,
            ),
            forall|j: int|
                0 <= j < old(buf)@.len() && !(off <= j < off + i) ==> buf@[j] == old(buf)@[j],
        decreases k - i,
    {
        let ghost before = buf@;
        buf.set(off + i, (rest % 256) as u8);
        proof {
            assert(le_bytes(rest as nat, (k - i) as nat) =~= seq![(rest % 256) as u8] + le_bytes(
                (rest / 256) as nat,
                (k - i - 1) as nat,
            ));
            assert(buf@.subrange(off as int, off + i + 1) =~= before.subrange(off as int, off + i)
                + seq![(rest % 256) as u8]);
        }
        rest = rest / 256;
        i += 1;
    }
}

} // verus!
