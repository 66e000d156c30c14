//! Big-endian fixed-width integers, as they appear in term payloads.
use vstd::prelude::*;

verus! {

/// 256 to the power `n`.
pub open spec fn pow256(n: nat) -> nat
    decreases n,
{
    if n == 0 {
        1
    } else {
        256 * pow256((n - 1) as nat)
    }
}

/// The unsigned value of a big-endian byte sequence.
pub open spec fn be_value(s: Seq<u8>) -> nat
    decreases s.len(),
{
    if s.len() == 0 {
        0
    } else {
        (be_value(s.drop_last()) * 256 + s.last()) as nat
    }
}

/// The `w` low-order bytes of `x`, most significant first.
pub open spec fn be_bytes(x: nat, w: nat) -> Seq<u8>
    decreases w,
{
    if w == 0 {
        Seq::empty()
    } else {
        be_bytes(x / 256, (w - 1) as nat).push((x % 256) as u8)
    }
}

/// Two's complement bits of `v` on `2 * half` values.
pub open spec fn twos_complement(v: int, half: nat) -> nat {
    if v >= 0 {
        v as nat
    } else {
        (v + 2 * half) as nat
    }
}

/// The signed value of two's complement bits on `2 * half` values.
pub open spec fn from_twos_complement(u: nat, half: nat) -> int {
    if u < half {
        u as int
    } else {
        u - 2 * half
    }
}

pub proof fn lemma_be_bytes_len(x: nat, w: nat)
    ensures
        #[trigger] be_bytes(x, w).len() == w,
    decreases w,
{
    if w > 0 {
        lemma_be_bytes_len(x / 256, (w - 1) as nat);
    }
}

pub proof fn lemma_pow256_pos(n: nat)
    ensures
        #[trigger] pow256(n) >= 1,
    decreases n,
{
    if n > 0 {
        lemma_pow256_pos((n - 1) as nat);
    }
}

pub proof fn lemma_pow256_values()
    ensures
        pow256(2) == 0x1_0000,
        pow256(4) == 0x1_0000_0000,
        pow256(8) == 0x1_0000_0000_0000_0000,
        pow256(16) == 0x1_0000_0000_0000_0000_0000_0000_0000_0000,
{
    reveal_with_fuel(pow256, 17);
}

pub proof fn lemma_pow256_mono(a: nat, b: nat)
    requires
        a <= b,
    ensures
        pow256(a) <= pow256(b),
    decreases b,
{
    if a < b {
        lemma_pow256_mono(a, (b - 1) as nat);
        lemma_pow256_pos((b - 1) as nat);
    }
}

/// Writing `x` on `w` bytes and reading it back gives `x`, when it fits.
pub proof fn lemma_be_round_trip(x: nat, w: nat)
    requires
        x < pow256(w),
    ensures
        be_value(be_bytes(x, w)) == x,
    decreases w,
{
    if w > 0 {
        let p = pow256((w - 1) as nat);
        assert(x / 256 < p) by (nonlinear_arith)
            requires
                x < 256 * p,
        ;
        lemma_be_round_trip(x / 256, (w - 1) as nat);
        let s = be_bytes(x, w);
        assert(s.drop_last() =~= be_bytes(x / 256, (w - 1) as nat));
        assert(x == (x / 256) * 256 + x % 256) by (nonlinear_arith);
    }
}

/// The value of `w` bytes is below `256^w`.
pub proof fn lemma_be_value_bound(s: Seq<u8>)
    ensures
        be_value(s) < pow256(s.len()),
    decreases s.len(),
{
    if s.len() > 0 {
        let r = s.drop_last();
        lemma_be_value_bound(r);
        let p = pow256(r.len());
        let v = be_value(r);
        let b = s.last() as nat;
        assert(v * 256 + b < 256 * p) by (nonlinear_arith)
            requires
                v < p,
                b < 256,
        ;
    }
}

pub proof fn lemma_twos_complement_round_trip(v: int, half: nat)
    requires
        -half <= v < half,
    ensures
        twos_complement(v, half) < 2 * half,
        from_twos_complement(twos_complement(v, half), half) == v,
{
}

/// Appends the `w` low-order bytes of `x`, most significant first.
pub fn write_be(sink: &mut Vec<u8>, x: u128, w: usize)
    requires
        w <= 16,
    ensures
        final(sink)@ == old(sink)@ + be_bytes(x as nat, w as nat),
    decreases w,
{
    if w > 0 {
        write_be(sink, x / 256, w - 1);
        sink.push((x % 256) as u8);
        assert(final(sink)@ =~= old(sink)@ + be_bytes(x as nat, w as nat));
    }
}

/// Reads `w` bytes at `pos` as a big-endian unsigned integer.
pub fn read_be(buf: &[u8], pos: usize, w: usize) -> (r: u128)
    requires
        w <= 16,
        pos + w <= buf@.len(),
    ensures
        r as nat == be_value(buf@.subrange(pos as int, pos + w)),
{
    let len = buf.len();
    let mut acc: u128 = 0;
    let mut i: usize = 0;
    while i < w
        invariant
            0 <= i <= w,
            len == buf@.len(),
            w <= 16,
            pos + w <= buf@.len(),
            acc as nat == be_value(buf@.subrange(pos as int, pos + i)),
            acc < pow256(i as nat),
        decreases w - i,
    {
        let b = buf[pos + i];
        proof {
            lemma_pow256_mono((i + 1) as nat, 16);
            lemma_pow256_values();
            let p = pow256(i as nat);
            assert(acc * 256 + b < 256 * p) by (nonlinear_arith)
                requires
                    acc < p,
                    b < 256,
            ;
            assert(buf@.subrange(pos as int, pos + i + 1).drop_last() =~= buf@.subrange(
                pos as int,
                pos + i,
            ));
        }
        acc = acc * 256 + b as u128;
        i = i + 1;
    }
    acc
}

/// The 16 bytes of `x`, most significant first.
pub fn be_array16(x: u128) -> (r: [u8; 16])
    ensures
        r@ == be_bytes(x as nat, 16),
{
    let mut a: [u8; 16] = [0u8; 16];
    let mut rest: u128 = x;
    let mut i: usize = 16;
    while i > 0
        invariant
            i <= 16,
            a@.len() == 16,
            be_bytes(x as nat, 16) == be_bytes(rest as nat, i as nat) + a@.subrange(i as int, 16),
        decreases i,
    {
        let b = (rest % 256) as u8;
        proof {
            let tail = a@.subrange(i as int, 16);
            let a2 = a@.update(i - 1, b);
            assert(a2.subrange(i - 1, 16) =~= seq![b] + tail);
            assert(be_bytes(rest as nat, i as nat) + tail =~= be_bytes(
                (rest / 256) as nat,
                (i - 1) as nat,
            ) + (seq![b] + tail));
        }
        a[i - 1] = b;
        rest = rest / 256;
        i = i - 1;
    }
    assert(a@ =~= a@.subrange(0, 16));
    a
}

/// Two's complement bits of a 64-bit signed integer.
pub fn i64_to_bits(v: i64) -> (r: u64)
    ensures
        r as nat == twos_complement(v as int, 0x8000_0000_0000_0000),
{
    if v >= 0 {
        v as u64
    } else {
        ((v + i64::MAX) + 1) as u64 + 0x8000_0000_0000_0000u64
    }
}

/// The 64-bit signed integer with the given two's complement bits.
pub fn i64_from_bits(u: u64) -> (r: i64)
    ensures
        r as int == from_twos_complement(u as nat, 0x8000_0000_0000_0000),
{
    if u < 0x8000_0000_0000_0000u64 {
        u as i64
    } else {
        ((u - 0x8000_0000_0000_0000u64) as i64) - i64::MAX - 1
    }
}

/// Two's complement bits of a 128-bit signed integer.
pub fn i128_to_bits(v: i128) -> (r: u128)
    ensures
        r as nat == twos_complement(v as int, 0x8000_0000_0000_0000_0000_0000_0000_0000),
{
    if v >= 0 {
        v as u128
    } else {
        ((v + i128::MAX) + 1) as u128 + 0x8000_0000_0000_0000_0000_0000_0000_0000u128
    }
}

/// The 128-bit signed integer with the given two's complement bits.
pub fn i128_from_bits(u: u128) -> (r: i128)
    ensures
        r as int == from_twos_complement(u as nat, 0x8000_0000_0000_0000_0000_0000_0000_0000),
{
    if u < 0x8000_0000_0000_0000_0000_0000_0000_0000u128 {
        u as i128
    } else {
        ((u - 0x8000_0000_0000_0000_0000_0000_0000_0000u128) as i128) - i128::MAX - 1
    }
}

} // verus!
