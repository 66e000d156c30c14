//! The byte source that stands in for randomness on hosts without one.
use vstd::prelude::*;

verus! {

/// The `w` low-order bytes of `x`, least significant first.
pub open spec fn le_bytes(x: nat, w: nat) -> Seq<u8>
    decreases w,
{
    if w == 0 {
        Seq::empty()
    } else {
        seq![(x % 256) as u8] + le_bytes(x / 256, (w - 1) as nat)
    }
}

/// Fills an eight-byte buffer with the little-endian bytes of a timestamp in
/// milliseconds.
pub fn custom_getrandom(buf: &mut [u8], timestamp: u64)
    requires
        old(buf)@.len() == 8,
    ensures
        final(buf)@ == le_bytes(timestamp as nat, 8),
{
    let mut rest: u64 = timestamp;
    let mut i: usize = 0;
    while i < 8
        invariant
            i <= 8,
            buf@.len() == 8,
            le_bytes(timestamp as nat, 8) == buf@.subrange(0, i as int) + le_bytes(
                rest as nat,
                (8 - i) as nat,
            ),
        decreases 8 - i,
    {
        let b = (rest % 256) as u8;
        proof {
            let head = buf@.subrange(0, i as int);
            let tail = le_bytes((rest / 256) as nat, (8 - i - 1) as nat);
            assert(le_bytes(rest as nat, (8 - i) as nat) == seq![b] + tail);
            assert(buf@.update(i as int, b).subrange(0, i + 1) =~= head.push(b));
            assert(head + (seq![b] + tail) =~= head.push(b) + tail);
        }
        buf[i] = b;
        rest = rest / 256;
        i = i + 1;
    }
    assert(buf@.subrange(0, 8) =~= buf@);
    assert(le_bytes(rest as nat, 0) =~= Seq::<u8>::empty());
}

} // verus!
