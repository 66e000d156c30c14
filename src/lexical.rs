//! Canonical lexical forms of `xsd:integer` values within 64 bits.
use vstd::prelude::*;
use vstd::utf8::valid_utf8;

use crate::index::bytes_eq;
use crate::model::{string_from_utf8, utf8_of};

verus! {

/// The decimal digits of `n`, most significant first, without leading zeros.
pub open spec fn nat_digits(n: nat) -> Seq<u8>
    decreases n,
{
    if n < 10 {
        seq![(48 + n) as u8]
    } else {
        nat_digits(n / 10).push((48 + n % 10) as u8)
    }
}

/// The canonical lexical form of an integer: an optional minus sign and its digits.
pub open spec fn int_lexical(v: int) -> Seq<u8> {
    if v < 0 {
        seq![45u8] + nat_digits((-v) as nat)
    } else {
        nat_digits(v as nat)
    }
}

/// The value of a sequence of decimal digits.
pub open spec fn digits_value(s: Seq<u8>) -> nat
    decreases s.len(),
{
    if s.len() == 0 {
        0
    } else {
        (digits_value(s.drop_last()) * 10 + (s.last() - 48)) as nat
    }
}

pub open spec fn all_digits(s: Seq<u8>) -> bool {
    forall|i: int| 0 <= i < s.len() ==> 48 <= #[trigger] s[i] <= 57
}

pub proof fn lemma_nat_digits(n: nat)
    ensures
        all_digits(nat_digits(n)),
        nat_digits(n).len() >= 1,
        digits_value(nat_digits(n)) == n,
    decreases n,
{
    if n >= 10 {
        lemma_nat_digits(n / 10);
        let s = nat_digits(n);
        assert(s.drop_last() =~= nat_digits(n / 10));
        assert(s.last() == 48 + n % 10);
        assert(n == (n / 10) * 10 + n % 10) by (nonlinear_arith);
    } else {
        let s = nat_digits(n);
        assert(s.drop_last() =~= Seq::<u8>::empty());
        assert(digits_value(Seq::<u8>::empty()) == 0);
        assert(s.last() == 48 + n);
    }
}

/// Two integers with the same canonical lexical form are equal.
pub proof fn lemma_int_lexical_injective(a: int, b: int)
    requires
        int_lexical(a) == int_lexical(b),
    ensures
        a == b,
{
    lemma_nat_digits(if a < 0 { (-a) as nat } else { a as nat });
    lemma_nat_digits(if b < 0 { (-b) as nat } else { b as nat });
    if a < 0 && b < 0 {
        assert(nat_digits((-a) as nat) =~= int_lexical(a).drop_first());
        assert(nat_digits((-b) as nat) =~= int_lexical(b).drop_first());
    } else if a < 0 {
        assert(int_lexical(a)[0] == 45);
        assert(int_lexical(b)[0] == nat_digits(b as nat)[0]);
    } else if b < 0 {
        assert(int_lexical(b)[0] == 45);
        assert(int_lexical(a)[0] == nat_digits(a as nat)[0]);
    }
}

/// Bytes below 0x80 are valid UTF-8.
pub proof fn lemma_ascii_valid_utf8(b: Seq<u8>)
    requires
        forall|i: int| 0 <= i < b.len() ==> #[trigger] b[i] < 0x80,
    ensures
        valid_utf8(b),
    decreases b.len(),
{
    if b.len() > 0 {
        let c = b[0];
        assert((c & 0x7F) <= 0x7F) by (bit_vector);
        let rest = b.subrange(1, b.len() as int);
        assert forall|i: int| 0 <= i < rest.len() implies #[trigger] rest[i] < 0x80 by {
            assert(rest[i] == b[i + 1]);
        }
        lemma_ascii_valid_utf8(rest);
    }
}

fn write_digits(out: &mut Vec<u8>, n: u64)
    ensures
        final(out)@ == old(out)@ + nat_digits(n as nat),
    decreases n,
{
    if n >= 10 {
        write_digits(out, n / 10);
    }
    out.push((48 + n % 10) as u8);
    assert(final(out)@ =~= old(out)@ + nat_digits(n as nat));
}

/// The canonical lexical form of `v`.
pub fn format_integer(v: i64) -> (r: Vec<u8>)
    ensures
        r@ == int_lexical(v as int),
{
    let mut out: Vec<u8> = Vec::new();
    if v < 0 {
        out.push(45u8);
        let magnitude: u64 = ((-(v + 1)) as u64) + 1;
        write_digits(&mut out, magnitude);
    } else {
        write_digits(&mut out, v as u64);
    }
    assert(out@ =~= int_lexical(v as int));
    out
}

/// The same digits as an owned string.
pub fn integer_string(v: i64) -> (r: String)
    ensures
        utf8_of(r@) == int_lexical(v as int),
{
    let bytes = format_integer(v);
    proof {
        let m = if v < 0 { (-v) as nat } else { v as nat };
        lemma_nat_digits(m);
        assert forall|i: int| 0 <= i < bytes@.len() implies #[trigger] bytes@[i] < 0x80 by {
            if v < 0 && i > 0 {
                assert(bytes@[i] == nat_digits(m)[i - 1]);
            }
        }
        lemma_ascii_valid_utf8(bytes@);
    }
    match string_from_utf8(bytes) {
        Some(s) => s,
        None => String::new(),
    }
}

/// The lowercase hexadecimal digit of a value below 16.
pub open spec fn hex_digit(d: nat) -> u8 {
    if d < 10 {
        (48 + d) as u8
    } else {
        (87 + d) as u8
    }
}

/// The lowercase hexadecimal digits of `n`, most significant first, without
/// leading zeros.
pub open spec fn hex_digits(n: nat) -> Seq<u8>
    decreases n,
{
    if n < 16 {
        seq![hex_digit(n)]
    } else {
        hex_digits(n / 16).push(hex_digit(n % 16))
    }
}

proof fn lemma_hex_digits_ascii(n: nat)
    ensures
        forall|i: int| 0 <= i < hex_digits(n).len() ==> #[trigger] hex_digits(n)[i] < 0x80,
    decreases n,
{
    if n >= 16 {
        lemma_hex_digits_ascii(n / 16);
        let h = hex_digits(n);
        assert forall|i: int| 0 <= i < h.len() implies #[trigger] h[i] < 0x80 by {
            if i < h.len() - 1 {
                assert(h[i] == hex_digits(n / 16)[i]);
            } else {
                assert(h[i] == hex_digit(n % 16));
            }
        }
    }
}

fn write_hex(out: &mut Vec<u8>, n: u128)
    ensures
        final(out)@ == old(out)@ + hex_digits(n as nat),
    decreases n,
{
    if n >= 16 {
        write_hex(out, n / 16);
    }
    let d = (n % 16) as u8;
    let c = if d < 10 {
        48 + d
    } else {
        87 + d
    };
    out.push(c);
    assert(final(out)@ =~= old(out)@ + hex_digits(n as nat));
}

/// The lowercase hexadecimal form of `n` as an owned string.
pub fn hex_string(n: u128) -> (r: String)
    ensures
        utf8_of(r@) == hex_digits(n as nat),
{
    let mut bytes: Vec<u8> = Vec::new();
    write_hex(&mut bytes, n);
    proof {
        assert(bytes@ =~= hex_digits(n as nat));
        lemma_hex_digits_ascii(n as nat);
        lemma_ascii_valid_utf8(bytes@);
    }
    match string_from_utf8(bytes) {
        Some(s) => s,
        None => String::new(),
    }
}


/// Exactly `w` decimal digits of `f`, zero-padded on the left.
pub open spec fn padded_digits(f: nat, w: nat) -> Seq<u8>
    decreases w,
{
    if w == 0 {
        Seq::empty()
    } else {
        padded_digits(f / 10, (w - 1) as nat).push((48 + f % 10) as u8)
    }
}

/// A digit sequence without its trailing zeros.
pub open spec fn strip_trailing_zeros(s: Seq<u8>) -> Seq<u8>
    decreases s.len(),
{
    if s.len() > 0 && s.last() == 48 {
        strip_trailing_zeros(s.drop_last())
    } else {
        s
    }
}

/// The number of fractional digits of a fixed-point decimal.
pub open spec fn decimal_scale() -> nat {
    1_000_000_000_000_000_000
}

/// The canonical lexical form of a fixed-point decimal with 18 fractional
/// digits: an optional minus sign, the integer digits, and, where the
/// fraction is not zero, a point and the fraction without trailing zeros.
pub open spec fn decimal_lexical(v: int) -> Seq<u8> {
    let m = if v < 0 { (-v) as nat } else { v as nat };
    let sign = if v < 0 { seq![45u8] } else { Seq::<u8>::empty() };
    let f = m % decimal_scale();
    let frac = if f == 0 {
        Seq::<u8>::empty()
    } else {
        seq![46u8] + strip_trailing_zeros(padded_digits(f, 18))
    };
    sign + nat_digits(m / decimal_scale()) + frac
}

proof fn lemma_padded_digits_ascii(f: nat, w: nat)
    ensures
        forall|i: int| 0 <= i < padded_digits(f, w).len() ==> #[trigger] padded_digits(f, w)[i] < 0x80,
        padded_digits(f, w).len() == w,
    decreases w,
{
    if w > 0 {
        lemma_padded_digits_ascii(f / 10, (w - 1) as nat);
        let s = padded_digits(f, w);
        assert forall|i: int| 0 <= i < s.len() implies #[trigger] s[i] < 0x80 by {
            if i < s.len() - 1 {
                assert(s[i] == padded_digits(f / 10, (w - 1) as nat)[i]);
            }
        }
    }
}

proof fn lemma_strip_prefix(s: Seq<u8>)
    ensures
        strip_trailing_zeros(s).len() <= s.len(),
        strip_trailing_zeros(s) == s.subrange(0, strip_trailing_zeros(s).len() as int),
    decreases s.len(),
{
    if s.len() > 0 && s.last() == 48 {
        lemma_strip_prefix(s.drop_last());
        let t = strip_trailing_zeros(s.drop_last());
        assert(s.drop_last().subrange(0, t.len() as int) =~= s.subrange(0, t.len() as int));
    } else {
        assert(s.subrange(0, s.len() as int) =~= s);
    }
}

fn write_padded(out: &mut Vec<u8>, f: u128, w: usize)
    ensures
        final(out)@ == old(out)@ + padded_digits(f as nat, w as nat),
    decreases w,
{
    if w > 0 {
        write_padded(out, f / 10, w - 1);
        out.push((48 + f % 10) as u8);
        assert(final(out)@ =~= old(out)@ + padded_digits(f as nat, w as nat));
    }
}

/// The canonical lexical form of a fixed-point decimal as an owned string.
pub fn decimal_string(v: i128) -> (r: String)
    ensures
        utf8_of(r@) == decimal_lexical(v as int),
{
    let mut out: Vec<u8> = Vec::new();
    let m: u128 = if v < 0 {
        out.push(45u8);
        ((-(v + 1)) as u128) + 1
    } else {
        v as u128
    };
    let scale: u128 = 1_000_000_000_000_000_000;
    let int_part = m / scale;
    let f = m % scale;
    write_integer_part(&mut out, int_part);
    if f != 0 {
        out.push(46u8);
        let mut digits: Vec<u8> = Vec::new();
        write_padded(&mut digits, f, 18);
        let ghost full = digits@;
        while digits.len() > 0 && digits[digits.len() - 1] == 48u8
            invariant
                strip_trailing_zeros(full) == strip_trailing_zeros(digits@),
            decreases digits@.len(),
        {
            let ghost before = digits@;
            digits.pop();
            assert(digits@ =~= before.drop_last());
        }
        assert(strip_trailing_zeros(digits@) == digits@);
        let n = digits.len();
        let mut i: usize = 0;
        let ghost mid = out@;
        while i < n
            invariant
                n == digits@.len(),
                i <= n,
                out@ == mid + digits@.subrange(0, i as int),
            decreases n - i,
        {
            out.push(digits[i]);
            i = i + 1;
            assert(out@ =~= mid + digits@.subrange(0, i as int));
        }
        assert(digits@.subrange(0, n as int) =~= digits@);
    }
    proof {
        let mm = if v < 0 { (-v) as nat } else { v as nat };
        assert(mm == m as nat);
        assert(out@ =~= decimal_lexical(v as int));
        lemma_nat_digits((m / scale) as nat);
        lemma_padded_digits_ascii((m % scale) as nat, 18);
        lemma_strip_prefix(padded_digits((m % scale) as nat, 18));
        let s = out@;
        assert forall|i: int| 0 <= i < s.len() implies #[trigger] s[i] < 0x80 by {
            let sign_len: int = if v < 0 { 1 } else { 0 };
            let d = nat_digits((m / scale) as nat);
            if i >= sign_len && i < sign_len + d.len() {
                assert(s[i] == d[i - sign_len]);
            } else if i > sign_len + d.len() {
                let t = strip_trailing_zeros(padded_digits((m % scale) as nat, 18));
                assert(s[i] == t[i - sign_len - d.len() - 1]);
                assert(t[i - sign_len - d.len() - 1] == padded_digits((m % scale) as nat, 18)[i
                    - sign_len - d.len() - 1]);
            }
        }
        lemma_ascii_valid_utf8(out@);
    }
    match string_from_utf8(out) {
        Some(s) => s,
        None => String::new(),
    }
}

fn write_integer_part(out: &mut Vec<u8>, n: u128)
    ensures
        final(out)@ == old(out)@ + nat_digits(n as nat),
    decreases n,
{
    if n >= 10 {
        write_integer_part(out, n / 10);
    }
    out.push((48 + n % 10) as u8);
    assert(final(out)@ =~= old(out)@ + nat_digits(n as nat));
}


/// The integer whose canonical lexical form is `b`, if any within 64 bits.
pub fn parse_integer(b: &[u8]) -> (r: Option<i64>)
    ensures
        r matches Some(v) ==> int_lexical(v as int) == b@,
        r is None ==> forall|v: i64| int_lexical(v as int) != b@,
{
    let n = b.len();
    if n == 0 {
        proof {
            assert forall|v: i64| int_lexical(v as int) != b@ by {
                lemma_nat_digits(if v < 0 { (-v) as nat } else { v as nat });
            }
        }
        return None;
    }
    let negative = b[0] == 45u8;
    let start: usize = if negative { 1 } else { 0 };
    let ghost digits = b@.subrange(start as int, n as int);
    let mut acc: u64 = 0;
    let mut i: usize = start;
    let mut ok = true;
    while i < n
        invariant
            n == b@.len(),
            start <= i <= n,
            start <= 1,
            digits == b@.subrange(start as int, n as int),
            ok ==> acc as nat == digits_value(b@.subrange(start as int, i as int)),
            ok ==> all_digits(b@.subrange(start as int, i as int)),
            start == (if b@[0] == 45 { 1int } else { 0int }),
            !ok ==> forall|w: i64| int_lexical(w as int) != b@,
        decreases n - i,
    {
        let c = b[i];
        if ok {
            if c < 48 || c > 57 || acc > 1_000_000_000_000_000_000u64 {
                proof {
                    assert forall|w: i64| int_lexical(w as int) != b@ by {
                        if int_lexical(w as int) == b@ {
                            lemma_parse_complete(b@, w as int, start as int);
                            lemma_parse_no_bail(b@, w as int, start as int);
                            assert(b@.subrange(start as int, n as int)[i - start] == c);
                        }
                    }
                }
                ok = false;
            } else {
                proof {
                    assert(b@.subrange(start as int, i + 1).drop_last() =~= b@.subrange(
                        start as int,
                        i as int,
                    ));
                }
                acc = acc * 10 + (c - 48) as u64;
                proof {
                    assert forall|j: int| 0 <= j < i + 1 - start implies 48 <= #[trigger] b@.subrange(
                        start as int,
                        i + 1,
                    )[j] <= 57 by {
                        if j < i - start {
                            assert(b@.subrange(start as int, i + 1)[j] == b@.subrange(
                                start as int,
                                i as int,
                            )[j]);
                        }
                    }
                }
            }
        }
        i = i + 1;
    }
    let candidate: Option<i64> = if !ok {
        None
    } else if negative {
        if acc <= 0x8000_0000_0000_0000u64 && acc > 0 {
            Some((-((acc - 1) as i64)) - 1)
        } else {
            None
        }
    } else if acc <= 0x7fff_ffff_ffff_ffffu64 {
        Some(acc as i64)
    } else {
        None
    };
    match candidate {
        Some(v) => {
            let f = format_integer(v);
            if bytes_eq(f.as_slice(), b) {
                Some(v)
            } else {
                proof {
                    assert forall|w: i64| int_lexical(w as int) != b@ by {
                        if int_lexical(w as int) == b@ {
                            lemma_parse_complete(b@, w as int, start as int);
                        }
                    }
                }
                None
            }
        },
        None => {
            proof {
                assert forall|w: i64| int_lexical(w as int) != b@ by {
                    if int_lexical(w as int) == b@ {
                        lemma_parse_complete(b@, w as int, start as int);
                        assert(b@.subrange(start as int, n as int) =~= digits);
                    }
                }
            }
            None
        },
    }
}

/// The digits of a canonical lexical form start after the sign and give the magnitude.
proof fn lemma_parse_complete(b: Seq<u8>, w: int, start: int)
    requires
        int_lexical(w) == b,
        b.len() > 0,
        start == (if b[0] == 45 { 1int } else { 0int }),
    ensures
        all_digits(b.subrange(start, b.len() as int)),
        digits_value(b.subrange(start, b.len() as int)) == (if w < 0 { -w } else { w }),
        (w < 0) == (b[0] == 45),
{
    let m = if w < 0 { (-w) as nat } else { w as nat };
    lemma_nat_digits(m);
    if w < 0 {
        assert(b.subrange(1, b.len() as int) =~= nat_digits(m));
    } else {
        assert(b.subrange(0, b.len() as int) =~= nat_digits(m));
    }
}

proof fn lemma_parse_no_bail(b: Seq<u8>, w: int, start: int)
    requires
        int_lexical(w) == b,
        b.len() > 0,
        start == (if b[0] == 45 { 1int } else { 0int }),
        -0x8000_0000_0000_0000 <= w < 0x8000_0000_0000_0000,
    ensures
        forall|i: int|
            start <= i < b.len() ==> digits_value(#[trigger] b.subrange(start, i))
                <= 1_000_000_000_000_000_000,
{
    lemma_parse_complete(b, w, start);
    assert forall|i: int| start <= i < b.len() implies digits_value(#[trigger] b.subrange(start, i))
        <= 1_000_000_000_000_000_000 by {
        lemma_digits_prefix_bound(b.subrange(start, b.len() as int), i - start);
        assert(b.subrange(start, b.len() as int).subrange(0, i - start) =~= b.subrange(start, i));
    }
}

/// A proper prefix of digits is worth at most a tenth of the whole.
proof fn lemma_digits_prefix_bound(s: Seq<u8>, k: int)
    requires
        all_digits(s),
        0 <= k < s.len(),
    ensures
        digits_value(s.subrange(0, k)) * 10 <= digits_value(s),
    decreases s.len(),
{
    let r = s.drop_last();
    assert(all_digits(r));
    if k < s.len() - 1 {
        lemma_digits_prefix_bound(r, k);
        assert(r.subrange(0, k) =~= s.subrange(0, k));
    } else {
        assert(s.subrange(0, k) =~= r);
    }
    let a = digits_value(s.subrange(0, k));
    let v = digits_value(r);
    assert(a * 10 <= v * 10) by (nonlinear_arith)
        requires
            a * 10 <= v || a == v,
            a >= 0,
    ;
}

} // verus!
