//! String identifiers: the 128-bit content hash and the inline small string.
use siphasher::sip128::Hasher128;
use vstd::prelude::*;
use vstd::utf8::{encode_utf8, valid_utf8};

use crate::bytes::{be_array16, be_bytes, be_value, lemma_be_round_trip, lemma_pow256_values, read_be};

verus! {

broadcast use vstd::utf8::encode_utf8_valid_utf8;

/// The UTF-8 bytes of a character sequence.
pub open spec fn utf8_of(s: Seq<char>) -> Seq<u8> {
    encode_utf8(s)
}

/// The 128-bit SipHash-2-4 digest (zero keys) of a byte sequence.
pub uninterp spec fn sip_hash_128(bytes: Seq<u8>) -> u128;

/// Relies on siphasher's `SipHasher24` (keys zero) and `Hasher128::finish128`:
/// the digest depends on the bytes alone.
#[verifier::external_body]
fn sip_hash(bytes: &[u8]) -> (r: u128)
    ensures
        r == sip_hash_128(bytes@),
{
    let mut hasher = siphasher::sip128::SipHasher24::new();
    std::hash::Hasher::write(&mut hasher, bytes);
    hasher.finish128().into()
}

/// Relies on `String::from_utf8`: it accepts exactly the valid UTF-8 byte
/// sequences and keeps their bytes.
#[verifier::external_body]
pub(crate) fn string_from_utf8(bytes: Vec<u8>) -> (r: Option<String>)
    ensures
        r is Some <==> valid_utf8(bytes@),
        r matches Some(s) ==> utf8_of(s@) == bytes@,
{
    String::from_utf8(bytes).ok()
}

/// The dictionary key of a string: the hash of its UTF-8 bytes.
#[derive(PartialEq, Eq, Structural, Clone, Copy, Debug, Hash)]
pub struct StrHash {
    pub hash: u128,
}

/// The hash under which the string `s` is registered.
pub open spec fn str_hash_of(s: Seq<char>) -> StrHash {
    StrHash { hash: sip_hash_128(utf8_of(s)) }
}

impl StrHash {
    pub fn new(value: &str) -> (r: Self)
        ensures
            r == str_hash_of(value@),
    {
        StrHash { hash: sip_hash(value.as_bytes()) }
    }

    pub fn from_be_bytes(bytes: [u8; 16]) -> (r: Self)
        ensures
            r.hash as nat == be_value(bytes@),
    {
        let v = read_be(bytes.as_slice(), 0, 16);
        assert(bytes@.subrange(0, 16) =~= bytes@);
        StrHash { hash: v }
    }

    pub fn to_be_bytes(self) -> (r: [u8; 16])
        ensures
            r@ == be_bytes(self.hash as nat, 16),
            be_value(r@) == self.hash as nat,
    {
        proof {
            lemma_pow256_values();
            lemma_be_round_trip(self.hash as nat, 16);
        }
        be_array16(self.hash)
    }
}

/// A string of at most 15 UTF-8 bytes held inline in 16 bytes: a length byte
/// followed by the content, the rest zero.
#[derive(Clone, Copy, Debug, PartialEq, Eq, Hash)]
pub struct SmallString {
    inner: [u8; 16],
}

/// The 16 bytes of a small string with the same length byte and content as
/// `b`, the padding cleared.
pub open spec fn small_normalized(b: Seq<u8>) -> Seq<u8> {
    Seq::new(16, |i: int| if i <= b[0] { b[i] } else { 0u8 })
}

/// Whether `b` is a well-formed 16-byte small string field: a length of at most
/// 15 followed by that many bytes of valid UTF-8.
pub open spec fn small_field_ok(b: Seq<u8>) -> bool {
    b.len() == 16 && b[0] <= 15 && valid_utf8(b.subrange(1, 1 + b[0]))
}

/// The inline form of a string whose UTF-8 bytes fit in 15.
pub closed spec fn small_of(s: Seq<char>) -> SmallString {
    choose|x: SmallString| x.wf() && x@ == utf8_of(s)
}

/// The small string that a well-formed field holds.
pub closed spec fn small_from_field(b: Seq<u8>) -> SmallString {
    choose|s: SmallString| s.inner@ == small_normalized(b)
}


/// An array holding the first `n` bytes of `b`, the rest zero.
spec fn array_prefix(b: Seq<u8>, n: nat) -> [u8; 16]
    decreases n,
{
    if n == 0 {
        vstd::array::spec_array_fill_for_copy_type::<u8, 16>(0u8)
    } else {
        vstd::array::spec_array_update(array_prefix(b, (n - 1) as nat), n - 1, b[n - 1])
    }
}

proof fn lemma_array_prefix(b: Seq<u8>, n: nat)
    requires
        n <= 16,
        n <= b.len(),
    ensures
        array_prefix(b, n)@ == Seq::new(16, |i: int| if i < n { b[i] } else { 0u8 }),
    decreases n,
{
    broadcast use vstd::array::group_array_axioms;

    if n == 0 {
        let a = vstd::array::spec_array_fill_for_copy_type::<u8, 16>(0u8);
        assert(a@ =~= Seq::new(16, |i: int| 0u8));
    } else {
        lemma_array_prefix(b, (n - 1) as nat);
        vstd::array::axiom_spec_array_update(array_prefix(b, (n - 1) as nat), n - 1, b[n - 1]);
        assert(array_prefix(b, n)@ =~= Seq::new(16, |i: int| if i < n { b[i] } else { 0u8 }));
    }
}

/// A string whose UTF-8 bytes fit in 15 has an inline form with those bytes.
pub proof fn lemma_small_of(s: Seq<char>)
    requires
        utf8_of(s).len() <= 15,
    ensures
        small_of(s).wf(),
        small_of(s)@ == utf8_of(s),
{
    let c = utf8_of(s);
    let b = seq![c.len() as u8] + c;
    lemma_array_prefix(b, b.len());
    let x = SmallString { inner: array_prefix(b, b.len()) };
    assert(x.inner@.subrange(1, 1 + x.inner@[0]) =~= c);
    assert(small_normalized(x.inner@) =~= x.inner@);
    assert(x.wf() && x@ == c);
}

impl View for SmallString {
    type V = Seq<u8>;

    /// The content bytes.
    closed spec fn view(&self) -> Seq<u8> {
        self.inner@.subrange(1, 1 + self.inner@[0])
    }
}

impl SmallString {
    /// The 16 bytes that encode this string.
    pub closed spec fn field(&self) -> Seq<u8> {
        self.inner@
    }

    /// Length at most 15, valid UTF-8 content and cleared padding.
    pub closed spec fn wf(&self) -> bool {
        small_field_ok(self.inner@) && small_normalized(self.inner@) == self.inner@
    }

    pub proof fn lemma_field(&self)
        requires
            self.wf(),
        ensures
            self.field().len() == 16,
            small_field_ok(self.field()),
            small_from_field(self.field()) == *self,
            self@.len() <= 15,
            valid_utf8(self@),
    {
        let c = small_from_field(self.inner@);
        assert(c.inner@ == small_normalized(self.inner@));
        assert(c.inner =~= self.inner);
    }

    /// Two well-formed small strings with the same content are equal.
    pub proof fn lemma_content_eq(&self, other: &SmallString)
        requires
            self.wf(),
            other.wf(),
            self@ == other@,
        ensures
            *self == *other,
    {
        assert(self.inner@[0] == self@.len());
        assert(other.inner@[0] == other@.len());
        assert forall|i: int| 0 <= i < 16 implies self.inner@[i] == other.inner@[i] by {
            if 1 <= i <= self.inner@[0] {
                assert(self.inner@[i] == self@[i - 1]);
                assert(other.inner@[i] == other@[i - 1]);
            } else if i > self.inner@[0] {
                assert(self.inner@[i] == small_normalized(self.inner@)[i]);
                assert(other.inner@[i] == small_normalized(other.inner@)[i]);
            }
        }
        assert(self.inner =~= other.inner);
    }

    /// The inline form of `value`, or `None` where its UTF-8 bytes exceed 15.
    pub fn from_str(value: &str) -> (r: Option<SmallString>)
        ensures
            r is Some <==> utf8_of(value@).len() <= 15,
            r matches Some(s) ==> s.wf() && s@ == utf8_of(value@) && s == small_of(value@),
    {
        let b = value.as_bytes();
        let n = b.len();
        if n > 15 {
            return None;
        }
        let mut inner: [u8; 16] = [0u8; 16];
        inner[0] = n as u8;
        let mut i: usize = 0;
        while i < n
            invariant
                n <= 15,
                n == b@.len(),
                b@ == utf8_of(value@),
                i <= n,
                inner@.len() == 16,
                inner@[0] == n,
                forall|j: int| 1 <= j <= i ==> inner@[j] == b@[j - 1],
                forall|j: int| i < j < 16 ==> inner@[j] == 0,
            decreases n - i,
        {
            inner[i + 1] = b[i];
            i = i + 1;
        }
        let s = SmallString { inner };
        assert(s@ =~= b@);
        assert(small_normalized(inner@) =~= inner@);
        proof {
            let c = small_of(value@);
            assert(c.wf() && c@ == utf8_of(value@));
            s.lemma_content_eq(&c);
        }
        Some(s)
    }

    /// Reads a small string field of 16 bytes at `pos`.
    pub fn read_field(buf: &[u8], pos: usize) -> (r: Option<SmallString>)
        requires
            pos + 16 <= buf@.len(),
        ensures
            r is Some <==> small_field_ok(buf@.subrange(pos as int, pos + 16)),
            r matches Some(s) ==> s == small_from_field(buf@.subrange(pos as int, pos + 16))
                && s.wf(),
    {
        let ghost f = buf@.subrange(pos as int, pos + 16);
        let len = buf.len();
        let n = buf[pos];
        if n > 15 {
            return None;
        }
        let mut inner: [u8; 16] = [0u8; 16];
        inner[0] = n;
        let mut content: Vec<u8> = Vec::new();
        let mut i: usize = 0;
        while i < n as usize
            invariant
                n <= 15,
                len == buf@.len(),
                pos + 16 <= buf@.len(),
                f == buf@.subrange(pos as int, pos + 16),
                i <= n,
                inner@.len() == 16,
                inner@[0] == n,
                content@ == f.subrange(1, 1 + i),
                forall|j: int| 1 <= j <= i ==> inner@[j] == f[j],
                forall|j: int| i < j < 16 ==> inner@[j] == 0,
            decreases n - i,
        {
            let b = buf[pos + 1 + i];
            inner[i + 1] = b;
            content.push(b);
            i = i + 1;
            assert(content@ =~= f.subrange(1, 1 + i));
        }
        if string_from_utf8(content).is_none() {
            return None;
        }
        let s = SmallString { inner };
        assert(inner@ =~= small_normalized(f));
        assert(small_normalized(inner@) =~= inner@);
        assert(s@ =~= f.subrange(1, 1 + n));
        proof {
            let c = small_from_field(f);
            assert(c.inner@ == small_normalized(f));
            assert(c.inner =~= s.inner);
        }
        Some(s)
    }

    /// The 16 bytes that encode this string.
    pub fn to_be_bytes(&self) -> (r: [u8; 16])
        ensures
            r@ == self.field(),
    {
        self.inner
    }

    /// The content as an owned string.
    pub fn to_string(&self) -> (r: String)
        requires
            self.wf(),
        ensures
            utf8_of(r@) == self@,
    {
        let n = self.inner[0];
        let mut content: Vec<u8> = Vec::new();
        let mut i: usize = 0;
        while i < n as usize
            invariant
                self.wf(),
                n == self.inner@[0],
                i <= n,
                content@ == self@.subrange(0, i as int),
            decreases n - i,
        {
            content.push(self.inner[i + 1]);
            i = i + 1;
            assert(content@ =~= self@.subrange(0, i as int));
        }
        assert(content@ =~= self@);
        match string_from_utf8(content) {
            Some(s) => s,
            None => {
                proof {
                    self.lemma_field();
                }
                String::new()
            },
        }
    }
}

} // verus!
