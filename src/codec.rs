//! The binary term codec: a tag byte followed by a fixed-width payload.
use vstd::prelude::*;

use crate::bytes::{
    be_bytes, be_value, from_twos_complement, i128_from_bits, i128_to_bits, i64_from_bits,
    i64_to_bits, lemma_be_bytes_len, lemma_be_round_trip, lemma_be_value_bound, lemma_pow256_values,
    pow256, read_be, twos_complement, write_be,
};
use crate::error::DecodeError;
use crate::model::{small_field_ok, small_from_field, SmallString, StrHash};

verus! {

pub const TYPE_NAMED_NODE_ID: u8 = 1;
pub const TYPE_NUMERICAL_BLANK_NODE_ID: u8 = 8;
pub const TYPE_SMALL_BLANK_NODE_ID: u8 = 9;
pub const TYPE_BIG_BLANK_NODE_ID: u8 = 10;
pub const TYPE_SMALL_STRING_LITERAL: u8 = 16;
pub const TYPE_BIG_STRING_LITERAL: u8 = 17;
pub const TYPE_SMALL_SMALL_LANG_STRING_LITERAL: u8 = 20;
pub const TYPE_SMALL_BIG_LANG_STRING_LITERAL: u8 = 21;
pub const TYPE_BIG_SMALL_LANG_STRING_LITERAL: u8 = 22;
pub const TYPE_BIG_BIG_LANG_STRING_LITERAL: u8 = 23;
pub const TYPE_SMALL_TYPED_LITERAL: u8 = 24;
pub const TYPE_BIG_TYPED_LITERAL: u8 = 25;
pub const TYPE_BOOLEAN_LITERAL_TRUE: u8 = 28;
pub const TYPE_BOOLEAN_LITERAL_FALSE: u8 = 29;
pub const TYPE_FLOAT_LITERAL: u8 = 30;
pub const TYPE_DOUBLE_LITERAL: u8 = 31;
pub const TYPE_INTEGER_LITERAL: u8 = 32;
pub const TYPE_DECIMAL_LITERAL: u8 = 33;
pub const TYPE_DATE_TIME_LITERAL: u8 = 34;
pub const TYPE_TIME_LITERAL: u8 = 35;
pub const TYPE_DATE_LITERAL: u8 = 36;
pub const TYPE_G_YEAR_MONTH_LITERAL: u8 = 37;
pub const TYPE_G_YEAR_LITERAL: u8 = 38;
pub const TYPE_G_MONTH_DAY_LITERAL: u8 = 39;
pub const TYPE_G_DAY_LITERAL: u8 = 40;
pub const TYPE_G_MONTH_LITERAL: u8 = 41;
pub const TYPE_DURATION_LITERAL: u8 = 42;
pub const TYPE_YEAR_MONTH_DURATION_LITERAL: u8 = 43;
pub const TYPE_DAY_TIME_DURATION_LITERAL: u8 = 44;

/// A date or time value: a 128-bit fixed-point instant and the raw 16-bit
/// time zone field.
#[derive(Clone, Copy, Debug, PartialEq, Eq, Hash)]
pub struct Timestamp {
    pub value: i128,
    pub timezone: u16,
}

/// A duration: months and 128-bit fixed-point seconds.
#[derive(Clone, Copy, Debug, PartialEq, Eq, Hash)]
pub struct DurationValue {
    pub months: i64,
    pub seconds: i128,
}

/// A term in its compact form: strings longer than 15 bytes are replaced by
/// their dictionary hash. Floating-point values are held as their IEEE bits.
#[derive(Clone, Copy, Debug, PartialEq, Eq, Hash)]
#[allow(inconsistent_fields)]
pub enum EncodedTerm {
    DefaultGraph,
    NamedNode { iri_id: StrHash },
    NumericalBlankNode { id: u128 },
    SmallBlankNode(SmallString),
    BigBlankNode { id_id: StrHash },
    SmallStringLiteral(SmallString),
    BigStringLiteral { value_id: StrHash },
    SmallSmallLangStringLiteral { value: SmallString, language: SmallString },
    SmallBigLangStringLiteral { value: SmallString, language_id: StrHash },
    BigSmallLangStringLiteral { value_id: StrHash, language: SmallString },
    BigBigLangStringLiteral { value_id: StrHash, language_id: StrHash },
    SmallTypedLiteral { value: SmallString, datatype_id: StrHash },
    BigTypedLiteral { value_id: StrHash, datatype_id: StrHash },
    BooleanLiteral(bool),
    FloatLiteral { bits: u32 },
    DoubleLiteral { bits: u64 },
    IntegerLiteral(i64),
    DecimalLiteral { value: i128 },
    DateTimeLiteral(Timestamp),
    TimeLiteral(Timestamp),
    DateLiteral(Timestamp),
    GYearMonthLiteral(Timestamp),
    GYearLiteral(Timestamp),
    GMonthDayLiteral(Timestamp),
    GDayLiteral(Timestamp),
    GMonthLiteral(Timestamp),
    DurationLiteral(DurationValue),
    YearMonthDurationLiteral { months: i64 },
    DayTimeDurationLiteral { seconds: i128 },
}

/// A quad of encoded terms.
#[derive(Clone, Copy, Debug, PartialEq, Eq, Hash)]
pub struct EncodedQuad {
    pub subject: EncodedTerm,
    pub predicate: EncodedTerm,
    pub object: EncodedTerm,
    pub graph_name: EncodedTerm,
}

impl EncodedQuad {
    pub fn new(
        subject: EncodedTerm,
        predicate: EncodedTerm,
        object: EncodedTerm,
        graph_name: EncodedTerm,
    ) -> (r: Self)
        ensures
            r == (EncodedQuad { subject, predicate, object, graph_name }),
    {
        EncodedQuad { subject, predicate, object, graph_name }
    }
}

impl EncodedTerm {
    /// Every inline string of the term is well formed.
    pub open spec fn wf(&self) -> bool {
        match *self {
            EncodedTerm::SmallBlankNode(s) => s.wf(),
            EncodedTerm::SmallStringLiteral(s) => s.wf(),
            EncodedTerm::SmallSmallLangStringLiteral { value, language } => value.wf()
                && language.wf(),
            EncodedTerm::SmallBigLangStringLiteral { value, .. } => value.wf(),
            EncodedTerm::BigSmallLangStringLiteral { language, .. } => language.wf(),
            EncodedTerm::SmallTypedLiteral { value, .. } => value.wf(),
            _ => true,
        }
    }

    pub open spec fn is_default_graph_spec(&self) -> bool {
        *self is DefaultGraph
    }

    #[verifier::when_used_as_spec(is_default_graph_spec)]
    pub fn is_default_graph(&self) -> (r: bool)
        ensures
            r == self.is_default_graph_spec(),
    {
        match self {
            EncodedTerm::DefaultGraph => true,
            _ => false,
        }
    }

    pub fn to_bytes(self) -> (r: Vec<u8>)
        ensures
            r@ == spec_encode_term(self),
    {
        encode_term(self)
    }

    pub fn from_bytes(data: &[u8]) -> (r: Self)
        requires
            spec_decode_term(data@) is Some,
        ensures
            spec_decode_term(data@) == Some(r),
    {
        match decode_term(data) {
            Ok(t) => t,
            Err(_) => EncodedTerm::DefaultGraph,
        }
    }
}

/// The tag byte of each variant; the default graph has none.
pub open spec fn tag_of(t: EncodedTerm) -> u8 {
    match t {
        EncodedTerm::DefaultGraph => 0,
        EncodedTerm::NamedNode { .. } => TYPE_NAMED_NODE_ID,
        EncodedTerm::NumericalBlankNode { .. } => TYPE_NUMERICAL_BLANK_NODE_ID,
        EncodedTerm::SmallBlankNode(_) => TYPE_SMALL_BLANK_NODE_ID,
        EncodedTerm::BigBlankNode { .. } => TYPE_BIG_BLANK_NODE_ID,
        EncodedTerm::SmallStringLiteral(_) => TYPE_SMALL_STRING_LITERAL,
        EncodedTerm::BigStringLiteral { .. } => TYPE_BIG_STRING_LITERAL,
        EncodedTerm::SmallSmallLangStringLiteral { .. } => TYPE_SMALL_SMALL_LANG_STRING_LITERAL,
        EncodedTerm::SmallBigLangStringLiteral { .. } => TYPE_SMALL_BIG_LANG_STRING_LITERAL,
        EncodedTerm::BigSmallLangStringLiteral { .. } => TYPE_BIG_SMALL_LANG_STRING_LITERAL,
        EncodedTerm::BigBigLangStringLiteral { .. } => TYPE_BIG_BIG_LANG_STRING_LITERAL,
        EncodedTerm::SmallTypedLiteral { .. } => TYPE_SMALL_TYPED_LITERAL,
        EncodedTerm::BigTypedLiteral { .. } => TYPE_BIG_TYPED_LITERAL,
        EncodedTerm::BooleanLiteral(true) => TYPE_BOOLEAN_LITERAL_TRUE,
        EncodedTerm::BooleanLiteral(false) => TYPE_BOOLEAN_LITERAL_FALSE,
        EncodedTerm::FloatLiteral { .. } => TYPE_FLOAT_LITERAL,
        EncodedTerm::DoubleLiteral { .. } => TYPE_DOUBLE_LITERAL,
        EncodedTerm::IntegerLiteral(_) => TYPE_INTEGER_LITERAL,
        EncodedTerm::DecimalLiteral { .. } => TYPE_DECIMAL_LITERAL,
        EncodedTerm::DateTimeLiteral(_) => TYPE_DATE_TIME_LITERAL,
        EncodedTerm::TimeLiteral(_) => TYPE_TIME_LITERAL,
        EncodedTerm::DateLiteral(_) => TYPE_DATE_LITERAL,
        EncodedTerm::GYearMonthLiteral(_) => TYPE_G_YEAR_MONTH_LITERAL,
        EncodedTerm::GYearLiteral(_) => TYPE_G_YEAR_LITERAL,
        EncodedTerm::GMonthDayLiteral(_) => TYPE_G_MONTH_DAY_LITERAL,
        EncodedTerm::GDayLiteral(_) => TYPE_G_DAY_LITERAL,
        EncodedTerm::GMonthLiteral(_) => TYPE_G_MONTH_LITERAL,
        EncodedTerm::DurationLiteral(_) => TYPE_DURATION_LITERAL,
        EncodedTerm::YearMonthDurationLiteral { .. } => TYPE_YEAR_MONTH_DURATION_LITERAL,
        EncodedTerm::DayTimeDurationLiteral { .. } => TYPE_DAY_TIME_DURATION_LITERAL,
    }
}

/// The payload width that follows each tag, or -1 for an unknown tag.
pub open spec fn payload_width(tag: u8) -> int {
    if tag == TYPE_NAMED_NODE_ID || tag == TYPE_NUMERICAL_BLANK_NODE_ID || tag
        == TYPE_SMALL_BLANK_NODE_ID || tag == TYPE_BIG_BLANK_NODE_ID || tag
        == TYPE_SMALL_STRING_LITERAL || tag == TYPE_BIG_STRING_LITERAL || tag
        == TYPE_DECIMAL_LITERAL || tag == TYPE_DAY_TIME_DURATION_LITERAL {
        16
    } else if TYPE_SMALL_SMALL_LANG_STRING_LITERAL <= tag <= TYPE_BIG_TYPED_LITERAL {
        32
    } else if tag == TYPE_BOOLEAN_LITERAL_TRUE || tag == TYPE_BOOLEAN_LITERAL_FALSE {
        0
    } else if tag == TYPE_FLOAT_LITERAL {
        4
    } else if tag == TYPE_DOUBLE_LITERAL || tag == TYPE_INTEGER_LITERAL || tag
        == TYPE_YEAR_MONTH_DURATION_LITERAL {
        8
    } else if TYPE_DATE_TIME_LITERAL <= tag <= TYPE_G_MONTH_LITERAL {
        18
    } else if tag == TYPE_DURATION_LITERAL {
        24
    } else {
        -1
    }
}

pub open spec fn hash_bytes(h: StrHash) -> Seq<u8> {
    be_bytes(h.hash as nat, 16)
}

pub open spec fn i64_bytes(v: i64) -> Seq<u8> {
    be_bytes(twos_complement(v as int, 0x8000_0000_0000_0000), 8)
}

pub open spec fn i128_bytes(v: i128) -> Seq<u8> {
    be_bytes(twos_complement(v as int, 0x8000_0000_0000_0000_0000_0000_0000_0000), 16)
}

pub open spec fn timestamp_bytes(t: Timestamp) -> Seq<u8> {
    i128_bytes(t.value) + be_bytes(t.timezone as nat, 2)
}

pub open spec fn duration_bytes(d: DurationValue) -> Seq<u8> {
    i64_bytes(d.months) + i128_bytes(d.seconds)
}

/// The payload of a term, in the order it is written.
pub open spec fn payload_of(t: EncodedTerm) -> Seq<u8> {
    match t {
        EncodedTerm::DefaultGraph => Seq::empty(),
        EncodedTerm::NamedNode { iri_id } => hash_bytes(iri_id),
        EncodedTerm::NumericalBlankNode { id } => be_bytes(id as nat, 16),
        EncodedTerm::SmallBlankNode(s) => s.field(),
        EncodedTerm::BigBlankNode { id_id } => hash_bytes(id_id),
        EncodedTerm::SmallStringLiteral(s) => s.field(),
        EncodedTerm::BigStringLiteral { value_id } => hash_bytes(value_id),
        EncodedTerm::SmallSmallLangStringLiteral { value, language } => language.field()
            + value.field(),
        EncodedTerm::SmallBigLangStringLiteral { value, language_id } => hash_bytes(language_id)
            + value.field(),
        EncodedTerm::BigSmallLangStringLiteral { value_id, language } => language.field()
            + hash_bytes(value_id),
        EncodedTerm::BigBigLangStringLiteral { value_id, language_id } => hash_bytes(language_id)
            + hash_bytes(value_id),
        EncodedTerm::SmallTypedLiteral { value, datatype_id } => hash_bytes(datatype_id)
            + value.field(),
        EncodedTerm::BigTypedLiteral { value_id, datatype_id } => hash_bytes(datatype_id)
            + hash_bytes(value_id),
        EncodedTerm::BooleanLiteral(_) => Seq::empty(),
        EncodedTerm::FloatLiteral { bits } => be_bytes(bits as nat, 4),
        EncodedTerm::DoubleLiteral { bits } => be_bytes(bits as nat, 8),
        EncodedTerm::IntegerLiteral(v) => i64_bytes(v),
        EncodedTerm::DecimalLiteral { value } => i128_bytes(value),
        EncodedTerm::DateTimeLiteral(v) => timestamp_bytes(v),
        EncodedTerm::TimeLiteral(v) => timestamp_bytes(v),
        EncodedTerm::DateLiteral(v) => timestamp_bytes(v),
        EncodedTerm::GYearMonthLiteral(v) => timestamp_bytes(v),
        EncodedTerm::GYearLiteral(v) => timestamp_bytes(v),
        EncodedTerm::GMonthDayLiteral(v) => timestamp_bytes(v),
        EncodedTerm::GDayLiteral(v) => timestamp_bytes(v),
        EncodedTerm::GMonthLiteral(v) => timestamp_bytes(v),
        EncodedTerm::DurationLiteral(v) => duration_bytes(v),
        EncodedTerm::YearMonthDurationLiteral { months } => i64_bytes(months),
        EncodedTerm::DayTimeDurationLiteral { seconds } => i128_bytes(seconds),
    }
}

/// The bytes of a term: its tag and its payload. The default graph is empty.
pub open spec fn spec_encode_term(t: EncodedTerm) -> Seq<u8> {
    if t is DefaultGraph {
        Seq::empty()
    } else {
        seq![tag_of(t)] + payload_of(t)
    }
}

pub open spec fn hash_at(b: Seq<u8>, q: int) -> StrHash {
    StrHash { hash: be_value(b.subrange(q, q + 16)) as u128 }
}

pub open spec fn u128_at(b: Seq<u8>, q: int) -> u128 {
    be_value(b.subrange(q, q + 16)) as u128
}

pub open spec fn i64_at(b: Seq<u8>, q: int) -> i64 {
    from_twos_complement(be_value(b.subrange(q, q + 8)), 0x8000_0000_0000_0000) as i64
}

pub open spec fn i128_at(b: Seq<u8>, q: int) -> i128 {
    from_twos_complement(
        be_value(b.subrange(q, q + 16)),
        0x8000_0000_0000_0000_0000_0000_0000_0000,
    ) as i128
}

pub open spec fn timestamp_at(b: Seq<u8>, q: int) -> Timestamp {
    Timestamp { value: i128_at(b, q), timezone: be_value(b.subrange(q + 16, q + 18)) as u16 }
}

pub open spec fn duration_at(b: Seq<u8>, q: int) -> DurationValue {
    DurationValue { months: i64_at(b, q), seconds: i128_at(b, q + 8) }
}

pub open spec fn small_ok_at(b: Seq<u8>, q: int) -> bool {
    small_field_ok(b.subrange(q, q + 16))
}

pub open spec fn small_at(b: Seq<u8>, q: int) -> SmallString {
    small_from_field(b.subrange(q, q + 16))
}

/// The term whose payload starts at `q`, given its tag, where the payload is
/// well formed.
pub open spec fn term_from_payload(tag: u8, b: Seq<u8>, q: int) -> Option<EncodedTerm> {
    if tag == TYPE_NAMED_NODE_ID {
        Some(EncodedTerm::NamedNode { iri_id: hash_at(b, q) })
    } else if tag == TYPE_NUMERICAL_BLANK_NODE_ID {
        Some(EncodedTerm::NumericalBlankNode { id: u128_at(b, q) })
    } else if tag == TYPE_SMALL_BLANK_NODE_ID {
        if small_ok_at(b, q) {
            Some(EncodedTerm::SmallBlankNode(small_at(b, q)))
        } else {
            None
        }
    } else if tag == TYPE_BIG_BLANK_NODE_ID {
        Some(EncodedTerm::BigBlankNode { id_id: hash_at(b, q) })
    } else if tag == TYPE_SMALL_STRING_LITERAL {
        if small_ok_at(b, q) {
            Some(EncodedTerm::SmallStringLiteral(small_at(b, q)))
        } else {
            None
        }
    } else if tag == TYPE_BIG_STRING_LITERAL {
        Some(EncodedTerm::BigStringLiteral { value_id: hash_at(b, q) })
    } else if tag == TYPE_SMALL_SMALL_LANG_STRING_LITERAL {
        if small_ok_at(b, q) && small_ok_at(b, q + 16) {
            Some(
                EncodedTerm::SmallSmallLangStringLiteral {
                    value: small_at(b, q + 16),
                    language: small_at(b, q),
                },
            )
        } else {
            None
        }
    } else if tag == TYPE_SMALL_BIG_LANG_STRING_LITERAL {
        if small_ok_at(b, q + 16) {
            Some(
                EncodedTerm::SmallBigLangStringLiteral {
                    value: small_at(b, q + 16),
                    language_id: hash_at(b, q),
                },
            )
        } else {
            None
        }
    } else if tag == TYPE_BIG_SMALL_LANG_STRING_LITERAL {
        if small_ok_at(b, q) {
            Some(
                EncodedTerm::BigSmallLangStringLiteral {
                    value_id: hash_at(b, q + 16),
                    language: small_at(b, q),
                },
            )
        } else {
            None
        }
    } else if tag == TYPE_BIG_BIG_LANG_STRING_LITERAL {
        Some(
            EncodedTerm::BigBigLangStringLiteral {
                value_id: hash_at(b, q + 16),
                language_id: hash_at(b, q),
            },
        )
    } else if tag == TYPE_SMALL_TYPED_LITERAL {
        if small_ok_at(b, q + 16) {
            Some(
                EncodedTerm::SmallTypedLiteral {
                    value: small_at(b, q + 16),
                    datatype_id: hash_at(b, q),
                },
            )
        } else {
            None
        }
    } else if tag == TYPE_BIG_TYPED_LITERAL {
        Some(
            EncodedTerm::BigTypedLiteral { value_id: hash_at(b, q + 16), datatype_id: hash_at(b, q) },
        )
    } else if tag == TYPE_BOOLEAN_LITERAL_TRUE {
        Some(EncodedTerm::BooleanLiteral(true))
    } else if tag == TYPE_BOOLEAN_LITERAL_FALSE {
        Some(EncodedTerm::BooleanLiteral(false))
    } else if tag == TYPE_FLOAT_LITERAL {
        Some(EncodedTerm::FloatLiteral { bits: be_value(b.subrange(q, q + 4)) as u32 })
    } else if tag == TYPE_DOUBLE_LITERAL {
        Some(EncodedTerm::DoubleLiteral { bits: be_value(b.subrange(q, q + 8)) as u64 })
    } else if tag == TYPE_INTEGER_LITERAL {
        Some(EncodedTerm::IntegerLiteral(i64_at(b, q)))
    } else if tag == TYPE_DECIMAL_LITERAL {
        Some(EncodedTerm::DecimalLiteral { value: i128_at(b, q) })
    } else if tag == TYPE_DATE_TIME_LITERAL {
        Some(EncodedTerm::DateTimeLiteral(timestamp_at(b, q)))
    } else if tag == TYPE_TIME_LITERAL {
        Some(EncodedTerm::TimeLiteral(timestamp_at(b, q)))
    } else if tag == TYPE_DATE_LITERAL {
        Some(EncodedTerm::DateLiteral(timestamp_at(b, q)))
    } else if tag == TYPE_G_YEAR_MONTH_LITERAL {
        Some(EncodedTerm::GYearMonthLiteral(timestamp_at(b, q)))
    } else if tag == TYPE_G_YEAR_LITERAL {
        Some(EncodedTerm::GYearLiteral(timestamp_at(b, q)))
    } else if tag == TYPE_G_MONTH_DAY_LITERAL {
        Some(EncodedTerm::GMonthDayLiteral(timestamp_at(b, q)))
    } else if tag == TYPE_G_DAY_LITERAL {
        Some(EncodedTerm::GDayLiteral(timestamp_at(b, q)))
    } else if tag == TYPE_G_MONTH_LITERAL {
        Some(EncodedTerm::GMonthLiteral(timestamp_at(b, q)))
    } else if tag == TYPE_DURATION_LITERAL {
        Some(EncodedTerm::DurationLiteral(duration_at(b, q)))
    } else if tag == TYPE_YEAR_MONTH_DURATION_LITERAL {
        Some(EncodedTerm::YearMonthDurationLiteral { months: i64_at(b, q) })
    } else if tag == TYPE_DAY_TIME_DURATION_LITERAL {
        Some(EncodedTerm::DayTimeDurationLiteral { seconds: i128_at(b, q) })
    } else {
        None
    }
}

/// Reads the term that starts at `p`: the term and the position after it, or
/// `None` for an unknown tag, a short buffer or a malformed inline string.
pub open spec fn spec_read_term(b: Seq<u8>, p: int) -> Option<(EncodedTerm, int)> {
    if !(0 <= p < b.len()) {
        None
    } else {
        let tag = b[p];
        let w = payload_width(tag);
        if w < 0 || p + 1 + w > b.len() {
            None
        } else {
            match term_from_payload(tag, b, p + 1) {
                Some(t) => Some((t, p + 1 + w)),
                None => None,
            }
        }
    }
}

/// Decodes the term at the start of a buffer.
pub open spec fn spec_decode_term(b: Seq<u8>) -> Option<EncodedTerm> {
    match spec_read_term(b, 0) {
        Some((t, _)) => Some(t),
        None => None,
    }
}

fn push_bytes(sink: &mut Vec<u8>, bytes: &[u8])
    ensures
        final(sink)@ == old(sink)@ + bytes@,
{
    let n = bytes.len();
    let mut i: usize = 0;
    while i < n
        invariant
            n == bytes@.len(),
            i <= n,
            sink@ == old(sink)@ + bytes@.subrange(0, i as int),
        decreases n - i,
    {
        sink.push(bytes[i]);
        i = i + 1;
        assert(sink@ =~= old(sink)@ + bytes@.subrange(0, i as int));
    }
    assert(bytes@.subrange(0, n as int) =~= bytes@);
}

fn write_hash(sink: &mut Vec<u8>, h: StrHash)
    ensures
        final(sink)@ == old(sink)@ + hash_bytes(h),
{
    write_be(sink, h.hash, 16);
}

fn write_small(sink: &mut Vec<u8>, s: SmallString)
    ensures
        final(sink)@ == old(sink)@ + s.field(),
{
    let a = s.to_be_bytes();
    push_bytes(sink, a.as_slice());
}

fn write_i64(sink: &mut Vec<u8>, v: i64)
    ensures
        final(sink)@ == old(sink)@ + i64_bytes(v),
{
    write_be(sink, i64_to_bits(v) as u128, 8);
}

fn write_i128(sink: &mut Vec<u8>, v: i128)
    ensures
        final(sink)@ == old(sink)@ + i128_bytes(v),
{
    write_be(sink, i128_to_bits(v), 16);
}

fn write_timestamp(sink: &mut Vec<u8>, v: Timestamp)
    ensures
        final(sink)@ == old(sink)@ + timestamp_bytes(v),
{
    write_i128(sink, v.value);
    write_be(sink, v.timezone as u128, 2);
    assert(final(sink)@ =~= old(sink)@ + timestamp_bytes(v));
}

fn write_duration(sink: &mut Vec<u8>, v: DurationValue)
    ensures
        final(sink)@ == old(sink)@ + duration_bytes(v),
{
    write_i64(sink, v.months);
    write_i128(sink, v.seconds);
    assert(final(sink)@ =~= old(sink)@ + duration_bytes(v));
}

/// Appends the encoding of `term` to `sink`.
pub fn write_term(sink: &mut Vec<u8>, term: EncodedTerm)
    ensures
        final(sink)@ == old(sink)@ + spec_encode_term(term),
{
    let ghost start = sink@;
    match term {
        EncodedTerm::DefaultGraph => {},
        EncodedTerm::NamedNode { iri_id } => {
            sink.push(TYPE_NAMED_NODE_ID);
            write_hash(sink, iri_id);
        },
        EncodedTerm::NumericalBlankNode { id } => {
            sink.push(TYPE_NUMERICAL_BLANK_NODE_ID);
            write_be(sink, id, 16);
        },
        EncodedTerm::SmallBlankNode(id) => {
            sink.push(TYPE_SMALL_BLANK_NODE_ID);
            write_small(sink, id);
        },
        EncodedTerm::BigBlankNode { id_id } => {
            sink.push(TYPE_BIG_BLANK_NODE_ID);
            write_hash(sink, id_id);
        },
        EncodedTerm::SmallStringLiteral(value) => {
            sink.push(TYPE_SMALL_STRING_LITERAL);
            write_small(sink, value);
        },
        EncodedTerm::BigStringLiteral { value_id } => {
            sink.push(TYPE_BIG_STRING_LITERAL);
            write_hash(sink, value_id);
        },
        EncodedTerm::SmallSmallLangStringLiteral { value, language } => {
            sink.push(TYPE_SMALL_SMALL_LANG_STRING_LITERAL);
            write_small(sink, language);
            write_small(sink, value);
        },
        EncodedTerm::SmallBigLangStringLiteral { value, language_id } => {
            sink.push(TYPE_SMALL_BIG_LANG_STRING_LITERAL);
            write_hash(sink, language_id);
            write_small(sink, value);
        },
        EncodedTerm::BigSmallLangStringLiteral { value_id, language } => {
            sink.push(TYPE_BIG_SMALL_LANG_STRING_LITERAL);
            write_small(sink, language);
            write_hash(sink, value_id);
        },
        EncodedTerm::BigBigLangStringLiteral { value_id, language_id } => {
            sink.push(TYPE_BIG_BIG_LANG_STRING_LITERAL);
            write_hash(sink, language_id);
            write_hash(sink, value_id);
        },
        EncodedTerm::SmallTypedLiteral { value, datatype_id } => {
            sink.push(TYPE_SMALL_TYPED_LITERAL);
            write_hash(sink, datatype_id);
            write_small(sink, value);
        },
        EncodedTerm::BigTypedLiteral { value_id, datatype_id } => {
            sink.push(TYPE_BIG_TYPED_LITERAL);
            write_hash(sink, datatype_id);
            write_hash(sink, value_id);
        },
        EncodedTerm::BooleanLiteral(true) => sink.push(TYPE_BOOLEAN_LITERAL_TRUE),
        EncodedTerm::BooleanLiteral(false) => sink.push(TYPE_BOOLEAN_LITERAL_FALSE),
        EncodedTerm::FloatLiteral { bits } => {
            sink.push(TYPE_FLOAT_LITERAL);
            write_be(sink, bits as u128, 4);
        },
        EncodedTerm::DoubleLiteral { bits } => {
            sink.push(TYPE_DOUBLE_LITERAL);
            write_be(sink, bits as u128, 8);
        },
        EncodedTerm::IntegerLiteral(value) => {
            sink.push(TYPE_INTEGER_LITERAL);
            write_i64(sink, value);
        },
        EncodedTerm::DecimalLiteral { value } => {
            sink.push(TYPE_DECIMAL_LITERAL);
            write_i128(sink, value);
        },
        EncodedTerm::DateTimeLiteral(value) => {
            sink.push(TYPE_DATE_TIME_LITERAL);
            write_timestamp(sink, value);
        },
        EncodedTerm::TimeLiteral(value) => {
            sink.push(TYPE_TIME_LITERAL);
            write_timestamp(sink, value);
        },
        EncodedTerm::DateLiteral(value) => {
            sink.push(TYPE_DATE_LITERAL);
            write_timestamp(sink, value);
        },
        EncodedTerm::GYearMonthLiteral(value) => {
            sink.push(TYPE_G_YEAR_MONTH_LITERAL);
            write_timestamp(sink, value);
        },
        EncodedTerm::GYearLiteral(value) => {
            sink.push(TYPE_G_YEAR_LITERAL);
            write_timestamp(sink, value);
        },
        EncodedTerm::GMonthDayLiteral(value) => {
            sink.push(TYPE_G_MONTH_DAY_LITERAL);
            write_timestamp(sink, value);
        },
        EncodedTerm::GDayLiteral(value) => {
            sink.push(TYPE_G_DAY_LITERAL);
            write_timestamp(sink, value);
        },
        EncodedTerm::GMonthLiteral(value) => {
            sink.push(TYPE_G_MONTH_LITERAL);
            write_timestamp(sink, value);
        },
        EncodedTerm::DurationLiteral(value) => {
            sink.push(TYPE_DURATION_LITERAL);
            write_duration(sink, value);
        },
        EncodedTerm::YearMonthDurationLiteral { months } => {
            sink.push(TYPE_YEAR_MONTH_DURATION_LITERAL);
            write_i64(sink, months);
        },
        EncodedTerm::DayTimeDurationLiteral { seconds } => {
            sink.push(TYPE_DAY_TIME_DURATION_LITERAL);
            write_i128(sink, seconds);
        },
    }
    assert(sink@ =~= start + spec_encode_term(term));
}

pub fn encode_term(t: EncodedTerm) -> (r: Vec<u8>)
    ensures
        r@ == spec_encode_term(t),
{
    let mut vec: Vec<u8> = Vec::new();
    write_term(&mut vec, t);
    assert(vec@ =~= spec_encode_term(t));
    vec
}

pub fn encode_term_pair(t1: EncodedTerm, t2: EncodedTerm) -> (r: Vec<u8>)
    ensures
        r@ == spec_encode_term(t1) + spec_encode_term(t2),
{
    let mut vec: Vec<u8> = Vec::new();
    write_term(&mut vec, t1);
    write_term(&mut vec, t2);
    assert(vec@ =~= spec_encode_term(t1) + spec_encode_term(t2));
    vec
}

pub fn encode_term_triple(t1: EncodedTerm, t2: EncodedTerm, t3: EncodedTerm) -> (r: Vec<u8>)
    ensures
        r@ == spec_encode_term(t1) + spec_encode_term(t2) + spec_encode_term(t3),
{
    let mut vec: Vec<u8> = Vec::new();
    write_term(&mut vec, t1);
    write_term(&mut vec, t2);
    write_term(&mut vec, t3);
    assert(vec@ =~= spec_encode_term(t1) + spec_encode_term(t2) + spec_encode_term(t3));
    vec
}

pub fn encode_term_quad(t1: EncodedTerm, t2: EncodedTerm, t3: EncodedTerm, t4: EncodedTerm) -> (r:
    Vec<u8>)
    ensures
        r@ == spec_encode_term(t1) + spec_encode_term(t2) + spec_encode_term(t3)
            + spec_encode_term(t4),
{
    let mut vec: Vec<u8> = Vec::new();
    write_term(&mut vec, t1);
    write_term(&mut vec, t2);
    write_term(&mut vec, t3);
    write_term(&mut vec, t4);
    assert(vec@ =~= spec_encode_term(t1) + spec_encode_term(t2) + spec_encode_term(t3)
        + spec_encode_term(t4));
    vec
}

fn read_hash(buf: &[u8], q: usize) -> (r: StrHash)
    requires
        q + 16 <= buf@.len(),
    ensures
        r == hash_at(buf@, q as int),
{
    StrHash { hash: read_be(buf, q, 16) }
}

fn read_i64(buf: &[u8], q: usize) -> (r: i64)
    requires
        q + 8 <= buf@.len(),
    ensures
        r == i64_at(buf@, q as int),
{
    let u = read_be(buf, q, 8);
    proof {
        lemma_be_value_bound(buf@.subrange(q as int, q + 8));
        lemma_pow256_values();
    }
    i64_from_bits(u as u64)
}

fn read_i128(buf: &[u8], q: usize) -> (r: i128)
    requires
        q + 16 <= buf@.len(),
    ensures
        r == i128_at(buf@, q as int),
{
    i128_from_bits(read_be(buf, q, 16))
}

fn read_timestamp(buf: &[u8], q: usize) -> (r: Timestamp)
    requires
        buf@.len() <= usize::MAX,
        q + 18 <= buf@.len(),
    ensures
        r == timestamp_at(buf@, q as int),
{
    let value = read_i128(buf, q);
    let tz = read_be(buf, q + 16, 2);
    proof {
        lemma_be_value_bound(buf@.subrange(q + 16, q + 18));
        lemma_pow256_values();
    }
    Timestamp { value, timezone: tz as u16 }
}

fn read_duration(buf: &[u8], q: usize) -> (r: DurationValue)
    requires
        buf@.len() <= usize::MAX,
        q + 24 <= buf@.len(),
    ensures
        r == duration_at(buf@, q as int),
{
    DurationValue { months: read_i64(buf, q), seconds: read_i128(buf, q + 8) }
}

fn tag_width(tag: u8) -> (r: usize)
    requires
        payload_width(tag) >= 0,
    ensures
        r == payload_width(tag),
{
    if tag == TYPE_NAMED_NODE_ID || tag == TYPE_NUMERICAL_BLANK_NODE_ID || tag
        == TYPE_SMALL_BLANK_NODE_ID || tag == TYPE_BIG_BLANK_NODE_ID || tag
        == TYPE_SMALL_STRING_LITERAL || tag == TYPE_BIG_STRING_LITERAL || tag
        == TYPE_DECIMAL_LITERAL || tag == TYPE_DAY_TIME_DURATION_LITERAL {
        16
    } else if TYPE_SMALL_SMALL_LANG_STRING_LITERAL <= tag && tag <= TYPE_BIG_TYPED_LITERAL {
        32
    } else if tag == TYPE_BOOLEAN_LITERAL_TRUE || tag == TYPE_BOOLEAN_LITERAL_FALSE {
        0
    } else if tag == TYPE_FLOAT_LITERAL {
        4
    } else if tag == TYPE_DOUBLE_LITERAL || tag == TYPE_INTEGER_LITERAL || tag
        == TYPE_YEAR_MONTH_DURATION_LITERAL {
        8
    } else if TYPE_DATE_TIME_LITERAL <= tag && tag <= TYPE_G_MONTH_LITERAL {
        18
    } else {
        24
    }
}

fn is_known_tag(tag: u8) -> (r: bool)
    ensures
        r == (payload_width(tag) >= 0),
{
    tag == TYPE_NAMED_NODE_ID || (TYPE_NUMERICAL_BLANK_NODE_ID <= tag && tag
        <= TYPE_BIG_BLANK_NODE_ID) || tag == TYPE_SMALL_STRING_LITERAL || tag
        == TYPE_BIG_STRING_LITERAL || (TYPE_SMALL_SMALL_LANG_STRING_LITERAL <= tag && tag
        <= TYPE_BIG_TYPED_LITERAL) || (TYPE_BOOLEAN_LITERAL_TRUE <= tag && tag
        <= TYPE_DAY_TIME_DURATION_LITERAL)
}

/// Reads the payload of a term whose tag has been read, the payload at `q`.
fn read_payload(buf: &[u8], tag: u8, q: usize) -> (r: Option<EncodedTerm>)
    requires
        buf@.len() <= usize::MAX,
        payload_width(tag) >= 0,
        q + payload_width(tag) <= buf@.len(),
    ensures
        r == term_from_payload(tag, buf@, q as int),
        r matches Some(t) ==> t.wf(),
{
    if tag == TYPE_NAMED_NODE_ID {
        Some(EncodedTerm::NamedNode { iri_id: read_hash(buf, q) })
    } else if tag == TYPE_NUMERICAL_BLANK_NODE_ID {
        Some(EncodedTerm::NumericalBlankNode { id: read_be(buf, q, 16) })
    } else if tag == TYPE_SMALL_BLANK_NODE_ID {
        match SmallString::read_field(buf, q) {
            Some(s) => Some(EncodedTerm::SmallBlankNode(s)),
            None => None,
        }
    } else if tag == TYPE_BIG_BLANK_NODE_ID {
        Some(EncodedTerm::BigBlankNode { id_id: read_hash(buf, q) })
    } else if tag == TYPE_SMALL_STRING_LITERAL {
        match SmallString::read_field(buf, q) {
            Some(s) => Some(EncodedTerm::SmallStringLiteral(s)),
            None => None,
        }
    } else if tag == TYPE_BIG_STRING_LITERAL {
        Some(EncodedTerm::BigStringLiteral { value_id: read_hash(buf, q) })
    } else if tag == TYPE_SMALL_SMALL_LANG_STRING_LITERAL {
        match (SmallString::read_field(buf, q), SmallString::read_field(buf, q + 16)) {
            (Some(language), Some(value)) => Some(
                EncodedTerm::SmallSmallLangStringLiteral { value, language },
            ),
            _ => None,
        }
    } else if tag == TYPE_SMALL_BIG_LANG_STRING_LITERAL {
        match SmallString::read_field(buf, q + 16) {
            Some(value) => Some(
                EncodedTerm::SmallBigLangStringLiteral { value, language_id: read_hash(buf, q) },
            ),
            None => None,
        }
    } else if tag == TYPE_BIG_SMALL_LANG_STRING_LITERAL {
        match SmallString::read_field(buf, q) {
            Some(language) => Some(
                EncodedTerm::BigSmallLangStringLiteral {
                    value_id: read_hash(buf, q + 16),
                    language,
                },
            ),
            None => None,
        }
    } else if tag == TYPE_BIG_BIG_LANG_STRING_LITERAL {
        Some(
            EncodedTerm::BigBigLangStringLiteral {
                value_id: read_hash(buf, q + 16),
                language_id: read_hash(buf, q),
            },
        )
    } else if tag == TYPE_SMALL_TYPED_LITERAL {
        match SmallString::read_field(buf, q + 16) {
            Some(value) => Some(
                EncodedTerm::SmallTypedLiteral { value, datatype_id: read_hash(buf, q) },
            ),
            None => None,
        }
    } else if tag == TYPE_BIG_TYPED_LITERAL {
        Some(
            EncodedTerm::BigTypedLiteral {
                value_id: read_hash(buf, q + 16),
                datatype_id: read_hash(buf, q),
            },
        )
    } else if tag == TYPE_BOOLEAN_LITERAL_TRUE {
        Some(EncodedTerm::BooleanLiteral(true))
    } else if tag == TYPE_BOOLEAN_LITERAL_FALSE {
        Some(EncodedTerm::BooleanLiteral(false))
    } else if tag == TYPE_FLOAT_LITERAL {
        let v = read_be(buf, q, 4);
        proof {
            lemma_be_value_bound(buf@.subrange(q as int, q + 4));
            lemma_pow256_values();
        }
        Some(EncodedTerm::FloatLiteral { bits: v as u32 })
    } else if tag == TYPE_DOUBLE_LITERAL {
        let v = read_be(buf, q, 8);
        proof {
            lemma_be_value_bound(buf@.subrange(q as int, q + 8));
            lemma_pow256_values();
        }
        Some(EncodedTerm::DoubleLiteral { bits: v as u64 })
    } else if tag == TYPE_INTEGER_LITERAL {
        Some(EncodedTerm::IntegerLiteral(read_i64(buf, q)))
    } else if tag == TYPE_DECIMAL_LITERAL {
        Some(EncodedTerm::DecimalLiteral { value: read_i128(buf, q) })
    } else if tag == TYPE_DATE_TIME_LITERAL {
        Some(EncodedTerm::DateTimeLiteral(read_timestamp(buf, q)))
    } else if tag == TYPE_TIME_LITERAL {
        Some(EncodedTerm::TimeLiteral(read_timestamp(buf, q)))
    } else if tag == TYPE_DATE_LITERAL {
        Some(EncodedTerm::DateLiteral(read_timestamp(buf, q)))
    } else if tag == TYPE_G_YEAR_MONTH_LITERAL {
        Some(EncodedTerm::GYearMonthLiteral(read_timestamp(buf, q)))
    } else if tag == TYPE_G_YEAR_LITERAL {
        Some(EncodedTerm::GYearLiteral(read_timestamp(buf, q)))
    } else if tag == TYPE_G_MONTH_DAY_LITERAL {
        Some(EncodedTerm::GMonthDayLiteral(read_timestamp(buf, q)))
    } else if tag == TYPE_G_DAY_LITERAL {
        Some(EncodedTerm::GDayLiteral(read_timestamp(buf, q)))
    } else if tag == TYPE_G_MONTH_LITERAL {
        Some(EncodedTerm::GMonthLiteral(read_timestamp(buf, q)))
    } else if tag == TYPE_DURATION_LITERAL {
        Some(EncodedTerm::DurationLiteral(read_duration(buf, q)))
    } else if tag == TYPE_YEAR_MONTH_DURATION_LITERAL {
        Some(EncodedTerm::YearMonthDurationLiteral { months: read_i64(buf, q) })
    } else {
        Some(EncodedTerm::DayTimeDurationLiteral { seconds: read_i128(buf, q) })
    }
}

/// Reads the term that starts at `pos`; returns it with the position after it.
pub fn read_term(buf: &[u8], pos: usize) -> (r: Result<(EncodedTerm, usize), DecodeError>)
    ensures
        match r {
            Ok((t, end)) => spec_read_term(buf@, pos as int) == Some((t, end as int)) && t.wf(),
            Err(e) => spec_read_term(buf@, pos as int) is None && e == DecodeError::CorruptData,
        },
{
    let len = buf.len();
    if pos >= len {
        return Err(DecodeError::CorruptData);
    }
    let tag = buf[pos];
    if !is_known_tag(tag) {
        return Err(DecodeError::CorruptData);
    }
    let w = tag_width(tag);
    if w > len - pos - 1 {
        return Err(DecodeError::CorruptData);
    }
    match read_payload(buf, tag, pos + 1) {
        Some(t) => Ok((t, pos + 1 + w)),
        None => Err(DecodeError::CorruptData),
    }
}

/// Decodes the term at the start of `buffer`.
pub fn decode_term(buffer: &[u8]) -> (r: Result<EncodedTerm, DecodeError>)
    ensures
        match r {
            Ok(t) => spec_decode_term(buffer@) == Some(t) && t.wf(),
            Err(e) => spec_decode_term(buffer@) is None && e == DecodeError::CorruptData,
        },
{
    match read_term(buffer, 0) {
        Ok((t, _)) => Ok(t),
        Err(e) => Err(e),
    }
}



proof fn lemma_split(b: Seq<u8>, q: int, x: Seq<u8>, y: Seq<u8>)
    requires
        0 <= q,
        q + x.len() + y.len() <= b.len(),
        b.subrange(q, q + x.len() + y.len()) == x + y,
    ensures
        b.subrange(q, q + x.len()) == x,
        b.subrange(q + x.len(), q + x.len() + y.len()) == y,
{
    assert(b.subrange(q, q + x.len()) =~= (x + y).subrange(0, x.len() as int));
    assert(b.subrange(q + x.len(), q + x.len() + y.len()) =~= (x + y).subrange(
        x.len() as int,
        (x.len() + y.len()) as int,
    ));
}

proof fn lemma_uint_field(b: Seq<u8>, q: int, x: nat, w: nat)
    requires
        x < pow256(w),
        b.subrange(q, q + w) == be_bytes(x, w),
    ensures
        be_value(b.subrange(q, q + w)) == x,
{
    lemma_be_round_trip(x, w);
}

proof fn lemma_hash_field(b: Seq<u8>, q: int, h: StrHash)
    requires
        b.subrange(q, q + 16) == hash_bytes(h),
    ensures
        hash_at(b, q) == h,
{
    lemma_pow256_values();
    lemma_uint_field(b, q, h.hash as nat, 16);
}

proof fn lemma_i64_field(b: Seq<u8>, q: int, v: i64)
    requires
        b.subrange(q, q + 8) == i64_bytes(v),
    ensures
        i64_at(b, q) == v,
{
    lemma_pow256_values();
    crate::bytes::lemma_twos_complement_round_trip(v as int, 0x8000_0000_0000_0000);
    lemma_uint_field(b, q, twos_complement(v as int, 0x8000_0000_0000_0000), 8);
}

proof fn lemma_i128_field(b: Seq<u8>, q: int, v: i128)
    requires
        b.subrange(q, q + 16) == i128_bytes(v),
    ensures
        i128_at(b, q) == v,
{
    lemma_pow256_values();
    crate::bytes::lemma_twos_complement_round_trip(
        v as int,
        0x8000_0000_0000_0000_0000_0000_0000_0000,
    );
    lemma_uint_field(
        b,
        q,
        twos_complement(v as int, 0x8000_0000_0000_0000_0000_0000_0000_0000),
        16,
    );
}

proof fn lemma_small_field(b: Seq<u8>, q: int, s: SmallString)
    requires
        s.wf(),
        b.subrange(q, q + 16) == s.field(),
    ensures
        small_ok_at(b, q),
        small_at(b, q) == s,
{
    s.lemma_field();
}

proof fn lemma_timestamp_field(b: Seq<u8>, q: int, v: Timestamp)
    requires
        0 <= q,
        q + 18 <= b.len(),
        b.subrange(q, q + 18) == timestamp_bytes(v),
    ensures
        timestamp_at(b, q) == v,
{
    lemma_be_bytes_len(twos_complement(v.value as int, 0x8000_0000_0000_0000_0000_0000_0000_0000), 16);
    lemma_be_bytes_len(v.timezone as nat, 2);
    lemma_split(b, q, i128_bytes(v.value), be_bytes(v.timezone as nat, 2));
    lemma_i128_field(b, q, v.value);
    lemma_pow256_values();
    lemma_uint_field(b, q + 16, v.timezone as nat, 2);
}

proof fn lemma_duration_field(b: Seq<u8>, q: int, v: DurationValue)
    requires
        0 <= q,
        q + 24 <= b.len(),
        b.subrange(q, q + 24) == duration_bytes(v),
    ensures
        duration_at(b, q) == v,
{
    lemma_be_bytes_len(twos_complement(v.months as int, 0x8000_0000_0000_0000), 8);
    lemma_be_bytes_len(twos_complement(v.seconds as int, 0x8000_0000_0000_0000_0000_0000_0000_0000), 16);
    lemma_split(b, q, i64_bytes(v.months), i128_bytes(v.seconds));
    lemma_i64_field(b, q, v.months);
    lemma_i128_field(b, q + 8, v.seconds);
}

/// The tag of every term but the default graph is known, and its payload has
/// the width that the tag announces.
pub proof fn lemma_payload_width(t: EncodedTerm)
    requires
        t.wf(),
        !(t is DefaultGraph),
    ensures
        payload_width(tag_of(t)) >= 0,
        payload_of(t).len() == payload_width(tag_of(t)),
        spec_encode_term(t).len() == 1 + payload_width(tag_of(t)),
        spec_encode_term(t)[0] == tag_of(t),
{
    lemma_be_bytes_len(0, 0);
    match t {
        EncodedTerm::NamedNode { iri_id } => lemma_be_bytes_len(iri_id.hash as nat, 16),
        EncodedTerm::NumericalBlankNode { id } => lemma_be_bytes_len(id as nat, 16),
        EncodedTerm::SmallBlankNode(s) => s.lemma_field(),
        EncodedTerm::BigBlankNode { id_id } => lemma_be_bytes_len(id_id.hash as nat, 16),
        EncodedTerm::SmallStringLiteral(s) => s.lemma_field(),
        EncodedTerm::BigStringLiteral { value_id } => lemma_be_bytes_len(value_id.hash as nat, 16),
        EncodedTerm::SmallSmallLangStringLiteral { value, language } => {
            value.lemma_field();
            language.lemma_field();
        },
        EncodedTerm::SmallBigLangStringLiteral { value, language_id } => {
            value.lemma_field();
            lemma_be_bytes_len(language_id.hash as nat, 16);
        },
        EncodedTerm::BigSmallLangStringLiteral { value_id, language } => {
            language.lemma_field();
            lemma_be_bytes_len(value_id.hash as nat, 16);
        },
        EncodedTerm::BigBigLangStringLiteral { value_id, language_id } => {
            lemma_be_bytes_len(value_id.hash as nat, 16);
            lemma_be_bytes_len(language_id.hash as nat, 16);
        },
        EncodedTerm::SmallTypedLiteral { value, datatype_id } => {
            value.lemma_field();
            lemma_be_bytes_len(datatype_id.hash as nat, 16);
        },
        EncodedTerm::BigTypedLiteral { value_id, datatype_id } => {
            lemma_be_bytes_len(value_id.hash as nat, 16);
            lemma_be_bytes_len(datatype_id.hash as nat, 16);
        },
        EncodedTerm::FloatLiteral { bits } => lemma_be_bytes_len(bits as nat, 4),
        EncodedTerm::DoubleLiteral { bits } => lemma_be_bytes_len(bits as nat, 8),
        EncodedTerm::IntegerLiteral(v) => lemma_be_bytes_len(
            twos_complement(v as int, 0x8000_0000_0000_0000),
            8,
        ),
        EncodedTerm::DecimalLiteral { value } => lemma_be_bytes_len(
            twos_complement(value as int, 0x8000_0000_0000_0000_0000_0000_0000_0000),
            16,
        ),
        EncodedTerm::DateTimeLiteral(v) | EncodedTerm::TimeLiteral(v) | EncodedTerm::DateLiteral(v)
        | EncodedTerm::GYearMonthLiteral(v) | EncodedTerm::GYearLiteral(v)
        | EncodedTerm::GMonthDayLiteral(v) | EncodedTerm::GDayLiteral(v)
        | EncodedTerm::GMonthLiteral(v) => {
            lemma_be_bytes_len(
                twos_complement(v.value as int, 0x8000_0000_0000_0000_0000_0000_0000_0000),
                16,
            );
            lemma_be_bytes_len(v.timezone as nat, 2);
        },
        EncodedTerm::DurationLiteral(v) => {
            lemma_be_bytes_len(twos_complement(v.months as int, 0x8000_0000_0000_0000), 8);
            lemma_be_bytes_len(
                twos_complement(v.seconds as int, 0x8000_0000_0000_0000_0000_0000_0000_0000),
                16,
            );
        },
        EncodedTerm::YearMonthDurationLiteral { months } => lemma_be_bytes_len(
            twos_complement(months as int, 0x8000_0000_0000_0000),
            8,
        ),
        EncodedTerm::DayTimeDurationLiteral { seconds } => lemma_be_bytes_len(
            twos_complement(seconds as int, 0x8000_0000_0000_0000_0000_0000_0000_0000),
            16,
        ),
        _ => {},
    }
}

proof fn lemma_payload_round_trip(t: EncodedTerm, b: Seq<u8>, q: int)
    requires
        t.wf(),
        !(t is DefaultGraph),
        0 <= q,
        q + payload_of(t).len() <= b.len(),
        b.subrange(q, q + payload_of(t).len()) == payload_of(t),
    ensures
        term_from_payload(tag_of(t), b, q) == Some(t),
{
    lemma_payload_width(t);
    match t {
        EncodedTerm::NamedNode { iri_id } => lemma_hash_field(b, q, iri_id),
        EncodedTerm::NumericalBlankNode { id } => {
            lemma_pow256_values();
            lemma_uint_field(b, q, id as nat, 16);
        },
        EncodedTerm::SmallBlankNode(s) => lemma_small_field(b, q, s),
        EncodedTerm::BigBlankNode { id_id } => lemma_hash_field(b, q, id_id),
        EncodedTerm::SmallStringLiteral(s) => lemma_small_field(b, q, s),
        EncodedTerm::BigStringLiteral { value_id } => lemma_hash_field(b, q, value_id),
        EncodedTerm::SmallSmallLangStringLiteral { value, language } => {
            value.lemma_field();
            language.lemma_field();
            lemma_split(b, q, language.field(), value.field());
            lemma_small_field(b, q, language);
            lemma_small_field(b, q + 16, value);
        },
        EncodedTerm::SmallBigLangStringLiteral { value, language_id } => {
            value.lemma_field();
            lemma_be_bytes_len(language_id.hash as nat, 16);
            lemma_split(b, q, hash_bytes(language_id), value.field());
            lemma_hash_field(b, q, language_id);
            lemma_small_field(b, q + 16, value);
        },
        EncodedTerm::BigSmallLangStringLiteral { value_id, language } => {
            language.lemma_field();
            lemma_be_bytes_len(value_id.hash as nat, 16);
            lemma_split(b, q, language.field(), hash_bytes(value_id));
            lemma_small_field(b, q, language);
            lemma_hash_field(b, q + 16, value_id);
        },
        EncodedTerm::BigBigLangStringLiteral { value_id, language_id } => {
            lemma_be_bytes_len(value_id.hash as nat, 16);
            lemma_be_bytes_len(language_id.hash as nat, 16);
            lemma_split(b, q, hash_bytes(language_id), hash_bytes(value_id));
            lemma_hash_field(b, q, language_id);
            lemma_hash_field(b, q + 16, value_id);
        },
        EncodedTerm::SmallTypedLiteral { value, datatype_id } => {
            value.lemma_field();
            lemma_be_bytes_len(datatype_id.hash as nat, 16);
            lemma_split(b, q, hash_bytes(datatype_id), value.field());
            lemma_hash_field(b, q, datatype_id);
            lemma_small_field(b, q + 16, value);
        },
        EncodedTerm::BigTypedLiteral { value_id, datatype_id } => {
            lemma_be_bytes_len(value_id.hash as nat, 16);
            lemma_be_bytes_len(datatype_id.hash as nat, 16);
            lemma_split(b, q, hash_bytes(datatype_id), hash_bytes(value_id));
            lemma_hash_field(b, q, datatype_id);
            lemma_hash_field(b, q + 16, value_id);
        },
        EncodedTerm::FloatLiteral { bits } => {
            lemma_pow256_values();
            lemma_uint_field(b, q, bits as nat, 4);
        },
        EncodedTerm::DoubleLiteral { bits } => {
            lemma_pow256_values();
            lemma_uint_field(b, q, bits as nat, 8);
        },
        EncodedTerm::IntegerLiteral(v) => lemma_i64_field(b, q, v),
        EncodedTerm::DecimalLiteral { value } => lemma_i128_field(b, q, value),
        EncodedTerm::DateTimeLiteral(v) => lemma_timestamp_field(b, q, v),
        EncodedTerm::TimeLiteral(v) => lemma_timestamp_field(b, q, v),
        EncodedTerm::DateLiteral(v) => lemma_timestamp_field(b, q, v),
        EncodedTerm::GYearMonthLiteral(v) => lemma_timestamp_field(b, q, v),
        EncodedTerm::GYearLiteral(v) => lemma_timestamp_field(b, q, v),
        EncodedTerm::GMonthDayLiteral(v) => lemma_timestamp_field(b, q, v),
        EncodedTerm::GDayLiteral(v) => lemma_timestamp_field(b, q, v),
        EncodedTerm::GMonthLiteral(v) => lemma_timestamp_field(b, q, v),
        EncodedTerm::DurationLiteral(v) => lemma_duration_field(b, q, v),
        EncodedTerm::YearMonthDurationLiteral { months } => lemma_i64_field(b, q, months),
        EncodedTerm::DayTimeDurationLiteral { seconds } => lemma_i128_field(b, q, seconds),
        _ => {},
    }
}

/// Reading the bytes of a well-formed term, wherever they stand in a buffer,
/// gives the term back and the position just after its bytes.
pub proof fn lemma_read_encoded(t: EncodedTerm, b: Seq<u8>, p: int)
    requires
        t.wf(),
        !(t is DefaultGraph),
        0 <= p,
        p + spec_encode_term(t).len() <= b.len(),
        b.subrange(p, p + spec_encode_term(t).len()) == spec_encode_term(t),
    ensures
        spec_read_term(b, p) == Some((t, p + spec_encode_term(t).len())),
{
    let e = spec_encode_term(t);
    lemma_payload_width(t);
    assert(b[p] == e[0]) by {
        assert(b.subrange(p, p + e.len())[0] == b[p]);
    }
    lemma_split(b, p, seq![tag_of(t)], payload_of(t));
    lemma_payload_round_trip(t, b, p + 1);
}

/// Decoding the encoding of a well-formed term gives the term back.
pub proof fn lemma_codec_round_trip(t: EncodedTerm)
    requires
        t.wf(),
        !(t is DefaultGraph),
    ensures
        spec_decode_term(spec_encode_term(t)) == Some(t),
{
    let e = spec_encode_term(t);
    assert(e.subrange(0, e.len() as int) =~= e);
    lemma_read_encoded(t, e, 0);
}

} // verus!
