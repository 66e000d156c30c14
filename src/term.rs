//! User-facing RDF terms, and how they are encoded and decoded through the
//! store's dictionary.
use vstd::prelude::*;
use vstd::utf8::decode_utf8;

use crate::codec::EncodedTerm;
use crate::error::DecodeError;
use crate::index::bytes_eq;
use crate::lexical::{
    decimal_lexical, decimal_string, hex_digits, hex_string, int_lexical, integer_string,
    parse_integer,
};
use crate::model::{lemma_small_of, small_of, str_hash_of, utf8_of, SmallString, StrHash};
use crate::store::{dictionary_after_insert, GraphStore};

verus! {

broadcast use vstd::utf8::encode_utf8_decode_utf8;

/// An RDF term: an IRI, a blank node or a literal.
#[derive(Clone, Debug, PartialEq, Eq)]
pub enum Term {
    NamedNode(String),
    BlankNode(String),
    SimpleLiteral(String),
    LanguageTaggedLiteral { value: String, language: String },
    TypedLiteral { value: String, datatype: String },
}

/// The mathematical value of a term: its strings as character sequences.
pub enum TermModel {
    NamedNode(Seq<char>),
    BlankNode(Seq<char>),
    SimpleLiteral(Seq<char>),
    LanguageTaggedLiteral(Seq<char>, Seq<char>),
    TypedLiteral(Seq<char>, Seq<char>),
}

impl View for Term {
    type V = TermModel;

    open spec fn view(&self) -> TermModel {
        match self {
            Term::NamedNode(iri) => TermModel::NamedNode(iri@),
            Term::BlankNode(id) => TermModel::BlankNode(id@),
            Term::SimpleLiteral(value) => TermModel::SimpleLiteral(value@),
            Term::LanguageTaggedLiteral { value, language } => TermModel::LanguageTaggedLiteral(
                value@,
                language@,
            ),
            Term::TypedLiteral { value, datatype } => TermModel::TypedLiteral(value@, datatype@),
        }
    }
}

pub open spec fn xsd_integer() -> Seq<char> {
    "http://www.w3.org/2001/XMLSchema#integer"@
}

pub open spec fn xsd_decimal() -> Seq<char> {
    "http://www.w3.org/2001/XMLSchema#decimal"@
}

pub open spec fn xsd_boolean() -> Seq<char> {
    "http://www.w3.org/2001/XMLSchema#boolean"@
}

/// Whether a string is held inline rather than by hash.
pub open spec fn fits_inline(s: Seq<char>) -> bool {
    utf8_of(s).len() <= 15
}

/// The 64-bit integer whose canonical lexical form is `v`, if any.
pub open spec fn integer_value(v: Seq<char>) -> Option<i64> {
    if exists|x: i64| int_lexical(x as int) == utf8_of(v) {
        Some(choose|x: i64| int_lexical(x as int) == utf8_of(v))
    } else {
        None
    }
}

/// The boolean whose lexical form is `v`, if any.
pub open spec fn boolean_value(v: Seq<char>) -> Option<bool> {
    if v == "true"@ {
        Some(true)
    } else if v == "false"@ {
        Some(false)
    } else {
        None
    }
}

/// A typed literal held as a native value rather than by its lexical form.
pub open spec fn is_native_literal(v: Seq<char>, d: Seq<char>) -> bool {
    (d == xsd_boolean() && boolean_value(v) is Some) || (d == xsd_integer() && integer_value(
        v,
    ) is Some)
}

/// The encoded form of a term.
pub open spec fn encoded_term_of(t: TermModel) -> EncodedTerm {
    match t {
        TermModel::NamedNode(iri) => EncodedTerm::NamedNode { iri_id: str_hash_of(iri) },
        TermModel::BlankNode(id) => if fits_inline(id) {
            EncodedTerm::SmallBlankNode(small_of(id))
        } else {
            EncodedTerm::BigBlankNode { id_id: str_hash_of(id) }
        },
        TermModel::SimpleLiteral(v) => if fits_inline(v) {
            EncodedTerm::SmallStringLiteral(small_of(v))
        } else {
            EncodedTerm::BigStringLiteral { value_id: str_hash_of(v) }
        },
        TermModel::LanguageTaggedLiteral(v, l) => if fits_inline(v) {
            if fits_inline(l) {
                EncodedTerm::SmallSmallLangStringLiteral { value: small_of(v), language: small_of(l) }
            } else {
                EncodedTerm::SmallBigLangStringLiteral {
                    value: small_of(v),
                    language_id: str_hash_of(l),
                }
            }
        } else {
            if fits_inline(l) {
                EncodedTerm::BigSmallLangStringLiteral {
                    value_id: str_hash_of(v),
                    language: small_of(l),
                }
            } else {
                EncodedTerm::BigBigLangStringLiteral {
                    value_id: str_hash_of(v),
                    language_id: str_hash_of(l),
                }
            }
        },
        TermModel::TypedLiteral(v, d) => if d == xsd_boolean() && boolean_value(v) is Some {
            EncodedTerm::BooleanLiteral(boolean_value(v).unwrap())
        } else if d == xsd_integer() && integer_value(v) is Some {
            EncodedTerm::IntegerLiteral(integer_value(v).unwrap())
        } else if fits_inline(v) {
            EncodedTerm::SmallTypedLiteral { value: small_of(v), datatype_id: str_hash_of(d) }
        } else {
            EncodedTerm::BigTypedLiteral { value_id: str_hash_of(v), datatype_id: str_hash_of(d) }
        },
    }
}

/// The strings of a term that live in the dictionary, in the order they are registered.
pub open spec fn term_strings(t: TermModel) -> Seq<Seq<char>> {
    match t {
        TermModel::NamedNode(iri) => seq![iri],
        TermModel::BlankNode(id) => big_part(id),
        TermModel::SimpleLiteral(v) => big_part(v),
        TermModel::LanguageTaggedLiteral(v, l) => big_part(v) + big_part(l),
        TermModel::TypedLiteral(v, d) => if is_native_literal(v, d) {
            Seq::empty()
        } else {
            big_part(v) + seq![d]
        },
    }
}

pub open spec fn big_part(s: Seq<char>) -> Seq<Seq<char>> {
    if fits_inline(s) {
        Seq::empty()
    } else {
        seq![s]
    }
}

/// The dictionary after registering each string in turn.
pub open spec fn dictionary_after_all(d: Map<u128, Seq<char>>, ss: Seq<Seq<char>>) -> Map<
    u128,
    Seq<char>,
>
    decreases ss.len(),
{
    if ss.len() == 0 {
        d
    } else {
        dictionary_after_all(dictionary_after_insert(d, ss[0]), ss.drop_first())
    }
}

/// Every dictionary string of the term has an entry under its hash.
pub open spec fn term_known(d: Map<u128, Seq<char>>, t: TermModel) -> bool {
    forall|i: int|
        0 <= i < term_strings(t).len() ==> d.contains_key(
            str_hash_of(#[trigger] term_strings(t)[i]).hash,
        )
}

/// The entry under a hash holds the string itself.
pub open spec fn registered(d: Map<u128, Seq<char>>, s: Seq<char>) -> bool {
    d.contains_key(str_hash_of(s).hash) && d[str_hash_of(s).hash] == s
}

/// The characters of an inline string.
pub open spec fn small_chars(s: SmallString) -> Seq<char> {
    decode_utf8(s@)
}

/// The string under a hash, if the dictionary holds it.
pub open spec fn lookup(d: Map<u128, Seq<char>>, h: StrHash) -> Option<Seq<char>> {
    if d.contains_key(h.hash) {
        Some(d[h.hash])
    } else {
        None
    }
}

/// The term that an encoded term stands for, given the dictionary; `None`
/// where a hash is missing or the value has no lexical form here.
pub open spec fn decoded_term_of(d: Map<u128, Seq<char>>, e: EncodedTerm) -> Option<TermModel> {
    match e {
        EncodedTerm::NamedNode { iri_id } => match lookup(d, iri_id) {
            Some(s) => Some(TermModel::NamedNode(s)),
            None => None,
        },
        EncodedTerm::NumericalBlankNode { id } => Some(
            TermModel::BlankNode(decode_utf8(hex_digits(id as nat))),
        ),
        EncodedTerm::SmallBlankNode(s) => Some(TermModel::BlankNode(small_chars(s))),
        EncodedTerm::BigBlankNode { id_id } => match lookup(d, id_id) {
            Some(s) => Some(TermModel::BlankNode(s)),
            None => None,
        },
        EncodedTerm::SmallStringLiteral(s) => Some(TermModel::SimpleLiteral(small_chars(s))),
        EncodedTerm::BigStringLiteral { value_id } => match lookup(d, value_id) {
            Some(s) => Some(TermModel::SimpleLiteral(s)),
            None => None,
        },
        EncodedTerm::SmallSmallLangStringLiteral { value, language } => Some(
            TermModel::LanguageTaggedLiteral(small_chars(value), small_chars(language)),
        ),
        EncodedTerm::SmallBigLangStringLiteral { value, language_id } => match lookup(
            d,
            language_id,
        ) {
            Some(l) => Some(TermModel::LanguageTaggedLiteral(small_chars(value), l)),
            None => None,
        },
        EncodedTerm::BigSmallLangStringLiteral { value_id, language } => match lookup(
            d,
            value_id,
        ) {
            Some(v) => Some(TermModel::LanguageTaggedLiteral(v, small_chars(language))),
            None => None,
        },
        EncodedTerm::BigBigLangStringLiteral { value_id, language_id } => match (
            lookup(d, value_id),
            lookup(d, language_id),
        ) {
            (Some(v), Some(l)) => Some(TermModel::LanguageTaggedLiteral(v, l)),
            _ => None,
        },
        EncodedTerm::SmallTypedLiteral { value, datatype_id } => match lookup(d, datatype_id) {
            Some(dt) => Some(TermModel::TypedLiteral(small_chars(value), dt)),
            None => None,
        },
        EncodedTerm::BigTypedLiteral { value_id, datatype_id } => match (
            lookup(d, value_id),
            lookup(d, datatype_id),
        ) {
            (Some(v), Some(dt)) => Some(TermModel::TypedLiteral(v, dt)),
            _ => None,
        },
        EncodedTerm::BooleanLiteral(b) => Some(
            TermModel::TypedLiteral(if b { "true"@ } else { "false"@ }, xsd_boolean()),
        ),
        EncodedTerm::IntegerLiteral(v) => Some(
            TermModel::TypedLiteral(decode_utf8(int_lexical(v as int)), xsd_integer()),
        ),
        EncodedTerm::DecimalLiteral { value } => Some(
            TermModel::TypedLiteral(decode_utf8(decimal_lexical(value as int)), xsd_decimal()),
        ),
        _ => None,
    }
}

/// Whether the encoded term has a lexical form that this library writes.
pub open spec fn has_lexical_form(e: EncodedTerm) -> bool {
    match e {
        EncodedTerm::DefaultGraph => false,
        EncodedTerm::FloatLiteral { .. } => false,
        EncodedTerm::DoubleLiteral { .. } => false,
        EncodedTerm::DateTimeLiteral(_) => false,
        EncodedTerm::TimeLiteral(_) => false,
        EncodedTerm::DateLiteral(_) => false,
        EncodedTerm::GYearMonthLiteral(_) => false,
        EncodedTerm::GYearLiteral(_) => false,
        EncodedTerm::GMonthDayLiteral(_) => false,
        EncodedTerm::GDayLiteral(_) => false,
        EncodedTerm::GMonthLiteral(_) => false,
        EncodedTerm::DurationLiteral(_) => false,
        EncodedTerm::YearMonthDurationLiteral { .. } => false,
        EncodedTerm::DayTimeDurationLiteral { .. } => false,
        _ => true,
    }
}


proof fn lemma_after_all_short(d: Map<u128, Seq<char>>, ss: Seq<Seq<char>>)
    ensures
        ss.len() == 0 ==> dictionary_after_all(d, ss) == d,
        ss.len() == 1 ==> dictionary_after_all(d, ss) == dictionary_after_insert(d, ss[0]),
{
    reveal_with_fuel(dictionary_after_all, 2);
    if ss.len() == 1 {
        assert(ss.drop_first().len() == 0);
    }
}

/// Whether each string of a term is known, spelled out.
proof fn lemma_term_known(d: Map<u128, Seq<char>>, t: TermModel)
    ensures
        term_known(d, t) <==> match t {
            TermModel::NamedNode(iri) => d.contains_key(str_hash_of(iri).hash),
            TermModel::BlankNode(id) => fits_inline(id) || d.contains_key(str_hash_of(id).hash),
            TermModel::SimpleLiteral(v) => fits_inline(v) || d.contains_key(str_hash_of(v).hash),
            TermModel::LanguageTaggedLiteral(v, l) => (fits_inline(v) || d.contains_key(
                str_hash_of(v).hash,
            )) && (fits_inline(l) || d.contains_key(str_hash_of(l).hash)),
            TermModel::TypedLiteral(v, dt) => is_native_literal(v, dt) || ((fits_inline(v)
                || d.contains_key(str_hash_of(v).hash)) && d.contains_key(str_hash_of(dt).hash)),
        },
{
    let ts = term_strings(t);
    match t {
        TermModel::NamedNode(iri) => {
            assert(ts[0] == iri);
        },
        TermModel::BlankNode(id) => {
            if !fits_inline(id) {
                assert(ts[0] == id);
            }
        },
        TermModel::SimpleLiteral(v) => {
            if !fits_inline(v) {
                assert(ts[0] == v);
            }
        },
        TermModel::LanguageTaggedLiteral(v, l) => {
            if !fits_inline(v) {
                assert(ts[0] == v);
            }
            if !fits_inline(l) {
                assert(ts[ts.len() - 1] == l);
            }
            if (fits_inline(v) || d.contains_key(str_hash_of(v).hash)) && (fits_inline(l)
                || d.contains_key(str_hash_of(l).hash)) {
                assert forall|i: int| 0 <= i < ts.len() implies d.contains_key(
                    str_hash_of(#[trigger] ts[i]).hash,
                ) by {
                    if !fits_inline(v) && i == 0 {
                    } else {
                        assert(ts[i] == l);
                    }
                }
            }
        },
        TermModel::TypedLiteral(v, dt) => {
            if !is_native_literal(v, dt) {
                if !fits_inline(v) {
                    assert(ts[0] == v);
                }
                assert(ts[ts.len() - 1] == dt);
                if (fits_inline(v) || d.contains_key(str_hash_of(v).hash)) && d.contains_key(
                    str_hash_of(dt).hash,
                ) {
                    assert forall|i: int| 0 <= i < ts.len() implies d.contains_key(
                        str_hash_of(#[trigger] ts[i]).hash,
                    ) by {
                        if !fits_inline(v) && i == 0 {
                        } else {
                            assert(ts[i] == dt);
                        }
                    }
                }
            }
        },
    }
}

/// The error that decoding a term reports when it fails: a missing
/// dictionary entry, or a native value without a lexical form here.
pub open spec fn term_decode_error(e: EncodedTerm) -> DecodeError {
    if has_lexical_form(e) {
        DecodeError::DanglingHash
    } else {
        DecodeError::NoLexicalForm
    }
}

/// A string of a term: inline, or by the hash of its dictionary entry.
enum StringPart {
    Small(SmallString),
    Big(StrHash),
}

spec fn part_of(s: Seq<char>) -> StringPart {
    if fits_inline(s) {
        StringPart::Small(small_of(s))
    } else {
        StringPart::Big(str_hash_of(s))
    }
}

/// The string's part, registering it in the dictionary where it is not inline.
fn insert_part(store: &mut GraphStore, s: &String) -> (r: StringPart)
    requires
        old(store).wf(),
    ensures
        final(store).wf(),
        r == part_of(s@),
        final(store).dictionary() == dictionary_after_all(old(store).dictionary(), big_part(s@)),
        final(store).quad_set() == old(store).quad_set(),
        final(store).named_graph_set() == old(store).named_graph_set(),
{
    match SmallString::from_str(s.as_str()) {
        Some(x) => {
            proof {
                lemma_after_all_short(store.dictionary(), big_part(s@));
            }
            StringPart::Small(x)
        },
        None => {
            proof {
                lemma_after_all_short(store.dictionary(), big_part(s@));
            }
            let h = store.insert_str(s.as_str());
            StringPart::Big(h)
        },
    }
}

/// The string's part where it is inline or registered; `None` otherwise.
fn lookup_part(store: &GraphStore, s: &String) -> (r: Option<StringPart>)
    ensures
        r == (if fits_inline(s@) || store.dictionary().contains_key(str_hash_of(s@).hash) {
            Some(part_of(s@))
        } else {
            None
        }),
{
    match SmallString::from_str(s.as_str()) {
        Some(x) => Some(StringPart::Small(x)),
        None => match store.get_str_id(s.as_str()) {
            Some(h) => Some(StringPart::Big(h)),
            None => None,
        },
    }
}

/// Compares a string with a literal.
fn same_string(a: &String, b: &str) -> (r: bool)
    ensures
        r == (a@ == b@),
{
    let r = bytes_eq(a.as_str().as_bytes(), b.as_bytes());
    proof {
        if utf8_of(a@) == utf8_of(b@) {
            assert(decode_utf8(utf8_of(a@)) == a@);
            assert(decode_utf8(utf8_of(b@)) == b@);
        }
    }
    r
}

/// The native value of a typed literal, where it has one.
fn native_literal(value: &String, datatype: &String) -> (r: Option<EncodedTerm>)
    ensures
        r is Some <==> is_native_literal(value@, datatype@),
        r matches Some(e) ==> e == encoded_term_of(TermModel::TypedLiteral(value@, datatype@)),
{
    proof {
        reveal_strlit("http://www.w3.org/2001/XMLSchema#boolean");
        reveal_strlit("http://www.w3.org/2001/XMLSchema#integer");
        reveal_strlit("true");
        reveal_strlit("false");
        assert(xsd_boolean()[33] != xsd_integer()[33]);
    }
    if same_string(datatype, "http://www.w3.org/2001/XMLSchema#boolean") {
        if same_string(value, "true") {
            return Some(EncodedTerm::BooleanLiteral(true));
        } else if same_string(value, "false") {
            return Some(EncodedTerm::BooleanLiteral(false));
        }
    } else if same_string(datatype, "http://www.w3.org/2001/XMLSchema#integer") {
        match parse_integer(value.as_str().as_bytes()) {
            Some(v) => {
                proof {
                    let c = choose|x: i64| int_lexical(x as int) == utf8_of(value@);
                    crate::lexical::lemma_int_lexical_injective(c as int, v as int);
                }
                return Some(EncodedTerm::IntegerLiteral(v));
            },
            None => {},
        }
    }
    None
}

/// Encodes a term, registering its long strings in the dictionary.
pub fn insert_term(store: &mut GraphStore, t: &Term) -> (r: EncodedTerm)
    requires
        old(store).wf(),
    ensures
        final(store).wf(),
        r == encoded_term_of(t@),
        final(store).dictionary() == dictionary_after_all(old(store).dictionary(), term_strings(t@)),
        final(store).quad_set() == old(store).quad_set(),
        final(store).named_graph_set() == old(store).named_graph_set(),
{
    match t {
        Term::NamedNode(iri) => {
            proof {
                lemma_after_all_short(store.dictionary(), term_strings(t@));
            }
            let h = store.insert_str(iri.as_str());
            EncodedTerm::NamedNode { iri_id: h }
        },
        Term::BlankNode(id) => match insert_part(store, id) {
            StringPart::Small(s) => EncodedTerm::SmallBlankNode(s),
            StringPart::Big(h) => EncodedTerm::BigBlankNode { id_id: h },
        },
        Term::SimpleLiteral(value) => match insert_part(store, value) {
            StringPart::Small(s) => EncodedTerm::SmallStringLiteral(s),
            StringPart::Big(h) => EncodedTerm::BigStringLiteral { value_id: h },
        },
        Term::LanguageTaggedLiteral { value, language } => {
            let ghost d0 = store.dictionary();
            let v = insert_part(store, value);
            let l = insert_part(store, language);
            proof {
                lemma_dictionary_after_concat(d0, big_part(value@), big_part(language@));
            }
            match (v, l) {
                (StringPart::Small(v), StringPart::Small(l)) => {
                    EncodedTerm::SmallSmallLangStringLiteral { value: v, language: l }
                },
                (StringPart::Small(v), StringPart::Big(l)) => {
                    EncodedTerm::SmallBigLangStringLiteral { value: v, language_id: l }
                },
                (StringPart::Big(v), StringPart::Small(l)) => {
                    EncodedTerm::BigSmallLangStringLiteral { value_id: v, language: l }
                },
                (StringPart::Big(v), StringPart::Big(l)) => {
                    EncodedTerm::BigBigLangStringLiteral { value_id: v, language_id: l }
                },
            }
        },
        Term::TypedLiteral { value, datatype } => {
            match native_literal(value, datatype) {
                Some(e) => {
                    proof {
                        lemma_after_all_short(store.dictionary(), term_strings(t@));
                    }
                    e
                },
                None => {
                    let ghost d0 = store.dictionary();
                    let v = insert_part(store, value);
                    let d = store.insert_str(datatype.as_str());
                    proof {
                        lemma_after_all_short(
                            dictionary_after_all(d0, big_part(value@)),
                            seq![datatype@],
                        );
                        lemma_dictionary_after_concat(d0, big_part(value@), seq![datatype@]);
                    }
                    match v {
                        StringPart::Small(v) => EncodedTerm::SmallTypedLiteral {
                            value: v,
                            datatype_id: d,
                        },
                        StringPart::Big(v) => EncodedTerm::BigTypedLiteral {
                            value_id: v,
                            datatype_id: d,
                        },
                    }
                },
            }
        },
    }
}

pub proof fn lemma_dictionary_after_concat(
    d: Map<u128, Seq<char>>,
    a: Seq<Seq<char>>,
    b: Seq<Seq<char>>,
)
    ensures
        dictionary_after_all(d, a + b) == dictionary_after_all(dictionary_after_all(d, a), b),
    decreases a.len(),
{
    if a.len() == 0 {
        assert(a + b =~= b);
    } else {
        assert((a + b).drop_first() =~= a.drop_first() + b);
        lemma_dictionary_after_concat(dictionary_after_insert(d, a[0]), a.drop_first(), b);
    }
}

/// The encoded form of a term without writing: `None` where one of its
/// dictionary strings is not registered.
pub fn lookup_term(store: &GraphStore, t: &Term) -> (r: Option<EncodedTerm>)
    ensures
        r == (if term_known(store.dictionary(), t@) {
            Some(encoded_term_of(t@))
        } else {
            None
        }),
{
    proof {
        lemma_term_known(store.dictionary(), t@);
    }
    match t {
        Term::NamedNode(iri) => match store.get_str_id(iri.as_str()) {
            Some(h) => Some(EncodedTerm::NamedNode { iri_id: h }),
            None => None,
        },
        Term::BlankNode(id) => match lookup_part(store, id) {
            Some(StringPart::Small(s)) => Some(EncodedTerm::SmallBlankNode(s)),
            Some(StringPart::Big(h)) => Some(EncodedTerm::BigBlankNode { id_id: h }),
            None => None,
        },
        Term::SimpleLiteral(value) => match lookup_part(store, value) {
            Some(StringPart::Small(s)) => Some(EncodedTerm::SmallStringLiteral(s)),
            Some(StringPart::Big(h)) => Some(EncodedTerm::BigStringLiteral { value_id: h }),
            None => None,
        },
        Term::LanguageTaggedLiteral { value, language } => {
            let v = lookup_part(store, value);
            let l = lookup_part(store, language);
            proof {
                let ts = term_strings(t@);
                if !fits_inline(value@) {
                    assert(ts[0] == value@);
                }
                if !fits_inline(language@) {
                    assert(ts[ts.len() - 1] == language@);
                }
            }
            match (v, l) {
                (Some(StringPart::Small(v)), Some(StringPart::Small(l))) => Some(
                    EncodedTerm::SmallSmallLangStringLiteral { value: v, language: l },
                ),
                (Some(StringPart::Small(v)), Some(StringPart::Big(l))) => Some(
                    EncodedTerm::SmallBigLangStringLiteral { value: v, language_id: l },
                ),
                (Some(StringPart::Big(v)), Some(StringPart::Small(l))) => Some(
                    EncodedTerm::BigSmallLangStringLiteral { value_id: v, language: l },
                ),
                (Some(StringPart::Big(v)), Some(StringPart::Big(l))) => Some(
                    EncodedTerm::BigBigLangStringLiteral { value_id: v, language_id: l },
                ),
                _ => None,
            }
        },
        Term::TypedLiteral { value, datatype } => match native_literal(value, datatype) {
            Some(e) => Some(e),
            None => {
                let v = lookup_part(store, value);
                let d = store.get_str_id(datatype.as_str());
                proof {
                    let ts = term_strings(t@);
                    if !fits_inline(value@) {
                        assert(ts[0] == value@);
                    }
                    assert(ts[ts.len() - 1] == datatype@);
                }
                match (v, d) {
                    (Some(StringPart::Small(v)), Some(d)) => Some(
                        EncodedTerm::SmallTypedLiteral { value: v, datatype_id: d },
                    ),
                    (Some(StringPart::Big(v)), Some(d)) => Some(
                        EncodedTerm::BigTypedLiteral { value_id: v, datatype_id: d },
                    ),
                    _ => None,
                }
            },
        },
    }
}

fn lookup_string(store: &GraphStore, h: StrHash) -> (r: Result<String, DecodeError>)
    ensures
        match r {
            Ok(s) => lookup(store.dictionary(), h) == Some(s@),
            Err(e) => lookup(store.dictionary(), h) is None && e == DecodeError::DanglingHash,
        },
{
    match store.get_str(h) {
        Some(s) => Ok(s),
        None => Err(DecodeError::DanglingHash),
    }
}

fn small_string(s: SmallString) -> (r: String)
    requires
        s.wf(),
    ensures
        r@ == small_chars(s),
{
    let r = s.to_string();
    assert(decode_utf8(utf8_of(r@)) == r@);
    r
}

/// The user-facing term of an encoded term, reading the dictionary.
pub fn decode_encoded_term(store: &GraphStore, e: EncodedTerm) -> (r: Result<Term, DecodeError>)
    requires
        e.wf(),
    ensures
        match r {
            Ok(t) => decoded_term_of(store.dictionary(), e) == Some(t@),
            Err(err) => decoded_term_of(store.dictionary(), e) is None && err == term_decode_error(e),
        },
{
    match e {
        EncodedTerm::NamedNode { iri_id } => match lookup_string(store, iri_id) {
            Ok(s) => Ok(Term::NamedNode(s)),
            Err(err) => Err(err),
        },
        EncodedTerm::NumericalBlankNode { id } => {
            let label = hex_string(id);
            assert(decode_utf8(utf8_of(label@)) == label@);
            Ok(Term::BlankNode(label))
        },
        EncodedTerm::SmallBlankNode(s) => Ok(Term::BlankNode(small_string(s))),
        EncodedTerm::BigBlankNode { id_id } => match lookup_string(store, id_id) {
            Ok(s) => Ok(Term::BlankNode(s)),
            Err(err) => Err(err),
        },
        EncodedTerm::SmallStringLiteral(s) => Ok(Term::SimpleLiteral(small_string(s))),
        EncodedTerm::BigStringLiteral { value_id } => match lookup_string(store, value_id) {
            Ok(s) => Ok(Term::SimpleLiteral(s)),
            Err(err) => Err(err),
        },
        EncodedTerm::SmallSmallLangStringLiteral { value, language } => Ok(
            Term::LanguageTaggedLiteral { value: small_string(value), language: small_string(language) },
        ),
        EncodedTerm::SmallBigLangStringLiteral { value, language_id } => match lookup_string(
            store,
            language_id,
        ) {
            Ok(l) => Ok(Term::LanguageTaggedLiteral { value: small_string(value), language: l }),
            Err(err) => Err(err),
        },
        EncodedTerm::BigSmallLangStringLiteral { value_id, language } => match lookup_string(
            store,
            value_id,
        ) {
            Ok(v) => Ok(Term::LanguageTaggedLiteral { value: v, language: small_string(language) }),
            Err(err) => Err(err),
        },
        EncodedTerm::BigBigLangStringLiteral { value_id, language_id } => match lookup_string(
            store,
            value_id,
        ) {
            Ok(v) => match lookup_string(store, language_id) {
                Ok(l) => Ok(Term::LanguageTaggedLiteral { value: v, language: l }),
                Err(err) => Err(err),
            },
            Err(err) => Err(err),
        },
        EncodedTerm::SmallTypedLiteral { value, datatype_id } => match lookup_string(
            store,
            datatype_id,
        ) {
            Ok(d) => Ok(Term::TypedLiteral { value: small_string(value), datatype: d }),
            Err(err) => Err(err),
        },
        EncodedTerm::BigTypedLiteral { value_id, datatype_id } => match lookup_string(
            store,
            value_id,
        ) {
            Ok(v) => match lookup_string(store, datatype_id) {
                Ok(d) => Ok(Term::TypedLiteral { value: v, datatype: d }),
                Err(err) => Err(err),
            },
            Err(err) => Err(err),
        },
        EncodedTerm::BooleanLiteral(b) => {
            let value = if b {
                "true".to_owned()
            } else {
                "false".to_owned()
            };
            Ok(
                Term::TypedLiteral {
                    value,
                    datatype: "http://www.w3.org/2001/XMLSchema#boolean".to_owned(),
                },
            )
        },
        EncodedTerm::DecimalLiteral { value } => {
            let lexical = decimal_string(value);
            assert(decode_utf8(utf8_of(lexical@)) == lexical@);
            Ok(
                Term::TypedLiteral {
                    value: lexical,
                    datatype: "http://www.w3.org/2001/XMLSchema#decimal".to_owned(),
                },
            )
        },
        EncodedTerm::IntegerLiteral(v) => {
            let value = integer_string(v);
            assert(decode_utf8(utf8_of(value@)) == value@);
            Ok(
                Term::TypedLiteral {
                    value,
                    datatype: "http://www.w3.org/2001/XMLSchema#integer".to_owned(),
                },
            )
        },
        _ => Err(DecodeError::NoLexicalForm),
    }
}

/// Each dictionary string of the term is registered under its own hash.
pub open spec fn term_registered(d: Map<u128, Seq<char>>, t: TermModel) -> bool {
    forall|i: int| 0 <= i < term_strings(t).len() ==> registered(d, #[trigger] term_strings(t)[i])
}

/// The encoded form of any term is a well-formed term other than the default graph.
pub proof fn lemma_encoded_term_wf(t: TermModel)
    ensures
        encoded_term_of(t).wf(),
        !(encoded_term_of(t) is DefaultGraph),
{
    match t {
        TermModel::BlankNode(id) => if fits_inline(id) {
            lemma_small_of(id);
        },
        TermModel::SimpleLiteral(v) => if fits_inline(v) {
            lemma_small_of(v);
        },
        TermModel::LanguageTaggedLiteral(v, l) => {
            if fits_inline(v) {
                lemma_small_of(v);
            }
            if fits_inline(l) {
                lemma_small_of(l);
            }
        },
        TermModel::TypedLiteral(v, d) => if fits_inline(v) {
            lemma_small_of(v);
        },
        _ => {},
    }
}

/// Decoding the encoded form of a term gives the term back, once its
/// dictionary strings are registered.
pub proof fn lemma_term_round_trip(d: Map<u128, Seq<char>>, t: TermModel)
    requires
        term_registered(d, t),
    ensures
        decoded_term_of(d, encoded_term_of(t)) == Some(t),
{
    let ts = term_strings(t);
    match t {
        TermModel::NamedNode(iri) => {
            assert(registered(d, ts[0]));
        },
        TermModel::BlankNode(id) => if fits_inline(id) {
            lemma_small_of(id);
        } else {
            assert(registered(d, ts[0]));
        },
        TermModel::SimpleLiteral(v) => if fits_inline(v) {
            lemma_small_of(v);
        } else {
            assert(registered(d, ts[0]));
        },
        TermModel::LanguageTaggedLiteral(v, l) => {
            if fits_inline(v) {
                lemma_small_of(v);
            } else {
                assert(registered(d, ts[0]));
            }
            if fits_inline(l) {
                lemma_small_of(l);
            } else {
                assert(registered(d, ts[ts.len() - 1]));
            }
        },
        TermModel::TypedLiteral(v, dt) => {
            if is_native_literal(v, dt) {
                if dt == xsd_boolean() && boolean_value(v) is Some {
                } else {
                    let x = integer_value(v).unwrap();
                    assert(int_lexical(x as int) == utf8_of(v));
                }
            } else {
                if fits_inline(v) {
                    lemma_small_of(v);
                } else {
                    assert(registered(d, ts[0]));
                }
                assert(registered(d, ts[ts.len() - 1]));
            }
        },
    }
}

/// No string of `ss` meets a different string under its hash, neither in the
/// dictionary nor among the others.
pub open spec fn collision_free(d: Map<u128, Seq<char>>, ss: Seq<Seq<char>>) -> bool {
    &&& forall|i: int|
        0 <= i < ss.len() && d.contains_key(str_hash_of(#[trigger] ss[i]).hash) ==> d[str_hash_of(
            ss[i],
        ).hash] == ss[i]
    &&& forall|i: int, j: int|
        0 <= i < ss.len() && 0 <= j < ss.len() && str_hash_of(#[trigger] ss[i]).hash == str_hash_of(
            #[trigger] ss[j],
        ).hash ==> ss[i] == ss[j]
}

proof fn lemma_after_all_keeps(d: Map<u128, Seq<char>>, ss: Seq<Seq<char>>, s: Seq<char>)
    requires
        registered(d, s),
    ensures
        registered(dictionary_after_all(d, ss), s),
    decreases ss.len(),
{
    if ss.len() > 0 {
        lemma_after_all_keeps(dictionary_after_insert(d, ss[0]), ss.drop_first(), s);
    }
}

pub proof fn lemma_after_all_registers(d: Map<u128, Seq<char>>, ss: Seq<Seq<char>>)
    requires
        collision_free(d, ss),
    ensures
        forall|i: int| 0 <= i < ss.len() ==> registered(dictionary_after_all(d, ss), #[trigger] ss[i]),
    decreases ss.len(),
{
    if ss.len() > 0 {
        let d1 = dictionary_after_insert(d, ss[0]);
        let rest = ss.drop_first();
        assert(registered(d1, ss[0]));
        assert forall|i: int|
            0 <= i < rest.len() && d1.contains_key(str_hash_of(#[trigger] rest[i]).hash) implies d1[str_hash_of(
            rest[i],
        ).hash] == rest[i] by {
            assert(rest[i] == ss[i + 1]);
            if !d.contains_key(str_hash_of(rest[i]).hash) {
                assert(str_hash_of(ss[i + 1]).hash == str_hash_of(ss[0]).hash);
            }
        }
        assert forall|i: int, j: int|
            0 <= i < rest.len() && 0 <= j < rest.len() && str_hash_of(#[trigger] rest[i]).hash
                == str_hash_of(#[trigger] rest[j]).hash implies rest[i] == rest[j] by {
            assert(rest[i] == ss[i + 1]);
            assert(rest[j] == ss[j + 1]);
        }
        lemma_after_all_registers(d1, rest);
        lemma_after_all_keeps(d1, rest, ss[0]);
        assert forall|i: int| 0 <= i < ss.len() implies registered(
            dictionary_after_all(d, ss),
            #[trigger] ss[i],
        ) by {
            if i > 0 {
                assert(ss[i] == rest[i - 1]);
            }
        }
    }
}

/// Inserting a term into a dictionary where its strings meet no collision,
/// then decoding its encoded form with the resulting dictionary, gives the
/// term back.
pub proof fn lemma_insert_then_decode(d: Map<u128, Seq<char>>, t: TermModel)
    requires
        collision_free(d, term_strings(t)),
    ensures
        decoded_term_of(dictionary_after_all(d, term_strings(t)), encoded_term_of(t)) == Some(t),
{
    lemma_after_all_registers(d, term_strings(t));
    lemma_term_round_trip(dictionary_after_all(d, term_strings(t)), t);
}

} // verus!
