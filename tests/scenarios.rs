use graphdb::codec::{EncodedQuad, EncodedTerm};
use graphdb::error::DecodeError;
use graphdb::model::StrHash;
use graphdb::quad::{GraphName, Quad};
use graphdb::store::GraphStore;
use graphdb::term::{decode_encoded_term, insert_term, lookup_term, Term};

const XSD_INTEGER: &str = "http://www.w3.org/2001/XMLSchema#integer";
const XSD_BOOLEAN: &str = "http://www.w3.org/2001/XMLSchema#boolean";

fn node(local: &str) -> Term {
    Term::NamedNode(format!("http://example.org/{}", local))
}

fn plain(s: &str) -> Term {
    Term::SimpleLiteral(s.to_string())
}

fn graph(local: &str) -> GraphName {
    GraphName::Named(node(local))
}

fn quad(s: Term, p: Term, o: Term, g: GraphName) -> Quad {
    Quad { subject: s, predicate: p, object: o, graph_name: g }
}

#[test]
fn default_graph_quad_is_found_only_in_the_default_graph() {
    let mut store = GraphStore::new();
    let q = quad(node("a"), node("p"), plain("hello"), GraphName::DefaultGraph);
    store.insert_quad(&q);
    let found = store.quads_for_pattern(None, None, None, Some(&GraphName::DefaultGraph)).unwrap();
    assert_eq!(found, vec![q]);
    let in_g1 = store.quads_for_pattern(None, None, None, Some(&graph("g1"))).unwrap();
    assert!(in_g1.is_empty());
}

#[test]
fn two_objects_in_a_named_graph() {
    let mut store = GraphStore::new();
    store.insert_quad(&quad(node("a"), node("p"), plain("hello"), graph("g1")));
    store.insert_quad(&quad(node("a"), node("p"), plain("world"), graph("g1")));
    let found = store
        .quads_for_pattern(Some(&node("a")), Some(&node("p")), None, Some(&graph("g1")))
        .unwrap();
    let mut objects: Vec<Term> = found.into_iter().map(|q| q.object).collect();
    objects.sort_by_key(|t| format!("{:?}", t));
    assert_eq!(objects, vec![plain("hello"), plain("world")]);
    assert_eq!(store.named_graphs().unwrap(), vec![node("g1")]);
}

#[test]
fn integer_literal_is_stored_natively() {
    let mut store = GraphStore::new();
    let forty_two = Term::TypedLiteral { value: "42".to_string(), datatype: XSD_INTEGER.to_string() };
    store.insert_quad(&quad(node("a"), node("p"), forty_two.clone(), GraphName::DefaultGraph));
    let stored = store.quads();
    assert_eq!(stored.len(), 1);
    assert_eq!(stored[0].object, EncodedTerm::IntegerLiteral(42));
    assert_eq!(decode_encoded_term(&store, stored[0].object), Ok(forty_two));
}

#[test]
fn non_canonical_integer_keeps_its_lexical_form() {
    let mut store = GraphStore::new();
    let t = Term::TypedLiteral { value: "042".to_string(), datatype: XSD_INTEGER.to_string() };
    let e = insert_term(&mut store, &t);
    assert!(matches!(e, EncodedTerm::SmallTypedLiteral { .. }));
    assert_eq!(decode_encoded_term(&store, e), Ok(t));
}

#[test]
fn negative_and_extreme_integers_round_trip() {
    let mut store = GraphStore::new();
    for (lexical, value) in [("-7", -7i64), ("0", 0), ("9223372036854775807", i64::MAX), ("-9223372036854775808", i64::MIN)] {
        let t = Term::TypedLiteral { value: lexical.to_string(), datatype: XSD_INTEGER.to_string() };
        let e = insert_term(&mut store, &t);
        assert_eq!(e, EncodedTerm::IntegerLiteral(value));
        assert_eq!(decode_encoded_term(&store, e), Ok(t));
    }
    let too_big = Term::TypedLiteral {
        value: "9223372036854775808".to_string(),
        datatype: XSD_INTEGER.to_string(),
    };
    assert!(matches!(insert_term(&mut store, &too_big), EncodedTerm::BigTypedLiteral { .. }));
}

#[test]
fn booleans_are_stored_natively() {
    let mut store = GraphStore::new();
    let t = Term::TypedLiteral { value: "true".to_string(), datatype: XSD_BOOLEAN.to_string() };
    let e = insert_term(&mut store, &t);
    assert_eq!(e, EncodedTerm::BooleanLiteral(true));
    assert_eq!(decode_encoded_term(&store, e), Ok(t));
    let f = Term::TypedLiteral { value: "false".to_string(), datatype: XSD_BOOLEAN.to_string() };
    assert_eq!(insert_term(&mut store, &f), EncodedTerm::BooleanLiteral(false));
}

#[test]
fn language_tag_is_preserved() {
    let mut store = GraphStore::new();
    let x = Term::LanguageTaggedLiteral { value: "x".to_string(), language: "en".to_string() };
    store.insert_quad(&quad(node("a"), node("p"), x.clone(), graph("g1")));
    let found = store.quads_for_pattern(None, None, None, Some(&graph("g1"))).unwrap();
    assert_eq!(found.len(), 1);
    assert_eq!(found[0].object, x);
}

#[test]
fn removing_a_named_graph_keeps_the_dictionary() {
    let mut store = GraphStore::new();
    store.insert_quad(&quad(node("a"), node("p"), plain("one"), graph("g1")));
    store.insert_quad(&quad(node("b"), node("p"), plain("two"), graph("g1")));
    store.insert_quad(&quad(node("c"), node("q"), plain("three"), graph("g1")));
    store.remove_named_graph(&node("g1"));
    assert!(store.quads_for_pattern(None, None, None, Some(&graph("g1"))).unwrap().is_empty());
    assert!(store.quads_for_pattern(None, None, None, None).unwrap().is_empty());
    assert!(store.named_graphs().unwrap().is_empty());
    assert!(!store.contains_named_graph(&node("g1")));
    for local in ["a", "b", "c", "p", "q", "g1"] {
        let iri = format!("http://example.org/{}", local);
        assert_eq!(store.get_str(StrHash::new(&iri)), Some(iri.clone()));
    }
}

#[test]
fn sixteen_byte_literal_goes_to_the_dictionary() {
    let mut store = GraphStore::new();
    let long = "abcdefghijklmnop";
    assert_eq!(long.len(), 16);
    store.insert_quad(&quad(node("a"), node("p"), plain(long), GraphName::DefaultGraph));
    let stored = store.quads();
    assert_eq!(
        stored[0].object,
        EncodedTerm::BigStringLiteral { value_id: StrHash::new(long) }
    );
    let found = store.quads_for_pattern(None, None, Some(&plain(long)), None).unwrap();
    assert_eq!(found.len(), 1);
    assert_eq!(found[0].object, plain(long));
    let fifteen = "abcdefghijklmno";
    let e = insert_term(&mut store, &plain(fifteen));
    assert!(matches!(e, EncodedTerm::SmallStringLiteral(_)));
}

#[test]
fn unknown_term_matches_nothing() {
    let mut store = GraphStore::new();
    store.insert_quad(&quad(node("a"), node("p"), plain("hello"), GraphName::DefaultGraph));
    let found = store.quads_for_pattern(Some(&node("unknown")), None, None, None).unwrap();
    assert!(found.is_empty());
    let found = store
        .quads_for_pattern(None, None, Some(&plain("a literal longer than fifteen bytes")), None)
        .unwrap();
    assert!(found.is_empty());
    assert_eq!(lookup_term(&store, &node("unknown")), None);
}

#[test]
fn remove_quad_and_clear_graph() {
    let mut store = GraphStore::new();
    let q1 = quad(node("a"), node("p"), plain("1"), graph("g1"));
    let q2 = quad(node("a"), node("p"), plain("2"), graph("g2"));
    let q3 = quad(node("a"), node("p"), plain("3"), GraphName::DefaultGraph);
    store.insert_quad(&q1);
    store.insert_quad(&q2);
    store.insert_quad(&q3);
    store.remove_quad(&q1);
    assert!(store.quads_for_pattern(None, None, None, Some(&graph("g1"))).unwrap().is_empty());
    assert!(store.contains_named_graph(&node("g1")));
    store.clear_graph(&GraphName::DefaultGraph);
    assert_eq!(store.quads_for_pattern(None, None, None, None).unwrap(), vec![q2.clone()]);
    store.insert_named_graph(&node("g3"));
    assert!(store.contains_named_graph(&node("g3")));
    store.clear_all();
    assert!(store.quads_for_pattern(None, None, None, None).unwrap().is_empty());
    assert!(store.named_graphs().unwrap().is_empty());
    assert_eq!(store.get_str(StrHash::new("http://example.org/a")), None);
}

#[test]
fn blank_nodes_short_and_long() {
    let mut store = GraphStore::new();
    let short = Term::BlankNode("b1".to_string());
    let long = Term::BlankNode("a-blank-node-with-a-long-id".to_string());
    let e1 = insert_term(&mut store, &short);
    let e2 = insert_term(&mut store, &long);
    assert!(matches!(e1, EncodedTerm::SmallBlankNode(_)));
    assert!(matches!(e2, EncodedTerm::BigBlankNode { .. }));
    assert_eq!(decode_encoded_term(&store, e1), Ok(short));
    assert_eq!(decode_encoded_term(&store, e2), Ok(long));
}

#[test]
fn missing_dictionary_entry_is_a_dangling_hash() {
    let store = GraphStore::new();
    let e = EncodedTerm::NamedNode { iri_id: StrHash::new("http://example.org/x") };
    assert_eq!(decode_encoded_term(&store, e), Err(DecodeError::DanglingHash));
    let f = EncodedTerm::DateTimeLiteral(graphdb::codec::Timestamp { value: 5, timezone: 0 });
    assert_eq!(decode_encoded_term(&store, f), Err(DecodeError::NoLexicalForm));
}

#[test]
fn long_language_tag_and_typed_literal() {
    let mut store = GraphStore::new();
    let t = Term::LanguageTaggedLiteral {
        value: "a value longer than fifteen".to_string(),
        language: "x-a-very-long-language-tag".to_string(),
    };
    let e = insert_term(&mut store, &t);
    assert!(matches!(e, EncodedTerm::BigBigLangStringLiteral { .. }));
    assert_eq!(decode_encoded_term(&store, e), Ok(t));
    let d = Term::TypedLiteral { value: "1.5".to_string(), datatype: "http://example.org/dt".to_string() };
    let e = insert_term(&mut store, &d);
    assert!(matches!(e, EncodedTerm::SmallTypedLiteral { .. }));
    assert_eq!(decode_encoded_term(&store, e), Ok(d));
}

#[test]
fn numerical_blank_node_reads_as_hex() {
    let store = GraphStore::new();
    let e = EncodedTerm::NumericalBlankNode { id: 0xab12 };
    assert_eq!(decode_encoded_term(&store, e), Ok(Term::BlankNode("ab12".to_string())));
    let e = EncodedTerm::NumericalBlankNode { id: 0 };
    assert_eq!(decode_encoded_term(&store, e), Ok(Term::BlankNode("0".to_string())));
}

#[test]
fn missing_hash_in_a_stored_quad_surfaces_as_dangling() {
    let mut store = GraphStore::new();
    let s = insert_term(&mut store, &node("a"));
    let p = insert_term(&mut store, &node("p"));
    let unknown = EncodedTerm::NamedNode { iri_id: StrHash::new("http://example.org/never-registered") };
    store.insert_encoded(&EncodedQuad::new(s, p, unknown, EncodedTerm::DefaultGraph));
    assert_eq!(store.quads_for_pattern(None, None, None, None), Err(DecodeError::DanglingHash));
    let e = store.quads()[0];
    assert_eq!(graphdb::quad::decode_quad(&store, &e), Err(DecodeError::DanglingHash));
}

#[test]
fn decimals_read_in_canonical_form() {
    let store = GraphStore::new();
    const XSD_DECIMAL: &str = "http://www.w3.org/2001/XMLSchema#decimal";
    let cases: [(i128, &str); 6] = [
        (1_500_000_000_000_000_000, "1.5"),
        (5, "0.000000000000000005"),
        (-2_000_000_000_000_000_000, "-2"),
        (0, "0"),
        (-250_000_000_000_000_000, "-0.25"),
        (i128::MIN, "-170141183460469231731.687303715884105728"),
    ];
    for (value, lexical) in cases {
        let e = EncodedTerm::DecimalLiteral { value };
        assert_eq!(
            decode_encoded_term(&store, e),
            Ok(Term::TypedLiteral { value: lexical.to_string(), datatype: XSD_DECIMAL.to_string() })
        );
    }
}
