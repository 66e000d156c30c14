use graphdb::codec::{EncodedQuad, EncodedTerm};
use graphdb::keys::IndexOrder;
use graphdb::model::{SmallString, StrHash};
use graphdb::store::GraphStore;

fn iri(v: u128) -> EncodedTerm {
    EncodedTerm::NamedNode { iri_id: StrHash { hash: v } }
}

fn lit(s: &str) -> EncodedTerm {
    EncodedTerm::SmallStringLiteral(SmallString::from_str(s).unwrap())
}

fn q(s: EncodedTerm, p: EncodedTerm, o: EncodedTerm, g: EncodedTerm) -> EncodedQuad {
    EncodedQuad::new(s, p, o, g)
}

const D: EncodedTerm = EncodedTerm::DefaultGraph;

fn sorted(mut v: Vec<EncodedQuad>) -> Vec<Vec<u8>> {
    let mut keys: Vec<Vec<u8>> = v
        .drain(..)
        .map(|q| {
            let mut k = q.graph_name.to_bytes();
            k.extend(q.subject.to_bytes());
            k.extend(q.predicate.to_bytes());
            k.extend(q.object.to_bytes());
            k
        })
        .collect();
    keys.sort();
    keys
}

fn sample() -> (GraphStore, Vec<EncodedQuad>) {
    let mut store = GraphStore::new();
    let quads = vec![
        q(iri(1), iri(10), lit("x"), D),
        q(iri(1), iri(11), lit("y"), D),
        q(iri(2), iri(10), lit("x"), D),
        q(iri(1), iri(10), lit("x"), iri(100)),
        q(iri(1), iri(10), lit("z"), iri(100)),
        q(iri(2), iri(11), lit("x"), iri(101)),
    ];
    for quad in &quads {
        store.insert_encoded(quad);
    }
    (store, quads)
}

fn expected(
    quads: &[EncodedQuad],
    s: Option<EncodedTerm>,
    p: Option<EncodedTerm>,
    o: Option<EncodedTerm>,
    g: Option<EncodedTerm>,
) -> Vec<EncodedQuad> {
    quads
        .iter()
        .copied()
        .filter(|x| {
            s.map_or(true, |v| x.subject == v)
                && p.map_or(true, |v| x.predicate == v)
                && o.map_or(true, |v| x.object == v)
                && g.map_or(true, |v| x.graph_name == v)
        })
        .collect()
}

#[test]
fn every_pattern_shape_yields_the_matching_quads() {
    let (store, quads) = sample();
    let ss = [None, Some(iri(1)), Some(iri(2))];
    let ps = [None, Some(iri(10)), Some(iri(11))];
    let os = [None, Some(lit("x")), Some(lit("z"))];
    let gs = [None, Some(D), Some(iri(100)), Some(iri(101))];
    for s in ss {
        for p in ps {
            for o in os {
                for g in gs {
                    let got = store.encoded_quads_for_pattern(s, p, o, g);
                    let want = expected(&quads, s, p, o, g);
                    assert_eq!(got.len(), want.len(), "pattern {:?} {:?} {:?} {:?}", s, p, o, g);
                    assert_eq!(sorted(got), sorted(want));
                }
            }
        }
    }
}

#[test]
fn default_graph_quad_comes_before_named_ones() {
    let (store, _) = sample();
    let got = store.quads_for_subject_predicate_object(iri(1), iri(10), lit("x"));
    assert_eq!(got, vec![q(iri(1), iri(10), lit("x"), D), q(iri(1), iri(10), lit("x"), iri(100))]);
}

#[test]
fn absent_default_triple_is_not_emitted() {
    let (store, _) = sample();
    let got = store.quads_for_subject_predicate_object(iri(1), iri(10), lit("z"));
    assert_eq!(got, vec![q(iri(1), iri(10), lit("z"), iri(100))]);
}

#[test]
fn eligible_indexes_agree() {
    let (store, _) = sample();
    let s = iri(1);
    let p = iri(10);
    let o = lit("x");
    let spo = store.scan(IndexOrder::Spo, &vec![s, p, o]);
    let pos = store.scan(IndexOrder::Pos, &vec![p, o, s]);
    let osp = store.scan(IndexOrder::Osp, &vec![o, s, p]);
    assert_eq!(sorted(spo.clone()), sorted(pos));
    assert_eq!(sorted(spo.clone()), sorted(osp));
    assert_eq!(spo, vec![q(s, p, o, D)]);
    let spog = store.scan(IndexOrder::Spog, &vec![s, p, o, iri(100)]);
    let gspo = store.scan(IndexOrder::Gspo, &vec![iri(100), s, p, o]);
    let posg = store.scan(IndexOrder::Posg, &vec![p, o, s, iri(100)]);
    let ospg = store.scan(IndexOrder::Ospg, &vec![o, s, p, iri(100)]);
    let gpos = store.scan(IndexOrder::Gpos, &vec![iri(100), p, o, s]);
    let gosp = store.scan(IndexOrder::Gosp, &vec![iri(100), o, s, p]);
    for other in [gspo, posg, ospg, gpos, gosp] {
        assert_eq!(sorted(spog.clone()), sorted(other));
    }
    assert_eq!(spog, vec![q(s, p, o, iri(100))]);
}

#[test]
fn fanout_insert_then_remove() {
    let mut store = GraphStore::new();
    let quad = q(iri(1), iri(2), lit("o"), iri(7));
    store.insert_encoded(&quad);
    assert_eq!(store.quads_for_graph(iri(7)), vec![quad]);
    assert!(store.quads_for_graph(iri(8)).is_empty());
    assert!(store.quads_for_graph(D).is_empty());
    assert!(store.contains_encoded_quad(&quad));
    assert!(store.contains_encoded_named_graph(iri(7)));
    store.remove_encoded(&quad);
    assert!(store.quads_for_graph(iri(7)).is_empty());
    assert!(!store.contains_encoded_quad(&quad));
    assert!(store.contains_encoded_named_graph(iri(7)));
    assert!(store.quads().is_empty());
}

#[test]
fn inserting_twice_stores_once() {
    let mut store = GraphStore::new();
    let quad = q(iri(1), iri(2), lit("o"), D);
    store.insert_encoded(&quad);
    store.insert_encoded(&quad);
    assert_eq!(store.quads(), vec![quad]);
}

#[test]
fn clear_graph_touches_only_that_graph() {
    let (mut store, quads) = sample();
    store.clear_encoded_graph(iri(100));
    let want = expected(&quads, None, None, None, None)
        .into_iter()
        .filter(|x| x.graph_name != iri(100))
        .collect();
    assert_eq!(sorted(store.quads()), sorted(want));
    assert!(store.contains_encoded_named_graph(iri(100)));
}

#[test]
fn clear_default_graph_keeps_named_graphs() {
    let (mut store, quads) = sample();
    store.clear_encoded_graph(D);
    let want = expected(&quads, None, None, None, None)
        .into_iter()
        .filter(|x| x.graph_name != D)
        .collect();
    assert_eq!(sorted(store.quads()), sorted(want));
}

#[test]
fn remove_named_graph_forgets_the_name() {
    let (mut store, _) = sample();
    store.remove_encoded_named_graph(iri(100));
    assert!(!store.contains_encoded_named_graph(iri(100)));
    assert!(store.quads_for_graph(iri(100)).is_empty());
    assert_eq!(store.encoded_named_graphs(), vec![iri(101)]);
}

#[test]
fn named_graphs_are_listed_once() {
    let (mut store, _) = sample();
    store.insert_encoded_named_graph(iri(100));
    store.insert_encoded_named_graph(iri(102));
    let mut names: Vec<Vec<u8>> = store.encoded_named_graphs().into_iter().map(|g| g.to_bytes()).collect();
    names.sort();
    let mut want: Vec<Vec<u8>> = vec![iri(100), iri(101), iri(102)].into_iter().map(|g| g.to_bytes()).collect();
    want.sort();
    assert_eq!(names, want);
}

#[test]
fn dictionary_insert_is_idempotent() {
    let mut store = GraphStore::new();
    let h1 = store.insert_str("http://example.org/a");
    let h2 = store.insert_str("http://example.org/a");
    assert_eq!(h1, h2);
    assert_eq!(h1, StrHash::new("http://example.org/a"));
    assert_eq!(store.get_str(h1), Some("http://example.org/a".to_string()));
    assert_eq!(store.get_str_id("http://example.org/a"), Some(h1));
    assert_eq!(store.get_str_id("http://example.org/b"), None);
    assert_eq!(store.get_str(StrHash::new("http://example.org/b")), None);
}

#[test]
fn clear_empties_everything() {
    let (mut store, _) = sample();
    let h = store.insert_str("http://example.org/a");
    store.clear();
    assert!(store.quads().is_empty());
    assert!(store.encoded_named_graphs().is_empty());
    assert_eq!(store.get_str(h), None);
}

#[test]
fn scans_follow_key_order() {
    let mut store = GraphStore::new();
    for v in [9u128, 3, 7, 1, 5] {
        store.insert_encoded(&q(iri(v), iri(20 - v), lit("o"), D));
        store.insert_encoded(&q(iri(v), iri(20 - v), lit("o"), iri(300 - v)));
    }
    let spo = store.scan(IndexOrder::Spo, &Vec::new());
    let subjects: Vec<EncodedTerm> = spo.iter().map(|x| x.subject).collect();
    assert_eq!(subjects, vec![iri(1), iri(3), iri(5), iri(7), iri(9)]);
    let pos = store.scan(IndexOrder::Pos, &Vec::new());
    let predicates: Vec<EncodedTerm> = pos.iter().map(|x| x.predicate).collect();
    assert_eq!(predicates, vec![iri(11), iri(13), iri(15), iri(17), iri(19)]);
    let gspo = store.scan(IndexOrder::Gspo, &Vec::new());
    let graphs: Vec<EncodedTerm> = gspo.iter().map(|x| x.graph_name).collect();
    assert_eq!(graphs, vec![iri(291), iri(293), iri(295), iri(297), iri(299)]);
}

#[test]
fn all_quads_list_default_graph_first_in_key_order() {
    let mut store = GraphStore::new();
    store.insert_encoded(&q(iri(5), iri(1), lit("o"), iri(200)));
    store.insert_encoded(&q(iri(4), iri(1), lit("o"), D));
    store.insert_encoded(&q(iri(3), iri(1), lit("o"), iri(100)));
    store.insert_encoded(&q(iri(2), iri(1), lit("o"), D));
    assert_eq!(
        store.quads(),
        vec![
            q(iri(2), iri(1), lit("o"), D),
            q(iri(4), iri(1), lit("o"), D),
            q(iri(3), iri(1), lit("o"), iri(100)),
            q(iri(5), iri(1), lit("o"), iri(200)),
        ]
    );
    let by_predicate = store.quads_for_predicate(iri(1));
    assert_eq!(by_predicate[0].graph_name, D);
    assert_eq!(by_predicate[1].graph_name, D);
    assert_eq!(by_predicate[2].subject, iri(3));
    assert_eq!(by_predicate[3].subject, iri(5));
}
