//! Index keys: the encodings of a quad's terms, concatenated in the order of
//! one of the nine index permutations.
use vstd::prelude::*;

use crate::codec::{
    encode_term_quad, encode_term_triple, lemma_read_encoded, read_term, spec_encode_term,
    EncodedQuad, EncodedTerm,
};
use crate::index::is_prefix;

verus! {

/// The nine index permutations: three for the default graph, six for named graphs.
#[derive(Clone, Copy, Debug, PartialEq, Eq, Structural)]
pub enum IndexOrder {
    Spo,
    Pos,
    Osp,
    Gspo,
    Gpos,
    Gosp,
    Spog,
    Posg,
    Ospg,
}

impl IndexOrder {
    /// An index of default-graph triples.
    pub open spec fn is_default(self) -> bool {
        self is Spo || self is Pos || self is Osp
    }

    /// The quad components in key order: 0 subject, 1 predicate, 2 object, 3 graph.
    pub open spec fn components(self) -> Seq<int> {
        match self {
            IndexOrder::Spo => seq![0, 1, 2],
            IndexOrder::Pos => seq![1, 2, 0],
            IndexOrder::Osp => seq![2, 0, 1],
            IndexOrder::Gspo => seq![3, 0, 1, 2],
            IndexOrder::Gpos => seq![3, 1, 2, 0],
            IndexOrder::Gosp => seq![3, 2, 0, 1],
            IndexOrder::Spog => seq![0, 1, 2, 3],
            IndexOrder::Posg => seq![1, 2, 0, 3],
            IndexOrder::Ospg => seq![2, 0, 1, 3],
        }
    }
}

/// One component of a quad.
pub open spec fn component(q: EncodedQuad, c: int) -> EncodedTerm {
    if c == 0 {
        q.subject
    } else if c == 1 {
        q.predicate
    } else if c == 2 {
        q.object
    } else {
        q.graph_name
    }
}

impl EncodedQuad {
    /// Well-formed terms, none of subject, predicate and object the default graph.
    pub open spec fn wf(&self) -> bool {
        &&& self.subject.wf()
        &&& self.predicate.wf()
        &&& self.object.wf()
        &&& self.graph_name.wf()
        &&& !(self.subject is DefaultGraph)
        &&& !(self.predicate is DefaultGraph)
        &&& !(self.object is DefaultGraph)
    }
}

/// Whether the quad belongs to the family of indexes that `order` is in.
pub open spec fn in_family(order: IndexOrder, q: EncodedQuad) -> bool {
    order.is_default() == (q.graph_name is DefaultGraph)
}

/// The quad's terms in key order.
pub open spec fn order_terms(order: IndexOrder, q: EncodedQuad) -> Seq<EncodedTerm> {
    order.components().map_values(|c: int| component(q, c))
}

/// The concatenated encodings of a sequence of terms.
pub open spec fn encode_all(ts: Seq<EncodedTerm>) -> Seq<u8>
    decreases ts.len(),
{
    if ts.len() == 0 {
        Seq::empty()
    } else {
        spec_encode_term(ts[0]) + encode_all(ts.drop_first())
    }
}

/// The key of a quad in the index of the given order.
pub open spec fn key_of(order: IndexOrder, q: EncodedQuad) -> Seq<u8> {
    encode_all(order_terms(order, q))
}

/// Terms that may stand in a key: well formed, not the default graph.
pub open spec fn key_terms_ok(ts: Seq<EncodedTerm>) -> bool {
    forall|i: int| 0 <= i < ts.len() ==> (#[trigger] ts[i]).wf() && !(ts[i] is DefaultGraph)
}

/// The quad that a key's terms, in key order, stand for.
pub open spec fn quad_from_terms(order: IndexOrder, ts: Seq<EncodedTerm>) -> EncodedQuad {
    let d = EncodedTerm::DefaultGraph;
    match order {
        IndexOrder::Spo => EncodedQuad { subject: ts[0], predicate: ts[1], object: ts[2], graph_name: d },
        IndexOrder::Pos => EncodedQuad { subject: ts[2], predicate: ts[0], object: ts[1], graph_name: d },
        IndexOrder::Osp => EncodedQuad { subject: ts[1], predicate: ts[2], object: ts[0], graph_name: d },
        IndexOrder::Gspo => EncodedQuad {
            subject: ts[1],
            predicate: ts[2],
            object: ts[3],
            graph_name: ts[0],
        },
        IndexOrder::Gpos => EncodedQuad {
            subject: ts[3],
            predicate: ts[1],
            object: ts[2],
            graph_name: ts[0],
        },
        IndexOrder::Gosp => EncodedQuad {
            subject: ts[2],
            predicate: ts[3],
            object: ts[1],
            graph_name: ts[0],
        },
        IndexOrder::Spog => EncodedQuad {
            subject: ts[0],
            predicate: ts[1],
            object: ts[2],
            graph_name: ts[3],
        },
        IndexOrder::Posg => EncodedQuad {
            subject: ts[2],
            predicate: ts[0],
            object: ts[1],
            graph_name: ts[3],
        },
        IndexOrder::Ospg => EncodedQuad {
            subject: ts[1],
            predicate: ts[2],
            object: ts[0],
            graph_name: ts[3],
        },
    }
}

pub proof fn lemma_order_terms(order: IndexOrder, q: EncodedQuad)
    requires
        q.wf(),
        in_family(order, q),
    ensures
        key_terms_ok(order_terms(order, q)),
        order_terms(order, q).len() == order.components().len(),
        order_terms(order, q).len() == (if order.is_default() { 3int } else { 4int }),
        quad_from_terms(order, order_terms(order, q)) == q,
{
}

pub proof fn lemma_encode_all_concat(a: Seq<EncodedTerm>, b: Seq<EncodedTerm>)
    ensures
        encode_all(a + b) == encode_all(a) + encode_all(b),
    decreases a.len(),
{
    if a.len() == 0 {
        assert(a + b =~= b);
        assert(encode_all(a) + encode_all(b) =~= encode_all(b));
    } else {
        assert((a + b).drop_first() =~= a.drop_first() + b);
        lemma_encode_all_concat(a.drop_first(), b);
        assert(encode_all(a + b) =~= encode_all(a) + encode_all(b));
    }
}

proof fn lemma_encode_all_one(t: EncodedTerm)
    ensures
        encode_all(seq![t]) == spec_encode_term(t),
{
    assert(seq![t].drop_first() =~= Seq::<EncodedTerm>::empty());
    assert(encode_all(Seq::<EncodedTerm>::empty()) == Seq::<u8>::empty());
    assert(seq![t][0] == t);
    assert(encode_all(seq![t]) == spec_encode_term(t) + Seq::<u8>::empty());
    assert(encode_all(seq![t]) =~= spec_encode_term(t));
}

/// A sequence of key terms is a prefix of another exactly when its encoding
/// is a prefix of the other's encoding.
pub proof fn lemma_prefix_match(ts: Seq<EncodedTerm>, bs: Seq<EncodedTerm>)
    requires
        key_terms_ok(ts),
        key_terms_ok(bs),
        bs.len() <= ts.len(),
    ensures
        is_prefix(encode_all(bs), encode_all(ts)) <==> bs == ts.subrange(0, bs.len() as int),
    decreases bs.len(),
{
    if bs.len() == 0 {
        assert(encode_all(ts).subrange(0, 0) =~= encode_all(bs));
        assert(ts.subrange(0, 0) =~= bs);
    } else {
        let t0 = ts[0];
        let b0 = bs[0];
        let rt = ts.drop_first();
        let rb = bs.drop_first();
        assert(key_terms_ok(rt)) by {
            assert forall|i: int| 0 <= i < rt.len() implies (#[trigger] rt[i]).wf() && !(
            rt[i] is DefaultGraph) by {
                assert(rt[i] == ts[i + 1]);
            }
        }
        assert(key_terms_ok(rb)) by {
            assert forall|i: int| 0 <= i < rb.len() implies (#[trigger] rb[i]).wf() && !(
            rb[i] is DefaultGraph) by {
                assert(rb[i] == bs[i + 1]);
            }
        }
        assert(t0 == ts[0] && t0.wf() && !(t0 is DefaultGraph));
        assert(b0 == bs[0] && b0.wf() && !(b0 is DefaultGraph));
        lemma_prefix_match(rt, rb);
        let k = encode_all(ts);
        let p = encode_all(bs);
        let et = spec_encode_term(t0);
        let eb = spec_encode_term(b0);
        assert(k == et + encode_all(rt));
        assert(p == eb + encode_all(rb));
        if is_prefix(p, k) {
            assert(k.subrange(0, eb.len() as int) =~= eb) by {
                assert(k.subrange(0, eb.len() as int) =~= p.subrange(0, eb.len() as int));
            }
            assert(k.subrange(0, et.len() as int) =~= et);
            lemma_read_encoded(b0, k, 0);
            lemma_read_encoded(t0, k, 0);
            assert(b0 == t0);
            assert(encode_all(rt).subrange(0, encode_all(rb).len() as int) =~= encode_all(rb)) by {
                assert forall|i: int| 0 <= i < encode_all(rb).len() implies encode_all(rt)[i]
                    == encode_all(rb)[i] by {
                    assert(k[et.len() + i] == encode_all(rt)[i]);
                    assert(p[eb.len() + i] == encode_all(rb)[i]);
                    assert(k.subrange(0, p.len() as int)[eb.len() + i] == p[eb.len() + i]);
                }
            }
            assert(bs =~= ts.subrange(0, bs.len() as int)) by {
                assert forall|i: int| 0 <= i < bs.len() implies bs[i] == ts[i] by {
                    if i > 0 {
                        assert(rb[i - 1] == rt.subrange(0, rb.len() as int)[i - 1]);
                    }
                }
            }
        }
        if bs == ts.subrange(0, bs.len() as int) {
            assert(b0 == t0);
            assert(rb =~= rt.subrange(0, rb.len() as int));
            assert(k.subrange(0, p.len() as int) =~= p) by {
                assert forall|i: int| 0 <= i < p.len() implies k[i] == p[i] by {
                    if i >= et.len() {
                        assert(encode_all(rt).subrange(0, encode_all(rb).len() as int)[i
                            - et.len()] == encode_all(rb)[i - et.len()]);
                    }
                }
            }
        }
    }
}

/// Two quads of one family with the same key in an index are the same quad.
pub proof fn lemma_key_injective(order: IndexOrder, q1: EncodedQuad, q2: EncodedQuad)
    requires
        q1.wf(),
        q2.wf(),
        in_family(order, q1),
        in_family(order, q2),
        key_of(order, q1) == key_of(order, q2),
    ensures
        q1 == q2,
{
    lemma_order_terms(order, q1);
    lemma_order_terms(order, q2);
    let t1 = order_terms(order, q1);
    let t2 = order_terms(order, q2);
    let k = key_of(order, q1);
    assert(k.subrange(0, k.len() as int) =~= k);
    lemma_prefix_match(t1, t2);
    assert(t1.subrange(0, t2.len() as int) =~= t1);
}

proof fn lemma_encode_all_3(a: EncodedTerm, b: EncodedTerm, c: EncodedTerm)
    ensures
        encode_all(seq![a, b, c]) == spec_encode_term(a) + spec_encode_term(b) + spec_encode_term(
            c,
        ),
{
    lemma_encode_all_one(c);
    lemma_encode_all_one(b);
    lemma_encode_all_one(a);
    lemma_encode_all_concat(seq![b], seq![c]);
    lemma_encode_all_concat(seq![a], seq![b] + seq![c]);
    assert(seq![a] + (seq![b] + seq![c]) =~= seq![a, b, c]);
    assert(spec_encode_term(a) + (spec_encode_term(b) + spec_encode_term(c)) =~= spec_encode_term(a)
        + spec_encode_term(b) + spec_encode_term(c));
}

proof fn lemma_encode_all_4(a: EncodedTerm, b: EncodedTerm, c: EncodedTerm, d: EncodedTerm)
    ensures
        encode_all(seq![a, b, c, d]) == spec_encode_term(a) + spec_encode_term(b)
            + spec_encode_term(c) + spec_encode_term(d),
{
    lemma_encode_all_3(a, b, c);
    lemma_encode_all_one(d);
    lemma_encode_all_concat(seq![a, b, c], seq![d]);
    assert(seq![a, b, c] + seq![d] =~= seq![a, b, c, d]);
}

/// The key of a quad in the index of the given order.
pub fn quad_key(order: IndexOrder, q: &EncodedQuad) -> (r: Vec<u8>)
    ensures
        r@ == key_of(order, *q),
{
    let (s, p, o, g) = (q.subject, q.predicate, q.object, q.graph_name);
    match order {
        IndexOrder::Spo => {
            proof {
                lemma_encode_all_3(s, p, o);
                assert(order_terms(order, *q) =~= seq![s, p, o]);
            }
            encode_term_triple(s, p, o)
        },
        IndexOrder::Pos => {
            proof {
                lemma_encode_all_3(p, o, s);
                assert(order_terms(order, *q) =~= seq![p, o, s]);
            }
            encode_term_triple(p, o, s)
        },
        IndexOrder::Osp => {
            proof {
                lemma_encode_all_3(o, s, p);
                assert(order_terms(order, *q) =~= seq![o, s, p]);
            }
            encode_term_triple(o, s, p)
        },
        IndexOrder::Gspo => {
            proof {
                lemma_encode_all_4(g, s, p, o);
                assert(order_terms(order, *q) =~= seq![g, s, p, o]);
            }
            encode_term_quad(g, s, p, o)
        },
        IndexOrder::Gpos => {
            proof {
                lemma_encode_all_4(g, p, o, s);
                assert(order_terms(order, *q) =~= seq![g, p, o, s]);
            }
            encode_term_quad(g, p, o, s)
        },
        IndexOrder::Gosp => {
            proof {
                lemma_encode_all_4(g, o, s, p);
                assert(order_terms(order, *q) =~= seq![g, o, s, p]);
            }
            encode_term_quad(g, o, s, p)
        },
        IndexOrder::Spog => {
            proof {
                lemma_encode_all_4(s, p, o, g);
                assert(order_terms(order, *q) =~= seq![s, p, o, g]);
            }
            encode_term_quad(s, p, o, g)
        },
        IndexOrder::Posg => {
            proof {
                lemma_encode_all_4(p, o, s, g);
                assert(order_terms(order, *q) =~= seq![p, o, s, g]);
            }
            encode_term_quad(p, o, s, g)
        },
        IndexOrder::Ospg => {
            proof {
                lemma_encode_all_4(o, s, p, g);
                assert(order_terms(order, *q) =~= seq![o, s, p, g]);
            }
            encode_term_quad(o, s, p, g)
        },
    }
}

/// The concatenated encodings of the given terms.
pub fn encode_terms(ts: &Vec<EncodedTerm>) -> (r: Vec<u8>)
    ensures
        r@ == encode_all(ts@),
{
    let mut out: Vec<u8> = Vec::new();
    let n = ts.len();
    let mut i: usize = 0;
    while i < n
        invariant
            n == ts@.len(),
            i <= n,
            out@ == encode_all(ts@.subrange(0, i as int)),
        decreases n - i,
    {
        let ghost before = out@;
        crate::codec::write_term(&mut out, ts[i]);
        proof {
            lemma_encode_all_concat(ts@.subrange(0, i as int), seq![ts@[i as int]]);
            lemma_encode_all_one(ts@[i as int]);
            assert(ts@.subrange(0, i as int) + seq![ts@[i as int]] =~= ts@.subrange(0, i + 1));
        }
        i = i + 1;
    }
    assert(ts@.subrange(0, n as int) =~= ts@);
    out
}

/// Reads the terms of a key back, given the quad it was made from.
pub fn decode_key(order: IndexOrder, key: &[u8], Ghost(q): Ghost<EncodedQuad>) -> (r: EncodedQuad)
    requires
        q.wf(),
        in_family(order, q),
        key@ == key_of(order, q),
    ensures
        r == q,
{
    let ghost ts = order_terms(order, q);
    proof {
        lemma_order_terms(order, q);
    }
    let n: usize = match order {
        IndexOrder::Spo | IndexOrder::Pos | IndexOrder::Osp => 3,
        _ => 4,
    };
    let mut terms: Vec<EncodedTerm> = Vec::new();
    let mut pos: usize = 0;
    let mut i: usize = 0;
    while i < n
        invariant
            n == ts.len(),
            key_terms_ok(ts),
            key@ == encode_all(ts),
            i <= n,
            terms@ == ts.subrange(0, i as int),
            pos == encode_all(ts.subrange(0, i as int)).len(),
        decreases n - i,
    {
        proof {
            let pre = ts.subrange(0, i as int);
            let rest = ts.subrange(i as int, n as int);
            assert(pre + rest =~= ts);
            lemma_encode_all_concat(pre, rest);
            assert(rest.drop_first() =~= ts.subrange(i + 1, n as int));
            let e = spec_encode_term(ts[i as int]);
            assert(encode_all(rest) == e + encode_all(rest.drop_first()));
            assert(key@.subrange(pos as int, pos + e.len()) =~= e);
            lemma_read_encoded(ts[i as int], key@, pos as int);
            lemma_encode_all_concat(pre, seq![ts[i as int]]);
            lemma_encode_all_one(ts[i as int]);
            assert(pre + seq![ts[i as int]] =~= ts.subrange(0, i + 1));
        }
        match read_term(key, pos) {
            Ok((t, end)) => {
                terms.push(t);
                pos = end;
            },
            Err(_) => {
                return EncodedQuad::new(
                    EncodedTerm::DefaultGraph,
                    EncodedTerm::DefaultGraph,
                    EncodedTerm::DefaultGraph,
                    EncodedTerm::DefaultGraph,
                );
            },
        }
        i = i + 1;
        assert(terms@ =~= ts.subrange(0, i as int));
    }
    assert(terms@ =~= ts);
    let d = EncodedTerm::DefaultGraph;
    match order {
        IndexOrder::Spo => EncodedQuad::new(terms[0], terms[1], terms[2], d),
        IndexOrder::Pos => EncodedQuad::new(terms[2], terms[0], terms[1], d),
        IndexOrder::Osp => EncodedQuad::new(terms[1], terms[2], terms[0], d),
        IndexOrder::Gspo => EncodedQuad::new(terms[1], terms[2], terms[3], terms[0]),
        IndexOrder::Gpos => EncodedQuad::new(terms[3], terms[1], terms[2], terms[0]),
        IndexOrder::Gosp => EncodedQuad::new(terms[2], terms[3], terms[1], terms[0]),
        IndexOrder::Spog => EncodedQuad::new(terms[0], terms[1], terms[2], terms[3]),
        IndexOrder::Posg => EncodedQuad::new(terms[2], terms[0], terms[1], terms[3]),
        IndexOrder::Ospg => EncodedQuad::new(terms[1], terms[2], terms[0], terms[3]),
    }
}

} // verus!
