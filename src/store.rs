//! The quad store: a string dictionary, three default-graph indexes, six
//! named-graph indexes and the set of graph names.
use std::collections::HashMap;
use vstd::prelude::*;

use crate::codec::{
    decode_term, encode_term, lemma_codec_round_trip, spec_encode_term,
    EncodedQuad, EncodedTerm,
};
use crate::index::{has_prefix, is_prefix, is_sorted, lex_lt, KeySet};
use crate::keys::{
    decode_key, encode_all, encode_terms, in_family, key_of, key_terms_ok, lemma_key_injective,
    lemma_order_terms, lemma_prefix_match, order_terms, quad_key, IndexOrder,
};
use crate::model::{str_hash_of, StrHash};

verus! {

broadcast use vstd::std_specs::hash::group_hash_axioms;

/// The keys of an index are exactly the keys of the stored quads of its family.
pub open spec fn index_consistent(
    idx: Set<Seq<u8>>,
    order: IndexOrder,
    quads: Set<EncodedQuad>,
) -> bool {
    &&& forall|q: EncodedQuad|
        q.wf() && in_family(order, q) ==> (#[trigger] idx.contains(key_of(order, q))
            <==> quads.contains(q))
    &&& forall|k: Seq<u8>|
        #[trigger] idx.contains(k) ==> exists|q: EncodedQuad|
            q.wf() && in_family(order, q) && #[trigger] key_of(order, q) == k
}

/// The quads of an index's family whose leading terms, in key order, are `bs`.
pub open spec fn prefix_match(order: IndexOrder, q: EncodedQuad, bs: Seq<EncodedTerm>) -> bool {
    forall|i: int| 0 <= i < bs.len() ==> component_at(order, q, i) == #[trigger] bs[i]
}

/// The `i`-th term of a quad in key order.
pub open spec fn component_at(order: IndexOrder, q: EncodedQuad, i: int) -> EncodedTerm {
    crate::keys::component(q, order.components()[i])
}

/// Whether a quad meets a pattern: every bound component is equal.
pub open spec fn matches(
    q: EncodedQuad,
    s: Option<EncodedTerm>,
    p: Option<EncodedTerm>,
    o: Option<EncodedTerm>,
    g: Option<EncodedTerm>,
) -> bool {
    &&& (s matches Some(x) ==> q.subject == x)
    &&& (p matches Some(x) ==> q.predicate == x)
    &&& (o matches Some(x) ==> q.object == x)
    &&& (g matches Some(x) ==> q.graph_name == x)
}

/// A pattern whose bound components may stand in keys: subject, predicate and
/// object well formed and not the default graph; the graph well formed.
pub open spec fn pattern_ok(
    s: Option<EncodedTerm>,
    p: Option<EncodedTerm>,
    o: Option<EncodedTerm>,
    g: Option<EncodedTerm>,
) -> bool {
    &&& (s matches Some(x) ==> x.wf() && !(x is DefaultGraph))
    &&& (p matches Some(x) ==> x.wf() && !(x is DefaultGraph))
    &&& (o matches Some(x) ==> x.wf() && !(x is DefaultGraph))
    &&& (g matches Some(x) ==> x.wf())
}

pub proof fn lemma_index_insert(
    idx: Set<Seq<u8>>,
    order: IndexOrder,
    quads: Set<EncodedQuad>,
    q: EncodedQuad,
)
    requires
        index_consistent(idx, order, quads),
        q.wf(),
    ensures
        in_family(order, q) ==> index_consistent(
            idx.insert(key_of(order, q)),
            order,
            quads.insert(q),
        ),
        !in_family(order, q) ==> index_consistent(idx, order, quads.insert(q)),
{
    if in_family(order, q) {
        let idx2 = idx.insert(key_of(order, q));
        assert forall|q2: EncodedQuad| q2.wf() && in_family(order, q2) implies (
        #[trigger] idx2.contains(key_of(order, q2)) <==> quads.insert(q).contains(q2)) by {
            if key_of(order, q2) == key_of(order, q) {
                lemma_key_injective(order, q2, q);
            }
        }
        assert forall|k: Seq<u8>| #[trigger] idx2.contains(k) implies exists|q2: EncodedQuad|
            q2.wf() && in_family(order, q2) && #[trigger] key_of(order, q2) == k by {
            if k == key_of(order, q) {
                assert(q.wf() && in_family(order, q) && key_of(order, q) == k);
            }
        }
    }
}

pub proof fn lemma_index_remove(
    idx: Set<Seq<u8>>,
    order: IndexOrder,
    quads: Set<EncodedQuad>,
    q: EncodedQuad,
)
    requires
        index_consistent(idx, order, quads),
        q.wf(),
    ensures
        in_family(order, q) ==> index_consistent(
            idx.remove(key_of(order, q)),
            order,
            quads.remove(q),
        ),
        !in_family(order, q) ==> index_consistent(idx, order, quads.remove(q)),
{
    if in_family(order, q) {
        let idx2 = idx.remove(key_of(order, q));
        assert forall|q2: EncodedQuad| q2.wf() && in_family(order, q2) implies (
        #[trigger] idx2.contains(key_of(order, q2)) <==> quads.remove(q).contains(q2)) by {
            if key_of(order, q2) == key_of(order, q) {
                lemma_key_injective(order, q2, q);
            }
        }
    }
}


/// A sequence that holds each quad of a set exactly once.
pub open spec fn lists_exactly(r: Seq<EncodedQuad>, set: Set<EncodedQuad>) -> bool {
    r.no_duplicates() && r.to_set() == set
}

/// The quads of `quads` in the family of `order` whose leading terms, in key
/// order, are `bs`.
pub open spec fn scan_set(
    quads: Set<EncodedQuad>,
    order: IndexOrder,
    bs: Seq<EncodedTerm>,
) -> Set<EncodedQuad> {
    Set::new(|q: EncodedQuad| quads.contains(q) && in_family(order, q) && prefix_match(order, q, bs))
}

proof fn lemma_prefix_match_bytes(order: IndexOrder, q: EncodedQuad, bs: Seq<EncodedTerm>)
    requires
        q.wf(),
        in_family(order, q),
        key_terms_ok(bs),
        bs.len() <= order.components().len(),
    ensures
        is_prefix(encode_all(bs), key_of(order, q)) <==> prefix_match(order, q, bs),
{
    lemma_order_terms(order, q);
    let ts = order_terms(order, q);
    lemma_prefix_match(ts, bs);
    if prefix_match(order, q, bs) {
        assert(bs =~= ts.subrange(0, bs.len() as int));
    }
    if bs == ts.subrange(0, bs.len() as int) {
        assert forall|i: int| 0 <= i < bs.len() implies component_at(order, q, i) == #[trigger] bs[i] by {
            assert(ts.subrange(0, bs.len() as int)[i] == ts[i]);
        }
    }
}

proof fn lemma_concat_lists(a: Seq<EncodedQuad>, b: Seq<EncodedQuad>, sa: Set<EncodedQuad>, sb: Set<
    EncodedQuad,
>)
    requires
        lists_exactly(a, sa),
        lists_exactly(b, sb),
        sa.disjoint(sb),
    ensures
        lists_exactly(a + b, sa + sb),
{
    let c = a + b;
    assert forall|x: EncodedQuad| c.contains(x) <==> #[trigger] (sa + sb).contains(x) by {
        if c.contains(x) {
            let j = choose|j: int| 0 <= j < c.len() && c[j] == x;
            if j < a.len() {
                assert(a[j] == x);
                assert(a.to_set().contains(x));
            } else {
                assert(b[j - a.len()] == x);
                assert(b.to_set().contains(x));
            }
        }
        if sa.contains(x) {
            assert(a.to_set().contains(x));
            let j = choose|j: int| 0 <= j < a.len() && a[j] == x;
            assert(c[j] == x);
        }
        if sb.contains(x) {
            assert(b.to_set().contains(x));
            let j = choose|j: int| 0 <= j < b.len() && b[j] == x;
            assert(c[a.len() + j] == x);
        }
    }
    assert(c.to_set() =~= sa + sb);
    assert forall|i: int, j: int| 0 <= i < c.len() && 0 <= j < c.len() && i != j implies c[i]
        != c[j] by {
        if i < a.len() && j >= a.len() {
            assert(a.to_set().contains(c[i]));
            assert(b.to_set().contains(c[j]));
        }
        if j < a.len() && i >= a.len() {
            assert(a.to_set().contains(c[j]));
            assert(b.to_set().contains(c[i]));
        }
    }
}


/// A term that may stand in a key: well formed and not the default graph.
pub open spec fn is_key_term(t: EncodedTerm) -> bool {
    t.wf() && !(t is DefaultGraph)
}

proof fn lemma_pm0(order: IndexOrder, q: EncodedQuad)
    ensures
        prefix_match(order, q, Seq::<EncodedTerm>::empty()),
{
}

proof fn lemma_pm1(order: IndexOrder, q: EncodedQuad, a: EncodedTerm)
    ensures
        prefix_match(order, q, seq![a]) <==> component_at(order, q, 0) == a,
{
    if component_at(order, q, 0) == a {
        assert forall|i: int| 0 <= i < 1 implies component_at(order, q, i) == #[trigger] seq![
            a,
        ][i] by {}
    }
    if prefix_match(order, q, seq![a]) {
        assert(component_at(order, q, 0) == seq![a][0]);
    }
}

proof fn lemma_pm2(order: IndexOrder, q: EncodedQuad, a: EncodedTerm, b: EncodedTerm)
    ensures
        prefix_match(order, q, seq![a, b]) <==> component_at(order, q, 0) == a && component_at(
            order,
            q,
            1,
        ) == b,
{
    let bs = seq![a, b];
    if component_at(order, q, 0) == a && component_at(order, q, 1) == b {
        assert forall|i: int| 0 <= i < 2 implies component_at(order, q, i) == #[trigger] bs[i] by {}
    }
    if prefix_match(order, q, bs) {
        assert(component_at(order, q, 0) == bs[0]);
        assert(component_at(order, q, 1) == bs[1]);
    }
}

proof fn lemma_pm3(order: IndexOrder, q: EncodedQuad, a: EncodedTerm, b: EncodedTerm, c: EncodedTerm)
    ensures
        prefix_match(order, q, seq![a, b, c]) <==> component_at(order, q, 0) == a
            && component_at(order, q, 1) == b && component_at(order, q, 2) == c,
{
    let bs = seq![a, b, c];
    if component_at(order, q, 0) == a && component_at(order, q, 1) == b && component_at(order, q, 2)
        == c {
        assert forall|i: int| 0 <= i < 3 implies component_at(order, q, i) == #[trigger] bs[i] by {}
    }
    if prefix_match(order, q, bs) {
        assert(component_at(order, q, 0) == bs[0]);
        assert(component_at(order, q, 1) == bs[1]);
        assert(component_at(order, q, 2) == bs[2]);
    }
}


fn single(t: EncodedTerm) -> (r: Vec<EncodedTerm>)
    ensures
        r@ == seq![t],
{
    let mut r: Vec<EncodedTerm> = Vec::new();
    r.push(t);
    assert(r@ =~= seq![t]);
    r
}


/// The dictionary after registering `value`: an entry is written only where
/// its hash is absent.
pub open spec fn dictionary_after_insert(d: Map<u128, Seq<char>>, value: Seq<char>) -> Map<
    u128,
    Seq<char>,
> {
    let h = str_hash_of(value).hash;
    if d.contains_key(h) {
        d
    } else {
        d.insert(h, value)
    }
}

/// Two key terms with the same encoding are the same term.
pub proof fn lemma_encoding_injective(a: EncodedTerm, b: EncodedTerm)
    requires
        a.wf(),
        b.wf(),
        spec_encode_term(a) == spec_encode_term(b),
    ensures
        a == b,
{
    if a is DefaultGraph || b is DefaultGraph {
        if !(a is DefaultGraph) {
            crate::codec::lemma_payload_width(a);
        }
        if !(b is DefaultGraph) {
            crate::codec::lemma_payload_width(b);
        }
    } else {
        lemma_codec_round_trip(a);
        lemma_codec_round_trip(b);
    }
}


/// The component of a pattern at a quad position: 0 subject, 1 predicate,
/// 2 object, 3 graph.
pub open spec fn pattern_component(
    c: int,
    s: Option<EncodedTerm>,
    p: Option<EncodedTerm>,
    o: Option<EncodedTerm>,
    g: Option<EncodedTerm>,
) -> Option<EncodedTerm> {
    if c == 0 {
        s
    } else if c == 1 {
        p
    } else if c == 2 {
        o
    } else {
        g
    }
}

/// Whether a prefix scan of the index of `order` on its first `k` key terms
/// can answer the pattern: exactly those components are bound, and the graph
/// component selects the index's family.
pub open spec fn serves(
    order: IndexOrder,
    k: int,
    s: Option<EncodedTerm>,
    p: Option<EncodedTerm>,
    o: Option<EncodedTerm>,
    g: Option<EncodedTerm>,
) -> bool {
    &&& 0 <= k <= order.components().len()
    &&& forall|i: int|
        0 <= i < k ==> (#[trigger] pattern_component(order.components()[i], s, p, o, g)) is Some
    &&& forall|i: int|
        k <= i < order.components().len() ==> (#[trigger] pattern_component(
            order.components()[i],
            s,
            p,
            o,
            g,
        )) is None
    &&& order.is_default() ==> (g is None || g == Some(EncodedTerm::DefaultGraph))
    &&& !order.is_default() ==> g != Some(EncodedTerm::DefaultGraph)
}

/// The bound components of a pattern in the key order of an index.
pub open spec fn bound_prefix(
    order: IndexOrder,
    k: int,
    s: Option<EncodedTerm>,
    p: Option<EncodedTerm>,
    o: Option<EncodedTerm>,
    g: Option<EncodedTerm>,
) -> Seq<EncodedTerm> {
    Seq::new(k as nat, |i: int| pattern_component(order.components()[i], s, p, o, g).unwrap())
}

/// The quads of a family that meet a pattern.
pub open spec fn family_matches(
    quads: Set<EncodedQuad>,
    order: IndexOrder,
    s: Option<EncodedTerm>,
    p: Option<EncodedTerm>,
    o: Option<EncodedTerm>,
    g: Option<EncodedTerm>,
) -> Set<EncodedQuad> {
    Set::new(|q: EncodedQuad| quads.contains(q) && in_family(order, q) && matches(q, s, p, o, g))
}

/// Registering a string a second time leaves the dictionary as the first
/// registration left it; both return the same hash, `str_hash_of(value)`.
pub proof fn lemma_insert_str_idempotent(d: Map<u128, Seq<char>>, value: Seq<char>)
    ensures
        dictionary_after_insert(dictionary_after_insert(d, value), value)
            == dictionary_after_insert(d, value),
{
}


/// The quads follow the keys of the index of `order`, strictly ascending.
pub open spec fn in_key_order(order: IndexOrder, r: Seq<EncodedQuad>) -> bool {
    forall|a: int, b: int|
        0 <= a < b < r.len() ==> lex_lt(key_of(order, #[trigger] r[a]), key_of(order, #[trigger] r[b]))
}

/// Every default-graph quad comes before every named-graph quad; the
/// default-graph quads follow the keys of `dorder`, the named ones the keys of
/// `norder`.
pub open spec fn in_route_order(r: Seq<EncodedQuad>, dorder: IndexOrder, norder: IndexOrder) -> bool {
    forall|a: int, b: int|
        0 <= a < b < r.len() ==> {
            &&& ((#[trigger] r[b]).graph_name is DefaultGraph ==> (#[trigger] r[a]).graph_name is DefaultGraph)
            &&& (r[a].graph_name is DefaultGraph && r[b].graph_name is DefaultGraph ==> lex_lt(
                key_of(dorder, r[a]),
                key_of(dorder, r[b]),
            ))
            &&& (!(r[a].graph_name is DefaultGraph) && !(r[b].graph_name is DefaultGraph) ==> lex_lt(
                key_of(norder, r[a]),
                key_of(norder, r[b]),
            ))
        }
}

/// The default-graph index that the router scans for a pattern.
pub open spec fn default_route(
    s: Option<EncodedTerm>,
    p: Option<EncodedTerm>,
    o: Option<EncodedTerm>,
) -> IndexOrder {
    if s is Some {
        if o is Some && p is None {
            IndexOrder::Osp
        } else {
            IndexOrder::Spo
        }
    } else if p is Some {
        IndexOrder::Pos
    } else if o is Some {
        IndexOrder::Osp
    } else {
        IndexOrder::Spo
    }
}

/// The named-graph index that the router scans for a pattern.
pub open spec fn named_route(
    s: Option<EncodedTerm>,
    p: Option<EncodedTerm>,
    o: Option<EncodedTerm>,
    g: Option<EncodedTerm>,
) -> IndexOrder {
    if s is Some && p is Some && o is Some {
        IndexOrder::Spog
    } else if g is Some {
        if s is Some {
            if o is Some {
                IndexOrder::Gosp
            } else {
                IndexOrder::Gspo
            }
        } else if p is Some {
            IndexOrder::Gpos
        } else if o is Some {
            IndexOrder::Gosp
        } else {
            IndexOrder::Gspo
        }
    } else if s is Some {
        if o is Some && p is None {
            IndexOrder::Ospg
        } else {
            IndexOrder::Spog
        }
    } else if p is Some {
        IndexOrder::Posg
    } else if o is Some {
        IndexOrder::Ospg
    } else {
        IndexOrder::Gspo
    }
}

/// A default-graph list in key order followed by a named-graph list in key
/// order is in route order.
proof fn lemma_route_order_concat(
    a: Seq<EncodedQuad>,
    sa: Set<EncodedQuad>,
    dorder: IndexOrder,
    b: Seq<EncodedQuad>,
    sb: Set<EncodedQuad>,
    norder: IndexOrder,
)
    requires
        dorder.is_default(),
        !norder.is_default(),
        lists_exactly(a, sa),
        lists_exactly(b, sb),
        forall|x: EncodedQuad| #[trigger] sa.contains(x) ==> in_family(dorder, x),
        forall|x: EncodedQuad| #[trigger] sb.contains(x) ==> in_family(norder, x),
        in_key_order(dorder, a),
        in_key_order(norder, b),
    ensures
        in_route_order(a + b, dorder, norder),
{
    let c = a + b;
    assert forall|i: int| 0 <= i < a.len() implies (#[trigger] a[i]).graph_name is DefaultGraph by {
        assert(a.to_set().contains(a[i]));
    }
    assert forall|i: int| 0 <= i < b.len() implies !((#[trigger] b[i]).graph_name is DefaultGraph) by {
        assert(b.to_set().contains(b[i]));
    }
    assert forall|x: int, y: int| 0 <= x < y < c.len() implies {
        &&& ((#[trigger] c[y]).graph_name is DefaultGraph ==> (#[trigger] c[x]).graph_name is DefaultGraph)
        &&& (c[x].graph_name is DefaultGraph && c[y].graph_name is DefaultGraph ==> lex_lt(
            key_of(dorder, c[x]),
            key_of(dorder, c[y]),
        ))
        &&& (!(c[x].graph_name is DefaultGraph) && !(c[y].graph_name is DefaultGraph) ==> lex_lt(
            key_of(norder, c[x]),
            key_of(norder, c[y]),
        ))
    } by {
        if y < a.len() {
            assert(c[x] == a[x] && c[y] == a[y]);
        } else if x >= a.len() {
            assert(c[x] == b[x - a.len()] && c[y] == b[y - a.len()]);
        } else {
            assert(c[x] == a[x] && c[y] == b[y - a.len()]);
        }
    }
}

/// A list of one family in the key order of its index is in route order.
proof fn lemma_route_order_single(
    r: Seq<EncodedQuad>,
    sr: Set<EncodedQuad>,
    order: IndexOrder,
    dorder: IndexOrder,
    norder: IndexOrder,
)
    requires
        order == dorder || order == norder,
        dorder.is_default(),
        !norder.is_default(),
        lists_exactly(r, sr),
        forall|x: EncodedQuad| #[trigger] sr.contains(x) ==> in_family(order, x),
        in_key_order(order, r),
    ensures
        in_route_order(r, dorder, norder),
{
    assert forall|i: int| 0 <= i < r.len() implies in_family(order, #[trigger] r[i]) by {
        assert(r.to_set().contains(r[i]));
    }
    assert forall|x: int, y: int| 0 <= x < y < r.len() implies {
        &&& ((#[trigger] r[y]).graph_name is DefaultGraph ==> (#[trigger] r[x]).graph_name is DefaultGraph)
        &&& (r[x].graph_name is DefaultGraph && r[y].graph_name is DefaultGraph ==> lex_lt(
            key_of(dorder, r[x]),
            key_of(dorder, r[y]),
        ))
        &&& (!(r[x].graph_name is DefaultGraph) && !(r[y].graph_name is DefaultGraph) ==> lex_lt(
            key_of(norder, r[x]),
            key_of(norder, r[y]),
        ))
    } by {
        assert(in_family(order, r[x]) && in_family(order, r[y]));
    }
}

/// An RDF quad store.
pub struct GraphStore {
    id2str: HashMap<u128, String>,
    graph_names: KeySet,
    spo: KeySet,
    pos: KeySet,
    osp: KeySet,
    gspo: KeySet,
    gpos: KeySet,
    gosp: KeySet,
    spog: KeySet,
    posg: KeySet,
    ospg: KeySet,
    quads: Ghost<Set<EncodedQuad>>,
    names: Ghost<Set<EncodedTerm>>,
}

impl GraphStore {
    /// The stored quads; those in the default graph carry `DefaultGraph`.
    pub closed spec fn quad_set(&self) -> Set<EncodedQuad> {
        self.quads@
    }

    /// The known graph names.
    pub closed spec fn named_graph_set(&self) -> Set<EncodedTerm> {
        self.names@
    }

    /// The dictionary: hash to lexical form.
    pub closed spec fn dictionary(&self) -> Map<u128, Seq<char>> {
        self.id2str@.map_values(|s: String| s@)
    }

    /// The index of the given order.
    pub closed spec fn index(&self, order: IndexOrder) -> KeySet {
        match order {
            IndexOrder::Spo => self.spo,
            IndexOrder::Pos => self.pos,
            IndexOrder::Osp => self.osp,
            IndexOrder::Gspo => self.gspo,
            IndexOrder::Gpos => self.gpos,
            IndexOrder::Gosp => self.gosp,
            IndexOrder::Spog => self.spog,
            IndexOrder::Posg => self.posg,
            IndexOrder::Ospg => self.ospg,
        }
    }

    /// The indexes agree with the stored quads, each graph of a named quad is
    /// a known graph name, and each dictionary entry is keyed by its hash.
    pub closed spec fn wf(&self) -> bool {
        &&& forall|q: EncodedQuad| #[trigger] self.quads@.contains(q) ==> q.wf()
        &&& forall|order: IndexOrder| #[trigger] self.index(order).wf()
        &&& forall|order: IndexOrder|
            index_consistent(#[trigger] self.index(order)@, order, self.quads@)
        &&& forall|q: EncodedQuad|
            #[trigger] self.quads@.contains(q) && !(q.graph_name is DefaultGraph)
                ==> self.names@.contains(q.graph_name)
        &&& forall|g: EncodedTerm| #[trigger] self.names@.contains(g) ==> g.wf() && !(
        g is DefaultGraph)
        &&& self.graph_names.wf()
        &&& forall|k: Seq<u8>|
            #[trigger] self.graph_names@.contains(k) ==> exists|g: EncodedTerm|
                self.names@.contains(g) && #[trigger] spec_encode_term(g) == k
        &&& forall|g: EncodedTerm|
            #[trigger] self.names@.contains(g) ==> self.graph_names@.contains(
                spec_encode_term(g),
            )
        &&& forall|h: u128|
            #[trigger] self.id2str@.contains_key(h) ==> str_hash_of(self.id2str@[h]@).hash == h
    }

    /// Every stored quad is well formed.
    pub proof fn lemma_stored_quad_wf(&self, q: EncodedQuad)
        requires
            self.wf(),
            self.quad_set().contains(q),
        ensures
            q.wf(),
    {
    }

    /// Every graph name is a well-formed term other than the default graph.
    pub proof fn lemma_graph_name_wf(&self, g: EncodedTerm)
        requires
            self.wf(),
            self.named_graph_set().contains(g),
        ensures
            g.wf(),
            !(g is DefaultGraph),
    {
    }


    pub fn new() -> (r: Self)
        ensures
            r.wf(),
            r.quad_set() == Set::<EncodedQuad>::empty(),
            r.named_graph_set() == Set::<EncodedTerm>::empty(),
            r.dictionary() == Map::<u128, Seq<char>>::empty(),
    {
        let r = GraphStore {
            id2str: HashMap::new(),
            graph_names: KeySet::new(),
            spo: KeySet::new(),
            pos: KeySet::new(),
            osp: KeySet::new(),
            gspo: KeySet::new(),
            gpos: KeySet::new(),
            gosp: KeySet::new(),
            spog: KeySet::new(),
            posg: KeySet::new(),
            ospg: KeySet::new(),
            quads: Ghost(Set::empty()),
            names: Ghost(Set::empty()),
        };
        assert(r.dictionary() =~= Map::<u128, Seq<char>>::empty());
        r
    }

    /// Adds the key of `q` to the index of the given order.
    fn insert_key(&mut self, order: IndexOrder, q: &EncodedQuad)
        requires
            forall|o: IndexOrder| #[trigger] old(self).index(o).wf(),
        ensures
            forall|o: IndexOrder| #[trigger] final(self).index(o).wf(),
            final(self).index(order)@ == old(self).index(order)@.insert(key_of(order, *q)),
            forall|o: IndexOrder| o != order ==> final(self).index(o) == old(self).index(o),
            final(self).id2str == old(self).id2str,
            final(self).graph_names == old(self).graph_names,
            final(self).quads == old(self).quads,
            final(self).names == old(self).names,
    {
        let key = quad_key(order, q);
        proof {
            assert(self.index(order).wf());
        }
        match order {
            IndexOrder::Spo => self.spo.insert(key),
            IndexOrder::Pos => self.pos.insert(key),
            IndexOrder::Osp => self.osp.insert(key),
            IndexOrder::Gspo => self.gspo.insert(key),
            IndexOrder::Gpos => self.gpos.insert(key),
            IndexOrder::Gosp => self.gosp.insert(key),
            IndexOrder::Spog => self.spog.insert(key),
            IndexOrder::Posg => self.posg.insert(key),
            IndexOrder::Ospg => self.ospg.insert(key),
        }
        proof {
            assert forall|o: IndexOrder| #[trigger] self.index(o).wf() by {
                if o != order {
                    assert(old(self).index(o).wf());
                }
            }
        }
    }

    /// Removes the key of `q` from the index of the given order.
    fn remove_key(&mut self, order: IndexOrder, q: &EncodedQuad)
        requires
            forall|o: IndexOrder| #[trigger] old(self).index(o).wf(),
        ensures
            forall|o: IndexOrder| #[trigger] final(self).index(o).wf(),
            final(self).index(order)@ == old(self).index(order)@.remove(key_of(order, *q)),
            forall|o: IndexOrder| o != order ==> final(self).index(o) == old(self).index(o),
            final(self).id2str == old(self).id2str,
            final(self).graph_names == old(self).graph_names,
            final(self).quads == old(self).quads,
            final(self).names == old(self).names,
    {
        let key = quad_key(order, q);
        proof {
            assert(self.index(order).wf());
        }
        match order {
            IndexOrder::Spo => self.spo.remove(key.as_slice()),
            IndexOrder::Pos => self.pos.remove(key.as_slice()),
            IndexOrder::Osp => self.osp.remove(key.as_slice()),
            IndexOrder::Gspo => self.gspo.remove(key.as_slice()),
            IndexOrder::Gpos => self.gpos.remove(key.as_slice()),
            IndexOrder::Gosp => self.gosp.remove(key.as_slice()),
            IndexOrder::Spog => self.spog.remove(key.as_slice()),
            IndexOrder::Posg => self.posg.remove(key.as_slice()),
            IndexOrder::Ospg => self.ospg.remove(key.as_slice()),
        }
        proof {
            assert forall|o: IndexOrder| #[trigger] self.index(o).wf() by {
                if o != order {
                    assert(old(self).index(o).wf());
                }
            }
        }
    }

    /// Writes a quad to every index of its family; a named graph becomes known.
    pub fn insert_encoded(&mut self, quad: &EncodedQuad)
        requires
            old(self).wf(),
            quad.wf(),
        ensures
            final(self).wf(),
            final(self).quad_set() == old(self).quad_set().insert(*quad),
            final(self).named_graph_set() == (if quad.graph_name is DefaultGraph {
                old(self).named_graph_set()
            } else {
                old(self).named_graph_set().insert(quad.graph_name)
            }),
            final(self).dictionary() == old(self).dictionary(),
    {
        let ghost q = *quad;
        let ghost old_quads = self.quads@;
        proof {
            assert forall|order: IndexOrder| true implies index_consistent(
                #[trigger] old(self).index(order)@,
                order,
                old_quads,
            ) by {}
        }
        self.quads = Ghost(old_quads.insert(q));
        if !quad.graph_name.is_default_graph() {
            let g = encode_term(quad.graph_name);
            self.graph_names.insert(g);
            self.names = Ghost(self.names@.insert(q.graph_name));
        }
        proof {
            assert forall|o: IndexOrder| #[trigger] self.index(o) == old(self).index(o) by {}
        }
        if quad.graph_name.is_default_graph() {
            self.insert_key(IndexOrder::Spo, quad);
            self.insert_key(IndexOrder::Pos, quad);
            self.insert_key(IndexOrder::Osp, quad);
        } else {
            self.insert_key(IndexOrder::Gspo, quad);
            self.insert_key(IndexOrder::Gpos, quad);
            self.insert_key(IndexOrder::Gosp, quad);
            self.insert_key(IndexOrder::Spog, quad);
            self.insert_key(IndexOrder::Posg, quad);
            self.insert_key(IndexOrder::Ospg, quad);
        }
        proof {
            assert forall|order: IndexOrder| index_consistent(
                #[trigger] self.index(order)@,
                order,
                self.quads@,
            ) by {
                lemma_index_insert(old(self).index(order)@, order, old_quads, q);
            }
            assert forall|k: Seq<u8>| #[trigger] self.graph_names@.contains(k) implies exists|
                g: EncodedTerm,
            | self.names@.contains(g) && #[trigger] spec_encode_term(g) == k by {
                if !old(self).graph_names@.contains(k) {
                    assert(self.names@.contains(q.graph_name) && spec_encode_term(q.graph_name)
                        == k);
                }
            }
            assert(forall|qq: EncodedQuad| #[trigger] self.quads@.contains(qq) ==> qq.wf());
            assert(forall|qq: EncodedQuad|
                #[trigger] self.quads@.contains(qq) && !(qq.graph_name is DefaultGraph)
                    ==> self.names@.contains(qq.graph_name));
            assert(forall|g: EncodedTerm|
                #[trigger] self.names@.contains(g) ==> self.graph_names@.contains(
                    spec_encode_term(g),
                ));
        }
    }

    /// Deletes a quad from every index of its family. Graph names and the
    /// dictionary stay as they are.
    pub fn remove_encoded(&mut self, quad: &EncodedQuad)
        requires
            old(self).wf(),
            quad.wf(),
        ensures
            final(self).wf(),
            final(self).quad_set() == old(self).quad_set().remove(*quad),
            final(self).named_graph_set() == old(self).named_graph_set(),
            final(self).dictionary() == old(self).dictionary(),
    {
        let ghost q = *quad;
        let ghost old_quads = self.quads@;
        proof {
            assert forall|order: IndexOrder| true implies index_consistent(
                #[trigger] old(self).index(order)@,
                order,
                old_quads,
            ) by {}
        }
        self.quads = Ghost(old_quads.remove(q));
        proof {
            assert forall|o: IndexOrder| #[trigger] self.index(o) == old(self).index(o) by {}
        }
        if quad.graph_name.is_default_graph() {
            self.remove_key(IndexOrder::Spo, quad);
            self.remove_key(IndexOrder::Pos, quad);
            self.remove_key(IndexOrder::Osp, quad);
        } else {
            self.remove_key(IndexOrder::Gspo, quad);
            self.remove_key(IndexOrder::Gpos, quad);
            self.remove_key(IndexOrder::Gosp, quad);
            self.remove_key(IndexOrder::Spog, quad);
            self.remove_key(IndexOrder::Posg, quad);
            self.remove_key(IndexOrder::Ospg, quad);
        }
        proof {
            assert forall|order: IndexOrder| index_consistent(
                #[trigger] self.index(order)@,
                order,
                self.quads@,
            ) by {
                lemma_index_remove(old(self).index(order)@, order, old_quads, q);
            }
        }
    }

    /// Whether the store holds the quad.
    pub fn contains_encoded_quad(&self, quad: &EncodedQuad) -> (r: bool)
        requires
            self.wf(),
            quad.wf(),
        ensures
            r == self.quad_set().contains(*quad),
    {
        if quad.graph_name.is_default_graph() {
            let key = quad_key(IndexOrder::Spo, quad);
            proof {
                assert(index_consistent(self.index(IndexOrder::Spo)@, IndexOrder::Spo, self.quads@));
            }
            self.spo.contains(key.as_slice())
        } else {
            let key = quad_key(IndexOrder::Spog, quad);
            proof {
                assert(index_consistent(
                    self.index(IndexOrder::Spog)@,
                    IndexOrder::Spog,
                    self.quads@,
                ));
            }
            self.spog.contains(key.as_slice())
        }
    }

    /// The quads that meet a pattern.
    pub open spec fn pattern_set(
        &self,
        s: Option<EncodedTerm>,
        p: Option<EncodedTerm>,
        o: Option<EncodedTerm>,
        g: Option<EncodedTerm>,
    ) -> Set<EncodedQuad> {
        Set::new(|q: EncodedQuad| self.quad_set().contains(q) && matches(q, s, p, o, g))
    }

    fn index_ref(&self, order: IndexOrder) -> (r: &KeySet)
        ensures
            *r == self.index(order),
    {
        match order {
            IndexOrder::Spo => &self.spo,
            IndexOrder::Pos => &self.pos,
            IndexOrder::Osp => &self.osp,
            IndexOrder::Gspo => &self.gspo,
            IndexOrder::Gpos => &self.gpos,
            IndexOrder::Gosp => &self.gosp,
            IndexOrder::Spog => &self.spog,
            IndexOrder::Posg => &self.posg,
            IndexOrder::Ospg => &self.ospg,
        }
    }

    /// Prefix scan of one index: the stored quads of its family whose leading
    /// key terms are `bs`, each once.
    pub fn scan(&self, order: IndexOrder, bs: &Vec<EncodedTerm>) -> (r: Vec<EncodedQuad>)
        requires
            self.wf(),
            key_terms_ok(bs@),
            bs@.len() <= order.components().len(),
        ensures
            lists_exactly(r@, scan_set(self.quad_set(), order, bs@)),
            in_key_order(order, r@),
    {
        let idx = self.index_ref(order);
        let prefix = encode_terms(bs);
        let n = idx.len();
        let mut out: Vec<EncodedQuad> = Vec::new();
        let mut i: usize = 0;
        proof {
            assert(index_consistent(self.index(order)@, order, self.quads@));
            assert(idx.wf());
        }
        while i < n
            invariant
                self.wf(),
                *idx == self.index(order),
                idx.wf(),
                index_consistent(idx@, order, self.quads@),
                n == idx.key_seq().len(),
                i <= n,
                key_terms_ok(bs@),
                bs@.len() <= order.components().len(),
                prefix@ == encode_all(bs@),
                out@.no_duplicates(),
                forall|a: int, b: int|
                    0 <= a < b < out@.len() ==> lex_lt(
                        key_of(order, #[trigger] out@[a]),
                        key_of(order, #[trigger] out@[b]),
                    ),
                forall|q: EncodedQuad|
                    #[trigger] out@.contains(q) <==> (self.quads@.contains(q) && in_family(order, q)
                        && prefix_match(order, q, bs@) && exists|j: int|
                        0 <= j < i && idx.key_seq()[j] == key_of(order, q)),
            decreases n - i,
        {
            let ghost prev = out@;
            let key = idx.key_at(i);
            let ghost k = key@;
            proof {
                assert(idx.key_seq().contains(k));
                assert(idx@.contains(k));
            }
            let ghost q = choose|q: EncodedQuad| q.wf() && in_family(order, q) && key_of(order, q) == k;
            proof {
                assert(self.quads@.contains(q));
                lemma_prefix_match_bytes(order, q, bs@);
                assert forall|q2: EncodedQuad| q2.wf() && in_family(order, q2) && key_of(order, q2)
                    == k implies q2 == q by {
                    lemma_key_injective(order, q2, q);
                }
            }
            if has_prefix(key.as_slice(), prefix.as_slice()) {
                let d = decode_key(order, key.as_slice(), Ghost(q));
                proof {
                    assert forall|a: int| 0 <= a < prev.len() implies lex_lt(
                        key_of(order, #[trigger] prev[a]),
                        k,
                    ) by {
                        assert(prev.contains(prev[a]));
                        let j = choose|j: int|
                            0 <= j < i && idx.key_seq()[j] == key_of(order, prev[a]);
                        assert(is_sorted(idx.key_seq()));
                        assert(lex_lt(idx.key_seq()[j], idx.key_seq()[i as int]));
                    }
                    if out@.contains(q) {
                        let j = choose|j: int| 0 <= j < i && idx.key_seq()[j] == key_of(order, q);
                        assert(idx.key_seq()[j] == idx.key_seq()[i as int]);
                    }
                }
                out.push(d);
            }
            i = i + 1;
            proof {
                let ks = idx.key_seq();
                assert(out@ == prev || (out@ == prev.push(q) && prefix_match(order, q, bs@)));
                assert(!prefix_match(order, q, bs@) ==> out@ == prev);
                assert forall|q2: EncodedQuad| #[trigger] out@.contains(q2) implies (
                self.quads@.contains(q2) && in_family(order, q2) && prefix_match(order, q2, bs@)
                    && exists|j: int| 0 <= j < i && ks[j] == key_of(order, q2)) by {
                    if prev.contains(q2) {
                        let j = choose|j: int| 0 <= j < i - 1 && ks[j] == key_of(order, q2);
                        assert(0 <= j < i && ks[j] == key_of(order, q2));
                    } else {
                        if out@ != prev {
                            let j = choose|j: int| 0 <= j < out@.len() && out@[j] == q2;
                            if j < prev.len() {
                                assert(prev[j] == q2);
                            }
                            assert(q2 == q);
                            assert(ks[i - 1] == key_of(order, q2));
                        }
                    }
                }
                assert forall|q2: EncodedQuad| (self.quads@.contains(q2) && in_family(order, q2)
                    && prefix_match(order, q2, bs@) && exists|j: int|
                    0 <= j < i && ks[j] == key_of(order, q2)) implies #[trigger] out@.contains(
                    q2,
                ) by {
                    let j = choose|j: int| 0 <= j < i && ks[j] == key_of(order, q2);
                    if j < i - 1 {
                        assert(prev.contains(q2));
                        let m = choose|m: int| 0 <= m < prev.len() && prev[m] == q2;
                        assert(out@[m] == q2);
                    } else {
                        assert(q2 == q);
                        assert(out@ == prev.push(q));
                        assert(out@[prev.len() as int] == q2);
                    }
                }
            }
        }
        proof {
            assert forall|q: EncodedQuad| #[trigger] out@.contains(q) <==> scan_set(
                self.quads@,
                order,
                bs@,
            ).contains(q) by {
                if scan_set(self.quads@, order, bs@).contains(q) {
                    assert(idx@.contains(key_of(order, q)));
                    let j = choose|j: int| 0 <= j < idx.key_seq().len() && idx.key_seq()[j] == key_of(order, q);
                }
            }
            assert(out@.to_set() =~= scan_set(self.quads@, order, bs@));
        }
        out
    }

    /// Pattern `(s, p, ?, g)`: `SPO` on `(s, p)` or `GSPO` on `(g, s, p)`.
    pub fn quads_for_subject_predicate_graph(
        &self,
        subject: EncodedTerm,
        predicate: EncodedTerm,
        graph_name: EncodedTerm,
    ) -> (r: Vec<EncodedQuad>)
        requires
            self.wf(),
            is_key_term(subject),
            is_key_term(predicate),
            graph_name.wf(),
        ensures
            lists_exactly(r@, self.pattern_set(Some(subject), Some(predicate), None, Some(graph_name))),
            in_route_order(r@, IndexOrder::Spo, IndexOrder::Gspo),
    {
        if graph_name.is_default_graph() {
            let r = self.scan(IndexOrder::Spo, &vec![subject, predicate]);
            proof {
                let sa = scan_set(self.quad_set(), IndexOrder::Spo, seq![subject, predicate]);
                assert forall|q: EncodedQuad| #[trigger] self.pattern_set(Some(subject), Some(predicate), None, Some(graph_name)).contains(q)
                    <==> sa.contains(q) by {
                    lemma_pm2(IndexOrder::Spo, q, subject, predicate);
                }
                assert(self.pattern_set(Some(subject), Some(predicate), None, Some(graph_name)) =~= sa);
                lemma_route_order_single(r@, sa, IndexOrder::Spo, IndexOrder::Spo, IndexOrder::Gspo);
            }
            r
        } else {
            let r = self.scan(IndexOrder::Gspo, &vec![graph_name, subject, predicate]);
            proof {
                let sb = scan_set(
                    self.quad_set(), IndexOrder::Gspo, seq![graph_name, subject, predicate]
                );
                assert forall|q: EncodedQuad| #[trigger] self.pattern_set(Some(subject), Some(predicate), None, Some(graph_name)).contains(q)
                    <==> sb.contains(q) by {
                    lemma_pm3(IndexOrder::Gspo, q, graph_name, subject, predicate);
                }
                assert(self.pattern_set(Some(subject), Some(predicate), None, Some(graph_name)) =~= sb);
                lemma_route_order_single(r@, sb, IndexOrder::Gspo, IndexOrder::Spo, IndexOrder::Gspo);
            }
            r
        }
    }

    /// Pattern `(s, p, ?, ?)`: `SPO` then `SPOG`, both on `(s, p)`.
    pub fn quads_for_subject_predicate(&self, subject: EncodedTerm, predicate: EncodedTerm) -> (r: Vec<EncodedQuad>)
        requires
            self.wf(),
            is_key_term(subject),
            is_key_term(predicate),
        ensures
            lists_exactly(r@, self.pattern_set(Some(subject), Some(predicate), None, None)),
            in_route_order(r@, IndexOrder::Spo, IndexOrder::Spog),
    {
        let mut r = self.scan(IndexOrder::Spo, &vec![subject, predicate]);
        let mut named = self.scan(IndexOrder::Spog, &vec![subject, predicate]);
        proof {
            let sa = scan_set(self.quad_set(), IndexOrder::Spo, seq![subject, predicate]);
            let sb = scan_set(self.quad_set(), IndexOrder::Spog, seq![subject, predicate]);
            assert(sa.disjoint(sb));
            lemma_concat_lists(r@, named@, sa, sb);
            lemma_route_order_concat(r@, sa, IndexOrder::Spo, named@, sb, IndexOrder::Spog);
            assert forall|q: EncodedQuad| #[trigger] self.pattern_set(Some(subject), Some(predicate), None, None).contains(q)
                <==> (sa + sb).contains(q) by {
                lemma_pm2(IndexOrder::Spo, q, subject, predicate);
                lemma_pm2(IndexOrder::Spog, q, subject, predicate);
            }
            assert(self.pattern_set(Some(subject), Some(predicate), None, None) =~= sa + sb);
        }
        r.append(&mut named);
        r
    }

    /// Pattern `(s, ?, o, g)`: `OSP` on `(o, s)` or `GOSP` on `(g, o, s)`.
    pub fn quads_for_subject_object_graph(
        &self,
        subject: EncodedTerm,
        object: EncodedTerm,
        graph_name: EncodedTerm,
    ) -> (r: Vec<EncodedQuad>)
        requires
            self.wf(),
            is_key_term(subject),
            is_key_term(object),
            graph_name.wf(),
        ensures
            lists_exactly(r@, self.pattern_set(Some(subject), None, Some(object), Some(graph_name))),
            in_route_order(r@, IndexOrder::Osp, IndexOrder::Gosp),
    {
        if graph_name.is_default_graph() {
            let r = self.scan(IndexOrder::Osp, &vec![object, subject]);
            proof {
                let sa = scan_set(self.quad_set(), IndexOrder::Osp, seq![object, subject]);
                assert forall|q: EncodedQuad| #[trigger] self.pattern_set(Some(subject), None, Some(object), Some(graph_name)).contains(q)
                    <==> sa.contains(q) by {
                    lemma_pm2(IndexOrder::Osp, q, object, subject);
                }
                assert(self.pattern_set(Some(subject), None, Some(object), Some(graph_name)) =~= sa);
                lemma_route_order_single(r@, sa, IndexOrder::Osp, IndexOrder::Osp, IndexOrder::Gosp);
            }
            r
        } else {
            let r = self.scan(IndexOrder::Gosp, &vec![graph_name, object, subject]);
            proof {
                let sb = scan_set(
                    self.quad_set(), IndexOrder::Gosp, seq![graph_name, object, subject]
                );
                assert forall|q: EncodedQuad| #[trigger] self.pattern_set(Some(subject), None, Some(object), Some(graph_name)).contains(q)
                    <==> sb.contains(q) by {
                    lemma_pm3(IndexOrder::Gosp, q, graph_name, object, subject);
                }
                assert(self.pattern_set(Some(subject), None, Some(object), Some(graph_name)) =~= sb);
                lemma_route_order_single(r@, sb, IndexOrder::Gosp, IndexOrder::Osp, IndexOrder::Gosp);
            }
            r
        }
    }

    /// Pattern `(s, ?, o, ?)`: `OSP` then `OSPG`, both on `(o, s)`.
    pub fn quads_for_subject_object(&self, subject: EncodedTerm, object: EncodedTerm) -> (r: Vec<EncodedQuad>)
        requires
            self.wf(),
            is_key_term(subject),
            is_key_term(object),
        ensures
            lists_exactly(r@, self.pattern_set(Some(subject), None, Some(object), None)),
            in_route_order(r@, IndexOrder::Osp, IndexOrder::Ospg),
    {
        let mut r = self.scan(IndexOrder::Osp, &vec![object, subject]);
        let mut named = self.scan(IndexOrder::Ospg, &vec![object, subject]);
        proof {
            let sa = scan_set(self.quad_set(), IndexOrder::Osp, seq![object, subject]);
            let sb = scan_set(self.quad_set(), IndexOrder::Ospg, seq![object, subject]);
            assert(sa.disjoint(sb));
            lemma_concat_lists(r@, named@, sa, sb);
            lemma_route_order_concat(r@, sa, IndexOrder::Osp, named@, sb, IndexOrder::Ospg);
            assert forall|q: EncodedQuad| #[trigger] self.pattern_set(Some(subject), None, Some(object), None).contains(q)
                <==> (sa + sb).contains(q) by {
                lemma_pm2(IndexOrder::Osp, q, object, subject);
                lemma_pm2(IndexOrder::Ospg, q, object, subject);
            }
            assert(self.pattern_set(Some(subject), None, Some(object), None) =~= sa + sb);
        }
        r.append(&mut named);
        r
    }

    /// Pattern `(s, ?, ?, g)`: `SPO` on `(s)` or `GSPO` on `(g, s)`.
    pub fn quads_for_subject_graph(&self, subject: EncodedTerm, graph_name: EncodedTerm) -> (r: Vec<EncodedQuad>)
        requires
            self.wf(),
            is_key_term(subject),
            graph_name.wf(),
        ensures
            lists_exactly(r@, self.pattern_set(Some(subject), None, None, Some(graph_name))),
            in_route_order(r@, IndexOrder::Spo, IndexOrder::Gspo),
    {
        if graph_name.is_default_graph() {
            let r = self.scan(IndexOrder::Spo, &single(subject));
            proof {
                let sa = scan_set(self.quad_set(), IndexOrder::Spo, seq![subject]);
                assert forall|q: EncodedQuad| #[trigger] self.pattern_set(Some(subject), None, None, Some(graph_name)).contains(q)
                    <==> sa.contains(q) by {
                    lemma_pm1(IndexOrder::Spo, q, subject);
                }
                assert(self.pattern_set(Some(subject), None, None, Some(graph_name)) =~= sa);
                lemma_route_order_single(r@, sa, IndexOrder::Spo, IndexOrder::Spo, IndexOrder::Gspo);
            }
            r
        } else {
            let r = self.scan(IndexOrder::Gspo, &vec![graph_name, subject]);
            proof {
                let sb = scan_set(self.quad_set(), IndexOrder::Gspo, seq![graph_name, subject]);
                assert forall|q: EncodedQuad| #[trigger] self.pattern_set(Some(subject), None, None, Some(graph_name)).contains(q)
                    <==> sb.contains(q) by {
                    lemma_pm2(IndexOrder::Gspo, q, graph_name, subject);
                }
                assert(self.pattern_set(Some(subject), None, None, Some(graph_name)) =~= sb);
                lemma_route_order_single(r@, sb, IndexOrder::Gspo, IndexOrder::Spo, IndexOrder::Gspo);
            }
            r
        }
    }

    /// Pattern `(s, ?, ?, ?)`: `SPO` then `SPOG`, both on `(s)`.
    pub fn quads_for_subject(&self, subject: EncodedTerm) -> (r: Vec<EncodedQuad>)
        requires
            self.wf(),
            is_key_term(subject),
        ensures
            lists_exactly(r@, self.pattern_set(Some(subject), None, None, None)),
            in_route_order(r@, IndexOrder::Spo, IndexOrder::Spog),
    {
        let mut r = self.scan(IndexOrder::Spo, &single(subject));
        let mut named = self.scan(IndexOrder::Spog, &single(subject));
        proof {
            let sa = scan_set(self.quad_set(), IndexOrder::Spo, seq![subject]);
            let sb = scan_set(self.quad_set(), IndexOrder::Spog, seq![subject]);
            assert(sa.disjoint(sb));
            lemma_concat_lists(r@, named@, sa, sb);
            lemma_route_order_concat(r@, sa, IndexOrder::Spo, named@, sb, IndexOrder::Spog);
            assert forall|q: EncodedQuad| #[trigger] self.pattern_set(Some(subject), None, None, None).contains(q)
                <==> (sa + sb).contains(q) by {
                lemma_pm1(IndexOrder::Spo, q, subject);
                lemma_pm1(IndexOrder::Spog, q, subject);
            }
            assert(self.pattern_set(Some(subject), None, None, None) =~= sa + sb);
        }
        r.append(&mut named);
        r
    }

    /// Pattern `(?, p, o, g)`: `POS` on `(p, o)` or `GPOS` on `(g, p, o)`.
    pub fn quads_for_predicate_object_graph(
        &self,
        predicate: EncodedTerm,
        object: EncodedTerm,
        graph_name: EncodedTerm,
    ) -> (r: Vec<EncodedQuad>)
        requires
            self.wf(),
            is_key_term(predicate),
            is_key_term(object),
            graph_name.wf(),
        ensures
            lists_exactly(r@, self.pattern_set(None, Some(predicate), Some(object), Some(graph_name))),
            in_route_order(r@, IndexOrder::Pos, IndexOrder::Gpos),
    {
        if graph_name.is_default_graph() {
            let r = self.scan(IndexOrder::Pos, &vec![predicate, object]);
            proof {
                let sa = scan_set(self.quad_set(), IndexOrder::Pos, seq![predicate, object]);
                assert forall|q: EncodedQuad| #[trigger] self.pattern_set(None, Some(predicate), Some(object), Some(graph_name)).contains(q)
                    <==> sa.contains(q) by {
                    lemma_pm2(IndexOrder::Pos, q, predicate, object);
                }
                assert(self.pattern_set(None, Some(predicate), Some(object), Some(graph_name)) =~= sa);
                lemma_route_order_single(r@, sa, IndexOrder::Pos, IndexOrder::Pos, IndexOrder::Gpos);
            }
            r
        } else {
            let r = self.scan(IndexOrder::Gpos, &vec![graph_name, predicate, object]);
            proof {
                let sb = scan_set(
                    self.quad_set(), IndexOrder::Gpos, seq![graph_name, predicate, object]
                );
                assert forall|q: EncodedQuad| #[trigger] self.pattern_set(None, Some(predicate), Some(object), Some(graph_name)).contains(q)
                    <==> sb.contains(q) by {
                    lemma_pm3(IndexOrder::Gpos, q, graph_name, predicate, object);
                }
                assert(self.pattern_set(None, Some(predicate), Some(object), Some(graph_name)) =~= sb);
                lemma_route_order_single(r@, sb, IndexOrder::Gpos, IndexOrder::Pos, IndexOrder::Gpos);
            }
            r
        }
    }

    /// Pattern `(?, p, o, ?)`: `POS` then `POSG`, both on `(p, o)`.
    pub fn quads_for_predicate_object(&self, predicate: EncodedTerm, object: EncodedTerm) -> (r: Vec<EncodedQuad>)
        requires
            self.wf(),
            is_key_term(predicate),
            is_key_term(object),
        ensures
            lists_exactly(r@, self.pattern_set(None, Some(predicate), Some(object), None)),
            in_route_order(r@, IndexOrder::Pos, IndexOrder::Posg),
    {
        let mut r = self.scan(IndexOrder::Pos, &vec![predicate, object]);
        let mut named = self.scan(IndexOrder::Posg, &vec![predicate, object]);
        proof {
            let sa = scan_set(self.quad_set(), IndexOrder::Pos, seq![predicate, object]);
            let sb = scan_set(self.quad_set(), IndexOrder::Posg, seq![predicate, object]);
            assert(sa.disjoint(sb));
            lemma_concat_lists(r@, named@, sa, sb);
            lemma_route_order_concat(r@, sa, IndexOrder::Pos, named@, sb, IndexOrder::Posg);
            assert forall|q: EncodedQuad| #[trigger] self.pattern_set(None, Some(predicate), Some(object), None).contains(q)
                <==> (sa + sb).contains(q) by {
                lemma_pm2(IndexOrder::Pos, q, predicate, object);
                lemma_pm2(IndexOrder::Posg, q, predicate, object);
            }
            assert(self.pattern_set(None, Some(predicate), Some(object), None) =~= sa + sb);
        }
        r.append(&mut named);
        r
    }

    /// Pattern `(?, p, ?, g)`: `POS` on `(p)` or `GPOS` on `(g, p)`.
    pub fn quads_for_predicate_graph(&self, predicate: EncodedTerm, graph_name: EncodedTerm) -> (r: Vec<EncodedQuad>)
        requires
            self.wf(),
            is_key_term(predicate),
            graph_name.wf(),
        ensures
            lists_exactly(r@, self.pattern_set(None, Some(predicate), None, Some(graph_name))),
            in_route_order(r@, IndexOrder::Pos, IndexOrder::Gpos),
    {
        if graph_name.is_default_graph() {
            let r = self.scan(IndexOrder::Pos, &single(predicate));
            proof {
                let sa = scan_set(self.quad_set(), IndexOrder::Pos, seq![predicate]);
                assert forall|q: EncodedQuad| #[trigger] self.pattern_set(None, Some(predicate), None, Some(graph_name)).contains(q)
                    <==> sa.contains(q) by {
                    lemma_pm1(IndexOrder::Pos, q, predicate);
                }
                assert(self.pattern_set(None, Some(predicate), None, Some(graph_name)) =~= sa);
                lemma_route_order_single(r@, sa, IndexOrder::Pos, IndexOrder::Pos, IndexOrder::Gpos);
            }
            r
        } else {
            let r = self.scan(IndexOrder::Gpos, &vec![graph_name, predicate]);
            proof {
                let sb = scan_set(self.quad_set(), IndexOrder::Gpos, seq![graph_name, predicate]);
                assert forall|q: EncodedQuad| #[trigger] self.pattern_set(None, Some(predicate), None, Some(graph_name)).contains(q)
                    <==> sb.contains(q) by {
                    lemma_pm2(IndexOrder::Gpos, q, graph_name, predicate);
                }
                assert(self.pattern_set(None, Some(predicate), None, Some(graph_name)) =~= sb);
                lemma_route_order_single(r@, sb, IndexOrder::Gpos, IndexOrder::Pos, IndexOrder::Gpos);
            }
            r
        }
    }

    /// Pattern `(?, p, ?, ?)`: `POS` then `POSG`, both on `(p)`.
    pub fn quads_for_predicate(&self, predicate: EncodedTerm) -> (r: Vec<EncodedQuad>)
        requires
            self.wf(),
            is_key_term(predicate),
        ensures
            lists_exactly(r@, self.pattern_set(None, Some(predicate), None, None)),
            in_route_order(r@, IndexOrder::Pos, IndexOrder::Posg),
    {
        let mut r = self.scan(IndexOrder::Pos, &single(predicate));
        let mut named = self.scan(IndexOrder::Posg, &single(predicate));
        proof {
            let sa = scan_set(self.quad_set(), IndexOrder::Pos, seq![predicate]);
            let sb = scan_set(self.quad_set(), IndexOrder::Posg, seq![predicate]);
            assert(sa.disjoint(sb));
            lemma_concat_lists(r@, named@, sa, sb);
            lemma_route_order_concat(r@, sa, IndexOrder::Pos, named@, sb, IndexOrder::Posg);
            assert forall|q: EncodedQuad| #[trigger] self.pattern_set(None, Some(predicate), None, None).contains(q)
                <==> (sa + sb).contains(q) by {
                lemma_pm1(IndexOrder::Pos, q, predicate);
                lemma_pm1(IndexOrder::Posg, q, predicate);
            }
            assert(self.pattern_set(None, Some(predicate), None, None) =~= sa + sb);
        }
        r.append(&mut named);
        r
    }

    /// Pattern `(?, ?, o, g)`: `OSP` on `(o)` or `GOSP` on `(g, o)`.
    pub fn quads_for_object_graph(&self, object: EncodedTerm, graph_name: EncodedTerm) -> (r: Vec<EncodedQuad>)
        requires
            self.wf(),
            is_key_term(object),
            graph_name.wf(),
        ensures
            lists_exactly(r@, self.pattern_set(None, None, Some(object), Some(graph_name))),
            in_route_order(r@, IndexOrder::Osp, IndexOrder::Gosp),
    {
        if graph_name.is_default_graph() {
            let r = self.scan(IndexOrder::Osp, &single(object));
            proof {
                let sa = scan_set(self.quad_set(), IndexOrder::Osp, seq![object]);
                assert forall|q: EncodedQuad| #[trigger] self.pattern_set(None, None, Some(object), Some(graph_name)).contains(q)
                    <==> sa.contains(q) by {
                    lemma_pm1(IndexOrder::Osp, q, object);
                }
                assert(self.pattern_set(None, None, Some(object), Some(graph_name)) =~= sa);
                lemma_route_order_single(r@, sa, IndexOrder::Osp, IndexOrder::Osp, IndexOrder::Gosp);
            }
            r
        } else {
            let r = self.scan(IndexOrder::Gosp, &vec![graph_name, object]);
            proof {
                let sb = scan_set(self.quad_set(), IndexOrder::Gosp, seq![graph_name, object]);
                assert forall|q: EncodedQuad| #[trigger] self.pattern_set(None, None, Some(object), Some(graph_name)).contains(q)
                    <==> sb.contains(q) by {
                    lemma_pm2(IndexOrder::Gosp, q, graph_name, object);
                }
                assert(self.pattern_set(None, None, Some(object), Some(graph_name)) =~= sb);
                lemma_route_order_single(r@, sb, IndexOrder::Gosp, IndexOrder::Osp, IndexOrder::Gosp);
            }
            r
        }
    }

    /// Pattern `(?, ?, o, ?)`: `OSP` then `OSPG`, both on `(o)`.
    pub fn quads_for_object(&self, object: EncodedTerm) -> (r: Vec<EncodedQuad>)
        requires
            self.wf(),
            is_key_term(object),
        ensures
            lists_exactly(r@, self.pattern_set(None, None, Some(object), None)),
            in_route_order(r@, IndexOrder::Osp, IndexOrder::Ospg),
    {
        let mut r = self.scan(IndexOrder::Osp, &single(object));
        let mut named = self.scan(IndexOrder::Ospg, &single(object));
        proof {
            let sa = scan_set(self.quad_set(), IndexOrder::Osp, seq![object]);
            let sb = scan_set(self.quad_set(), IndexOrder::Ospg, seq![object]);
            assert(sa.disjoint(sb));
            lemma_concat_lists(r@, named@, sa, sb);
            lemma_route_order_concat(r@, sa, IndexOrder::Osp, named@, sb, IndexOrder::Ospg);
            assert forall|q: EncodedQuad| #[trigger] self.pattern_set(None, None, Some(object), None).contains(q)
                <==> (sa + sb).contains(q) by {
                lemma_pm1(IndexOrder::Osp, q, object);
                lemma_pm1(IndexOrder::Ospg, q, object);
            }
            assert(self.pattern_set(None, None, Some(object), None) =~= sa + sb);
        }
        r.append(&mut named);
        r
    }
    /// Pattern `(s, p, o, g)`: a point lookup in `SPO` or `SPOG`.
    pub fn quads_for_subject_predicate_object_graph(
        &self,
        subject: EncodedTerm,
        predicate: EncodedTerm,
        object: EncodedTerm,
        graph_name: EncodedTerm,
    ) -> (r: Vec<EncodedQuad>)
        requires
            self.wf(),
            is_key_term(subject),
            is_key_term(predicate),
            is_key_term(object),
            graph_name.wf(),
        ensures
            lists_exactly(
                r@,
                self.pattern_set(Some(subject), Some(predicate), Some(object), Some(graph_name)),
            ),
            in_route_order(r@, IndexOrder::Spo, IndexOrder::Spog),
    {
        let quad = EncodedQuad::new(subject, predicate, object, graph_name);
        let mut r: Vec<EncodedQuad> = Vec::new();
        if self.contains_encoded_quad(&quad) {
            r.push(quad);
        }
        proof {
            let pat = self.pattern_set(Some(subject), Some(predicate), Some(object), Some(graph_name));
            if self.quad_set().contains(quad) {
                assert(pat =~= set![quad]);
                assert(r@.to_set() =~= set![quad]) by {
                    assert(r@[0] == quad);
                }
            } else {
                assert(pat =~= Set::<EncodedQuad>::empty());
                assert(r@.to_set() =~= Set::<EncodedQuad>::empty());
            }
        }
        r
    }

    /// Pattern `(s, p, o, ?)`: the default-graph quad if `SPO` holds it, then
    /// `SPOG` on `(s, p, o)`.
    pub fn quads_for_subject_predicate_object(
        &self,
        subject: EncodedTerm,
        predicate: EncodedTerm,
        object: EncodedTerm,
    ) -> (r: Vec<EncodedQuad>)
        requires
            self.wf(),
            is_key_term(subject),
            is_key_term(predicate),
            is_key_term(object),
        ensures
            lists_exactly(r@, self.pattern_set(Some(subject), Some(predicate), Some(object), None)),
            in_route_order(r@, IndexOrder::Spo, IndexOrder::Spog),
    {
        let quad = EncodedQuad::new(subject, predicate, object, EncodedTerm::DefaultGraph);
        let mut r: Vec<EncodedQuad> = Vec::new();
        if self.contains_encoded_quad(&quad) {
            r.push(quad);
        }
        let mut named = self.scan(IndexOrder::Spog, &vec![subject, predicate, object]);
        proof {
            let sa = if self.quad_set().contains(quad) {
                set![quad]
            } else {
                Set::<EncodedQuad>::empty()
            };
            if self.quad_set().contains(quad) {
                assert(r@.to_set() =~= set![quad]) by {
                    assert(r@[0] == quad);
                }
            } else {
                assert(r@.to_set() =~= Set::<EncodedQuad>::empty());
            }
            let sb = scan_set(self.quad_set(), IndexOrder::Spog, seq![subject, predicate, object]);
            assert(sa.disjoint(sb));
            lemma_concat_lists(r@, named@, sa, sb);
            lemma_route_order_concat(r@, sa, IndexOrder::Spo, named@, sb, IndexOrder::Spog);
            let pat = self.pattern_set(Some(subject), Some(predicate), Some(object), None);
            assert forall|q: EncodedQuad| #[trigger] pat.contains(q) <==> (sa + sb).contains(q) by {
                lemma_pm3(IndexOrder::Spog, q, subject, predicate, object);
            }
            assert(pat =~= sa + sb);
        }
        r.append(&mut named);
        r
    }

    /// Pattern `(?, ?, ?, g)`: all of `SPO`, or `GSPO` on `(g)`.
    pub fn quads_for_graph(&self, graph_name: EncodedTerm) -> (r: Vec<EncodedQuad>)
        requires
            self.wf(),
            graph_name.wf(),
        ensures
            lists_exactly(r@, self.pattern_set(None, None, None, Some(graph_name))),
            in_route_order(r@, IndexOrder::Spo, IndexOrder::Gspo),
    {
        if graph_name.is_default_graph() {
            let r = self.scan(IndexOrder::Spo, &Vec::new());
            proof {
                let sa = scan_set(self.quad_set(), IndexOrder::Spo, Seq::<EncodedTerm>::empty());
                assert forall|q: EncodedQuad| #[trigger] self.pattern_set(
                    None,
                    None,
                    None,
                    Some(graph_name),
                ).contains(q) <==> sa.contains(q) by {
                    lemma_pm0(IndexOrder::Spo, q);
                }
                assert(self.pattern_set(None, None, None, Some(graph_name)) =~= sa);
                lemma_route_order_single(r@, sa, IndexOrder::Spo, IndexOrder::Spo, IndexOrder::Gspo);
            }
            r
        } else {
            let r = self.scan(IndexOrder::Gspo, &single(graph_name));
            proof {
                let sb = scan_set(self.quad_set(), IndexOrder::Gspo, seq![graph_name]);
                assert forall|q: EncodedQuad| #[trigger] self.pattern_set(
                    None,
                    None,
                    None,
                    Some(graph_name),
                ).contains(q) <==> sb.contains(q) by {
                    lemma_pm1(IndexOrder::Gspo, q, graph_name);
                }
                assert(self.pattern_set(None, None, None, Some(graph_name)) =~= sb);
                lemma_route_order_single(r@, sb, IndexOrder::Gspo, IndexOrder::Spo, IndexOrder::Gspo);
            }
            r
        }
    }

    /// Pattern `(?, ?, ?, ?)`: all of `SPO`, then all of `GSPO`.
    pub fn quads(&self) -> (r: Vec<EncodedQuad>)
        requires
            self.wf(),
        ensures
            lists_exactly(r@, self.pattern_set(None, None, None, None)),
            in_route_order(r@, IndexOrder::Spo, IndexOrder::Gspo),
    {
        let mut r = self.scan(IndexOrder::Spo, &Vec::new());
        let mut named = self.scan(IndexOrder::Gspo, &Vec::new());
        proof {
            let sa = scan_set(self.quad_set(), IndexOrder::Spo, Seq::<EncodedTerm>::empty());
            let sb = scan_set(self.quad_set(), IndexOrder::Gspo, Seq::<EncodedTerm>::empty());
            assert(sa.disjoint(sb));
            lemma_concat_lists(r@, named@, sa, sb);
            lemma_route_order_concat(r@, sa, IndexOrder::Spo, named@, sb, IndexOrder::Gspo);
            assert forall|q: EncodedQuad| #[trigger] self.pattern_set(None, None, None, None).contains(
                q,
            ) <==> (sa + sb).contains(q) by {
                lemma_pm0(IndexOrder::Spo, q);
                lemma_pm0(IndexOrder::Gspo, q);
            }
            assert(self.pattern_set(None, None, None, None) =~= sa + sb);
        }
        r.append(&mut named);
        r
    }

    /// The stored quads that meet a pattern, each once: the bound components
    /// select the index whose key starts with them.
    pub fn encoded_quads_for_pattern(
        &self,
        subject: Option<EncodedTerm>,
        predicate: Option<EncodedTerm>,
        object: Option<EncodedTerm>,
        graph_name: Option<EncodedTerm>,
    ) -> (r: Vec<EncodedQuad>)
        requires
            self.wf(),
            pattern_ok(subject, predicate, object, graph_name),
        ensures
            lists_exactly(r@, self.pattern_set(subject, predicate, object, graph_name)),
            in_route_order(
                r@,
                default_route(subject, predicate, object),
                named_route(subject, predicate, object, graph_name),
            ),
    {
        match subject {
            Some(subject) => match predicate {
                Some(predicate) => match object {
                    Some(object) => match graph_name {
                        Some(graph_name) => self.quads_for_subject_predicate_object_graph(
                            subject,
                            predicate,
                            object,
                            graph_name,
                        ),
                        None => self.quads_for_subject_predicate_object(subject, predicate, object),
                    },
                    None => match graph_name {
                        Some(graph_name) => self.quads_for_subject_predicate_graph(
                            subject,
                            predicate,
                            graph_name,
                        ),
                        None => self.quads_for_subject_predicate(subject, predicate),
                    },
                },
                None => match object {
                    Some(object) => match graph_name {
                        Some(graph_name) => self.quads_for_subject_object_graph(
                            subject,
                            object,
                            graph_name,
                        ),
                        None => self.quads_for_subject_object(subject, object),
                    },
                    None => match graph_name {
                        Some(graph_name) => self.quads_for_subject_graph(subject, graph_name),
                        None => self.quads_for_subject(subject),
                    },
                },
            },
            None => match predicate {
                Some(predicate) => match object {
                    Some(object) => match graph_name {
                        Some(graph_name) => self.quads_for_predicate_object_graph(
                            predicate,
                            object,
                            graph_name,
                        ),
                        None => self.quads_for_predicate_object(predicate, object),
                    },
                    None => match graph_name {
                        Some(graph_name) => self.quads_for_predicate_graph(predicate, graph_name),
                        None => self.quads_for_predicate(predicate),
                    },
                },
                None => match object {
                    Some(object) => match graph_name {
                        Some(graph_name) => self.quads_for_object_graph(object, graph_name),
                        None => self.quads_for_object(object),
                    },
                    None => match graph_name {
                        Some(graph_name) => self.quads_for_graph(graph_name),
                        None => self.quads(),
                    },
                },
            },
        }
    }
    /// What a prefix scan of one index yields: the quads of its family whose
    /// keys the index holds and start with the encoded prefix.
    pub open spec fn index_scan(&self, order: IndexOrder, bs: Seq<EncodedTerm>) -> Set<EncodedQuad> {
        Set::new(
            |q: EncodedQuad|
                q.wf() && in_family(order, q) && self.index(order)@.contains(key_of(order, q))
                    && is_prefix(encode_all(bs), key_of(order, q)),
        )
    }

    /// An index that serves a pattern yields exactly the stored quads of its
    /// family that meet the pattern.
    pub proof fn lemma_index_scan_serves(
        &self,
        order: IndexOrder,
        k: int,
        s: Option<EncodedTerm>,
        p: Option<EncodedTerm>,
        o: Option<EncodedTerm>,
        g: Option<EncodedTerm>,
    )
        requires
            self.wf(),
            pattern_ok(s, p, o, g),
            serves(order, k, s, p, o, g),
        ensures
            self.index_scan(order, bound_prefix(order, k, s, p, o, g)) == family_matches(
                self.quad_set(),
                order,
                s,
                p,
                o,
                g,
            ),
    {
        let bs = bound_prefix(order, k, s, p, o, g);
        let comps = order.components();
        assert(index_consistent(self.index(order)@, order, self.quads@));
        assert(key_terms_ok(bs)) by {
            assert forall|i: int| 0 <= i < bs.len() implies (#[trigger] bs[i]).wf() && !(
            bs[i] is DefaultGraph) by {
                assert(pattern_component(comps[i], s, p, o, g) is Some);
            }
        }
        assert forall|q: EncodedQuad| #[trigger]
            self.index_scan(order, bs).contains(q) <==> family_matches(
                self.quad_set(),
                order,
                s,
                p,
                o,
                g,
            ).contains(q) by {
            if q.wf() && in_family(order, q) {
                lemma_prefix_match_bytes(order, q, bs);
                if prefix_match(order, q, bs) {
                    assert forall|c: int| 0 <= c < 4 implies (#[trigger] pattern_component(c, s, p, o, g) matches Some(x)
                        ==> crate::keys::component(q, c) == x) by {
                        if pattern_component(c, s, p, o, g) is Some {
                            if !(order.is_default() && c == 3) {
                                let i = choose|i: int| 0 <= i < comps.len() && comps[i] == c;
                                assert(i < k);
                                assert(component_at(order, q, i) == bs[i]);
                            }
                        }
                    }
                    assert(matches(q, s, p, o, g)) by {
                        assert(pattern_component(0, s, p, o, g) == s);
                        assert(pattern_component(1, s, p, o, g) == p);
                        assert(pattern_component(2, s, p, o, g) == o);
                        assert(pattern_component(3, s, p, o, g) == g);
                    }
                }
                if matches(q, s, p, o, g) {
                    assert forall|i: int| 0 <= i < bs.len() implies component_at(order, q, i)
                        == #[trigger] bs[i] by {
                        assert(pattern_component(comps[i], s, p, o, g) is Some);
                    }
                }
            }
            if self.quads@.contains(q) {
                assert(q.wf());
            }
        }
        assert(self.index_scan(order, bs) =~= family_matches(self.quad_set(), order, s, p, o, g));
    }

    /// Two indexes of one family that both serve a pattern yield the same quads,
    /// and a scan lists each quad once.
    pub proof fn lemma_index_agreement(
        &self,
        order1: IndexOrder,
        k1: int,
        order2: IndexOrder,
        k2: int,
        s: Option<EncodedTerm>,
        p: Option<EncodedTerm>,
        o: Option<EncodedTerm>,
        g: Option<EncodedTerm>,
    )
        requires
            self.wf(),
            pattern_ok(s, p, o, g),
            serves(order1, k1, s, p, o, g),
            serves(order2, k2, s, p, o, g),
            order1.is_default() == order2.is_default(),
        ensures
            self.index_scan(order1, bound_prefix(order1, k1, s, p, o, g)) == self.index_scan(
                order2,
                bound_prefix(order2, k2, s, p, o, g),
            ),
    {
        self.lemma_index_scan_serves(order1, k1, s, p, o, g);
        self.lemma_index_scan_serves(order2, k2, s, p, o, g);
        assert(family_matches(self.quad_set(), order1, s, p, o, g) =~= family_matches(
            self.quad_set(),
            order2,
            s,
            p,
            o,
            g,
        ));
    }

    /// After a quad of a named graph is inserted, the quads of graph `g` hold it
    /// exactly when `g` is its graph; after it is removed, no graph holds it.
    pub proof fn lemma_fanout(
        &self,
        inserted: &GraphStore,
        removed: &GraphStore,
        q: EncodedQuad,
        g: EncodedTerm,
    )
        requires
            !(q.graph_name is DefaultGraph),
            inserted.quad_set() == self.quad_set().insert(q),
            removed.quad_set() == inserted.quad_set().remove(q),
        ensures
            inserted.pattern_set(None, None, None, Some(g)).contains(q) <==> q.graph_name == g,
            !removed.pattern_set(None, None, None, Some(g)).contains(q),
    {
    }

    /// Clearing a graph leaves every quad of every other graph as it was.
    pub proof fn lemma_clear_scoping(&self, cleared: &GraphStore, g1: EncodedTerm)
        requires
            cleared.quad_set() == self.quad_set().filter(|q: EncodedQuad| q.graph_name != g1),
        ensures
            forall|q: EncodedQuad|
                q.graph_name != g1 ==> (cleared.quad_set().contains(q) <==> self.quad_set().contains(
                    q,
                )),
            forall|q: EncodedQuad| q.graph_name == g1 ==> !cleared.quad_set().contains(q),
    {
    }

    /// Whether the graph name is known.
    pub fn contains_encoded_named_graph(&self, graph_name: EncodedTerm) -> (r: bool)
        requires
            self.wf(),
            graph_name.wf(),
        ensures
            r == self.named_graph_set().contains(graph_name),
    {
        let key = encode_term(graph_name);
        let r = self.graph_names.contains(key.as_slice());
        proof {
            if r {
                let g = choose|g: EncodedTerm|
                    self.names@.contains(g) && #[trigger] spec_encode_term(g) == key@;
                lemma_encoding_injective(g, graph_name);
            }
        }
        r
    }

    /// Makes a graph name known, with or without quads.
    pub fn insert_encoded_named_graph(&mut self, graph_name: EncodedTerm)
        requires
            old(self).wf(),
            is_key_term(graph_name),
        ensures
            final(self).wf(),
            final(self).named_graph_set() == old(self).named_graph_set().insert(graph_name),
            final(self).quad_set() == old(self).quad_set(),
            final(self).dictionary() == old(self).dictionary(),
    {
        let key = encode_term(graph_name);
        self.graph_names.insert(key);
        self.names = Ghost(self.names@.insert(graph_name));
        proof {
            assert forall|o: IndexOrder| #[trigger] self.index(o) == old(self).index(o) by {}
            assert forall|k: Seq<u8>| #[trigger] self.graph_names@.contains(k) implies exists|
                g: EncodedTerm,
            | self.names@.contains(g) && #[trigger] spec_encode_term(g) == k by {
                if !old(self).graph_names@.contains(k) {
                    assert(self.names@.contains(graph_name) && spec_encode_term(graph_name) == k);
                }
            }
        }
    }

    /// The known graph names, each once.
    pub fn encoded_named_graphs(&self) -> (r: Vec<EncodedTerm>)
        requires
            self.wf(),
        ensures
            r@.no_duplicates(),
            r@.to_set() == self.named_graph_set(),
    {
        let n = self.graph_names.len();
        let mut out: Vec<EncodedTerm> = Vec::new();
        let mut i: usize = 0;
        while i < n
            invariant
                self.wf(),
                n == self.graph_names.key_seq().len(),
                i <= n,
                out@.no_duplicates(),
                out@.len() == i,
                forall|j: int|
                    0 <= j < i ==> #[trigger] spec_encode_term(out@[j]) == self.graph_names.key_seq()[j]
                        && self.names@.contains(out@[j]),
            decreases n - i,
        {
            let key = self.graph_names.key_at(i);
            let ghost k = key@;
            proof {
                assert(self.graph_names.key_seq().contains(k));
                assert(self.graph_names@.contains(k));
            }
            let ghost g = choose|g: EncodedTerm|
                self.names@.contains(g) && #[trigger] spec_encode_term(g) == k;
            proof {
                assert(g.wf() && !(g is DefaultGraph));
                lemma_codec_round_trip(g);
            }
            let t = match decode_term(key.as_slice()) {
                Ok(t) => t,
                Err(_) => EncodedTerm::DefaultGraph,
            };
            proof {
                assert forall|j: int| 0 <= j < i implies out@[j] != t by {
                    if out@[j] == t {
                        assert(self.graph_names.key_seq()[j] == self.graph_names.key_seq()[i as int]);
                    }
                }
            }
            out.push(t);
            i = i + 1;
        }
        proof {
            assert forall|g: EncodedTerm| #[trigger] out@.contains(g)
                <==> self.names@.contains(g) by {
                if self.names@.contains(g) {
                    assert(self.graph_names@.contains(spec_encode_term(g)));
                    let j = choose|j: int|
                        0 <= j < n && self.graph_names.key_seq()[j] == spec_encode_term(g);
                    assert(spec_encode_term(out@[j]) == spec_encode_term(g));
                    lemma_encoding_injective(out@[j], g);
                    assert(out@[j] == g);
                }
            }
            assert(out@.to_set() =~= self.names@);
        }
        out
    }

    /// Removes every quad of a graph; for the default graph, empties the three
    /// default-graph indexes. Other graphs, the graph names and the dictionary
    /// stay as they are.
    pub fn clear_encoded_graph(&mut self, graph_name: EncodedTerm)
        requires
            old(self).wf(),
            graph_name.wf(),
        ensures
            final(self).wf(),
            final(self).quad_set() == old(self).quad_set().filter(
                |q: EncodedQuad| q.graph_name != graph_name,
            ),
            final(self).named_graph_set() == old(self).named_graph_set(),
            final(self).dictionary() == old(self).dictionary(),
    {
        if graph_name.is_default_graph() {
            let ghost old_quads = self.quads@;
            self.spo.clear();
            self.pos.clear();
            self.osp.clear();
            self.quads = Ghost(old_quads.filter(|q: EncodedQuad| q.graph_name != graph_name));
            proof {
                assert forall|order: IndexOrder| index_consistent(
                    #[trigger] self.index(order)@,
                    order,
                    self.quads@,
                ) by {
                    assert(index_consistent(old(self).index(order)@, order, old_quads));
                    if !order.is_default() {
                        assert(self.index(order) == old(self).index(order));
                    }
                }
                assert forall|o: IndexOrder| #[trigger] self.index(o).wf() by {
                    assert(old(self).index(o).wf());
                }
            }
        } else {
            let quads = self.quads_for_graph(graph_name);
            let ghost listed = quads@;
            let n = quads.len();
            let mut i: usize = 0;
            while i < n
                invariant
                    self.wf(),
                    old(self).wf(),
                    n == listed.len(),
                    listed == quads@,
                    i <= n,
                    lists_exactly(listed, old(self).pattern_set(None, None, None, Some(graph_name))),
                    self.quad_set() == old(self).quad_set().difference(
                        listed.subrange(0, i as int).to_set(),
                    ),
                    self.named_graph_set() == old(self).named_graph_set(),
                    self.dictionary() == old(self).dictionary(),
                decreases n - i,
            {
                let q = quads[i];
                let ghost before = self.quad_set();
                proof {
                    assert(listed.to_set().contains(q));
                    assert(old(self).quads@.contains(q));
                }
                self.remove_encoded(&q);
                i = i + 1;
                proof {
                    assert(listed.subrange(0, i as int) =~= listed.subrange(0, i - 1).push(q));
                    let a = listed.subrange(0, i - 1);
                    let b = listed.subrange(0, i as int);
                    assert forall|x: EncodedQuad| #[trigger] b.contains(x)
                        <==> a.contains(x) || x == q by {
                        if b.contains(x) {
                            let j = choose|j: int| 0 <= j < b.len() && b[j] == x;
                            if j < a.len() {
                                assert(a[j] == x);
                            }
                        }
                        if a.contains(x) {
                            let j = choose|j: int| 0 <= j < a.len() && a[j] == x;
                            assert(b[j] == x);
                        }
                        if x == q {
                            assert(b[i - 1] == x);
                        }
                    }
                    assert(b.to_set() =~= a.to_set().insert(q));
                    assert(self.quad_set() =~= old(self).quad_set().difference(
                        listed.subrange(0, i as int).to_set(),
                    ));
                }
            }
            proof {
                assert(listed.subrange(0, n as int) =~= listed);
                assert(self.quad_set() =~= old(self).quad_set().filter(
                    |q: EncodedQuad| q.graph_name != graph_name,
                ));
            }
        }
    }

    /// Removes every quad of a named graph, then forgets its name.
    pub fn remove_encoded_named_graph(&mut self, graph_name: EncodedTerm)
        requires
            old(self).wf(),
            is_key_term(graph_name),
        ensures
            final(self).wf(),
            final(self).quad_set() == old(self).quad_set().filter(
                |q: EncodedQuad| q.graph_name != graph_name,
            ),
            final(self).named_graph_set() == old(self).named_graph_set().remove(graph_name),
            final(self).dictionary() == old(self).dictionary(),
    {
        self.clear_encoded_graph(graph_name);
        let key = encode_term(graph_name);
        let ghost mid = *self;
        self.graph_names.remove(key.as_slice());
        self.names = Ghost(self.names@.remove(graph_name));
        proof {
            assert forall|o: IndexOrder| #[trigger] self.index(o) == mid.index(o) by {}
            assert forall|k: Seq<u8>| #[trigger] self.graph_names@.contains(k) implies exists|
                g: EncodedTerm,
            | self.names@.contains(g) && #[trigger] spec_encode_term(g) == k by {
                assert(mid.graph_names@.contains(k));
                let g = choose|g: EncodedTerm|
                    mid.names@.contains(g) && #[trigger] spec_encode_term(g) == k;
                assert(g != graph_name);
                assert(self.names@.contains(g));
            }
            assert forall|g: EncodedTerm| #[trigger] self.names@.contains(g) implies self.graph_names@.contains(
                spec_encode_term(g),
            ) by {
                if spec_encode_term(g) == spec_encode_term(graph_name) {
                    lemma_encoding_injective(g, graph_name);
                }
            }
        }
    }

    /// Empties the store: all nine indexes, the graph names and the dictionary.
    pub fn clear(&mut self)
        requires
            old(self).wf(),
        ensures
            final(self).wf(),
            final(self).quad_set() == Set::<EncodedQuad>::empty(),
            final(self).named_graph_set() == Set::<EncodedTerm>::empty(),
            final(self).dictionary() == Map::<u128, Seq<char>>::empty(),
    {
        self.graph_names.clear();
        self.id2str.clear();
        self.spo.clear();
        self.pos.clear();
        self.osp.clear();
        self.gspo.clear();
        self.gpos.clear();
        self.gosp.clear();
        self.spog.clear();
        self.posg.clear();
        self.ospg.clear();
        self.quads = Ghost(Set::empty());
        self.names = Ghost(Set::empty());
        proof {
            assert forall|order: IndexOrder| #[trigger] self.index(order)@ == Set::<Seq<u8>>::empty()
                && self.index(order).wf() by {}
            assert(self.dictionary() =~= Map::<u128, Seq<char>>::empty());
        }
    }

    /// The lexical form registered under a hash.
    pub fn get_str(&self, id: StrHash) -> (r: Option<String>)
        ensures
            r is Some <==> self.dictionary().contains_key(id.hash),
            r matches Some(s) ==> s@ == self.dictionary()[id.hash],
    {
        match self.id2str.get(&id.hash) {
            Some(s) => Some(s.clone()),
            None => None,
        }
    }

    /// The hash of `value`, where it has been registered.
    pub fn get_str_id(&self, value: &str) -> (r: Option<StrHash>)
        ensures
            r == (if self.dictionary().contains_key(str_hash_of(value@).hash) {
                Some(str_hash_of(value@))
            } else {
                None
            }),
    {
        let id = StrHash::new(value);
        if self.id2str.contains_key(&id.hash) {
            Some(id)
        } else {
            None
        }
    }

    /// Registers `value` under its hash, where the hash is absent, and returns the hash.
    pub fn insert_str(&mut self, value: &str) -> (r: StrHash)
        requires
            old(self).wf(),
        ensures
            final(self).wf(),
            r == str_hash_of(value@),
            final(self).dictionary() == dictionary_after_insert(old(self).dictionary(), value@),
            final(self).quad_set() == old(self).quad_set(),
            final(self).named_graph_set() == old(self).named_graph_set(),
    {
        let id = StrHash::new(value);
        if !self.id2str.contains_key(&id.hash) {
            let owned = value.to_owned();
            self.id2str.insert(id.hash, owned);
        }
        proof {
            assert forall|o: IndexOrder| #[trigger] self.index(o) == old(self).index(o) by {}
            assert(self.dictionary() =~= dictionary_after_insert(old(self).dictionary(), value@));
        }
        id
    }
}

} // verus!
