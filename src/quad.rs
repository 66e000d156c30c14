//! Quads of user-facing terms, and the store operations on them.
use vstd::prelude::*;

use crate::codec::{EncodedQuad, EncodedTerm};
use crate::error::DecodeError;
use crate::store::{lists_exactly, GraphStore};
use crate::term::{
    collision_free, decode_encoded_term, decoded_term_of, lemma_after_all_registers, registered,
    term_decode_error, encoded_term_of, insert_term, lemma_dictionary_after_concat,
    lemma_encoded_term_wf, lookup_term, term_known, term_strings, dictionary_after_all, Term,
    TermModel,
};

verus! {

/// The graph a quad belongs to.
#[derive(Clone, Debug, PartialEq, Eq)]
pub enum GraphName {
    DefaultGraph,
    Named(Term),
}

/// A quad of user-facing terms.
#[derive(Clone, Debug, PartialEq, Eq)]
pub struct Quad {
    pub subject: Term,
    pub predicate: Term,
    pub object: Term,
    pub graph_name: GraphName,
}

/// The mathematical value of a quad; the default graph is `None`.
pub struct QuadModel {
    pub subject: TermModel,
    pub predicate: TermModel,
    pub object: TermModel,
    pub graph_name: Option<TermModel>,
}

pub open spec fn graph_model(g: &GraphName) -> Option<TermModel> {
    match g {
        GraphName::DefaultGraph => None,
        GraphName::Named(t) => Some(t@),
    }
}

impl View for Quad {
    type V = QuadModel;

    open spec fn view(&self) -> QuadModel {
        QuadModel {
            subject: self.subject@,
            predicate: self.predicate@,
            object: self.object@,
            graph_name: graph_model(&self.graph_name),
        }
    }
}

/// An IRI or a blank node.
pub open spec fn is_named_or_blank(t: TermModel) -> bool {
    t is NamedNode || t is BlankNode
}

/// The shape RDF asks of a quad: an IRI or blank node as subject, an IRI as
/// predicate, and an IRI or blank node, or the default graph, as graph.
pub open spec fn quad_ok(q: QuadModel) -> bool {
    &&& is_named_or_blank(q.subject)
    &&& q.predicate is NamedNode
    &&& (q.graph_name matches Some(g) ==> is_named_or_blank(g))
}

pub open spec fn encoded_graph_of(g: Option<TermModel>) -> EncodedTerm {
    match g {
        None => EncodedTerm::DefaultGraph,
        Some(t) => encoded_term_of(t),
    }
}

pub open spec fn graph_strings(g: Option<TermModel>) -> Seq<Seq<char>> {
    match g {
        None => Seq::empty(),
        Some(t) => term_strings(t),
    }
}

pub open spec fn graph_known(d: Map<u128, Seq<char>>, g: Option<TermModel>) -> bool {
    match g {
        None => true,
        Some(t) => term_known(d, t),
    }
}

/// The encoded form of a quad.
pub open spec fn encoded_quad_of(q: QuadModel) -> EncodedQuad {
    EncodedQuad {
        subject: encoded_term_of(q.subject),
        predicate: encoded_term_of(q.predicate),
        object: encoded_term_of(q.object),
        graph_name: encoded_graph_of(q.graph_name),
    }
}

/// The dictionary strings of a quad, in the order they are registered.
pub open spec fn quad_strings(q: QuadModel) -> Seq<Seq<char>> {
    term_strings(q.subject) + term_strings(q.predicate) + term_strings(q.object) + graph_strings(
        q.graph_name,
    )
}

pub open spec fn quad_known(d: Map<u128, Seq<char>>, q: QuadModel) -> bool {
    term_known(d, q.subject) && term_known(d, q.predicate) && term_known(d, q.object)
        && graph_known(d, q.graph_name)
}

/// The quad an encoded quad stands for, given the dictionary.
pub open spec fn decoded_quad_of(d: Map<u128, Seq<char>>, e: EncodedQuad) -> Option<QuadModel> {
    match (
        decoded_term_of(d, e.subject),
        decoded_term_of(d, e.predicate),
        decoded_term_of(d, e.object),
    ) {
        (Some(s), Some(p), Some(o)) => if e.graph_name is DefaultGraph {
            Some(QuadModel { subject: s, predicate: p, object: o, graph_name: None })
        } else {
            match decoded_term_of(d, e.graph_name) {
                Some(g) => Some(QuadModel { subject: s, predicate: p, object: o, graph_name: Some(g) }),
                None => None,
            }
        },
        _ => None,
    }
}

/// The error that decoding a quad reports: that of its first component, in
/// the order subject, predicate, object, graph, that does not decode.
pub open spec fn quad_decode_error(d: Map<u128, Seq<char>>, e: EncodedQuad) -> DecodeError {
    if decoded_term_of(d, e.subject) is None {
        term_decode_error(e.subject)
    } else if decoded_term_of(d, e.predicate) is None {
        term_decode_error(e.predicate)
    } else if decoded_term_of(d, e.object) is None {
        term_decode_error(e.object)
    } else {
        term_decode_error(e.graph_name)
    }
}

/// The encoded form of an optional pattern component.
pub open spec fn encoded_opt(t: Option<TermModel>) -> Option<EncodedTerm> {
    match t {
        None => None,
        Some(t) => Some(encoded_term_of(t)),
    }
}

pub open spec fn opt_model(t: Option<&Term>) -> Option<TermModel> {
    match t {
        None => None,
        Some(t) => Some(t@),
    }
}

pub open spec fn opt_graph_model(g: Option<&GraphName>) -> Option<Option<TermModel>> {
    match g {
        None => None,
        Some(g) => Some(graph_model(g)),
    }
}

pub open spec fn encoded_graph_opt(g: Option<Option<TermModel>>) -> Option<EncodedTerm> {
    match g {
        None => None,
        Some(g) => Some(encoded_graph_of(g)),
    }
}

/// Every bound component of a pattern has its dictionary strings registered.
pub open spec fn pattern_known(
    d: Map<u128, Seq<char>>,
    s: Option<TermModel>,
    p: Option<TermModel>,
    o: Option<TermModel>,
    g: Option<Option<TermModel>>,
) -> bool {
    &&& (s matches Some(t) ==> term_known(d, t))
    &&& (p matches Some(t) ==> term_known(d, t))
    &&& (o matches Some(t) ==> term_known(d, t))
    &&& (g matches Some(x) ==> graph_known(d, x))
}

fn lookup_graph(store: &GraphStore, g: &GraphName) -> (r: Option<EncodedTerm>)
    ensures
        r == (if graph_known(store.dictionary(), graph_model(g)) {
            Some(encoded_graph_of(graph_model(g)))
        } else {
            None
        }),
{
    match g {
        GraphName::DefaultGraph => Some(EncodedTerm::DefaultGraph),
        GraphName::Named(t) => lookup_term(store, t),
    }
}

fn lookup_opt(store: &GraphStore, t: Option<&Term>) -> (r: Option<Option<EncodedTerm>>)
    ensures
        r == (match opt_model(t) {
            None => Some(None),
            Some(m) => if term_known(store.dictionary(), m) {
                Some(Some(encoded_term_of(m)))
            } else {
                None
            },
        }),
{
    match t {
        None => Some(None),
        Some(t) => match lookup_term(store, t) {
            Some(e) => Some(Some(e)),
            None => None,
        },
    }
}

/// The user-facing quad of an encoded quad, reading the dictionary.
pub fn decode_quad(store: &GraphStore, e: &EncodedQuad) -> (r: Result<Quad, DecodeError>)
    requires
        e.wf(),
    ensures
        match r {
            Ok(q) => decoded_quad_of(store.dictionary(), *e) == Some(q@),
            Err(err) => decoded_quad_of(store.dictionary(), *e) is None && err == quad_decode_error(
                store.dictionary(),
                *e,
            ),
        },
{
    let subject = match decode_encoded_term(store, e.subject) {
        Ok(t) => t,
        Err(err) => return Err(err),
    };
    let predicate = match decode_encoded_term(store, e.predicate) {
        Ok(t) => t,
        Err(err) => return Err(err),
    };
    let object = match decode_encoded_term(store, e.object) {
        Ok(t) => t,
        Err(err) => return Err(err),
    };
    let graph_name = if e.graph_name.is_default_graph() {
        GraphName::DefaultGraph
    } else {
        match decode_encoded_term(store, e.graph_name) {
            Ok(t) => GraphName::Named(t),
            Err(err) => return Err(err),
        }
    };
    Ok(Quad { subject, predicate, object, graph_name })
}

impl GraphStore {
    /// Adds a quad, registering its long strings in the dictionary.
    pub fn insert_quad(&mut self, quad: &Quad)
        requires
            old(self).wf(),
            quad_ok(quad@),
        ensures
            final(self).wf(),
            final(self).quad_set() == old(self).quad_set().insert(encoded_quad_of(quad@)),
            final(self).dictionary() == dictionary_after_all(
                old(self).dictionary(),
                quad_strings(quad@),
            ),
            final(self).named_graph_set() == (if quad@.graph_name is None {
                old(self).named_graph_set()
            } else {
                old(self).named_graph_set().insert(encoded_graph_of(quad@.graph_name))
            }),
    {
        let ghost d0 = self.dictionary();
        let s = insert_term(self, &quad.subject);
        let p = insert_term(self, &quad.predicate);
        let o = insert_term(self, &quad.object);
        let g = match &quad.graph_name {
            GraphName::DefaultGraph => {
                proof {
                    assert(graph_strings(None).len() == 0);
                    assert(dictionary_after_all(self.dictionary(), Seq::<Seq<char>>::empty())
                        == self.dictionary());
                }
                EncodedTerm::DefaultGraph
            },
            GraphName::Named(t) => insert_term(self, t),
        };
        proof {
            let q = quad@;
            lemma_encoded_term_wf(q.subject);
            lemma_encoded_term_wf(q.predicate);
            lemma_encoded_term_wf(q.object);
            if let Some(gt) = q.graph_name {
                lemma_encoded_term_wf(gt);
            }
            let a = term_strings(q.subject);
            let b = term_strings(q.predicate);
            let c = term_strings(q.object);
            let e = graph_strings(q.graph_name);
            lemma_dictionary_after_concat(d0, a, b);
            lemma_dictionary_after_concat(d0, a + b, c);
            lemma_dictionary_after_concat(d0, a + b + c, e);
        }
        let encoded = EncodedQuad::new(s, p, o, g);
        self.insert_encoded(&encoded);
    }

    /// Removes a quad; a quad with a string the dictionary has never seen is
    /// not stored, and nothing changes.
    pub fn remove_quad(&mut self, quad: &Quad)
        requires
            old(self).wf(),
        ensures
            final(self).wf(),
            final(self).quad_set() == (if quad_known(old(self).dictionary(), quad@) {
                old(self).quad_set().remove(encoded_quad_of(quad@))
            } else {
                old(self).quad_set()
            }),
            final(self).dictionary() == old(self).dictionary(),
            final(self).named_graph_set() == old(self).named_graph_set(),
    {
        let s = lookup_term(self, &quad.subject);
        let p = lookup_term(self, &quad.predicate);
        let o = lookup_term(self, &quad.object);
        let g = lookup_graph(self, &quad.graph_name);
        match (s, p, o, g) {
            (Some(s), Some(p), Some(o), Some(g)) => {
                proof {
                    lemma_encoded_term_wf(quad@.subject);
                    lemma_encoded_term_wf(quad@.predicate);
                    lemma_encoded_term_wf(quad@.object);
                    if let Some(gt) = quad@.graph_name {
                        lemma_encoded_term_wf(gt);
                    }
                }
                let encoded = EncodedQuad::new(s, p, o, g);
                self.remove_encoded(&encoded);
            },
            _ => {},
        }
    }

    /// The stored quads that meet a pattern. A bound component with a string
    /// the dictionary has never seen matches nothing, and no index is read.
    pub fn quads_for_pattern(
        &self,
        subject: Option<&Term>,
        predicate: Option<&Term>,
        object: Option<&Term>,
        graph_name: Option<&GraphName>,
    ) -> (r: Result<Vec<Quad>, DecodeError>)
        requires
            self.wf(),
        ensures
            !pattern_known(
                self.dictionary(),
                opt_model(subject),
                opt_model(predicate),
                opt_model(object),
                opt_graph_model(graph_name),
            ) ==> (r matches Ok(v) && v@.len() == 0),
            pattern_known(
                self.dictionary(),
                opt_model(subject),
                opt_model(predicate),
                opt_model(object),
                opt_graph_model(graph_name),
            ) ==> match r {
                Ok(v) => exists|es: Seq<EncodedQuad>|
                    lists_exactly(
                        es,
                        self.pattern_set(
                            encoded_opt(opt_model(subject)),
                            encoded_opt(opt_model(predicate)),
                            encoded_opt(opt_model(object)),
                            encoded_graph_opt(opt_graph_model(graph_name)),
                        ),
                    ) && es.len() == v@.len() && forall|i: int|
                        0 <= i < es.len() ==> decoded_quad_of(self.dictionary(), #[trigger] es[i])
                            == Some(v@[i]@),
                Err(err) => exists|e: EncodedQuad|
                    self.pattern_set(
                        encoded_opt(opt_model(subject)),
                        encoded_opt(opt_model(predicate)),
                        encoded_opt(opt_model(object)),
                        encoded_graph_opt(opt_graph_model(graph_name)),
                    ).contains(e) && decoded_quad_of(self.dictionary(), e) is None && err
                        == quad_decode_error(self.dictionary(), e),
            },
    {
        let s = lookup_opt(self, subject);
        let p = lookup_opt(self, predicate);
        let o = lookup_opt(self, object);
        let g = match graph_name {
            None => Some(None),
            Some(g) => match lookup_graph(self, g) {
                Some(e) => Some(Some(e)),
                None => None,
            },
        };
        let (s, p, o, g) = match (s, p, o, g) {
            (Some(s), Some(p), Some(o), Some(g)) => (s, p, o, g),
            _ => return Ok(Vec::new()),
        };
        proof {
            if let Some(t) = opt_model(subject) {
                lemma_encoded_term_wf(t);
            }
            if let Some(t) = opt_model(predicate) {
                lemma_encoded_term_wf(t);
            }
            if let Some(t) = opt_model(object) {
                lemma_encoded_term_wf(t);
            }
            if let Some(Some(t)) = opt_graph_model(graph_name) {
                lemma_encoded_term_wf(t);
            }
        }
        let encoded = self.encoded_quads_for_pattern(s, p, o, g);
        let ghost es = encoded@;
        let n = encoded.len();
        let mut out: Vec<Quad> = Vec::new();
        let mut i: usize = 0;
        while i < n
            invariant
                self.wf(),
                n == es.len(),
                es == encoded@,
                lists_exactly(es, self.pattern_set(s, p, o, g)),
                pattern_known(
                    self.dictionary(),
                    opt_model(subject),
                    opt_model(predicate),
                    opt_model(object),
                    opt_graph_model(graph_name),
                ),
                s == encoded_opt(opt_model(subject)),
                p == encoded_opt(opt_model(predicate)),
                o == encoded_opt(opt_model(object)),
                g == encoded_graph_opt(opt_graph_model(graph_name)),
                i <= n,
                out@.len() == i,
                forall|j: int|
                    0 <= j < i ==> decoded_quad_of(self.dictionary(), #[trigger] es[j])
                        == Some(out@[j]@),
            decreases n - i,
        {
            proof {
                assert(es.to_set().contains(es[i as int]));
                assert(self.quad_set().contains(es[i as int]));
                self.lemma_stored_quad_wf(es[i as int]);
            }
            match decode_quad(self, &encoded[i]) {
                Ok(q) => out.push(q),
                Err(err) => {
                    proof {
                        assert(self.pattern_set(s, p, o, g).contains(es[i as int]));
                    }
                    return Err(err);
                },
            }
            i = i + 1;
        }
        Ok(out)
    }

    /// The known graph names.
    pub fn named_graphs(&self) -> (r: Result<Vec<Term>, DecodeError>)
        requires
            self.wf(),
        ensures
            match r {
                Ok(v) => exists|es: Seq<EncodedTerm>|
                    es.no_duplicates() && es.to_set() == self.named_graph_set() && es.len()
                        == v@.len() && forall|i: int|
                        0 <= i < es.len() ==> decoded_term_of(self.dictionary(), #[trigger] es[i])
                            == Some(v@[i]@),
                Err(err) => exists|g: EncodedTerm|
                    self.named_graph_set().contains(g) && decoded_term_of(self.dictionary(), g)
                        is None && err == term_decode_error(g),
            },
    {
        let encoded = self.encoded_named_graphs();
        let ghost es = encoded@;
        let n = encoded.len();
        let mut out: Vec<Term> = Vec::new();
        let mut i: usize = 0;
        while i < n
            invariant
                self.wf(),
                n == es.len(),
                es == encoded@,
                es.no_duplicates(),
                es.to_set() == self.named_graph_set(),
                i <= n,
                out@.len() == i,
                forall|j: int|
                    0 <= j < i ==> decoded_term_of(self.dictionary(), #[trigger] es[j]) == Some(
                        out@[j]@,
                    ),
            decreases n - i,
        {
            proof {
                assert(es.to_set().contains(es[i as int]));
                self.lemma_graph_name_wf(es[i as int]);
            }
            match decode_encoded_term(self, encoded[i]) {
                Ok(t) => out.push(t),
                Err(err) => {
                    return Err(err);
                },
            }
            i = i + 1;
        }
        Ok(out)
    }

    /// Whether the graph name is known.
    pub fn contains_named_graph(&self, graph_name: &Term) -> (r: bool)
        requires
            self.wf(),
        ensures
            r == (term_known(self.dictionary(), graph_name@) && self.named_graph_set().contains(
                encoded_term_of(graph_name@),
            )),
    {
        match lookup_term(self, graph_name) {
            Some(g) => {
                proof {
                    lemma_encoded_term_wf(graph_name@);
                }
                self.contains_encoded_named_graph(g)
            },
            None => false,
        }
    }

    /// Makes a graph name known, registering its strings.
    pub fn insert_named_graph(&mut self, graph_name: &Term)
        requires
            old(self).wf(),
            is_named_or_blank(graph_name@),
        ensures
            final(self).wf(),
            final(self).named_graph_set() == old(self).named_graph_set().insert(
                encoded_term_of(graph_name@),
            ),
            final(self).quad_set() == old(self).quad_set(),
            final(self).dictionary() == dictionary_after_all(
                old(self).dictionary(),
                term_strings(graph_name@),
            ),
    {
        let g = insert_term(self, graph_name);
        proof {
            lemma_encoded_term_wf(graph_name@);
        }
        self.insert_encoded_named_graph(g);
    }

    /// Removes every quad of a named graph and forgets its name; a name with
    /// a string the dictionary has never seen changes nothing.
    pub fn remove_named_graph(&mut self, graph_name: &Term)
        requires
            old(self).wf(),
        ensures
            final(self).wf(),
            term_known(old(self).dictionary(), graph_name@) ==> {
                &&& final(self).quad_set() == old(self).quad_set().filter(
                    |q: EncodedQuad| q.graph_name != encoded_term_of(graph_name@),
                )
                &&& final(self).named_graph_set() == old(self).named_graph_set().remove(
                    encoded_term_of(graph_name@),
                )
            },
            !term_known(old(self).dictionary(), graph_name@) ==> {
                &&& final(self).quad_set() == old(self).quad_set()
                &&& final(self).named_graph_set() == old(self).named_graph_set()
            },
            final(self).dictionary() == old(self).dictionary(),
    {
        match lookup_term(self, graph_name) {
            Some(g) => {
                proof {
                    lemma_encoded_term_wf(graph_name@);
                }
                self.remove_encoded_named_graph(g);
            },
            None => {},
        }
    }

    /// Removes every quad of a graph; the graph names stay. A name with a
    /// string the dictionary has never seen changes nothing.
    pub fn clear_graph(&mut self, graph_name: &GraphName)
        requires
            old(self).wf(),
        ensures
            final(self).wf(),
            graph_known(old(self).dictionary(), graph_model(graph_name)) ==> final(self).quad_set()
                == old(self).quad_set().filter(
                |q: EncodedQuad| q.graph_name != encoded_graph_of(graph_model(graph_name)),
            ),
            !graph_known(old(self).dictionary(), graph_model(graph_name)) ==> final(self).quad_set()
                == old(self).quad_set(),
            final(self).named_graph_set() == old(self).named_graph_set(),
            final(self).dictionary() == old(self).dictionary(),
    {
        match lookup_graph(self, graph_name) {
            Some(g) => {
                proof {
                    if let Some(t) = graph_model(graph_name) {
                        lemma_encoded_term_wf(t);
                    }
                }
                self.clear_encoded_graph(g);
            },
            None => {},
        }
    }

    /// Empties the store, the dictionary included.
    pub fn clear_all(&mut self)
        requires
            old(self).wf(),
        ensures
            final(self).wf(),
            final(self).quad_set() == Set::<EncodedQuad>::empty(),
            final(self).named_graph_set() == Set::<EncodedTerm>::empty(),
            final(self).dictionary() == Map::<u128, Seq<char>>::empty(),
    {
        self.clear();
    }
}

/// A quad whose object is a plain literal of more than 15 UTF-8 bytes stores
/// that object by the hash of its lexical form; where the quad's strings meet
/// no hash collision, inserting the quad registers the form under that hash.
pub proof fn lemma_long_literal_object(d: Map<u128, Seq<char>>, q: QuadModel, v: Seq<char>)
    requires
        q.object == TermModel::SimpleLiteral(v),
        crate::model::utf8_of(v).len() > 15,
        collision_free(d, quad_strings(q)),
    ensures
        encoded_quad_of(q).object == (EncodedTerm::BigStringLiteral {
            value_id: crate::model::str_hash_of(v),
        }),
        registered(dictionary_after_all(d, quad_strings(q)), v),
{
    let ss = quad_strings(q);
    let k = term_strings(q.subject).len() + term_strings(q.predicate).len();
    assert(term_strings(q.object) == seq![v]);
    assert(ss[k as int] == v);
    lemma_after_all_registers(d, ss);
}

} // verus!
