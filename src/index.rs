//! A set of byte keys: the storage shape of each covering index.
use vstd::prelude::*;

verus! {

broadcast use vstd::seq_lib::group_seq_properties;

/// Whether `p` is a prefix of `k`.
pub open spec fn is_prefix(p: Seq<u8>, k: Seq<u8>) -> bool {
    p.len() <= k.len() && k.subrange(0, p.len() as int) == p
}

/// Compares two byte strings.
pub fn bytes_eq(a: &[u8], b: &[u8]) -> (r: bool)
    ensures
        r == (a@ == b@),
{
    let n = a.len();
    if n != b.len() {
        return false;
    }
    let mut i: usize = 0;
    while i < n
        invariant
            n == a@.len(),
            n == b@.len(),
            i <= n,
            forall|j: int| 0 <= j < i ==> a@[j] == b@[j],
        decreases n - i,
    {
        if a[i] != b[i] {
            return false;
        }
        i = i + 1;
    }
    assert(a@ =~= b@);
    true
}

/// Whether `key` starts with `prefix`.
pub fn has_prefix(key: &[u8], prefix: &[u8]) -> (r: bool)
    ensures
        r == is_prefix(prefix@, key@),
{
    let n = prefix.len();
    if n > key.len() {
        return false;
    }
    let mut i: usize = 0;
    while i < n
        invariant
            n == prefix@.len(),
            n <= key@.len(),
            i <= n,
            forall|j: int| 0 <= j < i ==> key@[j] == prefix@[j],
        decreases n - i,
    {
        if key[i] != prefix[i] {
            assert(key@.subrange(0, n as int)[i as int] != prefix@[i as int]);
            return false;
        }
        i = i + 1;
    }
    assert(key@.subrange(0, n as int) =~= prefix@);
    true
}

/// Lexicographic order on byte strings; a proper prefix comes first.
pub open spec fn lex_lt(a: Seq<u8>, b: Seq<u8>) -> bool
    decreases a.len(),
{
    if a.len() == 0 {
        b.len() > 0
    } else if b.len() == 0 {
        false
    } else if a[0] != b[0] {
        a[0] < b[0]
    } else {
        lex_lt(a.drop_first(), b.drop_first())
    }
}

pub proof fn lemma_lex_irreflexive(a: Seq<u8>)
    ensures
        !lex_lt(a, a),
    decreases a.len(),
{
    if a.len() > 0 {
        lemma_lex_irreflexive(a.drop_first());
    }
}

pub proof fn lemma_lex_transitive(a: Seq<u8>, b: Seq<u8>, c: Seq<u8>)
    requires
        lex_lt(a, b),
        lex_lt(b, c),
    ensures
        lex_lt(a, c),
    decreases a.len(),
{
    if a.len() > 0 && b.len() > 0 && c.len() > 0 && a[0] == b[0] && b[0] == c[0] {
        lemma_lex_transitive(a.drop_first(), b.drop_first(), c.drop_first());
    }
}

pub proof fn lemma_lex_total(a: Seq<u8>, b: Seq<u8>)
    requires
        a != b,
    ensures
        lex_lt(a, b) || lex_lt(b, a),
    decreases a.len(),
{
    if a.len() > 0 && b.len() > 0 && a[0] == b[0] {
        if a.drop_first() == b.drop_first() {
            assert(a =~= seq![a[0]] + a.drop_first());
            assert(b =~= seq![b[0]] + b.drop_first());
        }
        lemma_lex_total(a.drop_first(), b.drop_first());
    }
}

/// Whether `a` comes before `b` in lexicographic order.
pub fn lex_less(a: &[u8], b: &[u8]) -> (r: bool)
    ensures
        r == lex_lt(a@, b@),
{
    let n = a.len();
    let m = b.len();
    let mut i: usize = 0;
    assert(a@.subrange(0, n as int) =~= a@);
    assert(b@.subrange(0, m as int) =~= b@);
    while i < n && i < m && a[i] == b[i]
        invariant
            n == a@.len(),
            m == b@.len(),
            i <= n,
            i <= m,
            lex_lt(a@, b@) == lex_lt(a@.subrange(i as int, n as int), b@.subrange(i as int, m as int)),
        decreases n - i,
    {
        proof {
            let x = a@.subrange(i as int, n as int);
            let y = b@.subrange(i as int, m as int);
            assert(x.drop_first() =~= a@.subrange(i + 1, n as int));
            assert(y.drop_first() =~= b@.subrange(i + 1, m as int));
        }
        i = i + 1;
    }
    if i == n {
        i < m
    } else if i == m {
        false
    } else {
        a[i] < b[i]
    }
}

/// Each key comes before every later one.
pub open spec fn is_sorted(ks: Seq<Seq<u8>>) -> bool {
    forall|i: int, j: int| 0 <= i < j < ks.len() ==> lex_lt(#[trigger] ks[i], #[trigger] ks[j])
}

pub proof fn lemma_sorted_distinct(ks: Seq<Seq<u8>>)
    requires
        is_sorted(ks),
    ensures
        ks.no_duplicates(),
{
    assert forall|i: int, j: int| 0 <= i < ks.len() && 0 <= j < ks.len() && i != j implies ks[i]
        != ks[j] by {
        if i < j {
            lemma_lex_irreflexive(ks[i]);
        } else {
            lemma_lex_irreflexive(ks[j]);
        }
    }
}

/// A set of byte keys, each held once, in lexicographic order.
pub struct KeySet {
    keys: Vec<Vec<u8>>,
}

impl View for KeySet {
    type V = Set<Seq<u8>>;

    open spec fn view(&self) -> Set<Seq<u8>> {
        self.key_seq().to_set()
    }
}

impl KeySet {
    /// The keys in the order they are held.
    pub closed spec fn key_seq(&self) -> Seq<Seq<u8>> {
        self.keys@.map_values(|k: Vec<u8>| k@)
    }

    /// The keys are in strictly increasing order, so none is held twice.
    pub open spec fn wf(&self) -> bool {
        self.key_seq().no_duplicates() && is_sorted(self.key_seq())
    }

    pub fn new() -> (r: Self)
        ensures
            r.wf(),
            r@ == Set::<Seq<u8>>::empty(),
            r.key_seq().len() == 0,
    {
        let r = KeySet { keys: Vec::new() };
        assert(r.key_seq() =~= Seq::<Seq<u8>>::empty());
        assert(r@ =~= Set::<Seq<u8>>::empty());
        r
    }

    pub fn len(&self) -> (r: usize)
        ensures
            r == self.key_seq().len(),
    {
        self.keys.len()
    }

    /// The key held at position `i`.
    pub fn key_at(&self, i: usize) -> (r: &Vec<u8>)
        requires
            i < self.key_seq().len(),
        ensures
            r@ == self.key_seq()[i as int],
    {
        &self.keys[i]
    }

    /// The position of `key`, if it is held.
    fn find(&self, key: &[u8]) -> (r: Option<usize>)
        ensures
            r matches Some(i) ==> i < self.key_seq().len() && self.key_seq()[i as int] == key@,
            r is None ==> !self@.contains(key@),
    {
        let n = self.keys.len();
        let mut i: usize = 0;
        while i < n
            invariant
                n == self.keys@.len(),
                i <= n,
                forall|j: int| 0 <= j < i ==> self.key_seq()[j] != key@,
            decreases n - i,
        {
            if bytes_eq(self.keys[i].as_slice(), key) {
                return Some(i);
            }
            i = i + 1;
        }
        None
    }

    pub fn contains(&self, key: &[u8]) -> (r: bool)
        ensures
            r == self@.contains(key@),
    {
        match self.find(key) {
            Some(i) => {
                assert(self.key_seq().contains(key@));
                true
            },
            None => false,
        }
    }

    pub fn insert(&mut self, key: Vec<u8>)
        requires
            old(self).wf(),
        ensures
            final(self).wf(),
            final(self)@ == old(self)@.insert(key@),
    {
        if self.find(key.as_slice()).is_some() {
            assert(old(self)@ =~= old(self)@.insert(key@));
            return;
        }
        let ghost s = self.key_seq();
        let ghost k = key@;
        let n = self.keys.len();
        let mut i: usize = 0;
        while i < n && lex_less(self.keys[i].as_slice(), key.as_slice())
            invariant
                n == s.len(),
                s == self.key_seq(),
                k == key@,
                i <= n,
                forall|j: int| 0 <= j < i ==> lex_lt(#[trigger] s[j], k),
            decreases n - i,
        {
            i = i + 1;
        }
        proof {
            assert(!s.contains(k));
            if i < n {
                assert(s[i as int] != k);
                lemma_lex_total(s[i as int], k);
            }
        }
        self.keys.insert(i, key);
        proof {
            let t = s.insert(i as int, k);
            assert(self.key_seq() =~= t);
            assert forall|a: int, b: int| 0 <= a < b < t.len() implies lex_lt(
                #[trigger] t[a],
                #[trigger] t[b],
            ) by {
                if b < i {
                } else if b == i {
                } else if a < i {
                    assert(t[b] == s[b - 1]);
                    if b - 1 == i {
                        lemma_lex_transitive(s[a], k, s[b - 1]);
                    } else {
                        lemma_lex_transitive(k, s[i as int], s[b - 1]);
                        lemma_lex_transitive(s[a], k, s[b - 1]);
                    }
                } else if a == i {
                    assert(t[b] == s[b - 1]);
                    if b - 1 > i {
                        lemma_lex_transitive(k, s[i as int], s[b - 1]);
                    }
                } else {
                    assert(t[a] == s[a - 1]);
                    assert(t[b] == s[b - 1]);
                }
            }
            lemma_sorted_distinct(t);
            assert forall|x: Seq<u8>| #[trigger] t.contains(x) <==> (s.contains(x) || x == k) by {
                if t.contains(x) {
                    let j = choose|j: int| 0 <= j < t.len() && t[j] == x;
                    if j < i {
                        assert(s[j] == x);
                    } else if j > i {
                        assert(s[j - 1] == x);
                    }
                }
                if s.contains(x) {
                    let j = choose|j: int| 0 <= j < s.len() && s[j] == x;
                    if j < i {
                        assert(t[j] == x);
                    } else {
                        assert(t[j + 1] == x);
                    }
                }
                if x == k {
                    assert(t[i as int] == x);
                }
            }
            assert(self@ =~= old(self)@.insert(k));
        }
    }

    pub fn remove(&mut self, key: &[u8])
        requires
            old(self).wf(),
        ensures
            final(self).wf(),
            final(self)@ == old(self)@.remove(key@),
    {
        match self.find(key) {
            Some(i) => {
                let ghost s = old(self).key_seq();
                self.keys.remove(i);
                assert(self.key_seq() =~= s.remove(i as int));
                assert forall|a: int, b: int| 0 <= a < b < s.len() - 1 implies lex_lt(
                    #[trigger] self.key_seq()[a],
                    #[trigger] self.key_seq()[b],
                ) by {
                    let a0 = if a < i { a } else { a + 1 };
                    let b0 = if b < i { b } else { b + 1 };
                    assert(self.key_seq()[a] == s[a0]);
                    assert(self.key_seq()[b] == s[b0]);
                }
                assert forall|x: Seq<u8>| #[trigger] self@.contains(x) <==> (s.contains(x) && x
                    != key@) by {
                    if self@.contains(x) {
                        let j = choose|j: int| 0 <= j < s.len() - 1 && s.remove(i as int)[j] == x;
                        if j < i {
                            assert(s[j] == x);
                        } else {
                            assert(s[j + 1] == x);
                        }
                    }
                    if s.contains(x) && x != key@ {
                        let j = choose|j: int| 0 <= j < s.len() && s[j] == x;
                        if j < i {
                            assert(s.remove(i as int)[j] == x);
                        } else {
                            assert(s.remove(i as int)[j - 1] == x);
                        }
                    }
                }
                assert(self@ =~= old(self)@.remove(key@));
            },
            None => {
                assert(old(self)@ =~= old(self)@.remove(key@));
            },
        }
    }

    pub fn clear(&mut self)
        ensures
            final(self).wf(),
            final(self)@ == Set::<Seq<u8>>::empty(),
    {
        self.keys = Vec::new();
        assert(self.key_seq() =~= Seq::<Seq<u8>>::empty());
        assert(self@ =~= Set::<Seq<u8>>::empty());
    }
}

} // verus!
