//! Ordered string-keyed maps.
//!
//! `StrMap<V>` keeps its entries sorted by key in the byte-wise lexicographic
//! order that `str` uses for `Ord`, so that walking it visits keys in the same
//! order as a `BTreeMap<String, V>` would. Its view is a `Map<Seq<char>, V>`;
//! the ordered key sequence is available through `keys()`.
use vstd::prelude::*;
use vstd::utf8::encode_utf8;
use vstd::utf8::decode_utf8;
use vstd::utf8::encode_utf8_decode_utf8;

verus! {

/// Byte-wise lexicographic "less than".
pub open spec fn bytes_lt(a: Seq<u8>, b: Seq<u8>) -> bool
    decreases a.len(),
{
    if a.len() == 0 {
        b.len() > 0
    } else if b.len() == 0 {
        false
    } else if a[0] != b[0] {
        a[0] < b[0]
    } else {
        bytes_lt(a.drop_first(), b.drop_first())
    }
}

/// The order of string keys: the order of their UTF-8 encodings.
pub open spec fn key_lt(a: Seq<char>, b: Seq<char>) -> bool {
    bytes_lt(encode_utf8(a), encode_utf8(b))
}

pub proof fn lemma_bytes_lt_irreflexive(a: Seq<u8>)
    ensures
        !bytes_lt(a, a),
    decreases a.len(),
{
    if a.len() > 0 {
        lemma_bytes_lt_irreflexive(a.drop_first());
    }
}

pub proof fn lemma_bytes_lt_transitive(a: Seq<u8>, b: Seq<u8>, c: Seq<u8>)
    requires
        bytes_lt(a, b),
        bytes_lt(b, c),
    ensures
        bytes_lt(a, c),
    decreases a.len(),
{
    if a.len() > 0 && b.len() > 0 && c.len() > 0 {
        if a[0] == b[0] && b[0] == c[0] {
            lemma_bytes_lt_transitive(a.drop_first(), b.drop_first(), c.drop_first());
        }
    }
}

pub proof fn lemma_bytes_lt_total(a: Seq<u8>, b: Seq<u8>)
    requires
        a != b,
    ensures
        bytes_lt(a, b) || bytes_lt(b, a),
    decreases a.len(),
{
    if a.len() > 0 && b.len() > 0 && a[0] == b[0] {
        if a.drop_first() == b.drop_first() {
            assert(a =~= seq![a[0]] + a.drop_first());
            assert(b =~= seq![b[0]] + b.drop_first());
        }
        lemma_bytes_lt_total(a.drop_first(), b.drop_first());
    } else if a.len() == 0 && b.len() == 0 {
        assert(a =~= b);
    }
}

pub proof fn lemma_key_lt_irreflexive(a: Seq<char>)
    ensures
        !key_lt(a, a),
{
    lemma_bytes_lt_irreflexive(encode_utf8(a));
}

pub proof fn lemma_key_lt_transitive(a: Seq<char>, b: Seq<char>, c: Seq<char>)
    requires
        key_lt(a, b),
        key_lt(b, c),
    ensures
        key_lt(a, c),
{
    lemma_bytes_lt_transitive(encode_utf8(a), encode_utf8(b), encode_utf8(c));
}

pub proof fn lemma_key_lt_total(a: Seq<char>, b: Seq<char>)
    requires
        a != b,
    ensures
        key_lt(a, b) || key_lt(b, a),
{
    encode_utf8_decode_utf8(a);
    encode_utf8_decode_utf8(b);
    lemma_bytes_lt_total(encode_utf8(a), encode_utf8(b));
}

/// Keys strictly increase along the sequence (hence none occurs twice).
pub open spec fn strictly_sorted(ks: Seq<Seq<char>>) -> bool {
    forall|i: int, j: int| 0 <= i < j < ks.len() ==> key_lt(#[trigger] ks[i], #[trigger] ks[j])
}

/// No key occurs twice.
pub open spec fn distinct_keys(ks: Seq<Seq<char>>) -> bool {
    forall|i: int, j: int| 0 <= i < ks.len() && 0 <= j < ks.len() && i != j ==> #[trigger] ks[i] != #[trigger] ks[j]
}

pub proof fn lemma_sorted_distinct(ks: Seq<Seq<char>>)
    requires
        strictly_sorted(ks),
    ensures
        distinct_keys(ks),
{
    assert forall|i: int, j: int| 0 <= i < ks.len() && 0 <= j < ks.len() && i != j implies #[trigger] ks[i] != #[trigger] ks[j] by {
        if i < j {
            lemma_key_lt_irreflexive(ks[i]);
        } else {
            lemma_key_lt_irreflexive(ks[j]);
        }
    }
}

/// A position at which a key occurs in a sequence of pairs.
pub open spec fn key_pos<V>(s: Seq<(Seq<char>, V)>, k: Seq<char>) -> int {
    choose|i: int| 0 <= i < s.len() && #[trigger] s[i].0 == k
}

/// The map that a sequence of distinct-keyed pairs stands for.
pub open spec fn pairs_map<V>(s: Seq<(Seq<char>, V)>) -> Map<Seq<char>, V> {
    Map::new(
        |k: Seq<char>| exists|i: int| 0 <= i < s.len() && #[trigger] s[i].0 == k,
        |k: Seq<char>| s[key_pos(s, k)].1,
    )
}

pub open spec fn pair_keys<V>(s: Seq<(Seq<char>, V)>) -> Seq<Seq<char>> {
    s.map_values(|p: (Seq<char>, V)| p.0)
}

pub proof fn lemma_pairs_map_index<V>(s: Seq<(Seq<char>, V)>, i: int)
    requires
        distinct_keys(pair_keys(s)),
        0 <= i < s.len(),
    ensures
        pairs_map(s).dom().contains(s[i].0),
        pairs_map(s)[s[i].0] == s[i].1,
{
    let k = s[i].0;
    assert(s[i].0 == k);
    assert(exists|j: int| 0 <= j < s.len() && #[trigger] s[j].0 == k);
    let j = key_pos(s, k);
    assert(pair_keys(s)[i] == s[i].0);
    assert(pair_keys(s)[j] == s[j].0);
    if i != j {
        assert(pair_keys(s)[i] != pair_keys(s)[j]);
    }
    assert(pairs_map(s).dom().contains(k));
    assert(pairs_map(s)[k] == s[j].1);
}

pub proof fn lemma_pairs_map_dom<V>(s: Seq<(Seq<char>, V)>, k: Seq<char>)
    ensures
        pairs_map(s).dom().contains(k) <==> pair_keys(s).contains(k),
{
    if pairs_map(s).dom().contains(k) {
        let i = choose|i: int| 0 <= i < s.len() && #[trigger] s[i].0 == k;
        assert(pair_keys(s)[i] == k);
    }
    if pair_keys(s).contains(k) {
        let i = choose|i: int| 0 <= i < pair_keys(s).len() && pair_keys(s)[i] == k;
        assert(s[i].0 == k);
    }
}

/// Inserting a pair with a new key at any position adds that key to the map.
pub proof fn lemma_pairs_map_insert<V>(s: Seq<(Seq<char>, V)>, i: int, p: (Seq<char>, V))
    requires
        distinct_keys(pair_keys(s)),
        !pair_keys(s).contains(p.0),
        0 <= i <= s.len(),
    ensures
        distinct_keys(pair_keys(s.insert(i, p))),
        pairs_map(s.insert(i, p)) =~= pairs_map(s).insert(p.0, p.1),
{
    let t = s.insert(i, p);
    assert forall|a: int, b: int|
        0 <= a < pair_keys(t).len() && 0 <= b < pair_keys(t).len() && a != b implies #[trigger] pair_keys(t)[a]
        != #[trigger] pair_keys(t)[b] by {
        let ia = if a < i { a } else if a == i { -1 } else { a - 1 };
        let ib = if b < i { b } else if b == i { -1 } else { b - 1 };
        if ia >= 0 {
            assert(pair_keys(s)[ia] == t[a].0);
        }
        if ib >= 0 {
            assert(pair_keys(s)[ib] == t[b].0);
        }
    }
    assert forall|k: Seq<char>| #[trigger] pairs_map(t).dom().contains(k) <==> pairs_map(s).insert(p.0, p.1).dom().contains(k) by {
        lemma_pairs_map_dom(t, k);
        lemma_pairs_map_dom(s, k);
        if pair_keys(t).contains(k) {
            let a = choose|a: int| 0 <= a < pair_keys(t).len() && pair_keys(t)[a] == k;
            if a < i {
                assert(pair_keys(s)[a] == k);
            } else if a > i {
                assert(pair_keys(s)[a - 1] == k);
            }
        }
        if pair_keys(s).contains(k) {
            let a = choose|a: int| 0 <= a < pair_keys(s).len() && pair_keys(s)[a] == k;
            if a < i {
                assert(pair_keys(t)[a] == k);
            } else {
                assert(pair_keys(t)[a + 1] == k);
            }
        }
        if k == p.0 {
            assert(pair_keys(t)[i] == k);
        }
    }
    assert forall|k: Seq<char>| #[trigger] pairs_map(t).dom().contains(k) implies pairs_map(t)[k]
        == pairs_map(s).insert(p.0, p.1)[k] by {
        lemma_pairs_map_dom(t, k);
        let a = choose|a: int| 0 <= a < pair_keys(t).len() && pair_keys(t)[a] == k;
        assert(t[a].0 == k);
        lemma_pairs_map_index(t, a);
        if a < i {
            assert(pair_keys(s)[a] == k);
            assert(k != p.0);
            lemma_pairs_map_index(s, a);
        } else if a > i {
            assert(pair_keys(s)[a - 1] == k);
            assert(k != p.0);
            lemma_pairs_map_index(s, a - 1);
        }
    }
}

/// Replacing the value at a position updates that key.
pub proof fn lemma_pairs_map_update<V>(s: Seq<(Seq<char>, V)>, i: int, v: V)
    requires
        distinct_keys(pair_keys(s)),
        0 <= i < s.len(),
    ensures
        pair_keys(s.update(i, (s[i].0, v))) =~= pair_keys(s),
        pairs_map(s.update(i, (s[i].0, v))) =~= pairs_map(s).insert(s[i].0, v),
{
    let t = s.update(i, (s[i].0, v));
    assert(pair_keys(t) =~= pair_keys(s));
    assert forall|k: Seq<char>| #[trigger] pairs_map(t).dom().contains(k) <==> pairs_map(s).insert(s[i].0, v).dom().contains(k) by {
        lemma_pairs_map_dom(t, k);
        lemma_pairs_map_dom(s, k);
        lemma_pairs_map_index(s, i);
    }
    assert forall|k: Seq<char>| #[trigger] pairs_map(t).dom().contains(k) implies pairs_map(t)[k]
        == pairs_map(s).insert(s[i].0, v)[k] by {
        lemma_pairs_map_dom(t, k);
        let a = choose|a: int| 0 <= a < pair_keys(t).len() && pair_keys(t)[a] == k;
        assert(t[a].0 == k);
        assert(s[a].0 == k);
        lemma_pairs_map_index(t, a);
        lemma_pairs_map_index(s, a);
        if a != i {
            assert(pair_keys(s)[a] != pair_keys(s)[i]);
        }
    }
}

/// Removing a position removes its key from the map.
pub proof fn lemma_pairs_map_remove<V>(s: Seq<(Seq<char>, V)>, i: int)
    requires
        distinct_keys(pair_keys(s)),
        0 <= i < s.len(),
    ensures
        pair_keys(s.remove(i)) =~= pair_keys(s).remove(i),
        pairs_map(s.remove(i)) =~= pairs_map(s).remove(s[i].0),
{
    let t = s.remove(i);
    assert(pair_keys(t) =~= pair_keys(s).remove(i));
    assert forall|k: Seq<char>| #[trigger] pairs_map(t).dom().contains(k) <==> pairs_map(s).remove(s[i].0).dom().contains(k) by {
        lemma_pairs_map_dom(t, k);
        lemma_pairs_map_dom(s, k);
        assert(pair_keys(s)[i] == s[i].0);
        if pair_keys(t).contains(k) {
            let a = choose|a: int| 0 <= a < pair_keys(t).len() && pair_keys(t)[a] == k;
            if a < i {
                assert(pair_keys(s)[a] == k);
                assert(pair_keys(s)[a] != pair_keys(s)[i]);
            } else {
                assert(pair_keys(s)[a + 1] == k);
                assert(pair_keys(s)[a + 1] != pair_keys(s)[i]);
            }
        }
        if pair_keys(s).contains(k) && k != s[i].0 {
            let a = choose|a: int| 0 <= a < pair_keys(s).len() && pair_keys(s)[a] == k;
            if a < i {
                assert(pair_keys(t)[a] == k);
            } else {
                assert(a != i);
                assert(pair_keys(t)[a - 1] == k);
            }
        }
    }
    assert forall|k: Seq<char>| #[trigger] pairs_map(t).dom().contains(k) implies pairs_map(t)[k]
        == pairs_map(s).remove(s[i].0)[k] by {
        lemma_pairs_map_dom(t, k);
        let a = choose|a: int| 0 <= a < pair_keys(t).len() && pair_keys(t)[a] == k;
        assert(t[a].0 == k);
        lemma_pairs_map_index(t, a);
        if a < i {
            assert(pair_keys(s)[a] == k);
            assert(pair_keys(s)[a] != pair_keys(s)[i]);
            lemma_pairs_map_index(s, a);
        } else {
            assert(pair_keys(s)[a + 1] == k);
            assert(pair_keys(s)[a + 1] != pair_keys(s)[i]);
            lemma_pairs_map_index(s, a + 1);
        }
    }
}

pub proof fn lemma_bytes_lt_skip(a: Seq<u8>, b: Seq<u8>, i: int)
    requires
        0 <= i <= a.len(),
        i <= b.len(),
        a.take(i) == b.take(i),
    ensures
        bytes_lt(a, b) == bytes_lt(a.skip(i), b.skip(i)),
    decreases i,
{
    if i > 0 {
        assert(a[0] == a.take(i)[0]);
        assert(b[0] == b.take(i)[0]);
        assert(a.drop_first().take(i - 1) =~= a.take(i).drop_first());
        assert(b.drop_first().take(i - 1) =~= b.take(i).drop_first());
        lemma_bytes_lt_skip(a.drop_first(), b.drop_first(), i - 1);
        assert(a.drop_first().skip(i - 1) =~= a.skip(i));
        assert(b.drop_first().skip(i - 1) =~= b.skip(i));
    } else {
        assert(a.skip(0) =~= a);
        assert(b.skip(0) =~= b);
    }
}

/// Compares two strings in the order of `str`: negative, zero or positive.
pub fn compare_str(a: &str, b: &str) -> (r: i8)
    ensures
        r == 0 <==> a@ == b@,
        r < 0 <==> key_lt(a@, b@),
        r > 0 <==> key_lt(b@, a@),
{
    let x = a.as_bytes();
    let y = b.as_bytes();
    let ghost ex = encode_utf8(a@);
    let ghost ey = encode_utf8(b@);
    proof {
        encode_utf8_decode_utf8(a@);
        encode_utf8_decode_utf8(b@);
        lemma_bytes_lt_irreflexive(ex);
        if bytes_lt(ex, ey) && bytes_lt(ey, ex) {
            lemma_bytes_lt_transitive(ex, ey, ex);
        }
    }
    let mut i: usize = 0;
    while i < x.len() && i < y.len()
        invariant
            x@ == ex,
            y@ == ey,
            ex == encode_utf8(a@),
            ey == encode_utf8(b@),
            i <= x@.len(),
            i <= y@.len(),
            x@.take(i as int) =~= y@.take(i as int),
        decreases x@.len() - i,
    {
        let p = x[i];
        let q = y[i];
        if p != q {
            proof {
                lemma_bytes_lt_skip(ex, ey, i as int);
                lemma_bytes_lt_skip(ey, ex, i as int);
                assert(ex.skip(i as int)[0] == p);
                assert(ey.skip(i as int)[0] == q);
            }
            if p < q {
                return -1;
            } else {
                return 1;
            }
        }
        proof {
            assert(x@.take(i + 1) =~= x@.take(i as int).push(p));
            assert(y@.take(i + 1) =~= y@.take(i as int).push(q));
        }
        i = i + 1;
    }
    proof {
        lemma_bytes_lt_skip(ex, ey, i as int);
        lemma_bytes_lt_skip(ey, ex, i as int);
    }
    if x.len() == y.len() {
        proof {
            assert(x@ =~= x@.take(i as int));
            assert(y@ =~= y@.take(i as int));
        }
        0
    } else if i == x.len() {
        proof {
            assert(ex.skip(i as int).len() == 0);
        }
        -1
    } else {
        proof {
            assert(ey.skip(i as int).len() == 0);
        }
        1
    }
}

/// The view of a list of entries.
pub open spec fn entries_pairs<V>(e: Seq<(String, V)>) -> Seq<(Seq<char>, V)> {
    e.map_values(|x: (String, V)| (x.0@, x.1))
}

/// Replacing the value of one entry replaces that key's value in the map.
pub proof fn lemma_entries_update<V>(e: Seq<(String, V)>, i: int)
    requires
        0 <= i < e.len(),
        strictly_sorted(pair_keys(entries_pairs(e))),
    ensures
        forall|v: V| #![trigger e.update(i, (e[i].0, v))] {
            &&& pair_keys(entries_pairs(e.update(i, (e[i].0, v)))) == pair_keys(entries_pairs(e))
            &&& pairs_map(entries_pairs(e.update(i, (e[i].0, v)))) == pairs_map(entries_pairs(e)).insert(e[i].0@, v)
        },
{
    assert forall|v: V| #![trigger e.update(i, (e[i].0, v))] {
        &&& pair_keys(entries_pairs(e.update(i, (e[i].0, v)))) == pair_keys(entries_pairs(e))
        &&& pairs_map(entries_pairs(e.update(i, (e[i].0, v)))) == pairs_map(entries_pairs(e)).insert(e[i].0@, v)
    } by {
        let s = entries_pairs(e);
        lemma_sorted_distinct(pair_keys(s));
        assert(entries_pairs(e.update(i, (e[i].0, v))) =~= s.update(i, (s[i].0, v)));
        lemma_pairs_map_update(s, i, v);
    }
}

/// A map from strings to values, kept sorted by key.
#[derive(Debug, Clone, PartialEq, Eq)]
pub struct StrMap<V> {
    entries: Vec<(String, V)>,
}

/// A set of strings, kept sorted.
pub type StrSet = StrMap<()>;

impl<V> View for StrMap<V> {
    type V = Map<Seq<char>, V>;

    open spec fn view(&self) -> Map<Seq<char>, V> {
        pairs_map(self.pairs())
    }
}

impl<V> StrMap<V> {
    /// The entries in key order, keys taken as character sequences.
    pub closed spec fn pairs(&self) -> Seq<(Seq<char>, V)> {
        entries_pairs(self.entries@)
    }

    /// The keys in ascending order.
    pub open spec fn keys(&self) -> Seq<Seq<char>> {
        pair_keys(self.pairs())
    }

    /// Keys are kept in strictly ascending order.
    pub open spec fn wf(&self) -> bool {
        strictly_sorted(self.keys())
    }

    pub proof fn lemma_view(&self)
        requires
            self.wf(),
        ensures
            distinct_keys(self.keys()),
            self.keys().len() == self.pairs().len(),
            forall|k: Seq<char>| #[trigger] self@.dom().contains(k) <==> self.keys().contains(k),
            forall|i: int| 0 <= i < self.keys().len() ==> #[trigger] self@[self.keys()[i]] == self.pairs()[i].1,
            forall|i: int| 0 <= i < self.keys().len() ==> #[trigger] self.pairs()[i].0 == self.keys()[i],
            self@.dom().finite(),
            self@.dom().len() == self.keys().len(),
    {
        lemma_sorted_distinct(self.keys());
        assert forall|k: Seq<char>| #[trigger] self@.dom().contains(k) <==> self.keys().contains(k) by {
            lemma_pairs_map_dom(self.pairs(), k);
        }
        assert forall|i: int| 0 <= i < self.keys().len() implies #[trigger] self@[self.keys()[i]] == self.pairs()[i].1 by {
            lemma_pairs_map_index(self.pairs(), i);
        }
        assert(self@.dom() =~= self.keys().to_set());
        self.keys().unique_seq_to_set();
    }

    /// An empty map.
    pub fn new() -> (m: Self)
        ensures
            m.wf(),
            m@ == Map::<Seq<char>, V>::empty(),
            m.keys() == Seq::<Seq<char>>::empty(),
    {
        let m = StrMap { entries: Vec::new() };
        assert(m.pairs() =~= Seq::<(Seq<char>, V)>::empty());
        assert(m@ =~= Map::<Seq<char>, V>::empty());
        assert(m.keys() =~= Seq::<Seq<char>>::empty());
        m
    }

    /// Number of entries.
    pub fn len(&self) -> (n: usize)
        requires
            self.wf(),
        ensures
            n == self.keys().len(),
            n == self@.len(),
    {
        proof {
            self.lemma_view();
        }
        self.entries.len()
    }

    /// Whether the map has no entries.
    pub fn is_empty(&self) -> (b: bool)
        requires
            self.wf(),
        ensures
            b <==> self@.len() == 0,
            b <==> self.keys().len() == 0,
    {
        proof {
            self.lemma_view();
        }
        self.entries.len() == 0
    }

    /// The position of a key, if present.
    pub fn index_of(&self, k: &str) -> (r: Option<usize>)
        requires
            self.wf(),
        ensures
            match r {
                Some(i) => i < self.keys().len() && self.keys()[i as int] == k@,
                None => !self.keys().contains(k@) && !self@.dom().contains(k@),
            },
    {
        proof {
            self.lemma_view();
        }
        let mut i: usize = 0;
        while i < self.entries.len()
            invariant
                i <= self.entries@.len(),
                self.entries@.len() == self.keys().len(),
                forall|j: int| 0 <= j < i ==> self.keys()[j] != k@,
            decreases self.entries@.len() - i,
        {
            assert(self.keys()[i as int] == self.entries@[i as int].0@);
            if compare_str(self.entries[i].0.as_str(), k) == 0 {
                return Some(i);
            }
            i = i + 1;
        }
        None
    }

    /// The value stored under a key.
    pub fn get(&self, k: &str) -> (r: Option<&V>)
        requires
            self.wf(),
        ensures
            match r {
                Some(v) => self@.dom().contains(k@) && *v == self@[k@],
                None => !self@.dom().contains(k@),
            },
    {
        proof {
            self.lemma_view();
        }
        match self.index_of(k) {
            Some(i) => {
                assert(self.pairs()[i as int].1 == self.entries@[i as int].1);
                Some(&self.entries[i].1)
            },
            None => None,
        }
    }

    /// Whether a key is present.
    pub fn contains_key(&self, k: &str) -> (b: bool)
        requires
            self.wf(),
        ensures
            b <==> self@.dom().contains(k@),
    {
        proof {
            self.lemma_view();
        }
        self.index_of(k).is_some()
    }

    /// A mutable reference to the value stored under a key.
    pub fn get_mut(&mut self, k: &str) -> (r: Option<&mut V>)
        requires
            old(self).wf(),
        ensures
            final(self).wf(),
            final(self).keys() == old(self).keys(),
            match r {
                Some(v) => old(self)@.dom().contains(k@) && *v == old(self)@[k@] && final(self)@ == old(self)@.insert(
                    k@,
                    *final(v),
                ),
                None => !old(self)@.dom().contains(k@) && final(self)@ == old(self)@,
            },
    {
        proof {
            old(self).lemma_view();
        }
        let ghost s = self.pairs();
        match self.index_of(k) {
            Some(i) => {
                proof {
                    lemma_sorted_distinct(pair_keys(s));
                    lemma_pairs_map_index(s, i as int);
                }
                proof {
                    lemma_entries_update(self.entries@, i as int);
                }
                let e = &mut self.entries[i];
                let r = &mut e.1;
                Some(r)
            },
            None => None,
        }
    }

    /// The key and value at a position of the key order.
    pub fn entry_at(&self, i: usize) -> (r: (&String, &V))
        requires
            self.wf(),
            i < self.keys().len(),
        ensures
            r.0@ == self.keys()[i as int],
            *r.1 == self.pairs()[i as int].1,
            *r.1 == self@[self.keys()[i as int]],
    {
        proof {
            self.lemma_view();
        }
        let e = &self.entries[i];
        (&e.0, &e.1)
    }

    /// The first position whose key is not below `k`.
    pub fn lower_bound(&self, k: &str) -> (i: usize)
        requires
            self.wf(),
        ensures
            i <= self.keys().len(),
            forall|j: int| 0 <= j < i ==> key_lt(#[trigger] self.keys()[j], k@),
            i < self.keys().len() ==> !key_lt(self.keys()[i as int], k@),
    {
        let mut i: usize = 0;
        while i < self.entries.len()
            invariant
                i <= self.entries@.len(),
                self.entries@.len() == self.keys().len(),
                forall|j: int| 0 <= j < i ==> key_lt(#[trigger] self.keys()[j], k@),
            decreases self.entries@.len() - i,
        {
            assert(self.keys()[i as int] == self.entries@[i as int].0@);
            if compare_str(self.entries[i].0.as_str(), k) >= 0 {
                return i;
            }
            i = i + 1;
        }
        i
    }

    /// Inserts or replaces a value; returns the value it replaced.
    pub fn insert(&mut self, k: String, v: V) -> (r: Option<V>)
        requires
            old(self).wf(),
        ensures
            final(self).wf(),
            final(self)@ == old(self)@.insert(k@, v),
            match r {
                Some(o) => old(self)@.dom().contains(k@) && o == old(self)@[k@],
                None => !old(self)@.dom().contains(k@),
            },
            final(self).keys().to_set() == old(self).keys().to_set().insert(k@),
    {
        proof {
            old(self).lemma_view();
        }
        let ghost s = self.pairs();
        let n = self.entries.len();
        let i = self.lower_bound(k.as_str());
        if i < n {
            assert(pair_keys(s)[i as int] == self.entries@[i as int].0@);
            if compare_str(self.entries[i].0.as_str(), k.as_str()) == 0 {
                proof {
                    lemma_sorted_distinct(pair_keys(s));
                    lemma_pairs_map_update(s, i as int, v);
                    lemma_pairs_map_index(s, i as int);
                }
                let old_entry = self.entries.remove(i);
                self.entries.insert(i, (k, v));
                proof {
                    assert(self.pairs() =~= s.update(i as int, (s[i as int].0, v)));
                    assert(self.keys() =~= old(self).keys());
                }
                return Some(old_entry.1);
            }
        }
        proof {
            lemma_sorted_distinct(pair_keys(s));
            if i < n {
                lemma_key_lt_total(pair_keys(s)[i as int], k@);
            }
            assert forall|j: int| i <= j < n implies key_lt(k@, #[trigger] pair_keys(s)[j]) by {
                if j > i {
                    lemma_key_lt_transitive(k@, pair_keys(s)[i as int], pair_keys(s)[j]);
                }
            }
            assert(!pair_keys(s).contains(k@)) by {
                if pair_keys(s).contains(k@) {
                    let j = choose|j: int| 0 <= j < pair_keys(s).len() && pair_keys(s)[j] == k@;
                    lemma_key_lt_irreflexive(k@);
                }
            }
            lemma_pairs_map_insert(s, i as int, (k@, v));
            lemma_pairs_map_dom(s, k@);
        }
        self.entries.insert(i, (k, v));
        proof {
            let t = s.insert(i as int, (k@, v));
            assert(self.pairs() =~= t);
            assert(pair_keys(t) =~= pair_keys(s).insert(i as int, k@));
            assert forall|a: int, b: int| 0 <= a < b < pair_keys(t).len() implies key_lt(
                #[trigger] pair_keys(t)[a],
                #[trigger] pair_keys(t)[b],
            ) by {
                if b < i {
                } else if a < i && b == i {
                } else if a < i {
                    assert(pair_keys(t)[b] == pair_keys(s)[b - 1]);
                } else if a == i {
                    assert(pair_keys(t)[b] == pair_keys(s)[b - 1]);
                } else {
                    assert(pair_keys(t)[a] == pair_keys(s)[a - 1]);
                    assert(pair_keys(t)[b] == pair_keys(s)[b - 1]);
                }
            }
            assert(self.keys().to_set() =~= old(self).keys().to_set().insert(k@)) by {
                assert forall|x: Seq<char>| self.keys().to_set().contains(x) <==> old(self).keys().to_set().insert(k@).contains(x) by {
                    if self.keys().contains(x) {
                        let a = choose|a: int| 0 <= a < self.keys().len() && self.keys()[a] == x;
                        if a < i {
                            assert(old(self).keys()[a] == x);
                        } else if a > i {
                            assert(old(self).keys()[a - 1] == x);
                        }
                    }
                    if old(self).keys().contains(x) {
                        let a = choose|a: int| 0 <= a < old(self).keys().len() && old(self).keys()[a] == x;
                        if a < i {
                            assert(self.keys()[a] == x);
                        } else {
                            assert(self.keys()[a + 1] == x);
                        }
                    }
                    if x == k@ {
                        assert(self.keys()[i as int] == x);
                    }
                }
            }
        }
        None
    }

    /// Removes a key; returns the value it held.
    pub fn remove(&mut self, k: &str) -> (r: Option<V>)
        requires
            old(self).wf(),
        ensures
            final(self).wf(),
            final(self)@ == old(self)@.remove(k@),
            match r {
                Some(o) => old(self)@.dom().contains(k@) && o == old(self)@[k@],
                None => !old(self)@.dom().contains(k@) && final(self).keys() == old(self).keys(),
            },
            final(self).keys().to_set() == old(self).keys().to_set().remove(k@),
    {
        proof {
            old(self).lemma_view();
        }
        let ghost s = self.pairs();
        match self.index_of(k) {
            Some(i) => {
                proof {
                    lemma_pairs_map_remove(s, i as int);
                    lemma_pairs_map_index(s, i as int);
                }
                let e = self.entries.remove(i);
                proof {
                    assert(self.pairs() =~= s.remove(i as int));
                    assert forall|a: int, b: int| 0 <= a < b < self.keys().len() implies key_lt(
                        #[trigger] self.keys()[a],
                        #[trigger] self.keys()[b],
                    ) by {
                        let a2 = if a < i { a } else { a + 1 };
                        let b2 = if b < i { b } else { b + 1 };
                        assert(self.keys()[a] == old(self).keys()[a2]);
                        assert(self.keys()[b] == old(self).keys()[b2]);
                    }
                    assert(self.keys().to_set() =~= old(self).keys().to_set().remove(k@)) by {
                        lemma_sorted_distinct(old(self).keys());
                        assert forall|x: Seq<char>| self.keys().to_set().contains(x) <==> old(self).keys().to_set().remove(k@).contains(x) by {
                            if self.keys().contains(x) {
                                let a = choose|a: int| 0 <= a < self.keys().len() && self.keys()[a] == x;
                                let a2 = if a < i { a } else { a + 1 };
                                assert(old(self).keys()[a2] == x);
                            }
                            if old(self).keys().contains(x) && x != k@ {
                                let a = choose|a: int| 0 <= a < old(self).keys().len() && old(self).keys()[a] == x;
                                if a < i {
                                    assert(self.keys()[a] == x);
                                } else {
                                    assert(a != i);
                                    assert(self.keys()[a - 1] == x);
                                }
                            }
                        }
                    }
                }
                Some(e.1)
            },
            None => {
                proof {
                    assert(old(self)@.remove(k@) =~= old(self)@);
                    assert(old(self).keys().to_set().remove(k@) =~= old(self).keys().to_set());
                }
                None
            },
        }
    }

    /// The keys, in ascending order.
    pub fn key_list(&self) -> (r: Vec<String>)
        requires
            self.wf(),
        ensures
            r@.map_values(|s: String| s@) == self.keys(),
    {
        let mut r: Vec<String> = Vec::new();
        let mut i: usize = 0;
        while i < self.entries.len()
            invariant
                i <= self.entries@.len(),
                self.entries@.len() == self.keys().len(),
                r@.len() == i,
                forall|j: int| 0 <= j < i ==> #[trigger] r@[j]@ == self.keys()[j],
            decreases self.entries@.len() - i,
        {
            assert(self.keys()[i as int] == self.entries@[i as int].0@);
            r.push(self.entries[i].0.clone());
            i = i + 1;
        }
        assert(r@.map_values(|s: String| s@) =~= self.keys());
        r
    }
}

impl<V> StrMap<V> {
    /// The entries, in ascending key order.
    pub fn into_entries(self) -> (r: Vec<(String, V)>)
        ensures
            entries_pairs(r@) == self.pairs(),
    {
        self.entries
    }

    /// A copy of the map, values copied by `f`, which must give back an equal value.
    pub fn duplicate_with<F: Fn(&V) -> V>(&self, f: F) -> (r: Self)
        requires
            self.wf(),
            forall|v: &V| #[trigger] f.requires((v,)),
            forall|v: &V, w: V| f.ensures((v,), w) ==> w == *v,
        ensures
            r.wf(),
            r.pairs() == self.pairs(),
            r@ == self@,
            r.keys() == self.keys(),
    {
        let mut entries: Vec<(String, V)> = Vec::new();
        let mut i: usize = 0;
        while i < self.entries.len()
            invariant
                i <= self.entries@.len(),
                entries@.len() == i,
                forall|v: &V| #[trigger] f.requires((v,)),
                forall|v: &V, w: V| f.ensures((v,), w) ==> w == *v,
                forall|j: int| 0 <= j < i ==> (#[trigger] entries@[j]).0@ == self.entries@[j].0@ && entries@[j].1
                    == self.entries@[j].1,
            decreases self.entries@.len() - i,
        {
            let e = &self.entries[i];
            let v = f(&e.1);
            entries.push((e.0.clone(), v));
            i = i + 1;
        }
        let r = StrMap { entries };
        assert(r.pairs() =~= self.pairs());
        r
    }
}

/// Adds `v` to the set stored under `k` (creating the set if needed).
pub fn add_to_set_map(m: &mut StrMap<StrSet>, k: &str, v: String)
    requires
        old(m).wf(),
        forall|x: Seq<char>| #[trigger] old(m)@.dom().contains(x) ==> old(m)@[x].wf(),
    ensures
        final(m).wf(),
        forall|x: Seq<char>| #[trigger] final(m)@.dom().contains(x) ==> final(m)@[x].wf(),
        final(m)@.dom() == old(m)@.dom().insert(k@),
        forall|x: Seq<char>| #[trigger] final(m)@.dom().contains(x) && x != k@ ==> final(m)@[x] == old(m)@[x],
        final(m)@[k@]@.dom() == (if old(m)@.dom().contains(k@) { old(m)@[k@]@.dom() } else { Set::empty() }).insert(v@),
{
    let mut set = match m.remove(k) {
        Some(s) => s,
        None => StrSet::new(),
    };
    set.insert(v, ());
    let ks = k.to_owned();
    m.insert(ks, set);
    proof {
        assert(final(m)@.dom() =~= old(m)@.dom().insert(k@));
    }
}

} // verus!
