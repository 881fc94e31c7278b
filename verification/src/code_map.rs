//! A map keyed by currency code (or any string), kept in ascending key order.
use vstd::prelude::*;
use vstd::string::*;
use crate::text::{key_lt, lemma_key_lt_irreflexive, lemma_key_lt_total, lemma_key_lt_transitive, str_eq, str_lt};

verus! {

/// The keys of a sequence of entries, in order.
pub open spec fn key_seq<V>(s: Seq<(Seq<char>, V)>) -> Seq<Seq<char>> {
    s.map_values(|e: (Seq<char>, V)| e.0)
}

/// Whether `k` is the key of some entry of `s`.
pub open spec fn has_key<V>(s: Seq<(Seq<char>, V)>, k: Seq<char>) -> bool {
    exists|i: int| 0 <= i < s.len() && #[trigger] s[i].0 == k
}

/// Keys strictly ascending: each key occurs once, and in the order of `key_lt`.
pub open spec fn keys_sorted<V>(s: Seq<(Seq<char>, V)>) -> bool {
    forall|i: int, j: int| 0 <= i < j < s.len() ==> key_lt(#[trigger] s[i].0, #[trigger] s[j].0)
}

/// The map that a sequence of entries with distinct keys stands for.
pub open spec fn seq_to_map<V>(s: Seq<(Seq<char>, V)>) -> Map<Seq<char>, V> {
    Map::new(
        |k: Seq<char>| has_key(s, k),
        |k: Seq<char>| value_at_key(s, k),
    )
}

/// The value of an entry of `s` whose key is `k`.
pub open spec fn value_at_key<V>(s: Seq<(Seq<char>, V)>, k: Seq<char>) -> V {
    s[index_of_key(s, k)].1
}

/// A position of `s` whose key is `k`, when there is one.
pub open spec fn index_of_key<V>(s: Seq<(Seq<char>, V)>, k: Seq<char>) -> int {
    choose|i: int| 0 <= i < s.len() && #[trigger] s[i].0 == k
}

/// The entries of a vector of owned pairs, with each key taken by its characters.
pub open spec fn entry_views<V>(s: Seq<(String, V)>) -> Seq<(Seq<char>, V)> {
    s.map_values(|e: (String, V)| (e.0@, e.1))
}

/// In a sorted sequence, entries at distinct positions have distinct keys.
pub proof fn lemma_sorted_keys_distinct<V>(s: Seq<(Seq<char>, V)>, i: int, j: int)
    requires
        keys_sorted(s),
        0 <= i < s.len(),
        0 <= j < s.len(),
        i != j,
    ensures
        s[i].0 != s[j].0,
{
    if i < j {
        assert(key_lt(s[i].0, s[j].0));
        lemma_key_lt_irreflexive(s[i].0);
    } else {
        assert(key_lt(s[j].0, s[i].0));
        lemma_key_lt_irreflexive(s[j].0);
    }
}

/// Every entry of a sorted sequence is found in the map it stands for.
pub proof fn lemma_seq_to_map_index<V>(s: Seq<(Seq<char>, V)>, i: int)
    requires
        keys_sorted(s),
        0 <= i < s.len(),
    ensures
        seq_to_map(s).dom().contains(s[i].0),
        seq_to_map(s)[s[i].0] == s[i].1,
{
    let k = s[i].0;
    assert(has_key(s, k));
    let j = index_of_key(s, k);
    if j != i {
        lemma_sorted_keys_distinct(s, i, j);
    }
    assert(seq_to_map(s)[k] == value_at_key(s, k));
}

/// The domain of the map is the set of keys, finite and as large as the sequence.
pub proof fn lemma_seq_to_map_dom<V>(s: Seq<(Seq<char>, V)>)
    requires
        keys_sorted(s),
    ensures
        seq_to_map(s).dom() == key_seq(s).to_set(),
        seq_to_map(s).dom().finite(),
        seq_to_map(s).dom().len() == s.len(),
{
    assert forall|k: Seq<char>| seq_to_map(s).dom().contains(k) <==> key_seq(s).to_set().contains(
        k,
    ) by {
        if has_key(s, k) {
            let i = choose|i: int| 0 <= i < s.len() && #[trigger] s[i].0 == k;
            assert(key_seq(s)[i] == k);
        }
        if key_seq(s).contains(k) {
            let i = choose|i: int| 0 <= i < key_seq(s).len() && key_seq(s)[i] == k;
            assert(s[i].0 == k);
        }
    }
    assert(seq_to_map(s).dom() =~= key_seq(s).to_set());
    assert forall|i: int, j: int|
        0 <= i < key_seq(s).len() && 0 <= j < key_seq(s).len() && i != j implies key_seq(s)[i]
        != key_seq(s)[j] by {
        lemma_sorted_keys_distinct(s, i, j);
    }
    assert(key_seq(s).no_duplicates());
    key_seq(s).unique_seq_to_set();
}

/// Inserting an entry whose key is new at a position that keeps the keys sorted
/// adds that key to the map.
proof fn lemma_seq_to_map_insert<V>(s: Seq<(Seq<char>, V)>, p: int, k: Seq<char>, v: V)
    requires
        keys_sorted(s),
        keys_sorted(s.insert(p, (k, v))),
        0 <= p <= s.len(),
    ensures
        seq_to_map(s.insert(p, (k, v))) == seq_to_map(s).insert(k, v),
{
    let t = s.insert(p, (k, v));
    assert forall|key: Seq<char>| #[trigger]
        seq_to_map(t).dom().contains(key) <==> seq_to_map(s).insert(k, v).dom().contains(key) by {
        if has_key(t, key) {
            let i = choose|i: int| 0 <= i < t.len() && #[trigger] t[i].0 == key;
            if i < p {
                assert(s[i].0 == key);
            } else if i > p {
                assert(s[i - 1].0 == key);
            }
        }
        if has_key(s, key) {
            let i = choose|i: int| 0 <= i < s.len() && #[trigger] s[i].0 == key;
            if i < p {
                assert(t[i].0 == key);
            } else {
                assert(t[i + 1].0 == key);
            }
        }
        if key == k {
            assert(t[p].0 == key);
        }
    }
    assert forall|key: Seq<char>| #[trigger] seq_to_map(t).dom().contains(key) implies seq_to_map(
        t,
    )[key] == seq_to_map(s).insert(k, v)[key] by {
        let i = choose|i: int| 0 <= i < t.len() && #[trigger] t[i].0 == key;
        lemma_seq_to_map_index(t, i);
        if i < p {
            lemma_seq_to_map_index(s, i);
            lemma_sorted_keys_distinct(t, i, p);
        } else if i > p {
            lemma_seq_to_map_index(s, i - 1);
            lemma_sorted_keys_distinct(t, i, p);
        }
    }
    assert(seq_to_map(t) =~= seq_to_map(s).insert(k, v));
}

/// Replacing the value of an existing entry replaces it in the map.
proof fn lemma_seq_to_map_update<V>(s: Seq<(Seq<char>, V)>, p: int, v: V)
    requires
        keys_sorted(s),
        0 <= p < s.len(),
    ensures
        keys_sorted(s.update(p, (s[p].0, v))),
        seq_to_map(s.update(p, (s[p].0, v))) == seq_to_map(s).insert(s[p].0, v),
{
    let k = s[p].0;
    let t = s.update(p, (k, v));
    assert forall|i: int, j: int| 0 <= i < j < t.len() implies key_lt(
        #[trigger] t[i].0,
        #[trigger] t[j].0,
    ) by {
        assert(key_lt(s[i].0, s[j].0));
    }
    assert forall|key: Seq<char>| #[trigger]
        seq_to_map(t).dom().contains(key) <==> seq_to_map(s).insert(k, v).dom().contains(key) by {
        if has_key(t, key) {
            let i = choose|i: int| 0 <= i < t.len() && #[trigger] t[i].0 == key;
            assert(s[i].0 == key);
        }
        if has_key(s, key) {
            let i = choose|i: int| 0 <= i < s.len() && #[trigger] s[i].0 == key;
            assert(t[i].0 == key);
        }
    }
    assert forall|key: Seq<char>| #[trigger] seq_to_map(t).dom().contains(key) implies seq_to_map(
        t,
    )[key] == seq_to_map(s).insert(k, v)[key] by {
        let i = choose|i: int| 0 <= i < t.len() && #[trigger] t[i].0 == key;
        lemma_seq_to_map_index(t, i);
        if i != p {
            lemma_seq_to_map_index(s, i);
            lemma_sorted_keys_distinct(t, i, p);
        }
    }
    assert(seq_to_map(t) =~= seq_to_map(s).insert(k, v));
}

/// The entries of a sorted sequence, taken one at a time from the front,
/// build up the map by successive inserts.
pub proof fn lemma_seq_to_map_take<V>(s: Seq<(Seq<char>, V)>, i: int)
    requires
        keys_sorted(s),
        0 <= i < s.len(),
    ensures
        keys_sorted(s.take(i)),
        keys_sorted(s.take(i + 1)),
        seq_to_map(s.take(i + 1)) == seq_to_map(s.take(i)).insert(s[i].0, s[i].1),
{
    let a = s.take(i);
    let b = s.take(i + 1);
    assert forall|x: int, y: int| 0 <= x < y < a.len() implies key_lt(
        #[trigger] a[x].0,
        #[trigger] a[y].0,
    ) by {
        assert(key_lt(s[x].0, s[y].0));
    }
    assert forall|x: int, y: int| 0 <= x < y < b.len() implies key_lt(
        #[trigger] b[x].0,
        #[trigger] b[y].0,
    ) by {
        assert(key_lt(s[x].0, s[y].0));
    }
    assert(b =~= a.insert(i, s[i]));
    lemma_seq_to_map_insert(a, i, s[i].0, s[i].1);
}

/// The whole of a sequence is its longest prefix.
pub proof fn lemma_seq_to_map_take_all<V>(s: Seq<(Seq<char>, V)>)
    ensures
        seq_to_map(s.take(s.len() as int)) == seq_to_map(s),
        seq_to_map(s.take(0)) == Map::<Seq<char>, V>::empty(),
{
    assert(s.take(s.len() as int) =~= s);
    assert(seq_to_map(s.take(0)) =~= Map::<Seq<char>, V>::empty());
}

/// A map from string keys to values, held as entries in ascending key order,
/// so that each key occurs once and iteration visits keys alphabetically.
pub struct CodeMap<V> {
    entries: Vec<(String, V)>,
}

/// Whether `k` is, among the keys of `m` that `f` sends to `target`, the last in key order.
pub open spec fn is_last_key_to<V>(
    m: Map<Seq<char>, V>,
    f: spec_fn(Seq<char>, V) -> Seq<char>,
    target: Seq<char>,
    k: Seq<char>,
) -> bool {
    &&& m.dom().contains(k)
    &&& f(k, m[k]) == target
    &&& forall|o: Seq<char>| #[trigger]
        m.dom().contains(o) && f(o, m[o]) == target ==> !key_lt(k, o)
}

/// The last key of `m`, in key order, that `f` sends to `target`.
pub open spec fn last_key_to<V>(
    m: Map<Seq<char>, V>,
    f: spec_fn(Seq<char>, V) -> Seq<char>,
    target: Seq<char>,
) -> Seq<char> {
    choose|k: Seq<char>| is_last_key_to(m, f, target, k)
}

/// `m` with every entry (k, v) moved to the key `f(k, v)` and given the value
/// `h(k, v)`; where several entries land on one key, the one of them with the last
/// key in key order wins, as when inserting them one by one in key order.
pub open spec fn rekeyed<V, W>(
    m: Map<Seq<char>, V>,
    f: spec_fn(Seq<char>, V) -> Seq<char>,
    h: spec_fn(Seq<char>, V) -> W,
) -> Map<Seq<char>, W> {
    Map::new(
        |t: Seq<char>| exists|k: Seq<char>| #[trigger] m.dom().contains(k) && f(k, m[k]) == t,
        |t: Seq<char>| h(last_key_to(m, f, t), m[last_key_to(m, f, t)]),
    )
}

/// Inserting the entries of `s` in order, each under `f(k, v)` with value `h(k, v)`.
pub open spec fn rekey_fold<V, W>(
    s: Seq<(Seq<char>, V)>,
    f: spec_fn(Seq<char>, V) -> Seq<char>,
    h: spec_fn(Seq<char>, V) -> W,
) -> Map<Seq<char>, W>
    decreases s.len(),
{
    if s.len() == 0 {
        Map::empty()
    } else {
        rekey_fold(s.drop_last(), f, h).insert(f(s.last().0, s.last().1), h(s.last().0, s.last().1))
    }
}

/// There is only one last key that `f` sends to a target.
pub proof fn lemma_last_key_unique<V>(
    m: Map<Seq<char>, V>,
    f: spec_fn(Seq<char>, V) -> Seq<char>,
    target: Seq<char>,
    k1: Seq<char>,
    k2: Seq<char>,
)
    requires
        is_last_key_to(m, f, target, k1),
        is_last_key_to(m, f, target, k2),
    ensures
        k1 == k2,
{
    assert(m.dom().contains(k2) && f(k2, m[k2]) == target);
    assert(m.dom().contains(k1) && f(k1, m[k1]) == target);
    lemma_key_lt_total(k1, k2);
}

/// Inserting the entries of a sorted sequence one by one, rekeyed, gives the
/// rekeyed map of the map the sequence stands for.
pub proof fn lemma_rekey_fold<V, W>(
    s: Seq<(Seq<char>, V)>,
    f: spec_fn(Seq<char>, V) -> Seq<char>,
    h: spec_fn(Seq<char>, V) -> W,
)
    requires
        keys_sorted(s),
    ensures
        rekey_fold(s, f, h) == rekeyed(seq_to_map(s), f, h),
        forall|x: Seq<char>| #[trigger]
            rekeyed(seq_to_map(s), f, h).dom().contains(x) ==> is_last_key_to(
                seq_to_map(s),
                f,
                x,
                last_key_to(seq_to_map(s), f, x),
            ),
    decreases s.len(),
{
    if s.len() == 0 {
        assert(rekeyed(seq_to_map(s), f, h) =~= Map::<Seq<char>, W>::empty());
    } else {
        let n = s.len() - 1;
        let t = s.drop_last();
        let e = s[n];
        lemma_seq_to_map_take(s, n);
        assert(s.take(n) =~= t);
        assert(s.take(n + 1) =~= s);
        lemma_rekey_fold(t, f, h);
        let mt = seq_to_map(t);
        let ms = seq_to_map(s);
        assert(ms == mt.insert(e.0, e.1));
        // Every key of `t` comes before the last key.
        assert forall|o: Seq<char>| #[trigger] mt.dom().contains(o) implies key_lt(o, e.0) by {
            let i = choose|i: int| 0 <= i < t.len() && #[trigger] t[i].0 == o;
            assert(key_lt(s[i].0, s[n].0));
        }
        lemma_key_lt_irreflexive(e.0);
        let te = f(e.0, e.1);
        assert(is_last_key_to(ms, f, te, e.0)) by {
            assert forall|o: Seq<char>| #[trigger]
                ms.dom().contains(o) && f(o, ms[o]) == te implies !key_lt(e.0, o) by {
                if o != e.0 {
                    lemma_key_lt_total(o, e.0);
                }
            }
        }
        let lhs = rekey_fold(s, f, h);
        let rhs = rekeyed(ms, f, h);
        assert forall|x: Seq<char>| #[trigger] lhs.dom().contains(x) <==> rhs.dom().contains(x) by {
            if x == te {
                assert(ms.dom().contains(e.0) && f(e.0, ms[e.0]) == x);
            } else {
                if rekeyed(mt, f, h).dom().contains(x) {
                    let k = choose|k: Seq<char>| #[trigger] mt.dom().contains(k) && f(k, mt[k]) == x;
                    assert(ms.dom().contains(k) && f(k, ms[k]) == x);
                }
                if rhs.dom().contains(x) {
                    let k = choose|k: Seq<char>| #[trigger] ms.dom().contains(k) && f(k, ms[k]) == x;
                    assert(k != e.0);
                    assert(mt.dom().contains(k) && f(k, mt[k]) == x);
                }
            }
        }
        assert forall|x: Seq<char>| #[trigger] lhs.dom().contains(x) implies lhs[x] == rhs[x]
            && is_last_key_to(ms, f, x, last_key_to(ms, f, x)) by {
            if x == te {
                let k = last_key_to(ms, f, x);
                lemma_last_key_unique(ms, f, x, k, e.0);
            } else {
                let kt = last_key_to(mt, f, x);
                let k = choose|k: Seq<char>| #[trigger] mt.dom().contains(k) && f(k, mt[k]) == x;
                assert(rekeyed(mt, f, h).dom().contains(x));
                assert(is_last_key_to(ms, f, x, kt)) by {
                    assert(is_last_key_to(mt, f, x, kt));
                    assert forall|o: Seq<char>| #[trigger]
                        ms.dom().contains(o) && f(o, ms[o]) == x implies !key_lt(kt, o) by {
                        if o != e.0 {
                            assert(mt.dom().contains(o) && f(o, mt[o]) == x);
                        }
                    }
                }
                let ks = last_key_to(ms, f, x);
                lemma_last_key_unique(ms, f, x, ks, kt);
            }
        }
        assert(lhs =~= rhs);
    }
}

/// Two sorted sequences that stand for the same map are the same sequence: the
/// entries of a well-formed map are determined by its view.
pub proof fn lemma_sorted_determined<V>(s1: Seq<(Seq<char>, V)>, s2: Seq<(Seq<char>, V)>)
    requires
        keys_sorted(s1),
        keys_sorted(s2),
        seq_to_map(s1) == seq_to_map(s2),
    ensures
        s1 == s2,
{
    lemma_seq_to_map_dom(s1);
    lemma_seq_to_map_dom(s2);
    assert(s1.len() == s2.len());
    assert forall|i: int| 0 <= i < s1.len() implies s1[i] == s2[i] by {
        lemma_sorted_same_key(s1, s2, i);
        lemma_seq_to_map_index(s1, i);
        lemma_seq_to_map_index(s2, i);
    }
    assert(s1 =~= s2);
}

proof fn lemma_sorted_same_key<V>(s1: Seq<(Seq<char>, V)>, s2: Seq<(Seq<char>, V)>, i: int)
    requires
        keys_sorted(s1),
        keys_sorted(s2),
        seq_to_map(s1) == seq_to_map(s2),
        s1.len() == s2.len(),
        0 <= i < s1.len(),
    ensures
        s1[i].0 == s2[i].0,
    decreases i,
{
    if s1[i].0 != s2[i].0 {
        assert forall|j: int| 0 <= j < i implies s1[j].0 == s2[j].0 by {
            lemma_sorted_same_key(s1, s2, j);
        }
        lemma_key_lt_total(s1[i].0, s2[i].0);
        lemma_seq_to_map_index(s1, i);
        lemma_seq_to_map_index(s2, i);
        if key_lt(s1[i].0, s2[i].0) {
            // s1[i] is a key of s2, at some position j.
            let j = choose|j: int| 0 <= j < s2.len() && #[trigger] s2[j].0 == s1[i].0;
            if j < i {
                lemma_sorted_keys_distinct(s1, i, j);
            } else if j > i {
                assert(key_lt(s2[i].0, s2[j].0));
                lemma_key_lt_total(s1[i].0, s2[i].0);
            }
        } else {
            let j = choose|j: int| 0 <= j < s1.len() && #[trigger] s1[j].0 == s2[i].0;
            if j < i {
                lemma_sorted_keys_distinct(s2, i, j);
            } else if j > i {
                assert(key_lt(s1[i].0, s1[j].0));
                lemma_key_lt_total(s1[i].0, s2[i].0);
            }
        }
    }
}

/// Map of currency code -> rate relative to a base currency.
pub type RateMap<V> = CodeMap<V>;

/// Map of currency code (lowercase) -> human-readable name.
pub type CurrencyList = CodeMap<String>;

impl<V> View for CodeMap<V> {
    type V = Map<Seq<char>, V>;

    open spec fn view(&self) -> Map<Seq<char>, V> {
        seq_to_map(self.entry_seq())
    }
}

impl<V> CodeMap<V> {
    /// The entries, in ascending key order.
    pub closed spec fn entry_seq(&self) -> Seq<(Seq<char>, V)> {
        entry_views(self.entries@)
    }

    /// The keys, in ascending order.
    pub open spec fn key_list(&self) -> Seq<Seq<char>> {
        key_seq(self.entry_seq())
    }

    /// Well-formedness: the entries are sorted by key, without repeated keys.
    pub open spec fn wf(&self) -> bool {
        keys_sorted(self.entry_seq())
    }

    /// Two well-formed maps with the same view hold the same entries in the same order.
    pub proof fn lemma_view_determines_entries(&self, other: &Self)
        requires
            self.wf(),
            other.wf(),
            self@ == other@,
        ensures
            self.entry_seq() == other.entry_seq(),
    {
        lemma_sorted_determined(self.entry_seq(), other.entry_seq());
    }

    /// Facts about the view of a well-formed map.
    pub proof fn lemma_view(&self)
        requires
            self.wf(),
        ensures
            self@.dom() == self.key_list().to_set(),
            self@.dom().finite(),
            self@.dom().len() == self.entry_seq().len(),
            forall|i: int|
                0 <= i < self.entry_seq().len() ==> #[trigger] self@.dom().contains(
                    self.entry_seq()[i].0,
                ) && self@[self.entry_seq()[i].0] == self.entry_seq()[i].1,
            forall|k: Seq<char>| #[trigger]
                self@.dom().contains(k) ==> has_key(self.entry_seq(), k),
    {
        lemma_seq_to_map_dom(self.entry_seq());
        assert forall|i: int| 0 <= i < self.entry_seq().len() implies #[trigger] self@.dom().contains(
            self.entry_seq()[i].0,
        ) && self@[self.entry_seq()[i].0] == self.entry_seq()[i].1 by {
            lemma_seq_to_map_index(self.entry_seq(), i);
        }
    }

    /// An empty map.
    pub fn new() -> (m: Self)
        ensures
            m.wf(),
            m@ == Map::<Seq<char>, V>::empty(),
            m.entry_seq() == Seq::<(Seq<char>, V)>::empty(),
    {
        let m = CodeMap { entries: Vec::new() };
        assert(m.entry_seq() =~= Seq::<(Seq<char>, V)>::empty());
        assert(m@ =~= Map::<Seq<char>, V>::empty());
        m
    }

    /// The number of entries.
    pub fn len(&self) -> (n: usize)
        requires
            self.wf(),
        ensures
            n == self.entry_seq().len(),
            n == self@.dom().len(),
    {
        proof {
            self.lemma_view();
        }
        self.entries.len()
    }

    /// Whether the map has no entries.
    pub fn is_empty(&self) -> (b: bool)
        requires
            self.wf(),
        ensures
            b == (self@ == Map::<Seq<char>, V>::empty()),
            b == (self.entry_seq().len() == 0),
    {
        proof {
            self.lemma_view();
            if self.entry_seq().len() == 0 {
                assert(self@ =~= Map::<Seq<char>, V>::empty());
            } else {
                assert(self@.dom().contains(self.entry_seq()[0].0));
            }
        }
        self.entries.len() == 0
    }

    /// The position of `key` among the entries, if it is there.
    fn find(&self, key: &str) -> (r: Option<usize>)
        requires
            self.wf(),
        ensures
            match r {
                Some(i) => i < self.entry_seq().len() && self.entry_seq()[i as int].0 == key@,
                None => !has_key(self.entry_seq(), key@),
            },
    {
        let n = self.entries.len();
        let mut i: usize = 0;
        while i < n
            invariant
                n == self.entries@.len(),
                n == self.entry_seq().len(),
                i <= n,
                forall|j: int| 0 <= j < i ==> self.entry_seq()[j].0 != key@,
            decreases n - i,
        {
            if str_eq(self.entries[i].0.as_str(), key) {
                return Some(i);
            }
            i = i + 1;
        }
        None
    }

    /// Whether `key` has an entry.
    pub fn contains_key(&self, key: &str) -> (b: bool)
        requires
            self.wf(),
        ensures
            b == self@.dom().contains(key@),
    {
        self.find(key).is_some()
    }

    /// The value stored under `key`, if any.
    pub fn get(&self, key: &str) -> (r: Option<&V>)
        requires
            self.wf(),
        ensures
            match r {
                Some(v) => self@.dom().contains(key@) && *v == self@[key@],
                None => !self@.dom().contains(key@),
            },
    {
        match self.find(key) {
            Some(i) => {
                proof {
                    lemma_seq_to_map_index(self.entry_seq(), i as int);
                }
                Some(&self.entries[i].1)
            },
            None => None,
        }
    }

    /// Stores `value` under `key`, replacing any value there before.
    pub fn insert(&mut self, key: String, value: V)
        requires
            old(self).wf(),
        ensures
            final(self).wf(),
            final(self)@ == old(self)@.insert(key@, value),
    {
        let ghost s = self.entry_seq();
        let n = self.entries.len();
        if n == 0 || str_lt(self.entries[n - 1].0.as_str(), key.as_str()) {
            let ghost k = key@;
            self.entries.push((key, value));
            proof {
                let t = s.insert(n as int, (k, value));
                assert(self.entry_seq() =~= t);
                assert forall|i: int, j: int| 0 <= i < j < t.len() implies key_lt(
                    #[trigger] t[i].0,
                    #[trigger] t[j].0,
                ) by {
                    if j == n && i < n - 1 {
                        lemma_key_lt_transitive(s[i].0, s[n - 1].0, k);
                    }
                }
                lemma_seq_to_map_insert(s, n as int, k, value);
            }
            return ;
        }
        let mut p: usize = 0;
        while p < n && str_lt(self.entries[p].0.as_str(), key.as_str())
            invariant
                n == self.entries@.len(),
                s == self.entry_seq(),
                keys_sorted(s),
                n > 0,
                !key_lt(s[n - 1].0, key@),
                p <= n,
                forall|j: int| 0 <= j < p ==> key_lt(s[j].0, key@),
            decreases n - p,
        {
            p = p + 1;
        }
        assert(p < n);
        if str_eq(self.entries[p].0.as_str(), key.as_str()) {
            let ghost k = key@;
            self.entries.set(p, (key, value));
            proof {
                lemma_seq_to_map_update(s, p as int, value);
                assert(self.entry_seq() =~= s.update(p as int, (s[p as int].0, value)));
            }
        } else {
            let ghost k = key@;
            self.entries.insert(p, (key, value));
            proof {
                let t = s.insert(p as int, (k, value));
                assert(self.entry_seq() =~= t);
                lemma_key_lt_total(s[p as int].0, k);
                assert forall|i: int, j: int| 0 <= i < j < t.len() implies key_lt(
                    #[trigger] t[i].0,
                    #[trigger] t[j].0,
                ) by {
                    if i < p && j < p {
                    } else if i < p && j == p {
                    } else if i < p && j > p {
                        assert(key_lt(s[i].0, s[j - 1].0));
                    } else if i == p {
                        if j - 1 > p {
                            lemma_key_lt_transitive(k, s[p as int].0, s[j - 1].0);
                        }
                    } else {
                        assert(key_lt(s[i - 1].0, s[j - 1].0));
                    }
                }
                lemma_seq_to_map_insert(s, p as int, k, value);
            }
        }
    }

    /// The entries in ascending key order.
    pub fn entries(&self) -> (r: &Vec<(String, V)>)
        ensures
            entry_views(r@) == self.entry_seq(),
    {
        &self.entries
    }

    /// The entries in ascending key order, taking the map apart.
    pub fn into_entries(self) -> (r: Vec<(String, V)>)
        ensures
            entry_views(r@) == self.entry_seq(),
    {
        self.entries
    }
}

} // verus!
