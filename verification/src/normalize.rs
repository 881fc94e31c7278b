//! Merging EUR-based rate sources and deriving cross rates between currencies.
use vstd::prelude::*;
use crate::code_map::{CodeMap, entry_views, keys_sorted, seq_to_map, lemma_seq_to_map_take, lemma_seq_to_map_take_all};

verus! {

/// Merging loses no code and makes none up; a code that crypto prices takes the
/// crypto rate, any other code keeps its fiat rate.
pub proof fn law_merge_codes<V>(fiat: Map<Seq<char>, V>, crypto: Map<Seq<char>, V>)
    ensures
        fiat.union_prefer_right(crypto).dom() == fiat.dom().union(crypto.dom()),
        forall|k: Seq<char>| #[trigger]
            crypto.dom().contains(k) ==> fiat.union_prefer_right(crypto)[k] == crypto[k],
        forall|k: Seq<char>|
            fiat.dom().contains(k) && !crypto.dom().contains(k) ==> #[trigger] fiat.union_prefer_right(
                crypto,
            )[k] == fiat[k],
{
    assert(fiat.union_prefer_right(crypto).dom() =~= fiat.dom().union(crypto.dom()));
}

/// Merges fiat and crypto EUR-based rates into one map.
/// Crypto values override fiat if there is a key collision.
pub fn merge_rates<V>(fiat: CodeMap<V>, crypto: CodeMap<V>) -> (merged: CodeMap<V>)
    requires
        fiat.wf(),
        crypto.wf(),
    ensures
        merged.wf(),
        merged@ == fiat@.union_prefer_right(crypto@),
{
    let ghost f = fiat@;
    let ghost c = crypto.entry_seq();
    let mut merged = fiat;
    let entries = crypto.into_entries();
    proof {
        lemma_seq_to_map_take_all(c);
        assert(merged@ =~= f.union_prefer_right(seq_to_map(c.take(0))));
    }
    for e in it: entries.into_iter()
        invariant
            merged.wf(),
            keys_sorted(c),
            entry_views(it.seq()) == c,
            merged@ == f.union_prefer_right(seq_to_map(c.take(it.index() as int))),
    {
        let ghost i = it.index() as int;
        proof {
            lemma_seq_to_map_take(c, i);
        }
        let (k, v) = e;
        merged.insert(k, v);
        assert(merged@ =~= f.union_prefer_right(seq_to_map(c.take(i + 1))));
    }
    proof {
        lemma_seq_to_map_take_all(c);
    }
    merged
}

/// The characters of each string of `s`, in order.
pub open spec fn string_views(s: Seq<String>) -> Seq<Seq<char>> {
    s.map_values(|x: String| x@)
}

/// What a sequence with one more element contains.
pub proof fn lemma_push_contains<A>(s: Seq<A>, x: A)
    ensures
        forall|c: A| #[trigger] s.push(x).contains(c) <==> (s.contains(c) || c == x),
{
    assert forall|c: A| #[trigger] s.push(x).contains(c) <==> (s.contains(c) || c == x) by {
        if c == x {
            assert(s.push(x)[s.len() as int] == c);
        }
        if s.contains(c) {
            let k = choose|k: int| 0 <= k < s.len() && s[k] == c;
            assert(s.push(x)[k] == c);
        }
        if s.push(x).contains(c) && c != x {
            let k = choose|k: int| 0 <= k < s.push(x).len() && s.push(x)[k] == c;
            assert(s[k] == c);
        }
    }
}

/// Whether `f` may be called on every argument.
pub open spec fn total1<V, R, F: Fn(V) -> R>(f: F) -> bool {
    forall|x: V| call_requires(f, (x,))
}

/// Whether `f` may be called on every pair of arguments.
pub open spec fn total2<V, R, F: Fn(V, V) -> R>(f: F) -> bool {
    forall|x: V, y: V| call_requires(f, (x, y))
}

/// The codes listed in `supported` that have an EUR rate: the targets of every cross-rate row.
pub open spec fn cross_targets<V>(eur: Map<Seq<char>, V>, supported: Seq<Seq<char>>) -> Set<Seq<char>> {
    Set::new(|c: Seq<char>| supported.contains(c) && eur.dom().contains(c))
}

/// Whether `bases` is the set of codes that get a cross-rate row: every base is
/// listed in `supported` and has an EUR rate on which `is_zero` answers `false`;
/// and every listed code with an EUR rate on which `is_zero` cannot answer `true`
/// is a base.
pub open spec fn valid_bases<V, Z: Fn(V) -> bool>(
    eur: Map<Seq<char>, V>,
    supported: Seq<Seq<char>>,
    is_zero: Z,
    bases: Set<Seq<char>>,
) -> bool {
    &&& bases.subset_of(cross_targets(eur, supported))
    &&& forall|c: Seq<char>| #[trigger]
        bases.contains(c) ==> call_ensures(is_zero, (eur[c],), false)
    &&& forall|c: Seq<char>|
        cross_targets(eur, supported).contains(c) && !call_ensures(is_zero, (eur[c],), true)
            ==> #[trigger] bases.contains(c)
}

/// `row` holds, for every target, the rate of `base` in that target:
/// `divide` applied to the target's EUR rate and the base's EUR rate.
pub open spec fn is_cross_row<V, D: Fn(V, V) -> V>(
    eur: Map<Seq<char>, V>,
    supported: Seq<Seq<char>>,
    base: Seq<char>,
    row: Map<Seq<char>, V>,
    divide: D,
) -> bool {
    &&& row.dom() == cross_targets(eur, supported)
    &&& forall|t: Seq<char>| #[trigger]
        row.dom().contains(t) ==> call_ensures(divide, (eur[t], eur[base]), row[t])
}

/// The row of cross rates of one base: every code of `supported` that has an
/// EUR rate, mapped to `divide(rate of that code, base_rate)`.
fn cross_row<V: Copy, D: Fn(V, V) -> V>(
    eur_rates: &CodeMap<V>,
    supported: &[String],
    base_rate: V,
    divide: &D,
) -> (row: CodeMap<V>)
    requires
        eur_rates.wf(),
        total2(*divide),
    ensures
        row.wf(),
        row@.dom() == cross_targets(eur_rates@, string_views(supported@)),
        forall|t: Seq<char>| #[trigger]
            row@.dom().contains(t) ==> call_ensures(*divide, (eur_rates@[t], base_rate), row@[t]),
{
    let ghost sup = string_views(supported@);
    let mut row = CodeMap::new();
    let n = supported.len();
    let mut j: usize = 0;
    while j < n
        invariant
            n == supported@.len(),
            sup == string_views(supported@),
            eur_rates.wf(),
            total2(*divide),
            j <= n,
            row.wf(),
            row@.dom() == cross_targets(eur_rates@, sup.take(j as int)),
            forall|t: Seq<char>| #[trigger]
                row@.dom().contains(t) ==> call_ensures(*divide, (eur_rates@[t], base_rate), row@[t]),
        decreases n - j,
    {
        let target = &supported[j];
        let ghost before = row@;
        match eur_rates.get(target) {
            Some(r) => {
                let rate = divide(*r, base_rate);
                row.insert(target.clone(), rate);
            },
            None => {},
        }
        proof {
            assert(sup.take(j + 1) =~= sup.take(j as int).push(target@));
            lemma_push_contains(sup.take(j as int), target@);
            assert(row@.dom() =~= cross_targets(eur_rates@, sup.take(j + 1)));
        }
        j = j + 1;
    }
    assert(sup.take(n as int) =~= sup);
    row
}

/// Every row of cross rates has the same targets, and every base currency is
/// itself one of them: the cross rates form a full table over the bases, each
/// base's row holding a rate for every other base and for itself.
pub proof fn law_rows_share_targets<V, Z: Fn(V) -> bool, D: Fn(V, V) -> V>(
    eur: Map<Seq<char>, V>,
    supported: Seq<Seq<char>>,
    is_zero: Z,
    divide: D,
    bases: Set<Seq<char>>,
    b1: Seq<char>,
    row1: Map<Seq<char>, V>,
    b2: Seq<char>,
    row2: Map<Seq<char>, V>,
)
    requires
        valid_bases(eur, supported, is_zero, bases),
        bases.contains(b1),
        bases.contains(b2),
        is_cross_row(eur, supported, b1, row1, divide),
        is_cross_row(eur, supported, b2, row2, divide),
    ensures
        row1.dom() == row2.dom(),
        row1.dom().contains(b1),
        row1.dom().contains(b2),
        bases.subset_of(row1.dom()),
{
}

/// What the cross rates are, in terms of the inputs alone: every base is a listed
/// code with an EUR rate that the zero test answered `false` for; every listed code
/// with an EUR rate that the zero test cannot call zero is a base, whatever the code;
/// and each base's row holds exactly the listed codes with an EUR rate, each at
/// `divide(rate of the code, rate of the base)`.
pub proof fn law_cross_rates<V, Z: Fn(V) -> bool, D: Fn(V, V) -> V>(
    eur: Map<Seq<char>, V>,
    supported: Seq<Seq<char>>,
    is_zero: Z,
    divide: D,
    all: Map<Seq<char>, Map<Seq<char>, V>>,
    c: Seq<char>,
    b: Seq<char>,
)
    requires
        valid_bases(eur, supported, is_zero, all.dom()),
        forall|x: Seq<char>| #[trigger]
            all.dom().contains(x) ==> is_cross_row(eur, supported, x, all[x], divide),
    ensures
        all.dom().contains(c) ==> supported.contains(c) && eur.dom().contains(c) && call_ensures(
            is_zero,
            (eur[c],),
            false,
        ),
        supported.contains(c) && eur.dom().contains(c) && !call_ensures(is_zero, (eur[c],), true)
            ==> all.dom().contains(c),
        all.dom().contains(b) ==> (all[b].dom().contains(c) <==> supported.contains(c)
            && eur.dom().contains(c)),
        all.dom().contains(b) && all[b].dom().contains(c) ==> call_ensures(
            divide,
            (eur[c], eur[b]),
            all[b][c],
        ),
{
    if all.dom().contains(c) {
        assert(cross_targets(eur, supported).contains(c));
    }
}

/// Whether `f` gives one answer for each argument.
pub open spec fn deterministic1<V, R, F: Fn(V) -> R>(f: F) -> bool {
    forall|x: V, a: R, b: R| call_ensures(f, (x,), a) && call_ensures(f, (x,), b) ==> a == b
}

/// Whether `f` gives one answer for each pair of arguments.
pub open spec fn deterministic2<V, R, F: Fn(V, V) -> R>(f: F) -> bool {
    forall|x: V, y: V, a: R, b: R|
        call_ensures(f, (x, y), a) && call_ensures(f, (x, y), b) ==> a == b
}

/// With a zero test and a division that give one answer for each argument (as the
/// floating-point ones do), the cross rates depend on the set of supported codes
/// only: not on their order, nor on repetitions.
pub proof fn law_cross_rates_order_free<V, Z: Fn(V) -> bool, D: Fn(V, V) -> V>(
    eur: Map<Seq<char>, V>,
    supported1: Seq<Seq<char>>,
    supported2: Seq<Seq<char>>,
    is_zero: Z,
    divide: D,
    all1: Map<Seq<char>, Map<Seq<char>, V>>,
    all2: Map<Seq<char>, Map<Seq<char>, V>>,
)
    requires
        forall|c: Seq<char>| supported1.contains(c) <==> supported2.contains(c),
        deterministic1(is_zero),
        deterministic2(divide),
        valid_bases(eur, supported1, is_zero, all1.dom()),
        valid_bases(eur, supported2, is_zero, all2.dom()),
        forall|b: Seq<char>| #[trigger]
            all1.dom().contains(b) ==> is_cross_row(eur, supported1, b, all1[b], divide),
        forall|b: Seq<char>| #[trigger]
            all2.dom().contains(b) ==> is_cross_row(eur, supported2, b, all2[b], divide),
    ensures
        all1 == all2,
{
    assert(cross_targets(eur, supported1) =~= cross_targets(eur, supported2));
    assert forall|b: Seq<char>| all1.dom().contains(b) <==> all2.dom().contains(b) by {
        if all1.dom().contains(b) {
            assert(call_ensures(is_zero, (eur[b],), false));
            assert(!call_ensures(is_zero, (eur[b],), true));
            assert(cross_targets(eur, supported2).contains(b));
        }
        if all2.dom().contains(b) {
            assert(call_ensures(is_zero, (eur[b],), false));
            assert(!call_ensures(is_zero, (eur[b],), true));
            assert(cross_targets(eur, supported1).contains(b));
        }
    }
    assert forall|b: Seq<char>| #[trigger] all1.dom().contains(b) implies all1[b] == all2[b] by {
        assert(all2.dom().contains(b));
        assert forall|t: Seq<char>| #[trigger] all1[b].dom().contains(t) implies all1[b][t]
            == all2[b][t] by {
            assert(all2[b].dom().contains(t));
        }
        assert(all1[b] =~= all2[b]);
    }
    assert(all1 =~= all2);
}

/// Computes cross rates for every currency in `supported` from the EUR-based map.
///
/// Formula: rate(C -> X) = divide(eur_rates[X], eur_rates[C])
///
/// Returns: code -> { target_code -> rate }.
/// Only currencies present in both `eur_rates` and `supported` are included,
/// and a base whose EUR rate `is_zero` accepts gets no row.
///
/// `is_zero` and `divide` stand for the floating-point comparison with zero and
/// the division; any pair of functions that may be called on every argument will do.
pub fn compute_cross_rates<V: Copy, Z: Fn(V) -> bool, D: Fn(V, V) -> V>(
    eur_rates: &CodeMap<V>,
    supported: &[String],
    is_zero: Z,
    divide: D,
) -> (all: CodeMap<CodeMap<V>>)
    requires
        eur_rates.wf(),
        total1(is_zero),
        total2(divide),
    ensures
        all.wf(),
        valid_bases(eur_rates@, string_views(supported@), is_zero, all@.dom()),
        forall|b: Seq<char>| #[trigger]
            all@.dom().contains(b) ==> all@[b].wf() && is_cross_row(
                eur_rates@,
                string_views(supported@),
                b,
                all@[b]@,
                divide,
            ),
{
    let ghost sup = string_views(supported@);
    let mut all: CodeMap<CodeMap<V>> = CodeMap::new();
    let n = supported.len();
    let mut i: usize = 0;
    while i < n
        invariant
            n == supported@.len(),
            sup == string_views(supported@),
            eur_rates.wf(),
            total1(is_zero),
            total2(divide),
            i <= n,
            all.wf(),
            valid_bases(eur_rates@, sup.take(i as int), is_zero, all@.dom()),
            forall|b: Seq<char>| #[trigger]
                all@.dom().contains(b) ==> all@[b].wf() && is_cross_row(
                    eur_rates@,
                    sup,
                    b,
                    all@[b]@,
                    divide,
                ),
        decreases n - i,
    {
        let base = &supported[i];
        proof {
            assert(sup.take(i + 1) =~= sup.take(i as int).push(base@));
            lemma_push_contains(sup.take(i as int), base@);
        }
        match eur_rates.get(base) {
            Some(r) => {
                let base_rate = *r;
                if !is_zero(base_rate) {
                    let row = cross_row(eur_rates, supported, base_rate, &divide);
                    all.insert(base.clone(), row);
                }
            },
            None => {},
        }
        i = i + 1;
    }
    assert(sup.take(n as int) =~= sup);
    all
}

} // verus!
