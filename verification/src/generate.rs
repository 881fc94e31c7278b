//! What gets published: the list of available currencies and one output per
//! base currency, each with its file names.
use vstd::prelude::*;
use vstd::string::*;
use crate::code_map::{CodeMap, entry_views, key_seq, keys_sorted};
use crate::normalize::{compute_cross_rates, is_cross_row, string_views, total1, total2, valid_bases};
use crate::text::{concat_str, key_lt};

verus! {

/// The JSON output written to `currencies/{code}.json`: the date, the timestamp
/// of a sub-daily snapshot, and under the base currency code, all cross rates from it.
pub struct CurrencyOutput<V> {
    pub date: String,
    /// `YYYY-MM-DDTHH:MM:00Z` for a sub-daily snapshot; absent for a date-only one.
    pub timestamp: Option<String>,
    /// The key is the base currency code, the value all cross rates from it.
    pub rates: CodeMap<CodeMap<V>>,
}

/// One output file pair: the pretty-printed `{code}.json` and the minified
/// `{code}.min.json`, both holding `output`.
pub struct OutputFile<V> {
    pub base: String,
    pub pretty_name: String,
    pub min_name: String,
    pub output: CurrencyOutput<V>,
}

/// Everything the file tree under `v1/` is made of.
pub struct GenerationPlan<V> {
    /// The codes of the master list that have rate data, in code order.
    pub supported: Vec<String>,
    /// The master list restricted to the currencies that get rates:
    /// the content of `currencies.json`.
    pub available: CodeMap<String>,
    /// One file pair per base currency, in code order.
    pub files: Vec<OutputFile<V>>,
}

/// Whether `i` is the position of the first `T` in `s`.
pub open spec fn is_first_t(s: Seq<char>, i: int) -> bool {
    &&& 0 <= i < s.len()
    &&& s[i] == 'T'
    &&& forall|j: int| 0 <= j < i ==> s[j] != 'T'
}

/// The day of a snapshot stamp (`YYYY-MM-DD` or `YYYY-MM-DDTHH:MM`): what comes
/// before the first `T`, or the whole stamp when it has none.
pub open spec fn stamp_day(s: Seq<char>) -> Seq<char> {
    if s.contains('T') {
        s.take(choose|i: int| is_first_t(s, i))
    } else {
        s
    }
}

/// The timestamp of a snapshot stamp: a stamp with a time (`YYYY-MM-DDTHH:MM`) gets
/// seconds and the UTC zone added (`YYYY-MM-DDTHH:MM:00Z`); a day alone has none.
pub open spec fn stamp_timestamp(s: Seq<char>) -> Option<Seq<char>> {
    if s.contains('T') {
        Some(s + ":00Z"@)
    } else {
        None
    }
}

/// How a stamp splits, in terms of the stamp alone: the date is a prefix of the
/// stamp with no `T` in it, running up to the first `T` (or to the end); there is a
/// timestamp exactly when the stamp holds a `T`, and it is the stamp followed by `:00Z`.
pub proof fn law_stamp_split(s: Seq<char>)
    ensures
        stamp_day(s).len() <= s.len(),
        stamp_day(s) == s.take(stamp_day(s).len() as int),
        forall|i: int| 0 <= i < stamp_day(s).len() ==> stamp_day(s)[i] != 'T',
        stamp_day(s).len() < s.len() ==> s[stamp_day(s).len() as int] == 'T',
        (exists|i: int| 0 <= i < s.len() && s[i] == 'T') <==> stamp_timestamp(s) is Some,
        stamp_timestamp(s) is Some ==> stamp_timestamp(s)->0 == s + ":00Z"@,
{
    if s.contains('T') {
        let k = choose|i: int| 0 <= i < s.len() && s[i] == 'T';
        lemma_first_t_exists(s, k);
        let f = choose|i: int| is_first_t(s, i);
        assert(s.take(f).len() == f);
        assert(s.take(f) =~= s.take(s.take(f).len() as int));
    } else {
        assert(s.take(s.len() as int) =~= s);
    }
}

/// A sequence holding a `T` at `k` has a first `T`.
proof fn lemma_first_t_exists(s: Seq<char>, k: int)
    requires
        0 <= k < s.len(),
        s[k] == 'T',
    ensures
        exists|i: int| is_first_t(s, i),
    decreases k,
{
    if exists|j: int| 0 <= j < k && s[j] == 'T' {
        let j = choose|j: int| 0 <= j < k && s[j] == 'T';
        lemma_first_t_exists(s, j);
    } else {
        assert(is_first_t(s, k));
    }
}

/// Splits a snapshot stamp into the `date` and the `timestamp` of the output:
/// `2026-03-07T14:30` gives `2026-03-07` and `2026-03-07T14:30:00Z`;
/// `2026-01-15` gives `2026-01-15` and no timestamp.
pub fn split_stamp(stamp: &str) -> (r: (String, Option<String>))
    ensures
        r.0@ == stamp_day(stamp@),
        r.1 is Some <==> stamp_timestamp(stamp@) is Some,
        r.1 is Some ==> r.1->0@ == stamp_timestamp(stamp@)->0,
{
    let n = stamp.unicode_len();
    let mut i: usize = 0;
    while i < n
        invariant
            n == stamp@.len(),
            i <= n,
            forall|j: int| 0 <= j < i ==> stamp@[j] != 'T',
        decreases n - i,
    {
        if stamp.get_char(i) == 'T' {
            let day = String::from_str(stamp.substring_char(0, i));
            let timestamp = concat_str(stamp, ":00Z");
            proof {
                assert(is_first_t(stamp@, i as int));
                assert(stamp@.contains('T'));
                let k = choose|k: int| is_first_t(stamp@, k);
                assert(k == i) by {
                    if k < i {
                        assert(stamp@[k] != 'T');
                    } else if k > i {
                        assert(stamp@[i as int] != 'T');
                    }
                }
                assert(stamp@.subrange(0, i as int) =~= stamp@.take(i as int));
            }
            return (day, Some(timestamp));
        }
        i = i + 1;
    }
    proof {
        if stamp@.contains('T') {
            let k = choose|k: int| 0 <= k < stamp@.len() && stamp@[k] == 'T';
            assert(stamp@[k] != 'T');
        }
    }
    (String::from_str(stamp), None)
}

/// The base currencies of a sequence of output files.
pub open spec fn file_bases<V>(files: Seq<OutputFile<V>>) -> Set<Seq<char>> {
    Set::new(|c: Seq<char>| exists|j: int| 0 <= j < files.len() && #[trigger] files[j].base@ == c)
}

/// The keys of `keys` that `dom` holds, in order.
pub open spec fn keys_with_rates(keys: Seq<Seq<char>>, dom: Set<Seq<char>>) -> Seq<Seq<char>>
    decreases keys.len(),
{
    if keys.len() == 0 {
        Seq::empty()
    } else if dom.contains(keys.last()) {
        keys_with_rates(keys.drop_last(), dom).push(keys.last())
    } else {
        keys_with_rates(keys.drop_last(), dom)
    }
}

/// A code is among `keys_with_rates` exactly when it is among the keys and in `dom`.
pub proof fn lemma_keys_with_rates_contains(keys: Seq<Seq<char>>, dom: Set<Seq<char>>)
    ensures
        forall|c: Seq<char>| #[trigger]
            keys_with_rates(keys, dom).contains(c) <==> keys.contains(c) && dom.contains(c),
    decreases keys.len(),
{
    if keys.len() > 0 {
        let t = keys.drop_last();
        lemma_keys_with_rates_contains(t, dom);
        assert forall|c: Seq<char>| #[trigger]
            keys_with_rates(keys, dom).contains(c) <==> keys.contains(c) && dom.contains(c) by {
            if keys.contains(c) {
                let i = choose|i: int| 0 <= i < keys.len() && keys[i] == c;
                if i < keys.len() - 1 {
                    assert(t[i] == c);
                }
            }
            if t.contains(c) {
                let i = choose|i: int| 0 <= i < t.len() && t[i] == c;
                assert(keys[i] == c);
            }
            crate::normalize::lemma_push_contains(keys_with_rates(t, dom), keys.last());
        }
    }
}

/// A currency is published (gets a rate file and an entry in `currencies.json`)
/// only if the master list names it, it has an EUR rate, and that rate was found
/// not to be zero; and every such currency whose rate is not zero is published.
pub proof fn law_published_codes<V, Z: Fn(V) -> bool>(
    currency_list: Map<Seq<char>, String>,
    list_keys: Seq<Seq<char>>,
    eur: Map<Seq<char>, V>,
    is_zero: Z,
    bases: Set<Seq<char>>,
    c: Seq<char>,
)
    requires
        list_keys.to_set() == currency_list.dom(),
        valid_bases(eur, keys_with_rates(list_keys, eur.dom()), is_zero, bases),
    ensures
        bases.contains(c) ==> currency_list.dom().contains(c) && eur.dom().contains(c)
            && call_ensures(is_zero, (eur[c],), false),
        currency_list.dom().contains(c) && eur.dom().contains(c) && !call_ensures(
            is_zero,
            (eur[c],),
            true,
        ) ==> bases.contains(c),
{
    lemma_keys_with_rates_contains(list_keys, eur.dom());
    assert(list_keys.to_set().contains(c) <==> list_keys.contains(c));
}

/// The file name of the pretty-printed output of a base currency.
pub open spec fn pretty_file_name(base: Seq<char>) -> Seq<char> {
    base + ".json"@
}

/// The file name of the minified output of a base currency.
pub open spec fn min_file_name(base: Seq<char>) -> Seq<char> {
    base + ".min.json"@
}

/// File names are the whole base code with a suffix: the pretty name is the code
/// followed by `.json`, the minified one the code followed by `.min.json`, the code
/// can be read back from either, and distinct codes never share a file name.
pub proof fn law_file_names(b1: Seq<char>, b2: Seq<char>)
    ensures
        pretty_file_name(b1) == b1 + ".json"@,
        min_file_name(b1) == b1 + ".min.json"@,
        pretty_file_name(b1).take(b1.len() as int) == b1,
        min_file_name(b1).take(b1.len() as int) == b1,
        pretty_file_name(b1) == pretty_file_name(b2) <==> b1 == b2,
        min_file_name(b1) == min_file_name(b2) <==> b1 == b2,
{
    lemma_suffix_injective(b1, b2, ".json"@);
    lemma_suffix_injective(b1, b2, ".min.json"@);
    assert((b1 + ".json"@).take(b1.len() as int) =~= b1);
    assert((b1 + ".min.json"@).take(b1.len() as int) =~= b1);
}

/// Appending the same suffix to two sequences keeps them apart.
proof fn lemma_suffix_injective(a: Seq<char>, b: Seq<char>, x: Seq<char>)
    ensures
        a + x == b + x <==> a == b,
{
    if a + x == b + x {
        assert((a + x).len() == a.len() + x.len());
        assert((b + x).len() == b.len() + x.len());
        assert(a.len() == b.len());
        assert((a + x).take(a.len() as int) =~= a);
        assert((b + x).take(b.len() as int) =~= b);
    }
}

/// The codes of the master list that have an EUR rate, in code order.
fn supported_codes<V>(eur_rates: &CodeMap<V>, currency_list: &CodeMap<String>) -> (supported: Vec<
    String,
>)
    requires
        eur_rates.wf(),
        currency_list.wf(),
    ensures
        string_views(supported@) == keys_with_rates(currency_list.key_list(), eur_rates@.dom()),
{
    let ghost keys = currency_list.key_list();
    let entries = currency_list.entries();
    let n = entries.len();
    let mut supported: Vec<String> = Vec::new();
    let mut i: usize = 0;
    while i < n
        invariant
            n == entries@.len(),
            keys == key_seq(entry_views(entries@)),
            eur_rates.wf(),
            i <= n,
            string_views(supported@) == keys_with_rates(keys.take(i as int), eur_rates@.dom()),
        decreases n - i,
    {
        let code = &entries[i].0;
        proof {
            assert(keys.take(i + 1).drop_last() =~= keys.take(i as int));
            assert(keys.take(i + 1).last() == code@);
        }
        if eur_rates.contains_key(code.as_str()) {
            supported.push(code.clone());
            assert(string_views(supported@) =~= keys_with_rates(keys.take(i + 1), eur_rates@.dom()));
        }
        i = i + 1;
    }
    assert(keys.take(n as int) =~= keys);
    supported
}

/// The master list restricted to the codes that `keep` holds.
fn available_list<W>(currency_list: &CodeMap<String>, keep: &CodeMap<W>) -> (available: CodeMap<
    String,
>)
    requires
        currency_list.wf(),
        keep.wf(),
    ensures
        available.wf(),
        available@ == currency_list@.restrict(keep@.dom()),
{
    let ghost s = currency_list.entry_seq();
    let entries = currency_list.entries();
    let n = entries.len();
    let mut available = CodeMap::new();
    let mut i: usize = 0;
    proof {
        crate::code_map::lemma_seq_to_map_take_all(s);
    }
    while i < n
        invariant
            n == entries@.len(),
            s == entry_views(entries@),
            s == currency_list.entry_seq(),
            keys_sorted(s),
            keep.wf(),
            i <= n,
            available.wf(),
            available@ == crate::code_map::seq_to_map(s.take(i as int)).restrict(keep@.dom()),
        decreases n - i,
    {
        proof {
            crate::code_map::lemma_seq_to_map_take(s, i as int);
        }
        let code = &entries[i].0;
        if keep.contains_key(code.as_str()) {
            available.insert(code.clone(), entries[i].1.clone());
        }
        assert(available@ =~= crate::code_map::seq_to_map(s.take(i + 1)).restrict(keep@.dom()));
        i = i + 1;
    }
    proof {
        crate::code_map::lemma_seq_to_map_take_all(s);
    }
    available
}

/// Plans the files written into `{output_dir}/v1/`:
///
/// - `currencies.json` / `currencies.min.json`: the master list restricted to the
///   currencies that have cross rates;
/// - `currencies/{code}.json` / `currencies/{code}.min.json`: for every such
///   currency, the date, the timestamp of a sub-daily snapshot, and its cross rates.
///
/// `stamp` is the snapshot's date, `YYYY-MM-DD`, or date and time, `YYYY-MM-DDTHH:MM`.
///
/// Only currencies that are both in the master list and have rate data are used.
pub fn plan_generation<V: Copy, Z: Fn(V) -> bool, D: Fn(V, V) -> V>(
    stamp: &str,
    eur_rates: &CodeMap<V>,
    currency_list: &CodeMap<String>,
    is_zero: Z,
    divide: D,
) -> (plan: GenerationPlan<V>)
    requires
        eur_rates.wf(),
        currency_list.wf(),
        total1(is_zero),
        total2(divide),
    ensures
        string_views(plan.supported@) == keys_with_rates(
            currency_list.key_list(),
            eur_rates@.dom(),
        ),
        plan.available.wf(),
        valid_bases(
            eur_rates@,
            string_views(plan.supported@),
            is_zero,
            file_bases(plan.files@),
        ),
        plan.available@ == currency_list@.restrict(file_bases(plan.files@)),
        forall|c: Seq<char>| #[trigger]
            plan.available@.dom().contains(c) <==> currency_list@.dom().contains(c) && exists|
                j: int,
            |
                0 <= j < plan.files@.len() && #[trigger] plan.files@[j].base@ == c,
        forall|c: Seq<char>| #[trigger]
            plan.available@.dom().contains(c) ==> plan.available@[c] == currency_list@[c],
        forall|j: int, k: int|
            0 <= j < k < plan.files@.len() ==> key_lt(
                #[trigger] plan.files@[j].base@,
                #[trigger] plan.files@[k].base@,
            ),
        forall|j: int|
            0 <= j < plan.files@.len() ==> {
                let f = #[trigger] plan.files@[j];
                &&& f.pretty_name@ == pretty_file_name(f.base@)
                &&& f.min_name@ == min_file_name(f.base@)
                &&& f.pretty_name@ == f.base@ + ".json"@
                &&& f.min_name@ == f.base@ + ".min.json"@
                &&& f.output.date@ == stamp_day(stamp@)
                &&& (f.output.timestamp is Some <==> stamp_timestamp(stamp@) is Some)
                &&& (f.output.timestamp is Some ==> f.output.timestamp->0@ == stamp_timestamp(
                    stamp@,
                )->0)
                &&& f.output.rates.wf()
                &&& f.output.rates@.dom() == set![f.base@]
                &&& f.output.rates@[f.base@].wf()
                &&& is_cross_row(
                    eur_rates@,
                    string_views(plan.supported@),
                    f.base@,
                    f.output.rates@[f.base@]@,
                    divide,
                )
            },
{
    let supported = supported_codes(eur_rates, currency_list);
    let cross_rates = compute_cross_rates(eur_rates, supported.as_slice(), is_zero, divide);
    let available = available_list(currency_list, &cross_rates);
    let ghost sup = string_views(supported@);
    let ghost bases = cross_rates.entry_seq();
    proof {
        cross_rates.lemma_view();
    }
    let entries = cross_rates.into_entries();
    let mut files: Vec<OutputFile<V>> = Vec::new();
    for e in it: entries.into_iter()
        invariant
            entry_views(it.seq()) == bases,
            keys_sorted(bases),
            files@.len() == it.index(),
            forall|j: int| 0 <= j < it.index() ==> #[trigger] files@[j].base@ == bases[j].0,
            forall|j: int|
                0 <= j < it.index() ==> {
                    let f = #[trigger] files@[j];
                    &&& f.pretty_name@ == pretty_file_name(f.base@)
                    &&& f.min_name@ == min_file_name(f.base@)
                    &&& f.output.date@ == stamp_day(stamp@)
                &&& (f.output.timestamp is Some <==> stamp_timestamp(stamp@) is Some)
                &&& (f.output.timestamp is Some ==> f.output.timestamp->0@ == stamp_timestamp(
                    stamp@,
                )->0)
                    &&& f.output.rates.wf()
                    &&& f.output.rates@.dom() == set![f.base@]
                    &&& f.output.rates@[f.base@] == bases[j].1
                },
    {
        let ghost j = it.index() as int;
        let (base, row) = e;
        let pretty_name = concat_str(base.as_str(), ".json");
        let min_name = concat_str(base.as_str(), ".min.json");
        let mut rates: CodeMap<CodeMap<V>> = CodeMap::new();
        rates.insert(base.clone(), row);
        assert(rates@.dom() =~= set![base@]);
        let (date, timestamp) = split_stamp(stamp);
        let output = CurrencyOutput { date, timestamp, rates };
        files.push(OutputFile { base, pretty_name, min_name, output });
    }
    let plan = GenerationPlan { supported, available, files };
    proof {
        assert(string_views(plan.supported@) == sup);
        assert forall|j: int| 0 <= j < plan.files@.len() implies {
            let f = #[trigger] plan.files@[j];
            &&& f.output.rates@[f.base@].wf()
            &&& is_cross_row(eur_rates@, sup, f.base@, f.output.rates@[f.base@]@, divide)
        } by {
            assert(cross_rates@.dom().contains(bases[j].0));
        }
        assert forall|c: Seq<char>|
            cross_rates@.dom().contains(c) <==> #[trigger] file_bases(plan.files@).contains(c) by {
            if cross_rates@.dom().contains(c) {
                let j = choose|j: int| 0 <= j < bases.len() && #[trigger] bases[j].0 == c;
                assert(plan.files@[j].base@ == c);
            }
            if file_bases(plan.files@).contains(c) {
                let j = choose|j: int|
                    0 <= j < plan.files@.len() && #[trigger] plan.files@[j].base@ == c;
                assert(cross_rates@.dom().contains(bases[j].0));
            }
        }
        assert(file_bases(plan.files@) =~= cross_rates@.dom());
    }
    plan
}

} // verus!
