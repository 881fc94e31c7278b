//! What the library computes from the replies of the rate sources: fiat and
//! metal rates with lowercased codes, and crypto rates from coin prices.
use vstd::prelude::*;
use vstd::string::*;
use crate::code_map::{CodeMap, entry_views, is_last_key_to, key_seq, last_key_to, lemma_last_key_unique, lemma_rekey_fold, rekey_fold, rekeyed};
use crate::normalize::{lemma_push_contains, total1};
use crate::text::{concat_str, contains_seq, key_lt, occurs_at};
use vstd::utf8::is_ascii_chars;

verus! {

/// What `str::to_lowercase` returns for a string with these characters.
pub uninterp spec fn spec_to_lowercase(s: Seq<char>) -> Seq<char>;

/// A character with an ASCII uppercase letter turned into its lowercase letter.
pub open spec fn ascii_lower_char(c: char) -> char {
    if 'A' <= c && c <= 'Z' {
        ((c as int) + 32) as char
    } else {
        c
    }
}

/// A sequence of characters with every ASCII uppercase letter lowercased.
pub open spec fn ascii_lowercase(s: Seq<char>) -> Seq<char> {
    s.map_values(|c: char| ascii_lower_char(c))
}

/// Calls `str::to_lowercase`, the lowercase equivalent of `s` by Unicode's
/// `Lowercase` property. Its result is a function of `s` alone, named
/// `spec_to_lowercase`; for an ASCII string it is the ASCII lowercase of `s`
/// (A-Z become a-z, every other character stays). Nothing more of it is stated.
#[verifier::external_body]
fn to_lowercase(s: &str) -> (r: String)
    ensures
        r@ == spec_to_lowercase(s@),
        is_ascii_chars(s@) ==> r@ == ascii_lowercase(s@),
{
    s.to_lowercase()
}

/// The key function of lowercasing: an entry goes to its lowercased code.
pub open spec fn lowercase_key<V>() -> spec_fn(Seq<char>, V) -> Seq<char> {
    |k: Seq<char>, v: V| spec_to_lowercase(k)
}

/// The value function of lowercasing: an entry keeps its value.
pub open spec fn same_value<V>() -> spec_fn(Seq<char>, V) -> V {
    |k: Seq<char>, v: V| v
}

/// `m` with every code lowercased; where several codes lowercase alike, the value
/// of the last of them in code order wins.
pub open spec fn lowercased<V>(m: Map<Seq<char>, V>) -> Map<Seq<char>, V> {
    rekeyed(m, lowercase_key(), same_value())
}

/// The codes of the lowercased rates are exactly the lowercase forms of the
/// original codes: no code is lost or made up, and each takes the rate of the last
/// original code (in code order) that lowercases to it.
pub proof fn law_lowercase_codes<V>(m: CodeMap<V>)
    requires
        m.wf(),
    ensures
        forall|k: Seq<char>| #[trigger]
            lowercased(m@).dom().contains(k) <==> exists|c: Seq<char>|
                #[trigger] m@.dom().contains(c) && spec_to_lowercase(c) == k,
        forall|k: Seq<char>| #[trigger]
            lowercased(m@).dom().contains(k) ==> is_last_key_to(
                m@,
                lowercase_key(),
                k,
                last_key_to(m@, lowercase_key(), k),
            ) && lowercased(m@)[k] == m@[last_key_to(m@, lowercase_key(), k)],
{
    lemma_rekey_fold(m.entry_seq(), lowercase_key::<V>(), same_value::<V>());
}

/// The same rates with every code lowercased.
fn lowercase_keys<V>(rates: CodeMap<V>) -> (out: CodeMap<V>)
    requires
        rates.wf(),
    ensures
        out.wf(),
        out@ == lowercased(rates@),
        ascii_codes_lowercase_as_ascii(rates@),
{
    let ghost s = rates.entry_seq();
    let ghost m = rates@;
    proof {
        rates.lemma_view();
    }
    let entries = rates.into_entries();
    let mut out = CodeMap::new();
    proof {
        assert(rekey_fold(s.take(0), lowercase_key(), same_value()) =~= Map::<Seq<char>, V>::empty());
    }
    for e in it: entries.into_iter()
        invariant
            out.wf(),
            entry_views(it.seq()) == s,
            out@ == rekey_fold(s.take(it.index() as int), lowercase_key(), same_value()),
            forall|j: int|
                0 <= j < it.index() && is_ascii_chars(#[trigger] s[j].0) ==> spec_to_lowercase(
                    s[j].0,
                ) == ascii_lowercase(s[j].0),
    {
        let ghost i = it.index() as int;
        let (k, v) = e;
        let lower = to_lowercase(k.as_str());
        out.insert(lower, v);
        proof {
            assert(s.take(i + 1).drop_last() =~= s.take(i));
        }
    }
    proof {
        assert(s.take(s.len() as int) =~= s);
        lemma_rekey_fold(s, lowercase_key(), same_value());
        assert forall|c: Seq<char>| #[trigger] m.dom().contains(c) && is_ascii_chars(
            c,
        ) implies spec_to_lowercase(c) == ascii_lowercase(c) by {
            let j = choose|j: int| 0 <= j < s.len() && #[trigger] s[j].0 == c;
        }
    }
    out
}

/// Every ASCII code of `m` lowercases to its ASCII lowercase form (what
/// `str::to_lowercase` was seen to give for it).
pub open spec fn ascii_codes_lowercase_as_ascii<V>(m: Map<Seq<char>, V>) -> bool {
    forall|c: Seq<char>| #[trigger]
        m.dom().contains(c) && is_ascii_chars(c) ==> spec_to_lowercase(c) == ascii_lowercase(c)
}

/// All codes lowercase: when every original code is ASCII (and lowercases as ASCII),
/// no code of the lowercased rates holds an uppercase letter.
pub proof fn law_ascii_codes_lowercase<V>(m: Map<Seq<char>, V>)
    requires
        ascii_codes_lowercase_as_ascii(m),
        forall|c: Seq<char>| #[trigger] m.dom().contains(c) ==> is_ascii_chars(c),
    ensures
        forall|k: Seq<char>, i: int|
            #[trigger] lowercased(m).dom().contains(k) && 0 <= i < k.len() ==> !('A' <= #[trigger] k[i]
                && k[i] <= 'Z'),
{
    assert forall|k: Seq<char>, i: int|
        #[trigger] lowercased(m).dom().contains(k) && 0 <= i < k.len() implies !('A' <= #[trigger] k[i]
        && k[i] <= 'Z') by {
        let c = choose|c: Seq<char>| #[trigger]
            m.dom().contains(c) && lowercase_key::<V>()(c, m[c]) == k;
        assert(k == ascii_lowercase(c));
        assert(k[i] == ascii_lower_char(c[i]));
    }
}

/// The code that the fiat rates always hold, at the rate of one.
pub open spec fn eur_code() -> Seq<char> {
    "eur"@
}

/// Fiat rates from the `conversion_rates` (or `rates`) of the fiat reply, where every
/// value means "1 EUR = N units of that currency": every code lowercased, and EUR
/// inserted at `one` so that it is always present.
pub fn fiat_rates_from_body<V>(conversion_rates: CodeMap<V>, one: V) -> (rates: CodeMap<V>)
    requires
        conversion_rates.wf(),
    ensures
        rates.wf(),
        rates@ == lowercased(conversion_rates@).insert(eur_code(), one),
        rates@.dom().contains("eur"@) && rates@["eur"@] == one,
        forall|c: Seq<char>| #[trigger]
            conversion_rates@.dom().contains(c) ==> rates@.dom().contains(spec_to_lowercase(c)),
        forall|k: Seq<char>| #[trigger]
            rates@.dom().contains(k) ==> k == "eur"@ || exists|c: Seq<char>| #[trigger]
                conversion_rates@.dom().contains(c) && spec_to_lowercase(c) == k,
        ascii_codes_lowercase_as_ascii(conversion_rates@),
{
    proof {
        assert forall|c: Seq<char>| #[trigger]
            conversion_rates@.dom().contains(c) implies lowercased(conversion_rates@).dom().contains(
            spec_to_lowercase(c),
        ) by {
            assert(lowercase_key::<V>()(c, conversion_rates@[c]) == spec_to_lowercase(c));
        }
    }
    let mut rates = lowercase_keys(conversion_rates);
    rates.insert(String::from_str("eur"), one);
    rates
}

/// Metal rates from the `rates` of the metals reply, where every value means
/// "1 EUR = N troy ounces of that metal": every code lowercased.
pub fn metal_rates_from_body<V>(rates: CodeMap<V>) -> (out: CodeMap<V>)
    requires
        rates.wf(),
    ensures
        out.wf(),
        out@ == lowercased(rates@),
        forall|c: Seq<char>| #[trigger]
            rates@.dom().contains(c) ==> out@.dom().contains(spec_to_lowercase(c)),
        forall|k: Seq<char>| #[trigger]
            out@.dom().contains(k) ==> exists|c: Seq<char>| #[trigger]
                rates@.dom().contains(c) && spec_to_lowercase(c) == k,
        ascii_codes_lowercase_as_ascii(rates@),
{
    proof {
        assert forall|c: Seq<char>| #[trigger] rates@.dom().contains(c) implies lowercased(
            rates@,
        ).dom().contains(spec_to_lowercase(c)) by {
            assert(lowercase_key::<V>()(c, rates@[c]) == spec_to_lowercase(c));
        }
    }
    lowercase_keys(rates)
}

/// The value of the fiat `Authorization` header: `Bearer {key}` when there is a key.
pub fn fiat_authorization(api_key: Option<&str>) -> (header: Option<String>)
    ensures
        match api_key {
            Some(k) => header is Some && header->0@ == "Bearer "@ + k@,
            None => header is None,
        },
{
    match api_key {
        Some(k) => Some(concat_str("Bearer ", k)),
        None => None,
    }
}

/// The elements of `s` joined by commas.
pub open spec fn join_commas(s: Seq<Seq<char>>) -> Seq<char>
    decreases s.len(),
{
    if s.len() == 0 {
        Seq::empty()
    } else if s.len() == 1 {
        s[0]
    } else {
        join_commas(s.drop_last()) + ","@ + s.last()
    }
}

/// The coin ids of an entry sequence (code -> coin id), in code order.
pub open spec fn coin_id_list(s: Seq<(Seq<char>, String)>) -> Seq<Seq<char>> {
    s.map_values(|e: (Seq<char>, String)| e.1@)
}

/// Every element of `s` occurs in `s` joined by commas.
pub proof fn lemma_join_commas_contains(s: Seq<Seq<char>>)
    ensures
        forall|i: int| 0 <= i < s.len() ==> #[trigger] contains_seq(join_commas(s), s[i]),
    decreases s.len(),
{
    if s.len() == 1 {
        assert(join_commas(s).subrange(0, s[0].len() as int) =~= s[0]);
        assert(occurs_at(join_commas(s), s[0], 0));
    } else if s.len() > 1 {
        reveal_strlit(",");
        let t = s.drop_last();
        lemma_join_commas_contains(t);
        let j = join_commas(s);
        let jt = join_commas(t);
        assert forall|i: int| 0 <= i < s.len() implies #[trigger] contains_seq(j, s[i]) by {
            if i < t.len() {
                assert(contains_seq(jt, t[i]));
                let k = choose|k: int| #[trigger] occurs_at(jt, t[i], k);
                assert(j.subrange(k, k + t[i].len()) =~= jt.subrange(k, k + t[i].len()));
                assert(occurs_at(j, s[i], k));
            } else {
                let k: int = jt.len() as int + 1;
                assert(j.subrange(k, k + s[i].len()) =~= s.last());
                assert(occurs_at(j, s[i], k));
            }
        }
    }
}

/// Every coin id of `crypto_ids` occurs in the `ids` parameter: no coin is left
/// out of the request.
pub proof fn law_ids_param_lists_every_coin(crypto_ids: CodeMap<String>)
    requires
        crypto_ids.wf(),
    ensures
        forall|code: Seq<char>| #[trigger]
            crypto_ids@.dom().contains(code) ==> contains_seq(
                join_commas(coin_id_list(crypto_ids.entry_seq())),
                crypto_ids@[code]@,
            ),
{
    crypto_ids.lemma_view();
    let s = crypto_ids.entry_seq();
    let l = coin_id_list(s);
    lemma_join_commas_contains(l);
    assert forall|code: Seq<char>| #[trigger] crypto_ids@.dom().contains(code) implies contains_seq(
        join_commas(l),
        crypto_ids@[code]@,
    ) by {
        let i = choose|i: int| 0 <= i < s.len() && #[trigger] s[i].0 == code;
        assert(crypto_ids@[s[i].0] == s[i].1);
        assert(l[i] == s[i].1@);
    }
}

/// The `ids` query parameter of the crypto request: the coin ids of `crypto_ids`
/// (code -> coin id) in code order, joined by commas. `None` when there are no
/// coins, in which case no request is made and the crypto rates are empty.
pub fn crypto_ids_param(crypto_ids: &CodeMap<String>) -> (param: Option<String>)
    requires
        crypto_ids.wf(),
    ensures
        crypto_ids@ == Map::<Seq<char>, String>::empty() <==> param is None,
        param is Some ==> param->0@ == join_commas(coin_id_list(crypto_ids.entry_seq())),
        param is Some ==> forall|code: Seq<char>| #[trigger]
            crypto_ids@.dom().contains(code) ==> contains_seq(param->0@, crypto_ids@[code]@),
{
    proof {
        law_ids_param_lists_every_coin(*crypto_ids);
    }
    if crypto_ids.is_empty() {
        return None;
    }
    let ghost ids = coin_id_list(crypto_ids.entry_seq());
    let entries = crypto_ids.entries();
    let n = entries.len();
    let mut out = entries[0].1.clone();
    proof {
        assert(ids.take(1) =~= seq![ids[0]]);
        assert(join_commas(ids.take(1)) == ids[0]);
    }
    let mut i: usize = 1;
    while i < n
        invariant
            n == entries@.len(),
            ids == coin_id_list(entry_views(entries@)),
            1 <= i <= n,
            out@ == join_commas(ids.take(i as int)),
        decreases n - i,
    {
        out.append(",");
        out.append(entries[i].1.as_str());
        proof {
            assert(ids.take(i + 1).drop_last() =~= ids.take(i as int));
            assert(entries@[i as int].1@ == ids[i as int]);
        }
        i = i + 1;
    }
    assert(ids.take(n as int) =~= ids);
    Some(out)
}


/// The key function of the reverse map: a (code, coin id) entry goes to its coin id.
pub open spec fn coin_id_key() -> spec_fn(Seq<char>, String) -> Seq<char> {
    |code: Seq<char>, id: String| id@
}

/// The value function of the reverse map: a (code, coin id) entry gives its code.
pub open spec fn code_value() -> spec_fn(Seq<char>, String) -> Seq<char> {
    |code: Seq<char>, id: String| code
}

/// The coin id -> code map of `ids` (code -> coin id): where several codes share a
/// coin id, the last of them in code order wins.
pub open spec fn reverse_ids(ids: Map<Seq<char>, String>) -> Map<Seq<char>, Seq<char>> {
    rekeyed(ids, coin_id_key(), code_value())
}

/// The reverse map (coin id -> code) of `crypto_ids` (code -> coin id).
fn reverse_id_map(crypto_ids: &CodeMap<String>) -> (rev: CodeMap<String>)
    requires
        crypto_ids.wf(),
    ensures
        rev.wf(),
        rev@.dom() == reverse_ids(crypto_ids@).dom(),
        forall|id: Seq<char>| #[trigger]
            rev@.dom().contains(id) ==> rev@[id]@ == reverse_ids(crypto_ids@)[id],
{
    let ghost s = crypto_ids.entry_seq();
    let entries = crypto_ids.entries();
    let n = entries.len();
    let mut rev: CodeMap<String> = CodeMap::new();
    let mut i: usize = 0;
    proof {
        assert(rekey_fold(s.take(0), coin_id_key(), code_value()) =~= Map::<
            Seq<char>,
            Seq<char>,
        >::empty());
    }
    while i < n
        invariant
            n == entries@.len(),
            s == entry_views(entries@),
            i <= n,
            rev.wf(),
            rev@.dom() == rekey_fold(s.take(i as int), coin_id_key(), code_value()).dom(),
            forall|id: Seq<char>| #[trigger]
                rev@.dom().contains(id) ==> rev@[id]@ == rekey_fold(
                    s.take(i as int),
                    coin_id_key(),
                    code_value(),
                )[id],
        decreases n - i,
    {
        let code = entries[i].0.clone();
        let id = entries[i].1.clone();
        rev.insert(id, code);
        proof {
            assert(s.take(i + 1).drop_last() =~= s.take(i as int));
            assert(rev@.dom() =~= rekey_fold(s.take(i + 1), coin_id_key(), code_value()).dom());
        }
        i = i + 1;
    }
    proof {
        assert(s.take(n as int) =~= s);
        lemma_rekey_fold(s, coin_id_key(), code_value());
    }
    rev
}

/// The EUR price of a coin in the crypto reply.
pub open spec fn eur_price<V>(body: Map<Seq<char>, CodeMap<V>>, id: Seq<char>) -> V {
    body[id]@[eur_code()]
}

/// The coin id of `code` in `ids` (code -> coin id).
pub open spec fn coin_of(ids: Map<Seq<char>, String>, code: Seq<char>) -> Seq<char> {
    ids[code]@
}

/// Whether `code` has a EUR price in the crypto reply: it has a coin id, it is the
/// last code (in code order) with that coin id, and the reply prices that coin in EUR.
pub open spec fn crypto_priced<V>(
    ids: Map<Seq<char>, String>,
    body: Map<Seq<char>, CodeMap<V>>,
    code: Seq<char>,
) -> bool {
    let id = coin_of(ids, code);
    &&& ids.dom().contains(code)
    &&& is_last_key_to(ids, coin_id_key(), id, code)
    &&& body.dom().contains(id)
    &&& body[id]@.dom().contains(eur_code())
}

/// Whether `codes` is the set of codes that get a crypto rate: every one of them is
/// priced in EUR with a price on which `keep` answers `true`; and every code priced
/// in EUR with a price on which `keep` cannot answer `false` is one of them.
pub open spec fn valid_crypto_codes<V, K: Fn(V) -> bool>(
    ids: Map<Seq<char>, String>,
    body: Map<Seq<char>, CodeMap<V>>,
    keep: K,
    codes: Set<Seq<char>>,
) -> bool {
    &&& forall|code: Seq<char>| #[trigger]
        codes.contains(code) ==> crypto_priced(ids, body, code) && call_ensures(
            keep,
            (eur_price(body, coin_of(ids, code)),),
            true,
        )
    &&& forall|code: Seq<char>|
        crypto_priced(ids, body, code) && !call_ensures(
            keep,
            (eur_price(body, coin_of(ids, code)),),
            false,
        ) ==> #[trigger] codes.contains(code)
}

/// Which codes get a crypto rate, in terms of the inputs alone: a code gets one
/// when it has a coin id, no later code (in code order) has the same coin id, the
/// reply prices that coin in EUR, and `keep` cannot reject the price; there is no
/// condition on the code itself. Conversely every code that gets a rate has a coin
/// id, is the last code with it, and its coin's EUR price was accepted by `keep`.
pub proof fn law_crypto_codes<V, K: Fn(V) -> bool>(
    ids: Map<Seq<char>, String>,
    body: Map<Seq<char>, CodeMap<V>>,
    keep: K,
    codes: Set<Seq<char>>,
    code: Seq<char>,
)
    requires
        valid_crypto_codes(ids, body, keep, codes),
    ensures
        ({
            &&& ids.dom().contains(code)
            &&& forall|o: Seq<char>|
                ids.dom().contains(o) && ids[o]@ == ids[code]@ ==> !key_lt(code, o)
            &&& body.dom().contains(ids[code]@)
            &&& body[ids[code]@]@.dom().contains("eur"@)
            &&& !call_ensures(keep, (body[ids[code]@]@["eur"@],), false)
        }) ==> codes.contains(code),
        codes.contains(code) ==> {
            &&& ids.dom().contains(code)
            &&& forall|o: Seq<char>|
                ids.dom().contains(o) && ids[o]@ == ids[code]@ ==> !key_lt(code, o)
            &&& body.dom().contains(ids[code]@)
            &&& body[ids[code]@]@.dom().contains("eur"@)
            &&& call_ensures(keep, (body[ids[code]@]@["eur"@],), true)
        },
{
    if codes.contains(code) {
        assert(crypto_priced(ids, body, code));
        assert forall|o: Seq<char>|
            ids.dom().contains(o) && ids[o]@ == ids[code]@ implies !key_lt(code, o) by {
            assert(ids.dom().contains(o) && coin_id_key()(o, ids[o]) == ids[code]@);
        }
    }
    if ids.dom().contains(code) && (forall|o: Seq<char>|
        ids.dom().contains(o) && ids[o]@ == ids[code]@ ==> !key_lt(code, o)) {
        assert(is_last_key_to(ids, coin_id_key(), ids[code]@, code)) by {
            assert forall|o: Seq<char>| #[trigger]
                ids.dom().contains(o) && coin_id_key()(o, ids[o]) == ids[code]@ implies !key_lt(
                code,
                o,
            ) by {
                assert(ids[o]@ == ids[code]@);
            }
        }
    }
}

/// Crypto rates from the reply of a CoinGecko-compatible `/simple/price` endpoint,
/// `body` (coin id -> { vs_currency -> price }), given `crypto_ids` (our code -> coin id).
///
/// Every coin of the reply that maps back to a code and has a EUR price that `keep`
/// accepts (a price above zero) gives that code the rate `invert(price)`:
/// a price "1 coin costs N EUR" becomes "1 EUR = 1/N coins".
pub fn crypto_rates_from_body<V: Copy, K: Fn(V) -> bool, I: Fn(V) -> V>(
    crypto_ids: &CodeMap<String>,
    body: &CodeMap<CodeMap<V>>,
    keep: K,
    invert: I,
) -> (rates: CodeMap<V>)
    requires
        crypto_ids.wf(),
        body.wf(),
        forall|id: Seq<char>| #[trigger] body@.dom().contains(id) ==> body@[id].wf(),
        total1(keep),
        total1(invert),
    ensures
        rates.wf(),
        valid_crypto_codes(crypto_ids@, body@, keep, rates@.dom()),
        forall|code: Seq<char>| #[trigger]
            rates@.dom().contains(code) ==> call_ensures(
                invert,
                (eur_price(body@, coin_of(crypto_ids@, code)),),
                rates@[code],
            ),
        forall|code: Seq<char>| #[trigger]
            rates@.dom().contains(code) ==> crypto_ids@.dom().contains(code) && body@.dom().contains(
                crypto_ids@[code]@,
            ) && call_ensures(invert, (body@[crypto_ids@[code]@]@["eur"@],), rates@[code]),
{
    let ghost ids = crypto_ids@;
    let ghost b = body.entry_seq();
    let rev = reverse_id_map(crypto_ids);
    proof {
        lemma_rekey_fold(crypto_ids.entry_seq(), coin_id_key(), code_value());
        body.lemma_view();
    }
    let entries = body.entries();
    let n = entries.len();
    let mut rates: CodeMap<V> = CodeMap::new();
    let mut i: usize = 0;
    while i < n
        invariant
            n == entries@.len(),
            b == entry_views(entries@),
            b == body.entry_seq(),
            body.wf(),
            forall|id: Seq<char>| #[trigger] body@.dom().contains(id) ==> body@[id].wf(),
            ids == crypto_ids@,
            rev.wf(),
            rev@.dom() == reverse_ids(ids).dom(),
            forall|id: Seq<char>| #[trigger]
                rev@.dom().contains(id) ==> rev@[id]@ == reverse_ids(ids)[id],
            forall|id: Seq<char>| #[trigger]
                reverse_ids(ids).dom().contains(id) ==> is_last_key_to(
                    ids,
                    coin_id_key(),
                    id,
                    last_key_to(ids, coin_id_key(), id),
                ),
            forall|k: int|
                0 <= k < b.len() ==> #[trigger] body@.dom().contains(b[k].0) && body@[b[k].0]
                    == b[k].1,
            total1(keep),
            total1(invert),
            i <= n,
            rates.wf(),
            forall|code: Seq<char>| #[trigger]
                rates@.dom().contains(code) ==> crypto_priced(ids, body@, code) && call_ensures(
                    keep,
                    (eur_price(body@, coin_of(ids, code)),),
                    true,
                ) && key_seq(b).take(i as int).contains(coin_of(ids, code)),
            forall|code: Seq<char>|
                crypto_priced(ids, body@, code) && !call_ensures(
                    keep,
                    (eur_price(body@, coin_of(ids, code)),),
                    false,
                ) && key_seq(b).take(i as int).contains(coin_of(ids, code))
                    ==> #[trigger] rates@.dom().contains(code),
            forall|code: Seq<char>| #[trigger]
                rates@.dom().contains(code) ==> call_ensures(
                    invert,
                    (eur_price(body@, coin_of(ids, code)),),
                    rates@[code],
                ),
        decreases n - i,
    {
        let id = &entries[i].0;
        let prices = &entries[i].1;
        let ghost before = rates@;
        proof {
            assert(body@.dom().contains(b[i as int].0) && body@[b[i as int].0] == b[i as int].1);
            assert(key_seq(b).take(i + 1) =~= key_seq(b).take(i as int).push(id@));
            lemma_push_contains(key_seq(b).take(i as int), id@);
            // A code whose coin id is this one is priced only if it is the last code with it.
            assert forall|code: Seq<char>|
                crypto_priced(ids, body@, code) && coin_of(ids, code) == id@ implies #[trigger]
                reverse_ids(ids).dom().contains(id@) && reverse_ids(ids)[id@] == code by {
                assert(ids.dom().contains(code) && coin_id_key()(code, ids[code]) == id@);
                let k = last_key_to(ids, coin_id_key(), id@);
                lemma_last_key_unique(ids, coin_id_key(), id@, k, code);
            }
        }
        match rev.get(id) {
            Some(code) => {
                proof {
                    let k = last_key_to(ids, coin_id_key(), id@);
                    assert(code@ == k);
                    assert(is_last_key_to(ids, coin_id_key(), id@, k));
                    assert(coin_of(ids, k) == id@);
                }
                match prices.get("eur") {
                    Some(p) => {
                        let price = *p;
                        if keep(price) {
                            let rate = invert(price);
                            rates.insert(code.clone(), rate);
                        }
                    },
                    None => {},
                }
            },
            None => {},
        }
        i = i + 1;
    }
    assert(key_seq(b).take(n as int) =~= key_seq(b));
    assert forall|code: Seq<char>| #[trigger] crypto_priced(ids, body@, code) implies key_seq(
        b,
    ).contains(coin_of(ids, code)) by {
        let id = coin_of(ids, code);
        let k = choose|k: int| 0 <= k < b.len() && #[trigger] b[k].0 == id;
        assert(key_seq(b)[k] == id);
    }
    rates
}

} // verus!
