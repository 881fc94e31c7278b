use currency_api::code_map::CodeMap;
use currency_api::sources::{
    crypto_ids_param, crypto_rates_from_body, fiat_authorization, fiat_rates_from_body,
    metal_rates_from_body,
};

fn rates(pairs: &[(&str, f64)]) -> CodeMap<f64> {
    let mut m = CodeMap::new();
    for (k, v) in pairs {
        m.insert(k.to_string(), *v);
    }
    m
}

fn names(pairs: &[(&str, &str)]) -> CodeMap<String> {
    let mut m = CodeMap::new();
    for (k, v) in pairs {
        m.insert(k.to_string(), v.to_string());
    }
    m
}

fn keys<V>(m: &CodeMap<V>) -> Vec<String> {
    m.entries().iter().map(|(k, _)| k.clone()).collect()
}

#[test]
fn fiat_codes_lowercased_and_eur_present() {
    let body = rates(&[("USD", 1.08), ("GBP", 0.86), ("EUR", 0.9999)]);
    let out = fiat_rates_from_body(body, 1.0);
    assert_eq!(keys(&out), vec!["eur", "gbp", "usd"]);
    assert_eq!(out.get("eur"), Some(&1.0));
    assert_eq!(out.get("usd"), Some(&1.08));
}

#[test]
fn fiat_eur_inserted_when_missing() {
    let out = fiat_rates_from_body(rates(&[]), 1.0);
    assert_eq!(keys(&out), vec!["eur"]);
}

#[test]
fn fiat_colliding_codes_last_wins() {
    let out = fiat_rates_from_body(rates(&[("USD", 1.0), ("Usd", 2.0), ("usd", 3.0)]), 1.0);
    // Key order: "USD" < "Usd" < "usd"; the last inserted lowercased key wins.
    assert_eq!(out.get("usd"), Some(&3.0));
    assert_eq!(out.len(), 2);
}

#[test]
fn metal_codes_lowercased() {
    let out = metal_rates_from_body(rates(&[("XAU", 0.0004), ("XAG", 0.03)]));
    assert_eq!(keys(&out), vec!["xag", "xau"]);
    assert_eq!(out.get("xau"), Some(&0.0004));
}

#[test]
fn bearer_header() {
    assert_eq!(fiat_authorization(Some("k1")), Some("Bearer k1".to_string()));
    assert_eq!(fiat_authorization(None), None);
}

#[test]
fn ids_param_joins_in_code_order() {
    let ids = names(&[("eth", "ethereum"), ("btc", "bitcoin"), ("sol", "solana")]);
    assert_eq!(crypto_ids_param(&ids), Some("bitcoin,ethereum,solana".to_string()));
    assert_eq!(crypto_ids_param(&names(&[("btc", "bitcoin")])), Some("bitcoin".to_string()));
    assert_eq!(crypto_ids_param(&names(&[])), None);
}

fn body(entries: &[(&str, &[(&str, f64)])]) -> CodeMap<CodeMap<f64>> {
    let mut m = CodeMap::new();
    for (id, prices) in entries {
        m.insert(id.to_string(), rates(prices));
    }
    m
}

#[test]
fn crypto_prices_inverted() {
    let ids = names(&[("btc", "bitcoin"), ("eth", "ethereum"), ("doge", "dogecoin")]);
    let reply = body(&[
        ("bitcoin", &[("eur", 50000.0)]),
        ("ethereum", &[("eur", 2500.0), ("usd", 2700.0)]),
        ("dogecoin", &[("usd", 0.1)]),
        ("unknown", &[("eur", 3.0)]),
    ]);
    let out = crypto_rates_from_body(&ids, &reply, |p: f64| p > 0.0, |p: f64| 1.0 / p);
    assert_eq!(keys(&out), vec!["btc", "eth"]);
    assert_eq!(out.get("btc"), Some(&(1.0 / 50000.0)));
    assert_eq!(out.get("eth"), Some(&(1.0 / 2500.0)));
}

#[test]
fn crypto_non_positive_prices_skipped() {
    let ids = names(&[("a", "coin-a"), ("b", "coin-b")]);
    let reply = body(&[("coin-a", &[("eur", 0.0)]), ("coin-b", &[("eur", -1.0)])]);
    let out = crypto_rates_from_body(&ids, &reply, |p: f64| p > 0.0, |p: f64| 1.0 / p);
    assert!(out.is_empty());
}

#[test]
fn crypto_shared_coin_id_goes_to_last_code() {
    let ids = names(&[("aaa", "same"), ("zzz", "same")]);
    let reply = body(&[("same", &[("eur", 4.0)])]);
    let out = crypto_rates_from_body(&ids, &reply, |p: f64| p > 0.0, |p: f64| 1.0 / p);
    assert_eq!(keys(&out), vec!["zzz"]);
    assert_eq!(out.get("zzz"), Some(&0.25));
}

#[test]
fn ascii_codes_come_out_lowercase() {
    let out = fiat_rates_from_body(rates(&[("JPY", 160.0), ("Chf", 0.95), ("XAU", 0.0004)]), 1.0);
    for (k, _) in out.entries() {
        assert!(!k.chars().any(|c| c.is_ascii_uppercase()), "{k}");
    }
    assert_eq!(keys(&out), vec!["chf", "eur", "jpy", "xau"]);
}
