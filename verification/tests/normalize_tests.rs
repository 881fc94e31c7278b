use currency_api::code_map::CodeMap;
use currency_api::normalize::{compute_cross_rates, merge_rates};

fn rates(pairs: &[(&str, f64)]) -> CodeMap<f64> {
    let mut m = CodeMap::new();
    for (k, v) in pairs {
        m.insert(k.to_string(), *v);
    }
    m
}

fn keys<V>(m: &CodeMap<V>) -> Vec<String> {
    m.entries().iter().map(|(k, _)| k.clone()).collect()
}

fn cross(eur: &CodeMap<f64>, supported: &[&str]) -> CodeMap<CodeMap<f64>> {
    let sup: Vec<String> = supported.iter().map(|s| s.to_string()).collect();
    compute_cross_rates(eur, &sup, |r: f64| r == 0.0, |a: f64, b: f64| a / b)
}

#[test]
fn merge_crypto_overrides_fiat() {
    let fiat = rates(&[("usd", 1.1), ("btc", 99.0), ("eur", 1.0)]);
    let crypto = rates(&[("btc", 0.00002), ("eth", 0.0004)]);
    let merged = merge_rates(fiat, crypto);
    assert_eq!(keys(&merged), vec!["btc", "eth", "eur", "usd"]);
    assert_eq!(merged.get("btc"), Some(&0.00002));
    assert_eq!(merged.get("eth"), Some(&0.0004));
    assert_eq!(merged.get("usd"), Some(&1.1));
    assert_eq!(merged.get("eur"), Some(&1.0));
}

#[test]
fn merge_with_empty_sources() {
    let merged = merge_rates(rates(&[]), rates(&[("eth", 0.5)]));
    assert_eq!(keys(&merged), vec!["eth"]);
    let merged = merge_rates(rates(&[("usd", 2.0)]), rates(&[]));
    assert_eq!(keys(&merged), vec!["usd"]);
    assert_eq!(merged.len(), 1);
}

#[test]
fn cross_rates_formula() {
    let eur = rates(&[("eur", 1.0), ("usd", 2.0), ("gbp", 0.5)]);
    let all = cross(&eur, &["eur", "gbp", "usd"]);
    assert_eq!(keys(&all), vec!["eur", "gbp", "usd"]);
    let usd = all.get("usd").unwrap();
    assert_eq!(usd.get("eur"), Some(&0.5));
    assert_eq!(usd.get("gbp"), Some(&0.25));
    assert_eq!(usd.get("usd"), Some(&1.0));
    let gbp = all.get("gbp").unwrap();
    assert_eq!(gbp.get("usd"), Some(&4.0));
    assert_eq!(gbp.get("eur"), Some(&2.0));
}

#[test]
fn cross_rates_only_supported_with_rates() {
    let eur = rates(&[("eur", 1.0), ("usd", 2.0), ("jpy", 160.0)]);
    let all = cross(&eur, &["usd", "eur", "xyz"]);
    assert_eq!(keys(&all), vec!["eur", "usd"]);
    let eur_row = all.get("eur").unwrap();
    assert_eq!(keys(eur_row), vec!["eur", "usd"]);
    assert!(!eur_row.contains_key("jpy"));
    assert!(!eur_row.contains_key("xyz"));
}

#[test]
fn cross_rates_skip_zero_base() {
    let eur = rates(&[("eur", 1.0), ("bad", 0.0)]);
    let all = cross(&eur, &["bad", "eur"]);
    assert_eq!(keys(&all), vec!["eur"]);
    let row = all.get("eur").unwrap();
    assert_eq!(row.get("bad"), Some(&0.0));
    assert_eq!(row.get("eur"), Some(&1.0));
}

#[test]
fn cross_rates_rows_share_targets() {
    let eur = rates(&[("aud", 1.6), ("eur", 1.0), ("usd", 1.1)]);
    let all = cross(&eur, &["aud", "eur", "usd"]);
    for (base, row) in all.entries() {
        assert_eq!(keys(row), vec!["aud", "eur", "usd"]);
        assert!(row.contains_key(base));
    }
    assert_eq!(all.len(), 3);
}

#[test]
fn cross_rates_empty_inputs() {
    let all = cross(&rates(&[]), &["usd"]);
    assert!(all.is_empty());
    let all = cross(&rates(&[("usd", 1.0)]), &[]);
    assert!(all.is_empty());
}

#[test]
fn cross_rates_independent_of_supported_order() {
    let eur = rates(&[("aud", 1.6), ("eur", 1.0), ("usd", 1.1), ("zer", 0.0)]);
    let a = cross(&eur, &["usd", "aud", "eur", "zer"]);
    let b = cross(&eur, &["eur", "zer", "usd", "aud", "usd"]);
    assert_eq!(a.entries().len(), b.entries().len());
    for ((ka, ra), (kb, rb)) in a.entries().iter().zip(b.entries().iter()) {
        assert_eq!(ka, kb);
        assert_eq!(ra.entries(), rb.entries());
    }
}
