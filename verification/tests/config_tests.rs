use currency_api::config::Config;

fn s(x: &str) -> Option<String> {
    Some(x.to_string())
}

#[test]
fn defaults_when_unset() {
    let cfg = Config::from_env(None, None, None, None, None, None);
    assert_eq!(cfg.fiat_api_url, "https://open.er-api.com/v6/latest/EUR");
    assert_eq!(cfg.fiat_api_key, None);
    assert_eq!(cfg.crypto_api_url, "https://api.coingecko.com/api/v3/simple/price");
    assert_eq!(cfg.crypto_api_key, None);
    assert_eq!(
        cfg.metals_api_url,
        "https://api.metalpriceapi.com/v1/latest?base=EUR&currencies=XAU,XAG,XPT,XPD"
    );
    assert_eq!(cfg.metals_api_key, None);
}

#[test]
fn key_substituted_into_url() {
    let cfg = Config::from_env(
        s("https://v6.exchangerate-api.com/v6/{key}/latest/EUR"),
        s("secret"),
        None,
        None,
        None,
        None,
    );
    assert_eq!(cfg.fiat_api_url, "https://v6.exchangerate-api.com/v6/secret/latest/EUR");
    assert_eq!(cfg.fiat_api_key, None);
}

#[test]
fn key_kept_as_bearer_without_placeholder() {
    let cfg = Config::from_env(s("https://example.com/eur"), s("secret"), None, s("cg"), None, s("m"));
    assert_eq!(cfg.fiat_api_url, "https://example.com/eur");
    assert_eq!(cfg.fiat_api_key, s("secret"));
    assert_eq!(cfg.crypto_api_key, s("cg"));
    assert_eq!(cfg.metals_api_key, s("m"));
}

#[test]
fn placeholder_without_key_left_alone() {
    let cfg = Config::from_env(s("https://x/{key}"), None, s("https://c"), None, s("https://m"), None);
    assert_eq!(cfg.fiat_api_url, "https://x/{key}");
    assert_eq!(cfg.fiat_api_key, None);
    assert_eq!(cfg.crypto_api_url, "https://c");
    assert_eq!(cfg.metals_api_url, "https://m");
}

#[test]
fn empty_values_count_as_unset() {
    let cfg = Config::from_env(s(""), s(""), s(""), s(""), s(""), s(""));
    assert_eq!(cfg.fiat_api_url, "https://open.er-api.com/v6/latest/EUR");
    assert_eq!(cfg.fiat_api_key, None);
    assert_eq!(cfg.crypto_api_url, "https://api.coingecko.com/api/v3/simple/price");
    assert_eq!(cfg.crypto_api_key, None);
    assert_eq!(
        cfg.metals_api_url,
        "https://api.metalpriceapi.com/v1/latest?base=EUR&currencies=XAU,XAG,XPT,XPD"
    );
    assert_eq!(cfg.metals_api_key, None);
}

#[test]
fn empty_key_leaves_placeholder() {
    let cfg = Config::from_env(s("https://x/{key}/eur"), s(""), None, None, None, None);
    assert_eq!(cfg.fiat_api_url, "https://x/{key}/eur");
    assert_eq!(cfg.fiat_api_key, None);
}
