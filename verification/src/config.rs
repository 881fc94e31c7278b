//! Runtime configuration: the endpoints and keys of the rate sources.
use vstd::prelude::*;
use vstd::string::*;
use crate::text::{contains_seq, contains_str, occurs_at, replace_seq, replace_str};

verus! {

/// Runtime configuration of the rate sources.
pub struct Config {
    /// Full URL for the EUR-based fiat rate endpoint.
    /// Default: https://open.er-api.com/v6/latest/EUR (1500 req/month free, no key)
    ///
    /// For exchangerate-api.com, embed the key via the `{key}` placeholder:
    ///   FIAT_API_URL=https://v6.exchangerate-api.com/v6/{key}/latest/EUR
    ///   FIAT_API_KEY=your_actual_key
    /// The placeholder is substituted at startup; the key is then not sent as a header.
    pub fiat_api_url: String,
    /// Optional Bearer token / API key for the fiat source.
    /// None when the key was already embedded in `fiat_api_url` via `{key}`.
    pub fiat_api_key: Option<String>,
    /// Base URL for the crypto price endpoint (CoinGecko-compatible).
    /// Default: https://api.coingecko.com/api/v3/simple/price
    pub crypto_api_url: String,
    /// Optional API key sent as `x-cg-demo-api-key` header.
    pub crypto_api_key: Option<String>,
    /// URL for the precious metals endpoint (metalpriceapi.com-compatible).
    /// Default: https://api.metalpriceapi.com/v1/latest?base=EUR&currencies=XAU,XAG,XPT,XPD
    pub metals_api_url: String,
    /// API key sent as `X-API-KEY` header. If absent, metals are skipped.
    pub metals_api_key: Option<String>,
}

/// The fiat endpoint used when none is configured.
pub open spec fn default_fiat_url() -> Seq<char> {
    "https://open.er-api.com/v6/latest/EUR"@
}

/// The crypto endpoint used when none is configured.
pub open spec fn default_crypto_url() -> Seq<char> {
    "https://api.coingecko.com/api/v3/simple/price"@
}

/// The metals endpoint used when none is configured.
pub open spec fn default_metals_url() -> Seq<char> {
    "https://api.metalpriceapi.com/v1/latest?base=EUR&currencies=XAU,XAG,XPT,XPD"@
}

/// The placeholder in the fiat URL that the fiat key replaces.
pub open spec fn key_placeholder() -> Seq<char> {
    "{key}"@
}

/// Whether a variable is set: present and not empty. A variable set to the empty
/// string (as a workflow passes a secret that was never defined) counts as unset.
pub open spec fn is_set(v: Option<String>) -> bool {
    v is Some && v->0@.len() > 0
}

/// The value of a variable when it is set, `None` otherwise.
pub open spec fn set_value(v: Option<String>) -> Option<String> {
    if is_set(v) {
        v
    } else {
        None
    }
}

/// A configured value, or the default when the variable is not set.
pub open spec fn or_default(v: Option<String>, default: Seq<char>) -> Seq<char> {
    if is_set(v) {
        v->0@
    } else {
        default
    }
}

/// Whether the fiat key goes into the URL in place of the placeholder,
/// rather than into a header.
pub open spec fn key_in_url(raw_url: Seq<char>, key: Option<String>) -> bool {
    is_set(key) && contains_seq(raw_url, key_placeholder())
}

/// A variable that is present and nonempty is used as given; an absent or empty
/// one gives the default, or no key at all.
pub proof fn law_unset_values(v: Option<String>, default: Seq<char>)
    ensures
        v is Some && v->0@.len() > 0 ==> or_default(v, default) == v->0@ && set_value(v) == v,
        v is None || v->0@.len() == 0 ==> or_default(v, default) == default && set_value(v) is None,
{
}

/// The fiat key goes into the URL exactly when a nonempty key is given and the URL
/// holds `{key}` somewhere, whatever the key and the URL otherwise look like.
pub proof fn law_key_in_url(raw_url: Seq<char>, key: Option<String>)
    ensures
        key_in_url(raw_url, key) <==> (key is Some && key->0@.len() > 0 && exists|i: int|
            0 <= i && i + 5 <= raw_url.len() && #[trigger] raw_url.subrange(i, i + 5) == "{key}"@),
{
    reveal_strlit("{key}");
    if exists|i: int|
        0 <= i && i + 5 <= raw_url.len() && #[trigger] raw_url.subrange(i, i + 5) == "{key}"@ {
        let i = choose|i: int|
            0 <= i && i + 5 <= raw_url.len() && #[trigger] raw_url.subrange(i, i + 5) == "{key}"@;
        assert(occurs_at(raw_url, key_placeholder(), i));
    }
}

/// The value of a variable when it is set, `None` when it is absent or empty.
fn nonempty(v: Option<String>) -> (r: Option<String>)
    ensures
        r == set_value(v),
{
    match v {
        Some(s) => {
            if s.as_str().is_empty() {
                None
            } else {
                Some(s)
            }
        },
        None => None,
    }
}

/// The configured value, or the default when the variable is not set.
fn value_or(v: Option<String>, default: &str) -> (r: String)
    ensures
        r@ == or_default(v, default@),
{
    match nonempty(v) {
        Some(s) => s,
        None => String::from_str(default),
    }
}

impl Config {
    /// Builds the configuration from the values of the environment variables
    /// `FIAT_API_URL`, `FIAT_API_KEY`, `CRYPTO_API_URL`, `CRYPTO_API_KEY`,
    /// `METALS_API_URL` and `METALS_API_KEY` (each `None` when unset). A variable
    /// set to the empty string counts as unset: its default applies, or no key.
    ///
    /// If the fiat URL contains `{key}` and a fiat key is given, the key is
    /// substituted for every `{key}` and cleared, so that it is not also sent
    /// as a Bearer header (exchangerate-api.com takes the key in the URL).
    pub fn from_env(
        fiat_api_url: Option<String>,
        fiat_api_key: Option<String>,
        crypto_api_url: Option<String>,
        crypto_api_key: Option<String>,
        metals_api_url: Option<String>,
        metals_api_key: Option<String>,
    ) -> (cfg: Config)
        ensures
            key_in_url(or_default(fiat_api_url, default_fiat_url()), fiat_api_key) ==> {
                &&& cfg.fiat_api_url@ == replace_seq(
                    or_default(fiat_api_url, default_fiat_url()),
                    key_placeholder(),
                    fiat_api_key->0@,
                )
                &&& cfg.fiat_api_key is None
            },
            !key_in_url(or_default(fiat_api_url, default_fiat_url()), fiat_api_key) ==> {
                &&& cfg.fiat_api_url@ == or_default(fiat_api_url, default_fiat_url())
                &&& cfg.fiat_api_key == set_value(fiat_api_key)
            },
            cfg.crypto_api_url@ == or_default(crypto_api_url, default_crypto_url()),
            cfg.crypto_api_key == set_value(crypto_api_key),
            cfg.metals_api_url@ == or_default(metals_api_url, default_metals_url()),
            cfg.metals_api_key == set_value(metals_api_key),
    {
        let raw_url = value_or(fiat_api_url, "https://open.er-api.com/v6/latest/EUR");
        let placeholder = "{key}";
        proof {
            reveal_strlit("{key}");
        }
        let (fiat_url, fiat_key) = match nonempty(fiat_api_key) {
            Some(key) => {
                if contains_str(raw_url.as_str(), placeholder) {
                    (replace_str(raw_url.as_str(), placeholder, key.as_str()), None)
                } else {
                    (raw_url, Some(key))
                }
            },
            None => (raw_url, None),
        };
        Config {
            fiat_api_url: fiat_url,
            fiat_api_key: fiat_key,
            crypto_api_url: value_or(
                crypto_api_url,
                "https://api.coingecko.com/api/v3/simple/price",
            ),
            crypto_api_key: nonempty(crypto_api_key),
            metals_api_url: value_or(
                metals_api_url,
                "https://api.metalpriceapi.com/v1/latest?base=EUR&currencies=XAU,XAG,XPT,XPD",
            ),
            metals_api_key: nonempty(metals_api_key),
        }
    }
}

} // verus!
