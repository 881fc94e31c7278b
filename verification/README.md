# currency_api

A static currency exchange-rate API: EUR-based fiat, crypto and metal rates are
fetched, merged, turned into cross rates for every supported currency, and
written as a tree of JSON files (`v1/currencies.json`, `v1/currencies/{code}.json`
and their `.min.json` forms) ready for a CDN.

Layout:

- `src/` — the verified library (Verus):
  - `text.rs`: character-level string operations (ordering, search, replace);
  - `code_map.rs`: `CodeMap`, a map kept in ascending key order;
  - `normalize.rs`: merging rate sources and computing cross rates;
  - `config.rs`: resolving the configuration from environment values;
  - `sources.rs`: what is computed from the replies of the rate sources;
  - `generate.rs`: planning the published files.
- `app/` — the `fetcher` program: command line, HTTP requests, JSON parsing and
  writing, file output.
- `tests/` — tests of the library.

Maps keyed by currency code are `CodeMap`s rather than `BTreeMap<String, _>`:
Verus accepts calls on std's ordered map with `String` keys but proves nothing
about them, so the library keeps its own map, entries in ascending code order
(the order `BTreeMap` iterates in), each code once.

Snapshot stamps are `YYYY-MM-DD` or `YYYY-MM-DDTHH:MM`; the second form gives each
output both a `date` and a `timestamp` (`YYYY-MM-DDTHH:MM:00Z`). Environment
variables set to the empty string count as unset.

Rates are generic in the library; the program instantiates them with `f64` and
supplies the floating-point comparison and division as closures.
