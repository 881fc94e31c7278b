use currency_api::text::{concat_str, contains_str, replace_str, str_eq, str_lt};

#[test]
fn contains_and_replace() {
    let url = "https://v6.exchangerate-api.com/v6/{key}/latest/EUR";
    assert!(contains_str(url, "{key}"));
    assert!(!contains_str("https://open.er-api.com/v6/latest/EUR", "{key}"));
    assert_eq!(
        replace_str(url, "{key}", "abc123"),
        "https://v6.exchangerate-api.com/v6/abc123/latest/EUR"
    );
    assert_eq!(replace_str("{key}{key}x{ke", "{key}", "K"), "KKx{ke");
    assert_eq!(replace_str("aaa", "aa", "b"), "ba");
    assert!(contains_str("abc", ""));
    assert!(!contains_str("ab", "abc"));
}

#[test]
fn comparisons() {
    assert!(str_lt("abc", "abd"));
    assert!(str_lt("ab", "abc"));
    assert!(!str_lt("abc", "abc"));
    assert!(!str_lt("b", "a"));
    assert!(str_eq("eur", "eur"));
    assert!(!str_eq("eur", "eu"));
    assert_eq!(concat_str("usd", ".json"), "usd.json");
}
