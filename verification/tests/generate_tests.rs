use currency_api::code_map::CodeMap;
use currency_api::generate::{plan_generation, split_stamp};

fn rates(pairs: &[(&str, f64)]) -> CodeMap<f64> {
    let mut m = CodeMap::new();
    for (k, v) in pairs {
        m.insert(k.to_string(), *v);
    }
    m
}

fn names(pairs: &[(&str, &str)]) -> CodeMap<String> {
    let mut m = CodeMap::new();
    for (k, v) in pairs {
        m.insert(k.to_string(), v.to_string());
    }
    m
}

#[test]
fn plan_lists_and_files() {
    let eur = rates(&[("eur", 1.0), ("usd", 2.0), ("jpy", 0.0), ("xxx", 5.0)]);
    let list = names(&[("usd", "US Dollar"), ("eur", "Euro"), ("jpy", "Yen"), ("gbp", "Pound")]);
    let plan = plan_generation("2026-03-06", &eur, &list, |r: f64| r == 0.0, |a: f64, b: f64| a / b);
    assert_eq!(plan.supported, vec!["eur", "jpy", "usd"]);
    let avail: Vec<(String, String)> = plan.available.entries().clone();
    assert_eq!(
        avail,
        vec![
            ("eur".to_string(), "Euro".to_string()),
            ("usd".to_string(), "US Dollar".to_string())
        ]
    );
    assert_eq!(plan.files.len(), 2);
    let f = &plan.files[1];
    assert_eq!(f.base, "usd");
    assert_eq!(f.pretty_name, "usd.json");
    assert_eq!(f.min_name, "usd.min.json");
    assert_eq!(f.output.date, "2026-03-06");
    assert_eq!(f.output.timestamp, None);
    assert_eq!(f.output.rates.len(), 1);
    let row = f.output.rates.get("usd").unwrap();
    assert_eq!(row.get("eur"), Some(&0.5));
    assert_eq!(row.get("jpy"), Some(&0.0));
    assert_eq!(row.get("usd"), Some(&1.0));
    assert_eq!(row.len(), 3);
    assert_eq!(plan.files[0].base, "eur");
    assert_eq!(plan.files[0].min_name, "eur.min.json");
}

#[test]
fn plan_empty_when_no_rates() {
    let plan = plan_generation("d", &rates(&[]), &names(&[("usd", "US Dollar")]), |r: f64| r == 0.0, |a: f64, b: f64| a / b);
    assert!(plan.supported.is_empty());
    assert!(plan.available.is_empty());
    assert!(plan.files.is_empty());
}

#[test]
fn plan_sub_daily_stamp() {
    let eur = rates(&[("eur", 1.0)]);
    let list = names(&[("eur", "Euro")]);
    let plan = plan_generation("2026-03-07T14:30", &eur, &list, |r: f64| r == 0.0, |a: f64, b: f64| a / b);
    assert_eq!(plan.files.len(), 1);
    let out = &plan.files[0].output;
    assert_eq!(out.date, "2026-03-07");
    assert_eq!(out.timestamp, Some("2026-03-07T14:30:00Z".to_string()));
    assert_eq!(out.rates.get("eur").unwrap().get("eur"), Some(&1.0));
}

#[test]
fn split_stamp_forms() {
    assert_eq!(split_stamp("2026-01-15"), ("2026-01-15".to_string(), None));
    assert_eq!(
        split_stamp("2026-03-07T14:30"),
        ("2026-03-07".to_string(), Some("2026-03-07T14:30:00Z".to_string()))
    );
    assert_eq!(split_stamp(""), (String::new(), None));
}
