use real_income::catalog::{
    countries_from_json, sort_items_by_name, sort_order, CountryListError,
};
use real_income::extract::Item;

fn item(code: &str, name: &str) -> Item {
    Item { code: code.to_string(), name: name.to_string() }
}

fn names(items: &[Item]) -> Vec<String> {
    items.iter().map(|i| i.name.clone()).collect()
}

#[test]
fn sorted_ignoring_case() {
    let items = vec![item("B", "beta"), item("A", "Alpha"), item("Z", "zeta"), item("G", "Gamma")];
    let sorted = sort_items_by_name(&items);
    assert_eq!(names(&sorted), vec!["Alpha", "beta", "Gamma", "zeta"]);
}

#[test]
fn sort_folds_case() {
    let items = vec![item("1", "a"), item("2", "B")];
    let sorted = sort_items_by_name(&items);
    assert_eq!(names(&sorted), vec!["a", "B"]);
}

#[test]
fn sort_is_stable() {
    let keys: Vec<String> = vec!["b".into(), "a".into(), "b".into(), "a".into(), "".into()];
    assert_eq!(sort_order(&keys), vec![4, 1, 3, 0, 2]);
    let items = vec![item("X", "Same"), item("Y", "same"), item("Z", "SAME")];
    let sorted = sort_items_by_name(&items);
    let codes: Vec<String> = sorted.iter().map(|i| i.code.clone()).collect();
    assert_eq!(codes, vec!["X", "Y", "Z"]);
}

#[test]
fn sort_empty() {
    assert!(sort_items_by_name(&Vec::new()).is_empty());
    assert!(sort_order(&Vec::new()).is_empty());
}

#[test]
fn countries_json_nested() {
    let doc = br#"{"countries": {"USA": {"label": "United States"}, "CHE": {"label": "Switzerland"}, "XKX": {}, "DEU": {"label": 5}}}"#;
    let items = countries_from_json(doc).unwrap();
    let got: Vec<(String, String)> = items.iter().map(|i| (i.code.clone(), i.name.clone())).collect();
    assert_eq!(
        got,
        vec![
            ("DEU".to_string(), "DEU".to_string()),
            ("CHE".to_string(), "Switzerland".to_string()),
            ("USA".to_string(), "United States".to_string()),
            ("XKX".to_string(), "XKX".to_string()),
        ]
    );
}

#[test]
fn countries_json_flat_and_errors() {
    let items = countries_from_json(br#"{"FRA": {"label": "France"}}"#).unwrap();
    assert_eq!(items[0].name, "France");
    assert_eq!(countries_from_json(b"not json").unwrap_err(), CountryListError::NotJson);
    assert_eq!(countries_from_json(b"[1, 2]").unwrap_err(), CountryListError::NotAnObject);
    assert_eq!(countries_from_json(br#"{"countries": 3}"#).unwrap_err(), CountryListError::NotAnObject);
    assert_eq!(countries_from_json(br#"{"countries": {}}"#).unwrap_err(), CountryListError::EmptyList);
    assert_eq!(countries_from_json(b"{}").unwrap_err(), CountryListError::EmptyList);
}
