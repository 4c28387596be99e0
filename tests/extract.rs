use real_income::extract::{find_item, parse_codelist, parse_observations, ExtractError, Item};

fn pairs(items: &[Item]) -> Vec<(String, String)> {
    items.iter().map(|i| (i.code.clone(), i.name.clone())).collect()
}

#[test]
fn english_name_preferred() {
    let doc = br#"<str:Codelist xmlns:str="s" xmlns:com="c"><str:Code id="POL"><com:Name xml:lang="en">Poland</com:Name><com:Name xml:lang="fr">Pologne</com:Name></str:Code></str:Codelist>"#;
    let items = parse_codelist(doc).unwrap();
    assert_eq!(pairs(&items), vec![("POL".to_string(), "Poland".to_string())]);
}

#[test]
fn english_after_other_language_wins() {
    let doc = br#"<Codelist><Code id="DEU"><Name lang="de">Deutschland</Name><Name lang="EN">Germany</Name></Code></Codelist>"#;
    let items = parse_codelist(doc).unwrap();
    assert_eq!(pairs(&items), vec![("DEU".to_string(), "Germany".to_string())]);
}

#[test]
fn non_english_name_fallback() {
    let doc = br#"<Codelist><Code id="XYZ"><Name xml:lang="fr">Pologne</Name></Code></Codelist>"#;
    let items = parse_codelist(doc).unwrap();
    assert_eq!(pairs(&items), vec![("XYZ".to_string(), "Pologne".to_string())]);
}

#[test]
fn name_defaults_to_code() {
    let doc = br#"<Codelist><Code id="ABC"></Code><Code id="DEF"><Name>D &amp; F</Name></Code></Codelist>"#;
    let items = parse_codelist(doc).unwrap();
    assert_eq!(
        pairs(&items),
        vec![("ABC".to_string(), "ABC".to_string()), ("DEF".to_string(), "D & F".to_string())]
    );
}

#[test]
fn empty_codelist_is_error() {
    assert_eq!(parse_codelist(b"<Codelist></Codelist>").unwrap_err(), ExtractError::NoRecords);
    assert_eq!(parse_codelist(b"").unwrap_err(), ExtractError::NoRecords);
}

#[test]
fn malformed_markup_is_error() {
    assert_eq!(parse_codelist(b"<a><b></a>").unwrap_err(), ExtractError::Malformed);
}

#[test]
fn negative_observation_dropped() {
    let doc = br#"<DataSet><Obs TIME_PERIOD="2020-M01" OBS_VALUE="100.0"/><Obs TIME_PERIOD="2020-M02" OBS_VALUE="-1"/></DataSet>"#;
    let obs = parse_observations(doc).unwrap();
    assert_eq!(obs.len(), 1);
    assert_eq!(obs[0].period, "2020-M01");
    assert_eq!(obs[0].value, "100.0");
}

#[test]
fn observation_forms_and_gaps() {
    let doc = br#"<m:DataSet xmlns:m="x"><m:Obs m:TIME_PERIOD="2020-M03" OBS_VALUE="1e2"></m:Obs><Obs TIME_PERIOD="2020-M04" OBS_VALUE="0.00"/><Obs TIME_PERIOD="2020-M05"/><Obs OBS_VALUE="5"/><Obs TIME_PERIOD="2020-M06" OBS_VALUE="NaN"/><Obs TIME_PERIOD="2020-M07" OBS_VALUE=".5"/></m:DataSet>"#;
    let obs = parse_observations(doc).unwrap();
    let got: Vec<(String, String)> = obs.iter().map(|o| (o.period.clone(), o.value.clone())).collect();
    assert_eq!(
        got,
        vec![
            ("2020-M03".to_string(), "1e2".to_string()),
            ("2020-M07".to_string(), ".5".to_string())
        ]
    );
}

#[test]
fn non_numeric_value_is_error() {
    let doc = br#"<DataSet><Obs TIME_PERIOD="2020-M01" OBS_VALUE="abc"/></DataSet>"#;
    assert_eq!(parse_observations(doc).unwrap_err(), ExtractError::BadAttribute);
}

#[test]
fn no_observations_is_error() {
    let doc = br#"<DataSet><Obs TIME_PERIOD="2020-M01" OBS_VALUE="0"/></DataSet>"#;
    assert_eq!(parse_observations(doc).unwrap_err(), ExtractError::NoRecords);
}

#[test]
fn undecodable_id_is_error() {
    let doc = br#"<Codelist><Code id="A&bogus;B"/><Code id="A&bogus;"></Code></Codelist>"#;
    assert_eq!(parse_codelist(doc).unwrap_err(), ExtractError::BadAttribute);
}

#[test]
fn first_matching_item() {
    let items = vec![
        Item { code: "CHE".to_string(), name: "Switzerland".to_string() },
        Item { code: "USA".to_string(), name: "United States".to_string() },
        Item { code: "CHE".to_string(), name: "Swiss restated".to_string() },
    ];
    assert_eq!(find_item(&items, "CHE"), Some(0));
    assert_eq!(find_item(&items, "USA"), Some(1));
    assert_eq!(find_item(&items, "DEU"), None);
}
