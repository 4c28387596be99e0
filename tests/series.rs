use real_income::extract::Observation;
use real_income::series::{
    bytes_lt, collect_yearly_chain, pick_start_and_latest, rates_from_json, year_string, ChainError,
    RatesError, ResolveError,
};

fn obs(period: &str, value: &str) -> Observation {
    Observation { period: period.to_string(), value: value.to_string() }
}

fn months(from_year: u32, to: (u32, u32), skip: &[&str]) -> Vec<Observation> {
    let mut out = Vec::new();
    let mut y = from_year;
    let mut m = 1;
    while (y, m) <= to {
        let t = format!("{:04}-M{:02}", y, m);
        if !skip.contains(&t.as_str()) {
            out.push(obs(&t, &format!("{}.5", 100 + out.len())));
        }
        m += 1;
        if m == 13 {
            m = 1;
            y += 1;
        }
    }
    out
}

#[test]
fn start_and_latest_present() {
    let mut o = months(2020, (2021, 6), &[]);
    o.reverse();
    let (k, l) = pick_start_and_latest(&o, "2020-M06").unwrap();
    assert_eq!(o[k].period, "2020-M06");
    assert_eq!(o[l].period, "2021-M06");
}

#[test]
fn start_missing_takes_next() {
    let o = months(2020, (2021, 6), &["2020-M06"]);
    let (k, l) = pick_start_and_latest(&o, "2020-M06").unwrap();
    assert_eq!(o[k].period, "2020-M07");
    assert_eq!(o[l].period, "2021-M06");
}

#[test]
fn start_after_all_data() {
    let o = months(2020, (2021, 6), &[]);
    assert_eq!(pick_start_and_latest(&o, "2022-M01"), Err(ResolveError::NothingAtStart));
    assert_eq!(pick_start_and_latest(&Vec::new(), "2022-M01"), Err(ResolveError::NoData));
}

#[test]
fn equal_tokens_stable() {
    let o = vec![obs("2020-M02", "1"), obs("2020-M01", "2"), obs("2020-M02", "3"), obs("2020-M01", "4")];
    assert_eq!(pick_start_and_latest(&o, "2020-M01"), Ok((1, 2)));
}

#[test]
fn non_positive_pick_rejected() {
    let o = vec![obs("2020-M01", "0"), obs("2020-M02", "5")];
    assert_eq!(pick_start_and_latest(&o, "2020-M01"), Err(ResolveError::NonPositive));
}

#[test]
fn byte_order() {
    assert!(bytes_lt(b"2020-M09", b"2020-M11"));
    assert!(bytes_lt(b"2020-M11", b"2021-M01"));
    assert!(!bytes_lt(b"2021-M01", b"2021-M01"));
    assert!(bytes_lt(b"2021", b"2021-M01"));
}

#[test]
fn chain_skips_missing_years() {
    let keys: Vec<String> = vec!["2019".into(), "2021".into(), "2020".into(), "2024".into()];
    let ch = collect_yearly_chain(2020, 2023, &keys).unwrap();
    assert_eq!(ch.picks, vec![(2020, 2), (2021, 1)]);
    assert_eq!(ch.latest_year, 2021);
}

#[test]
fn chain_without_data() {
    let keys: Vec<String> = vec!["2019".into()];
    assert_eq!(collect_yearly_chain(2020, 2023, &keys).unwrap_err(), ChainError::NoData);
}

#[test]
fn chain_deflator_example() {
    let keys: Vec<String> = vec!["2020".into(), "2021".into()];
    let rates = [10.0_f64, -5.0];
    let ch = collect_yearly_chain(2020, 2021, &keys).unwrap();
    let deflator: f64 = ch.picks.iter().map(|&(_, i)| 1.0 + rates[i] / 100.0).product();
    assert!((deflator - 1.045).abs() < 1e-12);
    let real = 100000.0 / deflator;
    assert!((real - 100000.0 / 1.045).abs() < 1e-9);
}

#[test]
fn year_text() {
    assert_eq!(year_string(2024), "2024");
    assert_eq!(year_string(1800), "1800");
}

#[test]
fn rates_document() {
    let doc = br#"{"values": {"PCPIPCH": {"CHE": {"2020": -0.7, "2021": 0.6, "2022": "n/a", "2023": 2}}}}"#;
    let r = rates_from_json(doc, "PCPIPCH", "CHE").unwrap();
    let keys: Vec<String> = r.iter().map(|p| p.0.clone()).collect();
    assert_eq!(keys, vec!["2020", "2021", "2023"]);
    let vals: Vec<f64> = r.iter().map(|p| p.1.parse().unwrap()).collect();
    assert_eq!(vals, vec![-0.7, 0.6, 2.0]);
    let ch = collect_yearly_chain(2020, 2023, &keys).unwrap();
    assert_eq!(ch.latest_year, 2023);
    assert_eq!(ch.picks, vec![(2020, 0), (2021, 1), (2023, 2)]);
}

#[test]
fn rates_document_errors() {
    assert_eq!(rates_from_json(b"nope", "PCPIPCH", "CHE"), Err(RatesError::NotJson));
    assert_eq!(rates_from_json(b"{}", "PCPIPCH", "CHE"), Err(RatesError::MissingValues));
    let doc = br#"{"values": {"PCPIPCH": {"USA": {"2020": 1.2}}}}"#;
    assert_eq!(rates_from_json(doc, "PCPIPCH", "CHE"), Err(RatesError::NoSeries));
    assert_eq!(rates_from_json(doc, "NGDP", "USA"), Err(RatesError::NoSeries));
}
