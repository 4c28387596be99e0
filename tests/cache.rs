use real_income::cache::{
    cache_next, datamapper_cache_key, sdmx_cache_key, sdmx_series_key, CacheEvent, CacheStep,
};
use real_income::period::YearMonth;
use std::collections::HashMap;

fn get_or_fetch(
    store: &mut HashMap<String, Vec<u8>>,
    enabled: bool,
    key: &str,
    fetch: &mut dyn FnMut() -> Vec<u8>,
) -> Vec<u8> {
    let mut step = cache_next(enabled, CacheEvent::Begin);
    loop {
        step = match step {
            CacheStep::Read => match store.get(key) {
                Some(b) => cache_next(enabled, CacheEvent::ReadHit(b.clone())),
                None => cache_next(enabled, CacheEvent::ReadMiss),
            },
            CacheStep::Fetch => cache_next(enabled, CacheEvent::Fetched(fetch())),
            CacheStep::Store(b) => {
                store.insert(key.to_string(), b.clone());
                cache_next(enabled, CacheEvent::Stored(b))
            }
            CacheStep::Done(b) => return b,
        };
    }
}

#[test]
fn cache_fetches_once() {
    let mut store = HashMap::new();
    let mut count = 0;
    let mut fetch = || {
        count += 1;
        vec![count as u8]
    };
    let a = get_or_fetch(&mut store, true, "k", &mut fetch);
    let b = get_or_fetch(&mut store, true, "k", &mut fetch);
    assert_eq!(a, b);
    assert_eq!(count, 1);
}

#[test]
fn cache_disabled_fetches_every_time() {
    let mut store = HashMap::new();
    let mut count = 0;
    let mut fetch = || {
        count += 1;
        vec![count as u8]
    };
    get_or_fetch(&mut store, false, "k", &mut fetch);
    get_or_fetch(&mut store, false, "k", &mut fetch);
    assert_eq!(count, 2);
    assert!(store.is_empty());
}

#[test]
fn cache_steps() {
    assert_eq!(cache_next(true, CacheEvent::Begin), CacheStep::Read);
    assert_eq!(cache_next(false, CacheEvent::Begin), CacheStep::Fetch);
    assert_eq!(cache_next(true, CacheEvent::ReadMiss), CacheStep::Fetch);
    assert_eq!(cache_next(true, CacheEvent::ReadHit(vec![1])), CacheStep::Done(vec![1]));
    assert_eq!(cache_next(true, CacheEvent::Fetched(vec![2])), CacheStep::Store(vec![2]));
    assert_eq!(cache_next(false, CacheEvent::Fetched(vec![2])), CacheStep::Done(vec![2]));
    assert_eq!(cache_next(true, CacheEvent::Stored(vec![3])), CacheStep::Done(vec![3]));
}

#[test]
fn cache_keys() {
    let ym = |year, month| YearMonth { year, month };
    assert_eq!(sdmx_series_key("POL"), "POL.CPI._T.IX.M");
    assert_eq!(
        sdmx_cache_key("POL", ym(2024, 1), ym(2025, 3)),
        "sdmx_cpi_xml_POL_CPI__T_IX_M_2024M01_2025M03.xml"
    );
    assert_eq!(datamapper_cache_key("CHE", 2019, 2024), "dm_PCPIPCH_CHE_2019_2024.json");
    assert_ne!(
        sdmx_cache_key("POL", ym(2024, 1), ym(2025, 3)),
        sdmx_cache_key("POL", ym(2024, 2), ym(2025, 3))
    );
    assert_ne!(
        sdmx_cache_key("A.B", ym(2024, 1), ym(2025, 3)),
        sdmx_cache_key("A_B", ym(2024, 1), ym(2025, 3))
    );
    assert_ne!(datamapper_cache_key("CHE", 2019, 2024), datamapper_cache_key("CHE", 2019, 2023));
}
