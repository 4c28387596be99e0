use real_income::period::{
    clamp_end_to_today, format_ym, parse_monthly, parse_year_loose, resolve_monthly_end,
    resolve_yearly_end, sdmx_period_to_ym, to_wire_period, ym_to_sdmx_period, ParseError,
    RangeError, YearMonth,
};

fn ym(year: u32, month: u32) -> YearMonth {
    YearMonth { year, month }
}

#[test]
fn parse_monthly_accepts_pattern() {
    assert_eq!(parse_monthly("2021-01"), Ok(ym(2021, 1)));
    assert_eq!(parse_monthly("0999-12"), Ok(ym(999, 12)));
}

#[test]
fn parse_monthly_rejects_shapes() {
    assert_eq!(parse_monthly("2021-1"), Err(ParseError::BadFormat));
    assert_eq!(parse_monthly("2021/01"), Err(ParseError::BadFormat));
    assert_eq!(parse_monthly("+202-01"), Err(ParseError::BadFormat));
    assert_eq!(parse_monthly(" 2021-01"), Err(ParseError::BadFormat));
    assert_eq!(parse_monthly(""), Err(ParseError::BadFormat));
    assert_eq!(parse_monthly("２０２１-01"), Err(ParseError::BadFormat));
}

#[test]
fn parse_monthly_rejects_month_range() {
    assert_eq!(parse_monthly("2021-13"), Err(ParseError::OutOfRange));
    assert_eq!(parse_monthly("2021-00"), Err(ParseError::OutOfRange));
}

#[test]
fn parse_year_loose_cases() {
    assert_eq!(parse_year_loose("2021"), Ok(2021));
    assert_eq!(parse_year_loose("2021-07"), Ok(2021));
    assert_eq!(parse_year_loose("2021-anything"), Ok(2021));
    assert_eq!(parse_year_loose("+1999"), Ok(1999));
    assert_eq!(parse_year_loose(" 1800 "), Ok(1800));
    assert_eq!(parse_year_loose("\t2021-05\n"), Ok(2021));
    assert_eq!(parse_year_loose("\u{3000}2022"), Ok(2022));
    assert_eq!(parse_year_loose("   "), Err(ParseError::BadFormat));
    assert_eq!(parse_year_loose("abcd"), Err(ParseError::BadFormat));
    assert_eq!(parse_year_loose("1800"), Ok(1800));
    assert_eq!(parse_year_loose("3000"), Ok(3000));
    assert_eq!(parse_year_loose("1799"), Err(ParseError::OutOfRange));
    assert_eq!(parse_year_loose("3001"), Err(ParseError::OutOfRange));
    assert_eq!(parse_year_loose("99999999999999"), Err(ParseError::OutOfRange));
    assert_eq!(parse_year_loose("-2021"), Err(ParseError::BadFormat));
    assert_eq!(parse_year_loose("20x1"), Err(ParseError::BadFormat));
    assert_eq!(parse_year_loose(""), Err(ParseError::BadFormat));
}

#[test]
fn wire_tokens() {
    assert_eq!(to_wire_period(ym(2024, 1)), "2024-M01");
    assert_eq!(to_wire_period(ym(2025, 11)), "2025-M11");
    assert_eq!(format_ym(ym(2025, 11)), "2025-11");
    assert_eq!(ym_to_sdmx_period("2020-06"), Ok("2020-M06".to_string()));
    assert_eq!(ym_to_sdmx_period("2020-6"), Err(ParseError::BadFormat));
}

#[test]
fn wire_to_entry_text() {
    assert_eq!(sdmx_period_to_ym("2025-M11"), "2025-11");
    assert_eq!(sdmx_period_to_ym("2025"), "2025");
    assert_eq!(sdmx_period_to_ym("2025-Q1xx"), "2025-Q1xx");
    assert_eq!(sdmx_period_to_ym("2025-M1x"), "2025-M1x");
    assert_eq!(sdmx_period_to_ym("éé-M01"), "éé-01");
    assert_eq!(sdmx_period_to_ym("é1-M01"), "é1-M01");
}

#[test]
fn monthly_round_trip_examples() {
    for s in ["2020-01", "1999-12", "0001-07", "9999-10"] {
        let p = parse_monthly(s).unwrap();
        let back = sdmx_period_to_ym(&to_wire_period(p));
        assert_eq!(back, s);
        assert_eq!(parse_monthly(&back), Ok(p));
    }
}

#[test]
fn wire_tokens_sort_chronologically() {
    let a = to_wire_period(ym(2020, 9));
    let b = to_wire_period(ym(2020, 11));
    let c = to_wire_period(ym(2021, 1));
    assert_eq!(a, "2020-M09");
    assert!(a < b && b < c);
}

#[test]
fn end_clamped_and_checked() {
    let today = ym(2025, 3);
    assert_eq!(clamp_end_to_today(ym(2026, 1), today), today);
    assert_eq!(clamp_end_to_today(ym(2024, 12), today), ym(2024, 12));
    assert_eq!(resolve_monthly_end(ym(2020, 1), None, today), Ok(today));
    assert_eq!(resolve_monthly_end(ym(2020, 1), Some(ym(2030, 1)), today), Ok(today));
    assert_eq!(
        resolve_monthly_end(ym(2024, 6), Some(ym(2024, 5)), today),
        Err(RangeError::EndBeforeStart)
    );
    assert_eq!(resolve_yearly_end(2020, None, 2025), Ok(2025));
    assert_eq!(resolve_yearly_end(2020, Some(2040), 2025), Ok(2025));
    assert_eq!(resolve_yearly_end(2020, Some(2019), 2025), Err(RangeError::EndBeforeStart));
}
