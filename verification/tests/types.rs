use sprokkel::types;
use sprokkel::types::{file_name_into_date_and_slug, Date, Time};

#[test]
fn parse_file_name() {
    assert_eq!(
        file_name_into_date_and_slug("2024-04-16_a-test_!"),
        (Some((Date::new(2024, 04, 16), None)), "a-test_!".to_string())
    );
    assert_eq!(
        file_name_into_date_and_slug("2024-04-16-a-test-!"),
        (None, "2024-04-16-a-test-!".to_string())
    );
    assert_eq!(file_name_into_date_and_slug("_"), (None, "".to_string()));
    assert_eq!(file_name_into_date_and_slug(""), (None, "".to_string()));
}

#[test]
fn parse_date_time() {
    let (date, time) = types::parse_date_time("2024-04-16").unwrap();
    assert!(time.is_none());
    assert_eq!(
        date,
        Date {
            year: 2024,
            month: 04,
            day: 16,
        }
    );

    let (date, time) = types::parse_date_time("2024-04-16T094032").unwrap();
    assert_eq!(
        date,
        Date {
            year: 2024,
            month: 04,
            day: 16,
        }
    );
    assert_eq!(
        time,
        Some(Time {
            hour: 9,
            minute: 40,
            second: 32,
        })
    );

    assert!(types::parse_date_time("2024-04-16T0940320").is_err());
    assert!(types::parse_date_time("2024-04-16T").is_err());
    assert!(types::parse_date_time("202-04-16").is_err());
    assert!(types::parse_date_time("20240416").is_err());
}

#[test]
fn date_time_edge_cases() {
    assert_eq!(types::parse_date_time("2024-04-16t235959"), Ok((Date::new(2024, 4, 16), Some(Time::new(23, 59, 59)))));
    assert_eq!(types::parse_date_time("+024-04-16"), Ok((Date::new(24, 4, 16), None)));
    assert_eq!(types::parse_date_time("1-2-3-4567"), Ok((Date::new(1, 2, 3), None)));
    assert_eq!(types::parse_date_time("2024-4-160"), Ok((Date::new(2024, 4, 160), None)));
    assert!(types::parse_date_time("2024-4-260").is_err());
    assert!(types::parse_date_time("99999-1-10").is_err());
    assert!(types::parse_date_time("2024--4-16").is_err());
    assert!(types::parse_date_time("2024-04016").is_err());
    assert!(types::parse_date_time("2024-04-16X094032").is_err());
    assert!(types::parse_date_time("2024-04-16T09403x").is_err());
    assert!(types::parse_date_time("2024-04-16é09403").is_err());
    assert!(types::parse_date_time("").is_err());
    assert_eq!(types::parse_date_time("2024-04-16T+12345"), Ok((Date::new(2024, 4, 16), Some(Time::new(1, 23, 45)))));
}

#[test]
fn file_name_with_time() {
    assert_eq!(
        file_name_into_date_and_slug("2024-04-16T094032_slug"),
        (Some((Date::new(2024, 4, 16), Some(Time::new(9, 40, 32)))), "slug".to_string())
    );
    assert_eq!(file_name_into_date_and_slug("not-a-date_slug"), (None, "slug".to_string()));
}
