use df_utils::datetime::{Date, DateTime, Offset, Time};

#[test]
fn leap_day_of_a_leap_year_only() {
    assert_eq!(Date::new(2021, 2, 29), Err(()));
    assert!(Date::new(2020, 2, 29).is_ok());
}

#[test]
fn date_validation() {
    assert!(Date::new(0, 1, 1).is_err());
    assert!(Date::new(1, 1, 0).is_err());
    assert!(Date::new(1, 0, 1).is_err());
    assert!(Date::new(1, 13, 1).is_err());
    assert!(Date::new(1900, 2, 29).is_err());
    assert!(Date::new(2000, 2, 29).is_ok());
    assert!(Date::new(2023, 2, 28).is_ok());
    assert!(Date::new(2023, 4, 30).is_ok());
    assert!(Date::new(2023, 4, 31).is_err());
    assert!(Date::new(2023, 6, 31).is_err());
    assert!(Date::new(2023, 9, 31).is_err());
    assert!(Date::new(2023, 11, 31).is_err());
    for month in [1u8, 3, 5, 7, 8, 10, 12] {
        assert!(Date::new(2023, month, 31).is_ok());
        assert!(Date::new(2023, month, 32).is_err());
    }
    let d = Date::new(65535, 12, 31).unwrap();
    assert_eq!((d.year(), d.month(), d.day()), (65535, 12, 31));
}

#[test]
fn time_validation() {
    assert!(Time::new(24, 59, 60, u32::MAX).is_ok());
    assert!(Time::new(25, 0, 0, 0).is_err());
    assert!(Time::new(0, 60, 0, 0).is_err());
    assert!(Time::new(0, 0, 61, 0).is_err());
    let t = Time::new(1, 2, 3, 4).unwrap();
    assert_eq!((t.hour(), t.minute(), t.second(), t.nanosecond()), (1, 2, 3, 4));
}

#[test]
fn offset_validation() {
    assert!(Offset::new(-12, 59).is_ok());
    assert!(Offset::new(-13, 0).is_err());
    assert!(Offset::new(13, 59).is_ok());
    assert!(Offset::new(13, 60).is_err());
    assert!(Offset::new(14, 0).is_ok());
    assert!(Offset::new(14, 1).is_err());
    assert!(Offset::new(15, 0).is_err());
    let o = Offset::new(-7, 15).unwrap();
    assert_eq!((o.hour(), o.minute()), (-7, 15));
}

#[test]
fn offset_needs_date_and_time() {
    let date = Date::new(2020, 1, 1).unwrap();
    let time = Time::new(0, 0, 0, 0).unwrap();
    let offset = Offset::new(0, 0).unwrap();
    assert!(DateTime::new(None, None, Some(offset)).is_err());
    assert!(DateTime::new(Some(date), None, Some(offset)).is_err());
    assert!(DateTime::new(None, Some(time), Some(offset)).is_err());
    let all = DateTime::new(Some(date), Some(time), Some(offset)).unwrap();
    assert_eq!((all.date(), all.time(), all.offset()), (Some(date), Some(time), Some(offset)));
    assert!(DateTime::new(Some(date), None, None).is_ok());
    assert!(DateTime::new(None, Some(time), None).is_ok());
    assert!(DateTime::new(None, None, None).is_ok());
}

#[test]
fn rendering() {
    assert_eq!(Date::new(2020, 2, 29).unwrap().render(), "2020-02-29");
    assert_eq!(Date::new(5, 1, 1).unwrap().render(), "0005-01-01");
    assert_eq!(Date::new(12345, 10, 9).unwrap().render(), "12345-10-09");
    assert_eq!(Time::new(1, 2, 3, 0).unwrap().render(), "01:02:03");
    assert_eq!(Time::new(12, 30, 5, 500_000_000).unwrap().render(), "12:30:05.5");
    assert_eq!(Time::new(12, 30, 5, 1).unwrap().render(), "12:30:05.000000001");
    assert_eq!(Time::new(12, 30, 5, 120_300).unwrap().render(), "12:30:05.0001203");
    assert_eq!(Time::new(12, 30, 5, 4_294_967_295).unwrap().render(), "12:30:05.4294967295");
    assert_eq!(Time::new(12, 30, 5, 4_000_000_000).unwrap().render(), "12:30:05.4");
    assert_eq!(Offset::new(0, 0).unwrap().render(), "Z");
    assert_eq!(Offset::new(0, 30).unwrap().render(), "+00:30");
    assert_eq!(Offset::new(9, 0).unwrap().render(), "+09:00");
    assert_eq!(Offset::new(-5, 30).unwrap().render(), "-05:30");
    assert_eq!(Offset::new(14, 0).unwrap().render(), "+14:00");
}

#[test]
fn rendering_of_the_whole() {
    let date = Date::new(2020, 2, 29).unwrap();
    let time = Time::new(12, 30, 5, 250_000_000).unwrap();
    let offset = Offset::new(-3, 0).unwrap();
    assert_eq!(DateTime::new(Some(date), None, None).unwrap().render(), "2020-02-29");
    assert_eq!(DateTime::new(None, Some(time), None).unwrap().render(), "12:30:05.25");
    assert_eq!(
        DateTime::new(Some(date), Some(time), None).unwrap().render(),
        "2020-02-29T12:30:05.25"
    );
    assert_eq!(
        DateTime::new(Some(date), Some(time), Some(offset)).unwrap().render(),
        "2020-02-29T12:30:05.25-03:00"
    );
    assert_eq!(DateTime::new(None, None, None).unwrap().render(), "");
}
