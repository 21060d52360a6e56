use meetily::clock::{date_of, now_stamp, stamp_of};

#[test]
fn dates_are_those_of_the_calendar() {
    assert_eq!(date_of(0), "1970-01-01");
    assert_eq!(date_of(86399), "1970-01-01");
    assert_eq!(date_of(86400), "1970-01-02");
    assert_eq!(date_of(-1), "1969-12-31");
    assert_eq!(date_of(951782400), "2000-02-29");
    assert_eq!(date_of(951868800), "2000-03-01");
    assert_eq!(date_of(4107542400), "2100-03-01");
    assert_eq!(date_of(1783296000), "2026-07-06");
    assert_eq!(date_of(-62167219200), "0000-01-01");
    assert_eq!(date_of(253402300799), "9999-12-31");
}

#[test]
fn days_outside_four_digit_years_take_a_sign() {
    assert_eq!(date_of(253402300800), "+10000-01-01");
    assert_eq!(date_of(-62167219201), "-0001-12-31");
    assert_eq!(date_of(8210266876799), "+262142-12-31");
    assert_eq!(date_of(-8334601228800), "-262143-01-01");
}

#[test]
fn stamps_have_microseconds() {
    assert_eq!(stamp_of(0, 0), "1970-01-01 00:00:00.000000");
    assert_eq!(stamp_of(0, 123_456_789), "1970-01-01 00:00:00.123456");
    assert_eq!(stamp_of(86399, 999_999_999), "1970-01-01 23:59:59.999999");
    assert_eq!(stamp_of(-1, 1_000), "1969-12-31 23:59:59.000001");
    assert_eq!(stamp_of(1783350061, 42_000), "2026-07-06 15:01:01.000042");
}

#[test]
fn stamps_sort_as_their_instants() {
    let instants: [(i64, u32); 9] = [
        (-62167219200, 0),
        (-1, 999_999_999),
        (0, 0),
        (0, 1_000),
        (59, 0),
        (3600, 0),
        (951868799, 5_000),
        (951868800, 0),
        (253402300799, 0),
    ];
    for w in instants.windows(2) {
        assert!(stamp_of(w[0].0, w[0].1) < stamp_of(w[1].0, w[1].1));
    }
}

#[test]
fn the_present_has_a_stamp() {
    let first = now_stamp();
    let second = now_stamp();
    for stamp in [&first, &second] {
        assert_eq!(stamp.len(), 26);
        assert_eq!(&stamp[4..5], "-");
        assert_eq!(&stamp[10..11], " ");
        assert_eq!(&stamp[19..20], ".");
        assert!(stamp.as_str() > "2020-01-01 00:00:00.000000");
    }
    assert!(first <= second);
}
