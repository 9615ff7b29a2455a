use station_stats::parse::{parse_data, parse_temp};
use station_stats::stats::StationData;
use station_stats::Error;

#[test]
fn parse_temp_plain() {
    assert_eq!(parse_temp(b"22.0"), Ok(220));
    assert_eq!(parse_temp(b"0.0"), Ok(0));
    assert_eq!(parse_temp(b"3.7"), Ok(37));
    assert_eq!(parse_temp(b"123.4"), Ok(1234));
}

#[test]
fn parse_temp_negative() {
    assert_eq!(parse_temp(b"-3.4"), Ok(-34));
    assert_eq!(parse_temp(b"-0.0"), Ok(0));
    assert_eq!(parse_temp(b"-99.9"), Ok(-999));
}

#[test]
fn parse_temp_rejects_bad_bytes() {
    assert_eq!(parse_temp(b"abc"), Err(Error::MalformedRecord));
    assert_eq!(parse_temp(b""), Err(Error::MalformedRecord));
    assert_eq!(parse_temp(b"-"), Err(Error::MalformedRecord));
    assert_eq!(parse_temp(b"1x.0"), Err(Error::MalformedRecord));
    assert_eq!(parse_temp(b"1.0x"), Err(Error::MalformedRecord));
    assert_eq!(parse_temp(b"1 .0"), Err(Error::MalformedRecord));
}

#[test]
fn parse_temp_requires_exactly_one_fractional_digit() {
    assert_eq!(parse_temp(b"5"), Err(Error::MalformedRecord));
    assert_eq!(parse_temp(b"5."), Err(Error::MalformedRecord));
    assert_eq!(parse_temp(b".5"), Err(Error::MalformedRecord));
    assert_eq!(parse_temp(b"5.55"), Err(Error::MalformedRecord));
    assert_eq!(parse_temp(b"5..5"), Err(Error::MalformedRecord));
    assert_eq!(parse_temp(b"1.0.0"), Err(Error::MalformedRecord));
}

#[test]
fn parse_temp_range_limits() {
    // the largest representable value: seventeen integer digits, one
    // fractional digit
    assert_eq!(
        parse_temp(b"99999999999999999.9"),
        Ok(999_999_999_999_999_999)
    );
    assert_eq!(
        parse_temp(b"-99999999999999999.9"),
        Ok(-999_999_999_999_999_999)
    );
    // one integer digit more does not fit
    assert_eq!(
        parse_temp(b"100000000000000000.0"),
        Err(Error::MalformedRecord)
    );
    assert_eq!(
        parse_temp(b"99999999999999999999999999.0"),
        Err(Error::MalformedRecord)
    );
}

#[test]
fn parse_data_splits_at_first_delimiter() {
    let (name, temp) = parse_data(b"Foo;1.2").unwrap();
    assert_eq!(name, b"Foo");
    assert_eq!(temp, 12);
    let (empty, zero) = parse_data(b";0.0").unwrap();
    assert_eq!(empty, b"");
    assert_eq!(zero, 0);
}

#[test]
fn parse_data_rejects_bad_lines() {
    assert_eq!(parse_data(b"NoDelimiter"), Err(Error::MalformedRecord));
    assert_eq!(parse_data(b""), Err(Error::MalformedRecord));
    // a second delimiter lands in the value and is not a valid byte there
    assert_eq!(parse_data(b"A;B;1.0"), Err(Error::MalformedRecord));
    assert_eq!(parse_data(b"A;"), Err(Error::MalformedRecord));
}

#[test]
fn update_from_tracks_min_max_count_sum() {
    let mut s = StationData::new(100);
    s.update_from(50);
    s.update_from(75);
    assert_eq!(s.min_temp, 50);
    assert_eq!(s.max_temp, 100);
    assert_eq!(s.count, 3);
    assert_eq!(s.temp_sum, 225);
}

#[test]
fn update_from_station_combines() {
    let mut a = StationData::new(10);
    a.update_from(30);
    let mut b = StationData::new(-20);
    b.update_from(5);
    a.update_from_station(&b);
    assert_eq!(a.min_temp, -20);
    assert_eq!(a.max_temp, 30);
    assert_eq!(a.count, 4);
    assert_eq!(a.temp_sum, 25);
}

#[test]
fn to_bytes_renders_one_fractional_digit() {
    let s = StationData::new(105);
    assert_eq!(s.to_bytes(), b"10.5/10.5/10.5".to_vec());
    let neg = StationData::new(-5);
    assert_eq!(neg.to_bytes(), b"-0.5/-0.5/-0.5".to_vec());
    let mut pair = StationData::new(1);
    pair.update_from(2);
    // mean 0.15 rounds away from zero to 0.2
    assert_eq!(pair.to_bytes(), b"0.1/0.2/0.2".to_vec());
}

#[test]
fn mean_is_derived_from_sum_and_count() {
    let mut s = StationData::new(100);
    s.update_from(200);
    assert_eq!(s.mean_fixed(), 150);
    let mut t = StationData::new(-10);
    t.update_from(-20);
    t.update_from(-15);
    assert_eq!(t.mean_fixed(), -15);
}

#[test]
fn formatted_values_parse_back() {
    for v in [0i64, 5, -5, 34, -34, 220, 1234, -1234, 999_999_999_999_999_999] {
        let s = StationData::new(v);
        let text = s.to_bytes();
        let first: Vec<u8> = text
            .split(|&b| b == b'/')
            .next()
            .unwrap()
            .to_vec();
        assert_eq!(parse_temp(&first), Ok(v));
    }
}

#[test]
fn formatted_mean_is_within_tolerance() {
    // measurements 0.1, 0.2, 0.2: true mean is 1/6 of a degree
    let mut s = StationData::new(1);
    s.update_from(2);
    s.update_from(2);
    let text = s.to_bytes();
    let parts: Vec<&[u8]> = text.split(|&b| b == b'/').collect();
    let mean_back = parse_temp(parts[1]).unwrap();
    let true_mean = (s.temp_sum as f64) / (s.count as f64) / 10.0;
    let rendered = (mean_back as f64) / 10.0;
    assert!((rendered - true_mean).abs() <= 0.05);
}
