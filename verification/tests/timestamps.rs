use lnk_cli::timestamp::{normalize, CanonicalTimestamp};

#[test]
fn fallback_variants_agree_on_the_utc_second() {
    let frac = normalize("2025-11-20T05:28:45.444128").unwrap();
    let plain = normalize("2025-11-20T05:28:45").unwrap();
    let zulu = normalize("2025-11-20T05:28:45Z").unwrap();
    assert_eq!(frac.secs, 1763616525);
    assert_eq!(plain.secs, 1763616525);
    assert_eq!(zulu.secs, 1763616525);
    assert_eq!(frac.nanos, 444_128_000);
    assert_eq!(plain.nanos, 0);
    assert_eq!(zulu.nanos, 0);
}

#[test]
fn not_a_date_is_unparseable() {
    let err = normalize("not-a-date").unwrap_err();
    assert_eq!(err.raw, "not-a-date");
    assert!(normalize("").is_err());
    assert!(normalize("2025-13-01T00:00:00").is_err());
    assert!(normalize("2025-02-30T00:00:00").is_err());
    assert!(normalize("2025-11-20T24:00:00").is_err());
    assert!(normalize("2025-11-20 05:28:45").is_err());
    assert!(normalize("2025-11-20T05:28:45.").is_err());
    assert!(normalize("2025-11-20T05:28:45.0123456789").is_err());
    assert!(normalize("2025-11-20T05:28:45X").is_err());
    assert!(normalize("2025-11-20T05:28:45+25:00").is_err());
}

#[test]
fn explicit_offset_is_converted_to_utc() {
    let east = normalize("2025-11-20T05:28:45+03:00").unwrap();
    assert_eq!(east.secs, 1763616525 - 3 * 3600);
    let west = normalize("2025-11-20T05:28:45-03:00").unwrap();
    assert_eq!(west.secs, 1763616525 + 3 * 3600);
    let with_frac = normalize("2025-11-20T05:28:45.5+03:00").unwrap();
    assert_eq!(with_frac.secs, 1763616525 - 3 * 3600);
    assert_eq!(with_frac.nanos, 500_000_000);
    let lower = normalize("2025-11-20T05:28:45z").unwrap();
    assert_eq!(lower.secs, 1763616525);
}

#[test]
fn leap_day_and_pre_epoch_dates() {
    assert_eq!(normalize("2000-02-29T00:00:00Z").unwrap().secs, 951_782_400);
    assert!(normalize("2001-02-29T00:00:00Z").is_err());
    assert_eq!(normalize("1969-12-31T23:59:59Z").unwrap().secs, -1);
    assert_eq!(
        normalize("0001-01-01T00:00:00Z").unwrap().secs,
        -62_135_596_800
    );
}

#[test]
fn fraction_digits_pad_to_nanoseconds() {
    assert_eq!(normalize("2025-11-20T05:28:45.1").unwrap().nanos, 100_000_000);
    assert_eq!(
        normalize("2025-11-20T05:28:45.123456789").unwrap().nanos,
        123_456_789
    );
    assert_eq!(normalize("2025-11-20T05:28:45.000001").unwrap().nanos, 1_000);
}

#[test]
fn canonical_timestamps_are_comparable() {
    let a = normalize("2025-11-20T05:28:45Z").unwrap();
    let b = normalize("2025-11-20T05:28:45.444128").unwrap();
    let c = normalize("2025-11-20T05:28:46Z").unwrap();
    assert!(a.le(&b));
    assert!(!b.le(&a));
    assert!(b.le(&c));
    assert_eq!(a, CanonicalTimestamp { secs: 1763616525, nanos: 0 });
}
