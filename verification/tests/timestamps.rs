use ordinance_compiler::timestamp::{DateError, GitTimestampKst};

fn epoch(date: &str) -> i64 {
    GitTimestampKst::from_promulgation_date(date).unwrap().epoch()
}

#[test]
fn clamps_pre_epoch_dates() {
    let ts = GitTimestampKst::from_promulgation_date("19491021").unwrap();
    assert_eq!(ts.epoch(), 10800);
}

#[test]
fn empty_date_uses_epoch() {
    let ts = GitTimestampKst::from_promulgation_date("").unwrap();
    assert_eq!(ts.epoch(), 0);
}

#[test]
fn rejects_non_compact_dates() {
    let error = GitTimestampKst::from_promulgation_date("2024-01-01").unwrap_err();
    assert!(error.to_string().contains("YYYYMMDD"));
}

#[test]
fn dates_are_noon_in_korea() {
    assert_eq!(epoch("19700101"), 10800);
    assert_eq!(epoch("19700102"), 97200);
    assert_eq!(epoch("20000229"), 951793200);
    assert_eq!(epoch("20210930"), 1632970800);
    assert_eq!(epoch("20240101"), 1704078000);
    assert_eq!(epoch("20240229"), 1709175600);
    assert_eq!(epoch("99991231"), 253402225200);
    for date in ["19700101", "20210930", "20240229"] {
        assert_eq!((epoch(date) + 9 * 3600) % 86400, 12 * 3600);
    }
}

#[test]
fn later_dates_have_later_timestamps() {
    let dates = ["18500101", "19691231", "19700101", "19991231", "20000101", "20000229", "20000301"];
    for pair in dates.windows(2) {
        assert!(epoch(pair[0]) <= epoch(pair[1]));
    }
    assert!(epoch("20000229") < epoch("20000301"));
}

#[test]
fn dates_that_do_not_exist_are_errors() {
    for (date, part) in [
        ("20230229", "day"),
        ("20240100", "day"),
        ("20240431", "day"),
        ("20241301", "month"),
        ("20240001", "month"),
        ("20240000", "month"),
    ] {
        let error = GitTimestampKst::from_promulgation_date(date).unwrap_err();
        assert!(matches!(error, DateError::NoSuchDate(_)));
        assert_eq!(error.to_string(), format!("{part} was not in range"));
    }
    assert_eq!(epoch("19001399"), 10800);
}

#[test]
fn dates_in_other_forms_are_errors() {
    for date in ["2024010", "202401011", " 0240101", "２０２４０１０１", "abcdefgh"] {
        let error = GitTimestampKst::from_promulgation_date(date).unwrap_err();
        assert!(matches!(error, DateError::NotCompact(_)));
        assert_eq!(
            error.to_string(),
            format!("expected 공포일자 in YYYYMMDD form: {date}")
        );
    }
}

#[test]
fn raw_timestamps_are_kept() {
    assert_eq!(GitTimestampKst::from_epoch(-7).epoch(), -7);
}
