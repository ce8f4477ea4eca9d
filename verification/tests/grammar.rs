use kacl_parser::Date;
use kacl_parser::DateParseError;
use kacl_parser::Version;
use kacl_parser::VersionParseError;

#[test]
fn date_parse_plain() {
    let (d, rest) = Date::parse("2023-04-05").unwrap();
    assert_eq!(d, Date { year: 2023, month: 4, day: 5 });
    assert_eq!(rest, "");
}

#[test]
fn date_parse_trailing_text() {
    let (d, rest) = Date::parse("2023-04-05 and more").unwrap();
    assert_eq!(d, Date { year: 2023, month: 4, day: 5 });
    assert_eq!(rest, " and more");
}

#[test]
fn date_parse_no_range_check() {
    // Month 99 and day 99 are accepted: the grammar checks widths only.
    let (d, rest) = Date::parse("2023-99-99").unwrap();
    assert_eq!(d, Date { year: 2023, month: 99, day: 99 });
    assert_eq!(rest, "");
}

#[test]
fn date_round_trip_exact_digits() {
    let (d, _) = Date::parse("2023-99-99").unwrap();
    assert_eq!(d.encode(), "2023-99-99");
    let (d, _) = Date::parse("0007-01-30xyz").unwrap();
    assert_eq!(d.encode(), "0007-01-30");
}

#[test]
fn date_parse_errors() {
    assert_eq!(Date::parse("202").unwrap_err(), DateParseError::Eof);
    assert_eq!(Date::parse("20x3-04-05").unwrap_err(), DateParseError::Digit);
    assert_eq!(Date::parse("2023x04-05").unwrap_err(), DateParseError::Separator);
    assert_eq!(Date::parse("2023-0").unwrap_err(), DateParseError::Eof);
    assert_eq!(Date::parse("2023-0x-05").unwrap_err(), DateParseError::Digit);
    assert_eq!(Date::parse("2023-04x05").unwrap_err(), DateParseError::Separator);
    assert_eq!(Date::parse("2023-04-0").unwrap_err(), DateParseError::Eof);
    assert_eq!(Date::parse("2023-04-0x").unwrap_err(), DateParseError::Digit);
}

#[test]
fn unreleased_forms_classify() {
    for text in ["[Unreleased]", "unreleased", "UNRELEASED", "Unreleased"] {
        match Version::classify(text) {
            Ok(Version::Unreleased) => {}
            other => panic!("{:?} for {}", other.is_ok(), text),
        }
    }
}

#[test]
fn released_with_date_classifies() {
    match Version::classify("1.2.3 - 2023-04-05") {
        Ok(Version::Released(sv, Some(d))) => {
            assert_eq!(sv.to_string(), "1.2.3");
            assert_eq!(d, Date { year: 2023, month: 4, day: 5 });
        }
        _ => panic!("expected a released version with a date"),
    }
}

#[test]
fn released_bracketed_no_date() {
    match Version::classify("[1.2.3]") {
        Ok(Version::Released(sv, None)) => {
            // Field-for-field: the version really came from the text.
            assert_eq!(sv.major, 1);
            assert_eq!(sv.minor, 2);
            assert_eq!(sv.patch, 3);
        }
        _ => panic!("expected a released version without a date"),
    }
}

#[test]
fn released_bracketed_with_date() {
    match Version::classify("[0.4.1] - 1999-12-31") {
        Ok(Version::Released(sv, Some(d))) => {
            assert_eq!(sv.to_string(), "0.4.1");
            assert_eq!(d, Date { year: 1999, month: 12, day: 31 });
        }
        _ => panic!("expected a released version with a date"),
    }
}

#[test]
fn released_with_prerelease_and_meta() {
    match Version::classify("1.2.3-r1+git - 2023-04-05") {
        Ok(Version::Released(sv, Some(d))) => {
            assert_eq!(sv.to_string(), "1.2.3-r1+git");
            assert_eq!(d, Date { year: 2023, month: 4, day: 5 });
        }
        _ => panic!("expected a released version with a date"),
    }
}

#[test]
fn malformed_date_means_no_date() {
    // A bad trailing-date attempt is abandoned, not an error.
    match Version::classify("1.2.3 - 2023-4-5") {
        Ok(Version::Released(sv, None)) => assert_eq!(sv.to_string(), "1.2.3"),
        _ => panic!("expected a released version without a date"),
    }
}

#[test]
fn unreleased_ignores_trailing_text() {
    assert!(matches!(Version::classify("Unreleased changes"), Ok(Version::Unreleased)));
    assert!(matches!(Version::classify("[Unreleased] draft"), Ok(Version::Unreleased)));
    // The bracket pair must close right after the marker.
    assert!(Version::classify("[UnreleasedX]").is_err());
}

#[test]
fn date_after_tab_whitespace() {
    match Version::classify("1.2.3\t-\t2023-04-05") {
        Ok(Version::Released(_, Some(d))) => {
            assert_eq!(d, Date { year: 2023, month: 4, day: 5 });
        }
        _ => panic!("expected a released version with a date"),
    }
}

#[test]
fn stray_text_after_version_means_no_date() {
    match Version::classify("1.2.3]") {
        Ok(Version::Released(sv, None)) => assert_eq!(sv.to_string(), "1.2.3"),
        _ => panic!("expected a released version without a date"),
    }
}

#[test]
fn format_errors() {
    for text in ["not a version", "[1.2.3", "v1.2.3", "", "1.2", "[unreleased"] {
        assert_eq!(Version::classify(text).unwrap_err(), VersionParseError::Format);
    }
}

#[test]
fn classify_is_idempotent() {
    for text in ["[Unreleased]", "1.2.3 - 2023-04-05", "nope"] {
        let a = Version::classify(text);
        let b = Version::classify(text);
        match (a, b) {
            (Ok(Version::Unreleased), Ok(Version::Unreleased)) => {}
            (Ok(Version::Released(v1, d1)), Ok(Version::Released(v2, d2))) => {
                assert_eq!(v1.to_string(), v2.to_string());
                assert_eq!(d1, d2);
            }
            (Err(e1), Err(e2)) => assert_eq!(e1, e2),
            _ => panic!("two runs disagreed for {}", text),
        }
    }
}

#[test]
fn into_released_splits_variants() {
    assert!(Version::Unreleased.into_released().is_none());
    let v = match Version::classify("[2.0.0]") {
        Ok(v) => v,
        Err(_) => panic!("expected a version"),
    };
    let (sv, d) = v.into_released().unwrap();
    assert_eq!(sv.to_string(), "2.0.0");
    assert_eq!(d, None);
}
