use chi_returns::errors::AnalysisError;
use chi_returns::loader::{find_columns, format_price, parse_price};

fn bytes(s: &str) -> Vec<u8> {
    s.as_bytes().to_vec()
}

/// Plain decimal texts parse to their exact fixed-point value.
#[test]
fn parse_price_exact_values() {
    assert_eq!(parse_price(&bytes("100")), Ok(100_000_000_000));
    assert_eq!(parse_price(&bytes("0")), Ok(0));
    assert_eq!(parse_price(&bytes("101.35")), Ok(101_350_000_000));
    assert_eq!(parse_price(&bytes("0.0004")), Ok(400_000));
    assert_eq!(parse_price(&bytes("-0.001")), Ok(-1_000_000));
    assert_eq!(parse_price(&bytes("1.5")), Ok(1_500_000_000));
    assert_eq!(parse_price(&bytes("99.999999999")), Ok(99_999_999_999));
    assert_eq!(parse_price(&bytes("999999999")), Ok(999_999_999_000_000_000));
    assert_eq!(parse_price(&bytes("-42")), Ok(-42_000_000_000));
}

/// Everything outside the plain decimal form is refused as non-numeric.
#[test]
fn parse_price_refuses_non_numeric() {
    let bad = [
        "", "-", ".", "-.", "abc", "1e5", "1.2.3", "12.", ".5", "-.5", " 1", "1 ", "+1",
        "1,5", "1234567890", "1.1234567890", "12345678901.0", "--1", "1.-5",
    ];
    for t in bad.iter() {
        assert_eq!(
            parse_price(&bytes(t)),
            Err(AnalysisError::NonNumeric),
            "text {:?} should be refused",
            t
        );
    }
}

/// Formatting gives the shortest plain decimal text, and parsing it back
/// returns the value that was formatted.
#[test]
fn format_price_round_trip() {
    assert_eq!(format_price(-1_000_000), b"-0.001".to_vec());
    assert_eq!(format_price(-400_000), b"-0.0004".to_vec());
    assert_eq!(format_price(0), b"0".to_vec());
    assert_eq!(format_price(400_000), b"0.0004".to_vec());
    assert_eq!(format_price(1_000_000), b"0.001".to_vec());
    assert_eq!(format_price(100_000_000_000), b"100".to_vec());
    assert_eq!(format_price(101_350_000_000), b"101.35".to_vec());
    assert_eq!(format_price(1_500_000_000), b"1.5".to_vec());
    assert_eq!(format_price(99_999_999_999), b"99.999999999".to_vec());
    let values = [
        0i64,
        1,
        -1,
        7,
        -400_000,
        1_000_000,
        123_456_789,
        -987_654_321_000,
        999_999_999_999_999_999,
        -999_999_999_999_999_999,
    ];
    for &v in values.iter() {
        let text = format_price(v);
        assert_eq!(parse_price(&text), Ok(v), "round trip of {}", v);
    }
}

/// The Date and Close columns are found by header label, first occurrence,
/// extra columns ignored; either one absent refuses the header row.
#[test]
fn find_columns_by_header() {
    let plain = vec![bytes("Date"), bytes("Close")];
    assert_eq!(find_columns(&plain), Ok((0, 1)));

    let wide = vec![
        bytes("Date"),
        bytes("Open"),
        bytes("High"),
        bytes("Low"),
        bytes("Close"),
        bytes("Volume"),
    ];
    assert_eq!(find_columns(&wide), Ok((0, 4)));

    let reversed = vec![bytes("Close"), bytes("Date"), bytes("Close")];
    assert_eq!(find_columns(&reversed), Ok((1, 0)));

    let no_close = vec![bytes("Date"), bytes("Open")];
    assert_eq!(find_columns(&no_close), Err(AnalysisError::MissingColumn));

    let no_date = vec![bytes("date"), bytes("Close")];
    assert_eq!(find_columns(&no_date), Err(AnalysisError::MissingColumn));

    let empty: Vec<Vec<u8>> = Vec::new();
    assert_eq!(find_columns(&empty), Err(AnalysisError::MissingColumn));
}
