use sd_id128::Case;
use sd_id128::Error;
use sd_id128::Format;
use sd_id128::ID128;

const SAMPLE_BYTES: [u8; 16] = [
    0x01, 0x23, 0x45, 0x67, 0x89, 0xab, 0xcd, 0xef, 0x01, 0x23, 0x45, 0x67, 0x89, 0xab, 0xcd,
    0xef,
];

#[test]
fn format_zero_rfc_lower() {
    let zero = ID128::default();
    assert_eq!(
        zero.to_string_formatted(Format::RFC, Case::Lower),
        "00000000-0000-0000-0000-000000000000"
    );
}

#[test]
fn format_sample_all_layouts() {
    let id = ID128::from_raw_value(SAMPLE_BYTES);
    assert_eq!(
        id.to_string_formatted(Format::LibSystemD, Case::Lower),
        "0123456789abcdef0123456789abcdef"
    );
    assert_eq!(
        id.to_string_formatted(Format::RFC, Case::Lower),
        "01234567-89ab-cdef-0123-456789abcdef"
    );
    assert_eq!(
        id.to_string_formatted(Format::Simple, Case::Lower),
        "0123-4567-89ab-cdef-0123-4567-89ab-cdef"
    );
    assert_eq!(
        id.to_string_formatted(Format::LibSystemD, Case::Upper),
        "0123456789ABCDEF0123456789ABCDEF"
    );
    assert_eq!(
        id.to_string_formatted(Format::RFC, Case::Upper),
        "01234567-89AB-CDEF-0123-456789ABCDEF"
    );
    assert_eq!(
        id.to_string_formatted(Format::Simple, Case::Upper),
        "0123-4567-89AB-CDEF-0123-4567-89AB-CDEF"
    );
}

#[test]
fn round_trip_all_layouts_and_cases() {
    let id = ID128::from_raw_value([
        0xfe, 0xdc, 0xba, 0x98, 0x76, 0x54, 0x32, 0x10, 0x0f, 0x1e, 0x2d, 0x3c, 0x4b, 0x5a,
        0x69, 0x78,
    ]);
    let layouts = [Format::Simple, Format::LibSystemD, Format::RFC];
    let cases = [Case::Lower, Case::Upper];
    for layout in layouts {
        for case in cases {
            let text = id.to_string_formatted(layout, case);
            let parsed = ID128::from_str(text.as_str()).unwrap();
            assert_eq!(parsed, id);
        }
    }
}

#[test]
fn round_trip_default_text_form() {
    let id = ID128::from_raw_value(SAMPLE_BYTES);
    let parsed = ID128::from_str(id.to_string_default().as_str()).unwrap();
    assert_eq!(parsed, id);
}

#[test]
fn parse_case_insensitive() {
    let mixed = "01234567-89Ab-CdEf-0123-456789aBcDeF";
    let lower = "01234567-89ab-cdef-0123-456789abcdef";
    let upper = "01234567-89AB-CDEF-0123-456789ABCDEF";
    let a = ID128::from_str(mixed).unwrap();
    let b = ID128::from_str(lower).unwrap();
    let c = ID128::from_str(upper).unwrap();
    assert_eq!(a, b);
    assert_eq!(a, c);
}

#[test]
fn lax_superset_of_strict() {
    let texts = [
        "0123456789abcdef0123456789abcdef",
        "01234567-89ab-cdef-0123-456789abcdef",
        "0123-4567-89ab-cdef-0123-4567-89ab-cdef",
    ];
    for text in texts {
        let strict = ID128::from_str(text).unwrap();
        let lax = ID128::from_str_lax(text).unwrap();
        assert_eq!(strict, lax);
    }
}

#[test]
fn length_boundary_pairs() {
    assert!(ID128::from_str("0123-4567-89ab-cdef-0123-4567-89ab-cdef").is_ok());
    assert!(ID128::from_str("0123456789abcdef0123456789abcdef").is_ok());
    assert!(ID128::from_str("01234567-89ab-cdef-0123-456789abcdef").is_ok());
    assert_eq!(
        ID128::from_str(""),
        Err(Error::ParseStringError("Invalid string length: ", 0))
    );
    assert_eq!(
        ID128::from_str("0123456789abcdef0123456789abcde"),
        Err(Error::ParseStringError("Invalid string length: ", 31))
    );
    assert_eq!(
        ID128::from_str("0123456789abcdef0123456789abcdef0"),
        Err(Error::ParseStringError("Invalid string length: ", 33))
    );
    assert_eq!(
        ID128::from_str("0123456789abcdef-0123456789abcdef"),
        Err(Error::ParseStringError("Invalid string length: ", 33))
    );
}

#[test]
fn scenario_plain_hex() {
    let parsed = ID128::from_str("0123456789abcdef0123456789abcdef").unwrap();
    assert_eq!(parsed.as_raw_value(), &SAMPLE_BYTES);
}

#[test]
fn scenario_rfc_dashes() {
    let a = ID128::from_str("0123456789abcdef0123456789abcdef").unwrap();
    let b = ID128::from_str("01234567-89ab-cdef-0123-456789abcdef").unwrap();
    assert_eq!(a, b);
}

#[test]
fn scenario_simple_dashes() {
    let a = ID128::from_str("0123456789abcdef0123456789abcdef").unwrap();
    let c = ID128::from_str("0123-4567-89ab-cdef-0123-4567-89ab-cdef").unwrap();
    assert_eq!(a, c);
}

#[test]
fn scenario_trailing_dash_strict_fails_lax_succeeds() {
    let text = "0123456789ABCDEF0123456789ABCDE-F";
    assert_eq!(
        ID128::from_str(text),
        Err(Error::ParseStringError("Invalid string length: ", 33))
    );
    let lax = ID128::from_str_lax(text).unwrap();
    let a = ID128::from_str("0123456789abcdef0123456789abcdef").unwrap();
    assert_eq!(lax, a);
}

#[test]
fn scenario_garbage_length() {
    let garbage = "this is not an identifier at all, not even c";
    assert_eq!(garbage.len(), 44);
    assert_eq!(
        ID128::from_str(garbage),
        Err(Error::ParseStringError("Invalid string length: ", 44))
    );
    let garbage45 = "this is not an identifier at all, not even cl";
    assert_eq!(garbage45.len(), 45);
    assert_eq!(
        ID128::from_str(garbage45),
        Err(Error::ParseStringError("Invalid string length: ", 45))
    );
}

#[test]
fn unexpected_dash_offsets() {
    assert_eq!(
        ID128::from_str("01234567-89AB-CDEF-0123456789ABCDE-F"),
        Err(Error::ParseStringError(
            "String contains an unexpected dash at position: ",
            34
        ))
    );
    assert_eq!(
        ID128::from_str("0123-4567-89A-BCDEF-0123-4567-89AB-CDEF"),
        Err(Error::ParseStringError(
            "String contains an unexpected dash at position: ",
            13
        ))
    );
}

#[test]
fn invalid_character_offset() {
    assert_eq!(
        ID128::from_str("0123-4567-89AB-CDEX-0123-4567-89AB-CDEF"),
        Err(Error::ParseStringError(
            "String contains an invalid character at position: ",
            18
        ))
    );
}

#[test]
fn lax_trims_whitespace() {
    let id = ID128::from_str_lax("\t 0123456789abcdef0123456789abcdef \n").unwrap();
    assert_eq!(id.as_raw_value(), &SAMPLE_BYTES);
}

#[test]
fn lax_reports_normalized_diagnostics() {
    assert_eq!(
        ID128::from_str_lax("  01-23 \t"),
        Err(Error::ParseStringError("Invalid string length: ", 4))
    );
    assert_eq!(
        ID128::from_str_lax(" 0123456789abcdeX0123456789abcdef "),
        Err(Error::ParseStringError(
            "String contains an invalid character at position: ",
            15
        ))
    );
}

#[test]
fn raw_value_accessors() {
    let mut id = ID128::from_raw_value(SAMPLE_BYTES);
    assert_eq!(id.as_raw_value(), &SAMPLE_BYTES);
    id.as_mut_raw_value()[0] = 0xff;
    assert_eq!(id.as_raw_value()[0], 0xff);
    let raw = id.into_raw_value();
    assert_eq!(raw[0], 0xff);
    assert_eq!(&raw[1..], &SAMPLE_BYTES[1..]);
}

#[test]
fn default_is_all_zero() {
    assert_eq!(ID128::default().as_raw_value(), &[0u8; 16]);
    assert_eq!(ID128::default(), ID128::from_raw_value([0u8; 16]));
}
