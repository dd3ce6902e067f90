use sd_id128::ID128;

#[test]
fn default() {
    let _ = ID128::default();
}

#[test]
fn clone() {
    let _ = ID128::default().clone();
}

#[test]
fn display() {
    let default = ID128::default();
    assert_eq!(default.to_string_default(), "00000000-0000-0000-0000-000000000000");
}

#[test]
fn eq() {
    assert!(ID128::default().eq(&ID128::default()));
    let parsed = ID128::from_str("0123456789abcdef0123456789abcdef").unwrap();
    assert_eq!(parsed, parsed);
}

#[test]
fn from_string_lower_libsystemd() {
    let parsed = ID128::from_str("0123456789abcdef0123456789abcdef").unwrap();
    assert_eq!(
        parsed.as_raw_value(),
        &[1, 35, 69, 103, 137, 171, 205, 239, 1, 35, 69, 103, 137, 171, 205, 239]
    );
}

#[test]
fn from_string_upper_libsystemd() {
    let parsed = ID128::from_str("0123456789ABCDEF0123456789ABCDEF").unwrap();
    assert_eq!(
        parsed.as_raw_value(),
        &[1, 35, 69, 103, 137, 171, 205, 239, 1, 35, 69, 103, 137, 171, 205, 239]
    );
}

#[test]
fn from_string_mixed_libsystemd() {
    let parsed = ID128::from_str("0123456789AbCdEf0123456789aBcDeF").unwrap();
    assert_eq!(
        parsed.as_raw_value(),
        &[1, 35, 69, 103, 137, 171, 205, 239, 1, 35, 69, 103, 137, 171, 205, 239]
    );
}

#[allow(non_snake_case)]
#[test]
fn from_string_lower_RFC() {
    let parsed = ID128::from_str("01234567-89ab-cdef-0123-456789abcdef").unwrap();
    assert_eq!(
        parsed.as_raw_value(),
        &[1, 35, 69, 103, 137, 171, 205, 239, 1, 35, 69, 103, 137, 171, 205, 239]
    );
}

#[allow(non_snake_case)]
#[test]
fn from_string_upper_RFC() {
    let parsed = ID128::from_str("01234567-89AB-CDEF-0123-456789ABCDEF").unwrap();
    assert_eq!(
        parsed.as_raw_value(),
        &[1, 35, 69, 103, 137, 171, 205, 239, 1, 35, 69, 103, 137, 171, 205, 239]
    );
}

#[allow(non_snake_case)]
#[test]
fn from_string_mixed_RFC() {
    let parsed = ID128::from_str("01234567-89Ab-CdEf-0123-456789aBcDeF").unwrap();
    assert_eq!(
        parsed.as_raw_value(),
        &[1, 35, 69, 103, 137, 171, 205, 239, 1, 35, 69, 103, 137, 171, 205, 239]
    );
}

#[test]
fn from_string_lower_simple() {
    let parsed = ID128::from_str("0123-4567-89ab-cdef-0123-4567-89ab-cdef").unwrap();
    assert_eq!(
        parsed.as_raw_value(),
        &[1, 35, 69, 103, 137, 171, 205, 239, 1, 35, 69, 103, 137, 171, 205, 239]
    );
}

#[test]
fn from_string_upper_simple() {
    let parsed = ID128::from_str("0123-4567-89AB-CDEF-0123-4567-89AB-CDEF").unwrap();
    assert_eq!(
        parsed.as_raw_value(),
        &[1, 35, 69, 103, 137, 171, 205, 239, 1, 35, 69, 103, 137, 171, 205, 239]
    );
}

#[test]
fn from_string_mixed_simple() {
    let parsed = ID128::from_str("0123-4567-89Ab-CdEf-0123-4567-89aB-cDeF").unwrap();
    assert_eq!(
        parsed.as_raw_value(),
        &[1, 35, 69, 103, 137, 171, 205, 239, 1, 35, 69, 103, 137, 171, 205, 239]
    );
}

#[test]
fn from_string_too_long_fails() {
    assert!(ID128::from_str("0123-4567-89Ab-CdEf-0123-4567-89aB-cDeF-1234").is_err());
}

#[test]
fn from_string_too_short_fails() {
    assert!(ID128::from_str("0123-4567-89Ab-CdEf-0123-4567-89aB").is_err());
}

#[test]
fn from_string_invalid_character() {
    assert!(ID128::from_str("0123-4567-89AB-CDEX-0123-4567-89AB-CDEF").is_err());
}

#[test]
fn from_string_invalid_dash_simple() {
    assert!(ID128::from_str("0123-4567-89A-BCDEF-0123-4567-89AB-CDEF").is_err());
}

#[test]
fn from_string_missing_dash_simple() {
    assert!(ID128::from_str("01234567-89AB-CDEF-0123-4567-89AB-CDEF").is_err());
}

#[test]
#[allow(non_snake_case)]
fn from_string_invalid_dash_RFC() {
    assert!(ID128::from_str("01234567-89AB-CDEF-0123-456789ABCDE-F").is_err());
}

#[test]
#[allow(non_snake_case)]
fn from_string_missing_dash_RFC() {
    assert!(ID128::from_str("01234567-89AB-CDEF-0123456789ABCDE-F").is_err());
}

#[test]
fn from_string_invalid_dash_libsystemd() {
    assert!(ID128::from_str("0123456789ABCDEF0123456789ABCDE-F").is_err());
}

#[test]
fn from_string_based_on_random_succeeds() {
    let id = ID128::from_raw_value([
        0xde, 0xad, 0xbe, 0xef, 0x00, 0x11, 0x22, 0x33, 0x44, 0x55, 0x66, 0x77, 0x88, 0x99, 0xaa,
        0xbb,
    ]);
    let parsed = ID128::from_str(id.to_string_default().as_str()).unwrap();
    assert_eq!(id, parsed);
}

#[test]
fn from_string_lax_too_long_fails() {
    assert!(ID128::from_str_lax("0123-4567-89Ab-CdEf-0123-4567-89aB-cDeF-1234").is_err());
}

#[test]
fn from_string_lax_too_short_fails() {
    assert!(ID128::from_str_lax("0123-4567-89Ab-CdEf-0123-4567-89aB").is_err());
}

#[test]
fn from_string_lax_invalid_character() {
    assert!(ID128::from_str_lax("0123-4567-89AB-CDEX-0123-4567-89AB-CDEF").is_err());
}

#[test]
fn from_string_lax_invalid_dash_simple() {
    assert!(ID128::from_str_lax("0123-4567-89A-BCDEF-0123-4567-89AB-CDEF").is_ok());
}

#[test]
fn from_string_lax_missing_dash_simple() {
    assert!(ID128::from_str_lax("01234567-89AB-CDEF-0123-4567-89AB-CDEF").is_ok());
}

#[test]
fn from_string_lax_full_mess() {
    assert!(ID128::from_str_lax("    01-23-456789AB-C----DEF01234567-89ABCDEF----     ").is_ok());
}

#[test]
#[allow(non_snake_case)]
fn from_string_lax_invalid_dash_RFC() {
    assert!(ID128::from_str_lax("01234567-89AB-CDEF-0123-456789ABCDE-F").is_ok());
}

#[test]
#[allow(non_snake_case)]
fn from_string_lax_missing_dash_RFC() {
    assert!(ID128::from_str_lax("01234567-89AB-CDEF-0123456789ABCDE-F").is_ok());
}

#[test]
fn from_string_lax_invalid_dash_libsystemd() {
    assert!(ID128::from_str_lax("0123456789ABCDEF0123456789ABCDE-F").is_ok());
}
