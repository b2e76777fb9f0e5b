use roadnet::address::{Identifier, LogicalAddress, Mask};

#[test]
fn test_parse_logical_address_with_partial_mask() {
    assert_eq!(
        LogicalAddress::parse("1.1.1.0/1.1.1.0"),
        Ok(LogicalAddress::new(
            Identifier::new(1, 1, 1, 0),
            Mask::new(true, true, true, false)
        ))
    );
}

#[test]
fn test_parse_logical_address_positive_lane() {
    assert_eq!(
        LogicalAddress::parse("2.10.2.1/1.1.1.1"),
        Ok(LogicalAddress::new(
            Identifier::new(2, 10, 2, 1),
            Mask::new(true, true, true, true)
        ))
    );
}

#[test]
fn test_parse_logical_address_negative_lane() {
    assert_eq!(
        LogicalAddress::parse("2.10.2.-1/1.1.1.1"),
        Ok(LogicalAddress::new(
            Identifier::new(2, 10, 2, -1),
            Mask::new(true, true, true, true)
        ))
    );
}

#[test]
fn test_parse_logical_address_negative_link_rejected() {
    assert_eq!(
        LogicalAddress::parse("-2.10.2.-1/1.1.1.1"),
        Err("Expected whole number, got minus sign")
    );
}

#[test]
fn test_parse_logical_address_nonzero_mask_digit() {
    assert_eq!(
        LogicalAddress::parse("2.10.2.-1/2.1.1.1"),
        Ok(LogicalAddress::new(
            Identifier::new(2, 10, 2, -1),
            Mask::new(true, true, true, true)
        ))
    );
}

#[test]
fn test_parse_logical_address_default_mask() {
    assert_eq!(
        LogicalAddress::parse("2.10.2.-1"),
        Ok(LogicalAddress::new(
            Identifier::new(2, 10, 2, -1),
            Mask::new(true, true, true, true)
        ))
    );
}

#[test]
fn test_parse_logical_address_empty() {
    assert_eq!(
        LogicalAddress::parse(""),
        Err("Expected some content before the '/'")
    );
}

#[test]
fn test_parse_logical_address_bare_slash() {
    assert_eq!(
        LogicalAddress::parse("/"),
        Err("Expected some content before the '/'")
    );
}

#[test]
fn test_parse_logical_address_mask_only() {
    assert_eq!(
        LogicalAddress::parse("/1.1.1.1"),
        Err("Expected some content before the '/'")
    );
}

#[test]
fn test_mask_default_matches_explicit_mask() {
    for input in ["2.10.2.-1", "1.1.1.0", "7", "", "a/b", "3.4"] {
        let explicit = format!("{}{}", input, "/1.1.1.1");
        assert_eq!(LogicalAddress::parse(input), LogicalAddress::parse(&explicit));
    }
}

#[test]
fn test_identifier_round_trip() {
    for (a, b, c, d) in [
        (0u16, 0u16, 0u16, 0i16),
        (2, 10, 2, -1),
        (65535, 65535, 65535, -32768),
        (1, 2, 3, 32767),
    ] {
        let text = format!("{}.{}.{}.{}", a, b, c, d);
        let parsed = Identifier::parse(&text).unwrap();
        assert_eq!(parsed, Identifier::new(a, b, c, d));
    }
}

#[test]
fn test_identifier_missing_fields_default() {
    assert_eq!(Identifier::parse(""), Ok(Identifier::new(0, 0, 0, 0)));
    assert_eq!(Identifier::parse("2.10."), Ok(Identifier::new(2, 10, 0, 0)));
}

#[test]
fn test_identifier_trailing_field_without_separator() {
    assert_eq!(Identifier::parse("7"), Ok(Identifier::new(7, 0, 0, 0)));
    assert_eq!(Identifier::parse("2.10"), Ok(Identifier::new(2, 10, 0, 0)));
    assert_eq!(Identifier::parse("2.10.2"), Ok(Identifier::new(2, 10, 2, 0)));
}

#[test]
fn test_identifier_minus_sign_in_first_field() {
    assert_eq!(
        Identifier::parse("-1.2.3.4"),
        Err("Expected whole number, got minus sign")
    );
}

#[test]
fn test_identifier_minus_sign_in_middle_field() {
    assert_eq!(
        Identifier::parse("1.-2.3.4"),
        Err("Expected whole number, got minus sign")
    );
}

#[test]
fn test_mask_parse_defaults() {
    assert_eq!(Mask::parse(""), Mask::new(true, true, true, true));
    assert_eq!(Mask::parse("0"), Mask::new(false, true, true, true));
    assert_eq!(Mask::parse("1.0.1.0"), Mask::new(true, false, true, false));
}
