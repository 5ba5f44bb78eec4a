use tu4::machine::parse_usize;
use tu4::Machine;
use tu4::ParseTu4Error;
use tu4::ParseUintError;

#[test]
fn test_parsing() {
    let code = "00, , ,00".parse::<Machine>();
    assert!(code.is_ok());

    let code = "00, , ".parse::<Machine>();
    assert_eq!(code.err(), Some(ParseTu4Error::InvalidFormat));

    let code = "00,cc, ,00".parse::<Machine>();
    assert_eq!(code.err(), Some(ParseTu4Error::InvalidCellValue));

    let code = "00, ,cc,00".parse::<Machine>();
    assert_eq!(code.err(), Some(ParseTu4Error::InvalidCellValue));

    let code = "00, , ,-00".parse::<Machine>();
    assert_eq!(
        code.err(),
        parse_usize("-00").map_err(ParseTu4Error::ParseInt).err()
    );

    let code = "00, , ,01".parse::<Machine>();
    assert_eq!(code.err(), Some(ParseTu4Error::InvalidTransition(1)));
}

#[test]
fn too_many_fields_is_invalid_format() {
    let code = "00, , ,00,extra".parse::<Machine>();
    assert_eq!(code.err(), Some(ParseTu4Error::InvalidFormat));
}

#[test]
fn empty_cell_field_is_invalid_cell_value() {
    let code = "00,, ,00".parse::<Machine>();
    assert_eq!(code.err(), Some(ParseTu4Error::InvalidCellValue));
}

#[test]
fn empty_state_field_is_wrapped_empty_error() {
    let code = ", , ,00".parse::<Machine>();
    assert_eq!(
        code.err(),
        Some(ParseTu4Error::ParseInt(ParseUintError::Empty))
    );
}

#[test]
fn bad_target_state_is_wrapped_error() {
    let code = "00, , ,1x".parse::<Machine>();
    assert_eq!(
        code.err(),
        parse_usize("1x").map_err(ParseTu4Error::ParseInt).err()
    );
}

#[test]
fn blank_lines_and_surrounding_whitespace_are_ignored() {
    let code = "\n   00, , ,00   \r\n\n".parse::<Machine>();
    assert!(code.is_ok());
}

#[test]
fn first_bad_line_wins() {
    let code = "00, , ,00\n00,cc, ,00\n00, ,cc,00".parse::<Machine>();
    assert_eq!(code.err(), Some(ParseTu4Error::InvalidCellValue));
}

#[test]
fn parse_usize_exact_values() {
    assert_eq!(parse_usize("42"), Ok(42));
    assert_eq!(parse_usize("+42"), Ok(42));
    assert_eq!(parse_usize("0"), Ok(0));
    assert_eq!(parse_usize(""), Err(ParseUintError::Empty));
    assert_eq!(parse_usize("+"), Err(ParseUintError::InvalidDigit));
    assert_eq!(parse_usize("-1"), Err(ParseUintError::InvalidDigit));
    assert_eq!(parse_usize("1a"), Err(ParseUintError::InvalidDigit));
    assert_eq!(
        parse_usize("99999999999999999999999999"),
        Err(ParseUintError::PosOverflow)
    );
}
