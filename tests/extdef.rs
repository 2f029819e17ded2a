use sa_ninja_gen::extdef::{parse_line, CodecError, ExtDefMapping};

#[test]
fn parses_length_key_and_path() {
    let m = parse_line("11:c:@F@main#  /src/main.c").unwrap();
    assert_eq!(m.length, 11);
    assert_eq!(m.usr, "c:@F@main# ");
    assert_eq!(m.path, "/src/main.c");
}

#[test]
fn key_may_hold_spaces_and_colons() {
    let m = parse_line("7:a b:c d /p q").unwrap();
    assert_eq!(m.usr, "a b:c d");
    assert_eq!(m.path, "/p q");
}

#[test]
fn separator_run_is_skipped() {
    let m = parse_line("1:x \t  path").unwrap();
    assert_eq!(m.usr, "x");
    assert_eq!(m.path, "path");
}

#[test]
fn length_counts_bytes() {
    let m = parse_line("3:é! p").unwrap();
    assert_eq!(m.usr, "é!");
    assert_eq!(m.path, "p");
    assert_eq!(parse_line("1:é p").unwrap_err(), CodecError::SplitCharacter);
}

#[test]
fn malformed_length() {
    assert_eq!(parse_line("x:abc p").unwrap_err(), CodecError::MalformedLength);
    assert_eq!(parse_line(":abc p").unwrap_err(), CodecError::MalformedLength);
    assert_eq!(parse_line("+3:abc p").unwrap_err(), CodecError::MalformedLength);
    assert_eq!(parse_line("3 abc p").unwrap_err(), CodecError::MalformedLength);
    assert_eq!(parse_line("99999999999999999999999:abc p").unwrap_err(), CodecError::MalformedLength);
}

#[test]
fn truncated_key() {
    assert_eq!(parse_line("10:abc p").unwrap_err(), CodecError::TruncatedKey);
}

#[test]
fn missing_separator() {
    assert_eq!(parse_line("3:abcp").unwrap_err(), CodecError::MissingSeparator);
    assert_eq!(parse_line("3:abc").unwrap_err(), CodecError::MissingSeparator);
}

#[test]
fn empty_path_is_allowed() {
    let m = parse_line("3:abc ").unwrap();
    assert_eq!(m.path, "");
}

#[test]
fn serialized_record_round_trips() {
    let m = ExtDefMapping { length: 9, usr: "c:@F@f é".to_string(), path: "/a b/c.ast".to_string() };
    let line = m.to_line();
    assert_eq!(line, "9:c:@F@f é /a b/c.ast");
    assert_eq!(parse_line(&line).unwrap(), m);
}

#[test]
fn serialization_recomputes_length() {
    let m = ExtDefMapping { length: 0, usr: "abc".to_string(), path: "p".to_string() };
    assert_eq!(m.to_line(), "3:abc p");
    let long = ExtDefMapping { length: 12, usr: "abcdefghijkl".to_string(), path: "p".to_string() };
    assert_eq!(long.to_line(), "12:abcdefghijkl p");
}
