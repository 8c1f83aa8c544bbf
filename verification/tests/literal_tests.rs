use tuonelang::literal::{decode_char, decode_str, parse_int};

#[test]
fn parses_integer_literals_in_every_radix() {
    assert_eq!(parse_int("42"), Ok(42));
    assert_eq!(parse_int("0x2A"), Ok(42));
    assert_eq!(parse_int("0Xff"), Ok(255));
    assert_eq!(parse_int("0b101"), Ok(5));
    assert_eq!(parse_int("0o17"), Ok(15));
    assert_eq!(parse_int("+7"), Ok(7));
    assert_eq!(parse_int("-7"), Ok(-7));
    assert_eq!(parse_int("170141183460469231731687303715884105727"), Ok(i128::MAX));
    assert_eq!(parse_int("-170141183460469231731687303715884105728"), Ok(i128::MIN));
}

#[test]
fn rejects_unparsable_integers() {
    for bad in ["", "0x", "12a", "0b102", "1_000", "+", "-", "170141183460469231731687303715884105728"] {
        assert_eq!(parse_int(bad), Err("unparsable integer literal".to_string()), "{bad:?}");
    }
}

#[test]
fn decodes_escapes() {
    assert_eq!(decode_str("plain"), Ok("plain".to_string()));
    assert_eq!(decode_str("a\\nb\\t\\\\\\\"\\'\\0\\r"), Ok("a\nb\t\\\"'\0\r".to_string()));
    assert_eq!(decode_str("\\u{41}\\u{1F600}"), Ok("A\u{1F600}".to_string()));
    assert_eq!(decode_str("\\q"), Err("unsupported escape sequence".to_string()));
    assert_eq!(decode_str("trailing\\"), Err("unsupported escape sequence".to_string()));
    assert_eq!(decode_str("\\u{zz}"), Err("malformed unicode escape".to_string()));
    assert_eq!(decode_str("\\u{D800}"), Err("invalid unicode escape".to_string()));
}

#[test]
fn decodes_character_literals() {
    assert_eq!(decode_char("a"), Ok('a'));
    assert_eq!(decode_char("\\n"), Ok('\n'));
    assert_eq!(decode_char("ab"), Err("malformed character literal".to_string()));
    assert_eq!(decode_char(""), Err("malformed character literal".to_string()));
    assert_eq!(decode_char("\\x"), Err("unsupported escape sequence".to_string()));
}
