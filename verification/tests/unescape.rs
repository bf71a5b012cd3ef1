use zsh_patina::unescape::unescape_bytes;
use zsh_patina::{UnescapeError, ZshUnescape};

#[test]
fn too_short() {
    assert!("".zsh_unescape_one().is_err());
    assert!("\\".zsh_unescape_one().is_err());
}

#[test]
fn no_leading_backslash() {
    assert!("ab".zsh_unescape_one().is_err());
}

#[test]
fn simple_escapes() {
    assert_eq!(r"\a".zsh_unescape_one().unwrap(), '\x07');
    assert_eq!(r"\b".zsh_unescape_one().unwrap(), '\x08');
    assert_eq!(r"\f".zsh_unescape_one().unwrap(), '\x0c');
    assert_eq!(r"\n".zsh_unescape_one().unwrap(), '\n');
    assert_eq!(r"\r".zsh_unescape_one().unwrap(), '\r');
    assert_eq!(r"\t".zsh_unescape_one().unwrap(), '\t');
    assert_eq!(r"\v".zsh_unescape_one().unwrap(), '\x0b');
}

#[test]
fn hex_valid() {
    assert_eq!(r"\x61".zsh_unescape_one().unwrap(), 'a');
    assert_eq!(r"\x0".zsh_unescape_one().unwrap(), '\0');
    assert_eq!(r"\xFF".zsh_unescape_one().unwrap(), '\u{FF}');
}

#[test]
fn hex_invalid() {
    assert!(r"\x".zsh_unescape_one().is_err());
    assert!(r"\x123".zsh_unescape_one().is_err());
    assert!(r"\xZZ".zsh_unescape_one().is_err());
}

#[test]
fn unicode_u_valid() {
    assert_eq!(r"\u2580".zsh_unescape_one().unwrap(), '▀');
    assert_eq!(r"\u61".zsh_unescape_one().unwrap(), 'a');
}

#[test]
fn unicode_u_invalid() {
    assert!(r"\u".zsh_unescape_one().is_err());
    assert!(r"\u12345".zsh_unescape_one().is_err());
    assert!(r"\uZZZZ".zsh_unescape_one().is_err());
    assert!(r"\uD800".zsh_unescape_one().is_err());
}

#[test]
fn unicode_big_u_valid() {
    assert_eq!(r"\U0001F60E".zsh_unescape_one().unwrap(), '😎');
    assert_eq!(r"\U61".zsh_unescape_one().unwrap(), 'a');
}

#[test]
fn unicode_big_u_invalid() {
    assert!(r"\U".zsh_unescape_one().is_err());
    assert!(r"\U123456789".zsh_unescape_one().is_err());
    assert!(r"\UZZZZZZZZ".zsh_unescape_one().is_err());
    assert!(r"\UFFFFFFFF".zsh_unescape_one().is_err());
}

#[test]
fn octal_valid() {
    assert_eq!(r"\141".zsh_unescape_one().unwrap(), 'a');
    assert_eq!(r"\00".zsh_unescape_one().unwrap(), '\0');
    assert_eq!(r"\377".zsh_unescape_one().unwrap(), '\u{FF}');
}

#[test]
fn octal_invalid() {
    assert!(r"\".zsh_unescape_one().is_err());
    assert!(r"\01234".zsh_unescape_one().is_err());
    assert!(r"\09".zsh_unescape_one().is_err());
}

#[test]
fn literal_escape() {
    assert_eq!(r"\\".zsh_unescape_one().unwrap(), '\\');
    assert_eq!(r"\-".zsh_unescape_one().unwrap(), '-');
    assert_eq!(r"\/".zsh_unescape_one().unwrap(), '/');
    assert_eq!(r"\!".zsh_unescape_one().unwrap(), '!');
    assert_eq!(r"\~".zsh_unescape_one().unwrap(), '~');
    assert_eq!(r"\ ".zsh_unescape_one().unwrap(), ' ');
}

#[test]
fn invalid_unknown_escape() {
    assert!(r"\qAB".zsh_unescape_one().is_err());
}

#[test]
fn error_kinds() {
    assert_eq!("".zsh_unescape_one(), Err(UnescapeError::TooShort));
    assert_eq!("ab".zsh_unescape_one(), Err(UnescapeError::MissingBackslash));
    assert_eq!(r"\x".zsh_unescape_one(), Err(UnescapeError::HexTooShort));
    assert_eq!(r"\x123".zsh_unescape_one(), Err(UnescapeError::HexTooLong));
    assert_eq!(r"\xZZ".zsh_unescape_one(), Err(UnescapeError::InvalidHex));
    assert_eq!(r"\u".zsh_unescape_one(), Err(UnescapeError::UnicodeTooShort));
    assert_eq!(r"\U".zsh_unescape_one(), Err(UnescapeError::UnicodeTooShort));
    assert_eq!(r"\u12345".zsh_unescape_one(), Err(UnescapeError::UnicodeTooLong));
    assert_eq!(r"\U123456789".zsh_unescape_one(), Err(UnescapeError::UnicodeTooLong));
    assert_eq!(r"\uD800".zsh_unescape_one(), Err(UnescapeError::InvalidUnicode));
    assert_eq!(r"\UFFFFFFFF".zsh_unescape_one(), Err(UnescapeError::InvalidUnicode));
    assert_eq!(r"\01234".zsh_unescape_one(), Err(UnescapeError::OctalTooLong));
    assert_eq!(r"\09".zsh_unescape_one(), Err(UnescapeError::InvalidOctal));
    assert_eq!(r"\777".zsh_unescape_one(), Err(UnescapeError::InvalidOctal));
    assert_eq!(r"\8".zsh_unescape_one(), Err(UnescapeError::InvalidOctal));
    assert_eq!(r"\qAB".zsh_unescape_one(), Err(UnescapeError::InvalidEscape));
}

#[test]
fn plus_sign_and_lowercase_digits() {
    // std's unsigned parsers accept a leading `+`
    assert_eq!(r"\x+f".zsh_unescape_one(), Ok('\x0f'));
    assert_eq!(r"\u+61".zsh_unescape_one(), Ok('a'));
    assert_eq!(r"\x+".zsh_unescape_one(), Err(UnescapeError::InvalidHex));
    assert_eq!(r"\x-1".zsh_unescape_one(), Err(UnescapeError::InvalidHex));
    assert_eq!(r"\xff".zsh_unescape_one(), Ok('\u{FF}'));
    assert_eq!(r"\U10FFFF".zsh_unescape_one(), Ok('\u{10FFFF}'));
    assert_eq!(r"\U110000".zsh_unescape_one(), Err(UnescapeError::InvalidUnicode));
    assert_eq!(r"\7".zsh_unescape_one(), Ok('\x07'));
    assert_eq!(r"\1411".zsh_unescape_one(), Err(UnescapeError::InvalidOctal));
}

#[test]
fn string_and_bytes_agree() {
    let s = String::from(r"\u2580");
    assert_eq!(s.zsh_unescape_one(), Ok('▀'));
    assert_eq!(unescape_bytes(br"\x41"), Ok('A'));
    assert_eq!(unescape_bytes(&[92, 0xC3]), Ok('\u{C3}'));
    assert_eq!(r"\é".zsh_unescape_one(), Err(UnescapeError::InvalidEscape));
}

#[test]
fn every_byte_round_trips_through_hex_and_octal() {
    for v in 0u32..256 {
        let expected = char::from_u32(v).unwrap();
        assert_eq!(format!("\\x{:02X}", v).zsh_unescape_one(), Ok(expected));
        assert_eq!(format!("\\{:03o}", v).zsh_unescape_one(), Ok(expected));
    }
}

#[test]
fn characters_round_trip_through_big_u() {
    for c in ['\0', 'a', 'é', '▀', '\u{D7FF}', '\u{E000}', '😎', '\u{10FFFF}'] {
        assert_eq!(format!("\\U{:08X}", c as u32).zsh_unescape_one(), Ok(c));
    }
}

#[test]
fn literal_escapes_stand_for_their_byte() {
    for b in 0u8..128 {
        if b"abfnrtvxuU012345678".contains(&b) {
            continue;
        }
        let s = format!("\\{}", b as char);
        assert_eq!(s.zsh_unescape_one(), Ok(b as char));
    }
}
