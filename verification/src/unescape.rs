//! Decoding of a single zsh escape sequence such as `\n`, `\x41`, `\u2580`
//! or `\101`.

use vstd::prelude::*;
use vstd::string::StringSliceAdditionalSpecFns;

verus! {

/// Why an escape sequence could not be decoded.
#[derive(Clone, Copy, PartialEq, Eq, Structural, Debug)]
pub enum UnescapeError {
    /// Fewer than two bytes.
    TooShort,
    /// The first byte is not a backslash.
    MissingBackslash,
    /// `\x` without any digit.
    HexTooShort,
    /// `\x` followed by more than two bytes.
    HexTooLong,
    /// The bytes after `\x` are not a hexadecimal number below 256.
    InvalidHex,
    /// `\u` or `\U` without any digit.
    UnicodeTooShort,
    /// `\u` followed by more than four bytes, or `\U` by more than eight.
    UnicodeTooLong,
    /// The bytes after `\u` or `\U` are not a hexadecimal Unicode scalar value.
    InvalidUnicode,
    /// An octal escape with more than four bytes after the backslash.
    OctalTooLong,
    /// The bytes after the backslash are not an octal number below 256.
    InvalidOctal,
    /// Any other sequence of more than two bytes.
    InvalidEscape,
}

/// The value of one digit byte in the given radix: `0`-`9`, then the letters
/// of either case from 10 on, as long as the value is below the radix.
pub open spec fn digit_value(c: u8, radix: nat) -> Option<nat> {
    let v: int = if 48 <= c <= 57 {
        c - 48
    } else if 97 <= c <= 122 {
        c - 97 + 10
    } else if 65 <= c <= 90 {
        c - 65 + 10
    } else {
        radix as int
    };
    if v < radix {
        Some(v as nat)
    } else {
        None
    }
}

/// The number that a sequence of digits denotes in the given radix (zero for
/// no digits), or `None` if some byte is not a digit.
pub open spec fn digits_value(s: Seq<u8>, radix: nat) -> Option<nat>
    decreases s.len(),
{
    if s.len() == 0 {
        Some(0)
    } else {
        match (digits_value(s.drop_last(), radix), digit_value(s.last(), radix)) {
            (Some(v), Some(d)) => Some(v * radix + d),
            _ => None,
        }
    }
}

/// How an unsigned integer type with largest value `max` reads `s` in the
/// given radix: an optional leading `+`, then at least one digit, with a
/// value of at most `max`.
pub open spec fn radix_number(s: Seq<u8>, radix: nat, max: nat) -> Option<nat> {
    if s.len() == 0 {
        None
    } else if s.len() == 1 && (s[0] == 43 || s[0] == 45) {
        None
    } else {
        let digits = if s[0] == 43 { s.drop_first() } else { s };
        match digits_value(digits, radix) {
            Some(v) => if v <= max { Some(v) } else { None },
            None => None,
        }
    }
}

/// Whether `v` is a Unicode scalar value (not a surrogate, at most 0x10FFFF).
pub open spec fn is_unicode_scalar(v: nat) -> bool {
    v <= 0x10FFFF && !(0xD800 <= v <= 0xDFFF)
}

/// The character that the escape sequence with UTF-8 bytes `b` denotes.
pub open spec fn spec_unescape(b: Seq<u8>) -> Result<char, UnescapeError> {
    if b.len() < 2 {
        Err(UnescapeError::TooShort)
    } else if b[0] != 92 {
        Err(UnescapeError::MissingBackslash)
    } else {
        let k = b[1];
        if k == 97 {
            Ok('\x07')
        } else if k == 98 {
            Ok('\x08')
        } else if k == 102 {
            Ok('\x0c')
        } else if k == 110 {
            Ok('\n')
        } else if k == 114 {
            Ok('\r')
        } else if k == 116 {
            Ok('\t')
        } else if k == 118 {
            Ok('\x0b')
        } else if k == 120 {
            if b.len() < 3 {
                Err(UnescapeError::HexTooShort)
            } else if b.len() > 4 {
                Err(UnescapeError::HexTooLong)
            } else {
                match radix_number(b.skip(2), 16, 255) {
                    Some(v) => Ok(v as char),
                    None => Err(UnescapeError::InvalidHex),
                }
            }
        } else if k == 117 || k == 85 {
            if b.len() < 3 {
                Err(UnescapeError::UnicodeTooShort)
            } else if (k == 117 && b.len() > 6) || (k == 85 && b.len() > 10) {
                Err(UnescapeError::UnicodeTooLong)
            } else {
                match radix_number(b.skip(2), 16, 0xFFFF_FFFF) {
                    Some(v) => if is_unicode_scalar(v) {
                        Ok(v as char)
                    } else {
                        Err(UnescapeError::InvalidUnicode)
                    },
                    None => Err(UnescapeError::InvalidUnicode),
                }
            }
        } else if 48 <= k <= 56 {
            if b.len() > 5 {
                Err(UnescapeError::OctalTooLong)
            } else {
                match radix_number(b.skip(1), 8, 255) {
                    Some(v) => Ok(v as char),
                    None => Err(UnescapeError::InvalidOctal),
                }
            }
        } else if b.len() == 2 {
            Ok(k as char)
        } else {
            Err(UnescapeError::InvalidEscape)
        }
    }
}

proof fn lemma_digits_value_grows(s: Seq<u8>, radix: nat, i: int)
    requires
        0 <= i <= s.len(),
        radix >= 1,
        digits_value(s, radix) is Some,
    ensures
        digits_value(s.take(i), radix) is Some,
        digits_value(s.take(i), radix).unwrap() <= digits_value(s, radix).unwrap(),
    decreases s.len(),
{
    if i < s.len() {
        let p = s.drop_last();
        assert(p.take(i) =~= s.take(i));
        lemma_digits_value_grows(p, radix, i);
        let v = digits_value(p, radix).unwrap();
        let d = digit_value(s.last(), radix).unwrap();
        assert(v <= v * radix + d) by (nonlinear_arith)
            requires
                radix >= 1,
        ;
    } else {
        assert(s.take(i) =~= s);
    }
}

/// Reads `bytes[start..]` as a number in `radix` (8 or 16) of at most `max`,
/// the way the unsigned integer types of std read a string.
fn parse_radix(bytes: &[u8], start: usize, radix: u64, max: u64) -> (r: Option<u64>)
    requires
        start <= bytes@.len(),
        radix == 8 || radix == 16,
        max <= 0xFFFF_FFFF,
    ensures
        r is Some <==> radix_number(bytes@.skip(start as int), radix as nat, max as nat) is Some,
        r matches Some(v) ==> v as nat == radix_number(bytes@.skip(start as int), radix as nat, max as nat).unwrap(),
{
    let ghost s = bytes@.skip(start as int);
    let len = bytes.len();
    if start == len {
        return None;
    }
    assert(s.len() == len - start && s[0] == bytes@[start as int]);
    if start + 1 == len && (bytes[start] == 43 || bytes[start] == 45) {
        return None;
    }
    let first: usize = if bytes[start] == 43 { start + 1 } else { start };
    let ghost digits = bytes@.skip(first as int);
    assert(digits =~= (if s[0] == 43 { s.drop_first() } else { s }));
    let ghost expected = radix_number(s, radix as nat, max as nat);
    assert(expected == match digits_value(digits, radix as nat) {
        Some(v) => if v <= max { Some(v) } else { None },
        None => None,
    });
    let mut acc: u64 = 0;
    let mut i: usize = first;
    while i < len
        invariant
            first <= i <= len,
            len == bytes@.len(),
            digits == bytes@.skip(first as int),
            s == bytes@.skip(start as int),
            expected == radix_number(s, radix as nat, max as nat),
            expected == match digits_value(digits, radix as nat) {
                Some(v) => if v <= max { Some(v) } else { None },
                None => None,
            },
            radix == 8 || radix == 16,
            max <= 0xFFFF_FFFF,
            acc <= max,
            digits_value(digits.take(i - first), radix as nat) == Some(acc as nat),
        decreases len - i,
    {
        let c = bytes[i];
        let d: u64 = if 48 <= c && c <= 57 {
            (c - 48) as u64
        } else if 97 <= c && c <= 122 {
            (c - 97 + 10) as u64
        } else if 65 <= c && c <= 90 {
            (c - 65 + 10) as u64
        } else {
            radix
        };
        let ghost pre = digits.take(i - first);
        let ghost next = digits.take(i + 1 - first);
        assert(next.drop_last() =~= pre);
        assert(next.last() == c);
        if d >= radix {
            assert(digit_value(c, radix as nat) is None);
            assert(digits_value(next, radix as nat) is None);
            proof {
                if digits_value(digits, radix as nat) is Some {
                    lemma_digits_value_grows(digits, radix as nat, i + 1 - first);
                    assert(false);
                }
            }
            assert(digits_value(digits, radix as nat) is None);
            return None;
        }
        assert(acc * radix + d <= 0xFFFF_FFFF * 16 + 16) by (nonlinear_arith)
            requires
                acc <= 0xFFFF_FFFF,
                radix <= 16,
                d < 16,
        ;
        let next_acc = acc * radix + d;
        assert(digits_value(next, radix as nat) == Some(next_acc as nat));
        if next_acc > max {
            proof {
                if digits_value(digits, radix as nat) is Some {
                    lemma_digits_value_grows(digits, radix as nat, i + 1 - first);
                    assert(digits_value(digits, radix as nat).unwrap() > max);
                }
            }
            return None;
        }
        acc = next_acc;
        i = i + 1;
    }
    assert(digits.take(i - first) =~= digits);
    Some(acc)
}

/// Decodes the escape sequence whose UTF-8 bytes are `bytes`.
pub fn unescape_bytes(bytes: &[u8]) -> (r: Result<char, UnescapeError>)
    ensures
        r == spec_unescape(bytes@),
{
    let len = bytes.len();
    if len < 2 {
        return Err(UnescapeError::TooShort);
    }
    if bytes[0] != 92 {
        return Err(UnescapeError::MissingBackslash);
    }
    let k = bytes[1];
    if k == 97 {
        Ok('\x07')
    } else if k == 98 {
        Ok('\x08')
    } else if k == 102 {
        Ok('\x0c')
    } else if k == 110 {
        Ok('\n')
    } else if k == 114 {
        Ok('\r')
    } else if k == 116 {
        Ok('\t')
    } else if k == 118 {
        Ok('\x0b')
    } else if k == 120 {
        if len < 3 {
            Err(UnescapeError::HexTooShort)
        } else if len > 4 {
            Err(UnescapeError::HexTooLong)
        } else {
            match parse_radix(bytes, 2, 16, 255) {
                Some(v) => {
                    let c = (v as u8) as char;
                    assert(c == (v as char));
                    Ok(c)
                },
                None => Err(UnescapeError::InvalidHex),
            }
        }
    } else if k == 117 || k == 85 {
        if len < 3 {
            Err(UnescapeError::UnicodeTooShort)
        } else if (k == 117 && len > 6) || (k == 85 && len > 10) {
            Err(UnescapeError::UnicodeTooLong)
        } else {
            match parse_radix(bytes, 2, 16, 0xFFFF_FFFF) {
                Some(v) => match char::from_u32(v as u32) {
                    Some(c) => {
                        proof {
                            vstd::utf8::char_u32_cast(c, v as u32);
                        }
                        assert(c == (v as char));
                        Ok(c)
                    },
                    None => Err(UnescapeError::InvalidUnicode),
                },
                None => Err(UnescapeError::InvalidUnicode),
            }
        }
    } else if 48 <= k && k <= 56 {
        if len > 5 {
            Err(UnescapeError::OctalTooLong)
        } else {
            match parse_radix(bytes, 1, 8, 255) {
                Some(v) => {
                    let c = (v as u8) as char;
                    assert(c == (v as char));
                    Ok(c)
                },
                None => Err(UnescapeError::InvalidOctal),
            }
        }
    } else if len == 2 {
        Ok(k as char)
    } else {
        Err(UnescapeError::InvalidEscape)
    }
}

/// The upper-case hexadecimal digit for `d` (below 16).
pub open spec fn hex_digit(d: nat) -> u8 {
    if d < 10 {
        (48 + d) as u8
    } else {
        (55 + d) as u8
    }
}

/// The `k` hexadecimal digits of `v` modulo 16 to the `k`, most significant
/// first.
pub open spec fn hex_digits(v: nat, k: nat) -> Seq<u8>
    decreases k,
{
    if k == 0 {
        Seq::empty()
    } else {
        hex_digits(v / 16, (k - 1) as nat).push(hex_digit(v % 16))
    }
}

proof fn lemma_hex_digits_value(v: nat, k: nat)
    ensures
        hex_digits(v, k).len() == k,
        digits_value(hex_digits(v, k), 16) == Some(((v as int) % vstd::arithmetic::power::pow(16, k)) as nat),
        forall|i: int| 0 <= i < k ==> (48 <= #[trigger] hex_digits(v, k)[i] <= 57 || 65 <= hex_digits(v, k)[i] <= 70),
    decreases k,
{
    reveal(vstd::arithmetic::power::pow);
    if k > 0 {
        let km = (k - 1) as nat;
        lemma_hex_digits_value(v / 16, km);
        let h = hex_digits(v, k);
        assert(h.drop_last() =~= hex_digits(v / 16, km));
        let p = vstd::arithmetic::power::pow(16, km);
        vstd::arithmetic::power::lemma_pow_positive(16, km);
        assert(vstd::arithmetic::power::pow(16, k) == 16 * p);
        vstd::arithmetic::div_mod::lemma_mod_breakdown(v as int, 16, p);
        assert(digit_value(h.last(), 16) == Some(v % 16));
        assert forall|i: int| 0 <= i < k implies (48 <= #[trigger] h[i] <= 57 || 65 <= h[i] <= 70) by {
            if i < km {
                assert(h[i] == hex_digits(v / 16, km)[i]);
            }
        }
    } else {
        assert(vstd::arithmetic::power::pow(16, 0) == 1);
    }
}

/// A backslash before an ASCII byte that does not start one of the other
/// escapes stands for that byte.
pub proof fn lemma_literal_escape(c: u8)
    requires
        c < 0x80,
        !(c == 97 || c == 98 || c == 102 || c == 110 || c == 114 || c == 116 || c == 118),
        !(c == 120 || c == 117 || c == 85),
        !(48 <= c <= 56),
    ensures
        spec_unescape(seq![92u8, c]) == Ok::<char, UnescapeError>(c as char),
{
}

/// Every byte value written as `\x` and two hexadecimal digits decodes to
/// the character with that code point.
pub proof fn lemma_hex_escape_roundtrip(v: u8)
    ensures
        spec_unescape(seq![92u8, 120u8] + hex_digits(v as nat, 2)) == Ok::<char, UnescapeError>(
            (v as nat) as char,
        ),
{
    let b = seq![92u8, 120u8] + hex_digits(v as nat, 2);
    lemma_hex_digits_value(v as nat, 2);
    assert(vstd::arithmetic::power::pow(16, 2) == 256) by {
        reveal_with_fuel(vstd::arithmetic::power::pow, 3);
        reveal(vstd::arithmetic::power::pow);
    }
    assert(b.skip(2) =~= hex_digits(v as nat, 2));
    assert(b[1] == 120);
}

/// Every character written as `\U` and eight hexadecimal digits decodes to
/// that character.
pub proof fn lemma_unicode_escape_roundtrip(c: char)
    ensures
        spec_unescape(seq![92u8, 85u8] + hex_digits(c as nat, 8)) == Ok::<char, UnescapeError>(c),
{
    let v = c as u32;
    let b = seq![92u8, 85u8] + hex_digits(c as nat, 8);
    lemma_hex_digits_value(c as nat, 8);
    assert(vstd::arithmetic::power::pow(16, 8) == 0x1_0000_0000) by {
        reveal(vstd::arithmetic::power::pow);
        reveal_with_fuel(vstd::arithmetic::power::pow, 9);
    }
    assert(b.skip(2) =~= hex_digits(c as nat, 8));
    assert(b[1] == 85);
    vstd::utf8::char_is_scalar(c);
    vstd::utf8::char_u32_cast(c, v);
    assert(is_unicode_scalar(c as nat));
}

/// The lower-case hexadecimal digit for `d` (below 16).
pub open spec fn lower_hex_digit(d: nat) -> u8 {
    if d < 10 {
        (48 + d) as u8
    } else {
        (87 + d) as u8
    }
}

/// The `k` lower-case hexadecimal digits of `v` modulo 16 to the `k`, most
/// significant first.
pub open spec fn lower_hex_digits(v: nat, k: nat) -> Seq<u8>
    decreases k,
{
    if k == 0 {
        Seq::empty()
    } else {
        lower_hex_digits(v / 16, (k - 1) as nat).push(lower_hex_digit(v % 16))
    }
}

proof fn lemma_lower_hex_digits_value(v: nat, k: nat)
    ensures
        lower_hex_digits(v, k).len() == k,
        digits_value(lower_hex_digits(v, k), 16) == Some(((v as int) % vstd::arithmetic::power::pow(16, k)) as nat),
        k > 0 ==> lower_hex_digits(v, k)[0] != 43,
    decreases k,
{
    reveal(vstd::arithmetic::power::pow);
    if k > 0 {
        let km = (k - 1) as nat;
        lemma_lower_hex_digits_value(v / 16, km);
        let h = lower_hex_digits(v, k);
        assert(h.drop_last() =~= lower_hex_digits(v / 16, km));
        let p = vstd::arithmetic::power::pow(16, km);
        vstd::arithmetic::power::lemma_pow_positive(16, km);
        assert(vstd::arithmetic::power::pow(16, k) == 16 * p);
        vstd::arithmetic::div_mod::lemma_mod_breakdown(v as int, 16, p);
        assert(digit_value(h.last(), 16) == Some(v % 16));
        if km > 0 {
            assert(h[0] == lower_hex_digits(v / 16, km)[0]);
        }
    } else {
        assert(vstd::arithmetic::power::pow(16, 0) == 1);
    }
}

/// The case of hexadecimal digits does not matter: every character written
/// as `\U` and eight lower-case hexadecimal digits decodes to that
/// character, as it does with upper-case digits.
pub proof fn lemma_unicode_escape_lower_case(c: char)
    ensures
        spec_unescape(seq![92u8, 85u8] + lower_hex_digits(c as nat, 8)) == Ok::<char, UnescapeError>(c),
        spec_unescape(seq![92u8, 85u8] + lower_hex_digits(c as nat, 8)) == spec_unescape(
            seq![92u8, 85u8] + hex_digits(c as nat, 8),
        ),
{
    let v = c as u32;
    let b = seq![92u8, 85u8] + lower_hex_digits(c as nat, 8);
    lemma_lower_hex_digits_value(c as nat, 8);
    assert(vstd::arithmetic::power::pow(16, 8) == 0x1_0000_0000) by {
        reveal(vstd::arithmetic::power::pow);
        reveal_with_fuel(vstd::arithmetic::power::pow, 9);
    }
    assert(b.skip(2) =~= lower_hex_digits(c as nat, 8));
    assert(b[1] == 85);
    vstd::utf8::char_is_scalar(c);
    vstd::utf8::char_u32_cast(c, v);
    assert(is_unicode_scalar(c as nat));
    lemma_unicode_escape_roundtrip(c);
}

/// A character up to U+FFFF written as `\u` and four hexadecimal digits,
/// lower-case or upper-case, decodes to that character.
pub proof fn lemma_short_unicode_escape(c: char)
    requires
        c as u32 <= 0xFFFF,
    ensures
        spec_unescape(seq![92u8, 117u8] + lower_hex_digits(c as nat, 4)) == Ok::<char, UnescapeError>(c),
        spec_unescape(seq![92u8, 117u8] + hex_digits(c as nat, 4)) == Ok::<char, UnescapeError>(c),
{
    let v = c as u32;
    let lb = seq![92u8, 117u8] + lower_hex_digits(c as nat, 4);
    let ub = seq![92u8, 117u8] + hex_digits(c as nat, 4);
    lemma_lower_hex_digits_value(c as nat, 4);
    lemma_hex_digits_value(c as nat, 4);
    assert(vstd::arithmetic::power::pow(16, 4) == 0x1_0000) by {
        reveal(vstd::arithmetic::power::pow);
        reveal_with_fuel(vstd::arithmetic::power::pow, 5);
    }
    vstd::utf8::char_is_scalar(c);
    vstd::utf8::char_u32_cast(c, v);
    assert((c as nat) % 0x1_0000 == c as nat);
    assert(lb.skip(2) =~= lower_hex_digits(c as nat, 4));
    assert(ub.skip(2) =~= hex_digits(c as nat, 4));
    assert(lb[1] == 117 && ub[1] == 117);
    assert(ub.skip(2)[0] != 43);
    assert(is_unicode_scalar(c as nat));
}

/// `char::from_u32` gives the character with code point `i` exactly when `i`
/// is a Unicode scalar value, and `None` otherwise.
pub assume_specification[ char::from_u32 ](i: u32) -> (r: Option<char>)
    ensures
        r is Some <==> is_unicode_scalar(i as nat),
        r matches Some(c) ==> c as u32 == i,
;

/// Decoding of one zsh escape sequence held in a string.
pub trait ZshUnescape {
    /// The UTF-8 bytes of the escape sequence.
    spec fn escape_bytes(&self) -> Seq<u8>;

    /// Decodes the escape sequence: `\a \b \f \n \r \t \v`, `\xHH`,
    /// `\uHHHH`, `\UHHHHHHHH`, octal `\OOO`, or a backslash before any other
    /// single byte, which stands for that byte.
    fn zsh_unescape_one(&self) -> (r: Result<char, UnescapeError>)
        ensures
            r == spec_unescape(self.escape_bytes()),
    ;
}

impl ZshUnescape for str {
    open spec fn escape_bytes(&self) -> Seq<u8> {
        self.spec_bytes()
    }

    fn zsh_unescape_one(&self) -> (r: Result<char, UnescapeError>) {
        unescape_bytes(self.as_bytes())
    }
}

impl ZshUnescape for String {
    open spec fn escape_bytes(&self) -> Seq<u8> {
        vstd::utf8::encode_utf8(self@)
    }

    fn zsh_unescape_one(&self) -> (r: Result<char, UnescapeError>) {
        self.as_str().zsh_unescape_one()
    }
}

} // verus!
