//! Reading the text of literals as the lowering turns them into constants:
//! integer literals in decimal, hex (`0x`), binary (`0b`), or octal (`0o`),
//! and the escape sequences of string and character literals.

use vstd::prelude::*;
use crate::text::{chars_of, starts_with, starts_with_at};

verus! {

/// `std::char::from_u32`: the character with scalar value `i`, or `None`
/// for a surrogate or a value past `0x10FFFF`.
pub assume_specification[ core::char::from_u32 ](i: u32) -> (r: Option<char>)
    ensures
        (i <= 0xD7FF || (0xE000 <= i <= 0x10FFFF)) ==> r == Some(i as char),
        !(i <= 0xD7FF || (0xE000 <= i <= 0x10FFFF)) ==> r is None,
;

/// The value of a digit character in any radix up to 36, or 99 for a
/// character that is no digit.
pub open spec fn digit_value(c: char) -> int {
    if '0' <= c <= '9' {
        c as int - '0' as int
    } else if 'a' <= c <= 'z' {
        c as int - 'a' as int + 10
    } else if 'A' <= c <= 'Z' {
        c as int - 'A' as int + 10
    } else {
        99
    }
}

/// Every character is a digit of `radix`.
pub open spec fn all_digits_in(s: Seq<char>, radix: int) -> bool {
    forall|i: int| 0 <= i < s.len() ==> digit_value(#[trigger] s[i]) < radix
}

/// The value of a digit string in `radix`.
pub open spec fn radix_value(s: Seq<char>, radix: int) -> int
    decreases s.len(),
{
    if s.len() == 0 {
        0
    } else {
        radix_value(s.drop_last(), radix) * radix + digit_value(s.last())
    }
}

/// What `from_str_radix` reads from `s` for an integer type with range
/// `lo..=hi`: an optional `+` (or `-` when the type is signed), then at least
/// one digit of `radix`, with a value in the range.
pub open spec fn from_str_radix_spec(s: Seq<char>, radix: int, lo: int, hi: int) -> Option<int> {
    if s.len() == 0 {
        None
    } else {
        let neg = s[0] == '-' && lo < 0;
        let body = if neg || s[0] == '+' {
            s.skip(1)
        } else {
            s
        };
        if body.len() == 0 || !all_digits_in(body, radix) {
            None
        } else {
            let v = if neg {
                -radix_value(body, radix)
            } else {
                radix_value(body, radix)
            };
            if lo <= v <= hi {
                Some(v)
            } else {
                None
            }
        }
    }
}

/// Reading an integer literal: `0x`/`0X` hex, `0b`/`0B` binary, `0o`/`0O`
/// octal, else decimal, into an `i128`.
pub open spec fn parse_int_spec(d: Seq<char>) -> Result<int, Seq<char>> {
    let (body, radix) = if starts_with(d, "0x"@) || starts_with(d, "0X"@) {
        (d.skip(2), 16int)
    } else if starts_with(d, "0b"@) || starts_with(d, "0B"@) {
        (d.skip(2), 2int)
    } else if starts_with(d, "0o"@) || starts_with(d, "0O"@) {
        (d.skip(2), 8int)
    } else {
        (d, 10int)
    };
    match from_str_radix_spec(body, radix, i128::MIN as int, i128::MAX as int) {
        Some(v) => Ok(v),
        None => Err("unparsable integer literal"@),
    }
}

/// The value of a digit character, or 99.
fn digit_of(c: char) -> (r: u32)
    ensures
        r == digit_value(c),
{
    if '0' <= c && c <= '9' {
        (c as u32) - ('0' as u32)
    } else if 'a' <= c && c <= 'z' {
        (c as u32) - ('a' as u32) + 10
    } else if 'A' <= c && c <= 'Z' {
        (c as u32) - ('A' as u32) + 10
    } else {
        99
    }
}

/// A digit string's value never decreases as digits are appended.
proof fn lemma_radix_monotone(s: Seq<char>, radix: int, i: int)
    requires
        radix >= 2,
        all_digits_in(s, radix),
        0 <= i <= s.len(),
    ensures
        0 <= radix_value(s.take(i), radix) <= radix_value(s, radix),
    decreases s.len() - i,
{
    if i < s.len() {
        lemma_radix_monotone(s, radix, i + 1);
        let t = s.take(i + 1);
        assert(t.drop_last() =~= s.take(i));
        assert(digit_value(t.last()) >= 0);
        let a = radix_value(s.take(i), radix);
        let d = digit_value(t.last());
        lemma_radix_nonneg(s.take(i), radix);
        assert(a <= a * radix + d) by (nonlinear_arith)
            requires
                a >= 0,
                radix >= 2,
                d >= 0,
        ;
    } else {
        assert(s.take(i) =~= s);
        lemma_radix_nonneg(s, radix);
    }
}

/// A digit string's value is not negative.
proof fn lemma_radix_nonneg(s: Seq<char>, radix: int)
    requires
        radix >= 2,
        all_digits_in(s, radix),
    ensures
        radix_value(s, radix) >= 0,
    decreases s.len(),
{
    if s.len() > 0 {
        assert(all_digits_in(s.drop_last(), radix)) by {
            assert forall|i: int| 0 <= i < s.drop_last().len() implies digit_value(#[trigger] s.drop_last()[i]) < radix by {
                assert(s.drop_last()[i] == s[i]);
            }
        }
        lemma_radix_nonneg(s.drop_last(), radix);
        let a = radix_value(s.drop_last(), radix);
        assert(a * radix >= 0) by (nonlinear_arith)
            requires
                a >= 0,
                radix >= 2,
        ;
        assert(digit_value(s.last()) >= 0);
    }
}

/// `from_str_radix` over `s[from..]` into the range `lo..=hi`.
fn radix_parse(s: &Vec<char>, from: usize, radix: u32, lo: i128, hi: i128) -> (r: Option<i128>)
    requires
        from <= s@.len(),
        2 <= radix <= 36,
        lo <= 0 < hi,
    ensures
        match from_str_radix_spec(s@.skip(from as int), radix as int, lo as int, hi as int) {
            Some(v) => r == Some(v as i128),
            None => r is None,
        },
{
    let ghost src = s@.skip(from as int);
    if from >= s.len() {
        return None;
    }
    let first = s[from];
    let neg = first == '-' && lo < 0;
    let start = if neg || first == '+' {
        from + 1
    } else {
        from
    };
    let ghost body = s@.skip(start as int);
    proof {
        assert(src[0] == first);
        if neg || first == '+' {
            assert(src.skip(1) =~= body);
        } else {
            assert(src =~= body);
        }
    }
    if start >= s.len() {
        return None;
    }
    let mut acc: i128 = 0;
    let mut i: usize = start;
    assert(body.take(0) =~= Seq::<char>::empty());
    while i < s.len()
        invariant
            start <= i <= s@.len(),
            start < s@.len(),
            body == s@.skip(start as int),
            src == s@.skip(from as int),
            src.len() > 0,
            neg == (src[0] == '-' && lo < 0),
            body == (if neg || src[0] == '+' {
                src.skip(1)
            } else {
                src
            }),
            2 <= radix <= 36,
            lo <= 0 < hi,
            all_digits_in(body.take(i - start), radix as int),
            neg ==> acc == -radix_value(body.take(i - start), radix as int),
            !neg ==> acc == radix_value(body.take(i - start), radix as int),
            lo <= acc <= hi,
        decreases s.len() - i,
    {
        let ghost k = (i - start) as int;
        let d = digit_of(s[i]);
        assert(body[k] == s@[i as int]);
        if d >= radix {
            proof {
                assert(!all_digits_in(body, radix as int));
            }
            return None;
        }
        let ghost t = body.take(k + 1);
        assert(t.drop_last() =~= body.take(k));
        assert(t.last() == s@[i as int]);
        assert(all_digits_in(t, radix as int)) by {
            assert forall|j: int| 0 <= j < t.len() implies digit_value(#[trigger] t[j]) < radix as int by {
                if j < k {
                    assert(t[j] == body.take(k)[j]);
                }
            }
        }
        proof {
            let rv_old = radix_value(body.take(k), radix as int);
            assert(radix_value(t, radix as int) == rv_old * radix + digit_value(t.last()));
            assert(digit_value(t.last()) == d);
            let a = acc as int;
            let rr = radix as int;
            assert(neg ==> a * rr == -(rv_old * rr)) by (nonlinear_arith)
                requires
                    neg ==> a == -rv_old,
            ;
            assert(!neg ==> a * rr == rv_old * rr);
            lemma_radix_nonneg(body.take(k), radix as int);
            assert(rv_old * rr >= 0) by (nonlinear_arith)
                requires
                    rv_old >= 0,
                    rr >= 2,
            ;
            assert(neg ==> -radix_value(t, radix as int) == a * rr - d);
            assert(!neg ==> radix_value(t, radix as int) == a * rr + d);
        }
        let step = if neg {
            match acc.checked_mul(radix as i128) {
                Some(m) => m.checked_sub(d as i128),
                None => None,
            }
        } else {
            match acc.checked_mul(radix as i128) {
                Some(m) => m.checked_add(d as i128),
                None => None,
            }
        };
        let next = match step {
            Some(v) => v,
            None => {
                proof {
                    lemma_out_of_range(body, radix as int, k + 1, lo as int, hi as int, neg);
                }
                return None;
            },
        };
        if next < lo || next > hi {
            proof {
                lemma_out_of_range(body, radix as int, k + 1, lo as int, hi as int, neg);
            }
            return None;
        }
        acc = next;
        i = i + 1;
    }
    assert(body.take(body.len() as int) =~= body);
    Some(acc)
}

/// Once a prefix's value leaves the range, no longer digit string brings it
/// back: an invalid digit or the out-of-range whole.
proof fn lemma_out_of_range(body: Seq<char>, radix: int, j: int, lo: int, hi: int, neg: bool)
    requires
        radix >= 2,
        0 < j <= body.len(),
        all_digits_in(body.take(j), radix),
        lo <= 0 < hi,
        neg ==> !(lo <= -radix_value(body.take(j), radix)),
        !neg ==> !(radix_value(body.take(j), radix) <= hi),
    ensures
        all_digits_in(body, radix) ==> (neg ==> !(lo <= -radix_value(body, radix))) && (!neg ==> !(
        radix_value(body, radix) <= hi)),
{
    if all_digits_in(body, radix) {
        lemma_radix_monotone(body, radix, j);
    }
}

/// Read an integer literal's digits: `0x`/`0X` hex, `0b`/`0B` binary,
/// `0o`/`0O` octal, else decimal. A literal with no digits, a digit outside
/// its radix, or a value outside `i128` is unparsable.
pub fn parse_int(digits: &str) -> (r: Result<i128, String>)
    ensures
        match r {
            Ok(v) => parse_int_spec(digits@) == Ok::<int, Seq<char>>(v as int),
            Err(e) => parse_int_spec(digits@) == Err::<int, Seq<char>>(e@),
        },
{
    let d = chars_of(digits);
    let (from, radix): (usize, u32) = if starts_with_at(&d, 0, "0x") || starts_with_at(&d, 0, "0X") {
        (2, 16)
    } else if starts_with_at(&d, 0, "0b") || starts_with_at(&d, 0, "0B") {
        (2, 2)
    } else if starts_with_at(&d, 0, "0o") || starts_with_at(&d, 0, "0O") {
        (2, 8)
    } else {
        (0, 10)
    };
    proof {
        assert(d@.skip(0) =~= d@);
        reveal_strlit("0x");
        reveal_strlit("0X");
        reveal_strlit("0b");
        reveal_strlit("0B");
        reveal_strlit("0o");
        reveal_strlit("0O");
    }
    match radix_parse(&d, from, radix, i128::MIN, i128::MAX) {
        Some(v) => Ok(v),
        None => Err("unparsable integer literal".to_owned()),
    }
}

/// The first position from `j` on that is not `{` (or the end).
pub open spec fn skip_braces(s: Seq<char>, j: int) -> int
    decreases s.len() - j,
{
    if j >= s.len() {
        s.len() as int
    } else if s[j] == '{' {
        skip_braces(s, j + 1)
    } else {
        j
    }
}

/// The first `}` from `j` on (or the end).
pub open spec fn find_close(s: Seq<char>, j: int) -> int
    decreases s.len() - j,
{
    if j >= s.len() {
        s.len() as int
    } else if s[j] == '}' {
        j
    } else {
        find_close(s, j + 1)
    }
}

/// A Unicode scalar value.
pub open spec fn valid_scalar(v: int) -> bool {
    (0 <= v <= 0xD7FF) || (0xE000 <= v <= 0x10FFFF)
}

/// The character a simple escape `\e` stands for, if `e` names one.
pub open spec fn simple_escape(e: char) -> Option<char> {
    if e == 'n' {
        Some('\n')
    } else if e == 't' {
        Some('\t')
    } else if e == 'r' {
        Some('\r')
    } else if e == '0' {
        Some('\0')
    } else if e == '\\' {
        Some('\\')
    } else if e == '\'' {
        Some('\'')
    } else if e == '"' {
        Some('"')
    } else {
        None
    }
}

/// Decoding a literal body from position `i`, with `acc` decoded so far: a
/// plain character stands for itself; `\n`, `\t`, `\r`, `\0`, `\\`, `\'` and
/// `\"` for the usual characters; `\u{...}` for the scalar value its hex
/// digits spell. Anything else after a backslash is unsupported.
pub open spec fn decode_from(s: Seq<char>, i: int, acc: Seq<char>) -> Result<Seq<char>, Seq<char>>
    decreases s.len() - i,
{
    if i < 0 || i >= s.len() {
        Ok(acc)
    } else if s[i] != '\\' {
        decode_from(s, i + 1, acc.push(s[i]))
    } else if i + 1 >= s.len() {
        Err("unsupported escape sequence"@)
    } else if simple_escape(s[i + 1]) is Some {
        decode_from(s, i + 2, acc.push(simple_escape(s[i + 1])->Some_0))
    } else if s[i + 1] == 'u' {
        let a = skip_braces(s, i + 2);
        let b = find_close(s, a);
        let next = if b < s.len() {
            b + 1
        } else {
            b
        };
        if !(i + 2 <= a <= b <= s.len()) {
            Ok(acc)
        } else {
            match from_str_radix_spec(s.subrange(a, b), 16, 0, u32::MAX as int) {
                None => Err("malformed unicode escape"@),
                Some(v) => if valid_scalar(v) {
                    decode_from(s, next, acc.push(v as char))
                } else {
                    Err("invalid unicode escape"@)
                },
            }
        }
    } else {
        Err("unsupported escape sequence"@)
    }
}

/// Decode the escape sequences of a string or character literal body.
pub fn decode_str(text: &str) -> (r: Result<String, String>)
    ensures
        match r {
            Ok(v) => decode_from(text@, 0, seq![]) == Ok::<Seq<char>, Seq<char>>(v@),
            Err(e) => decode_from(text@, 0, seq![]) == Err::<Seq<char>, Seq<char>>(e@),
        },
{
    let s = chars_of(text);
    let n = s.len();
    let mut out = String::new();
    let mut i: usize = 0;
    while i < n
        invariant
            s@ == text@,
            n == s@.len(),
            i <= n,
            decode_from(s@, 0, seq![]) == decode_from(s@, i as int, out@),
        decreases n - i,
    {
        let c = s[i];
        if c != '\\' {
            out.push(c);
            i = i + 1;
        } else if i + 1 >= n {
            return Err("unsupported escape sequence".to_owned());
        } else {
            let e = s[i + 1];
            if e == 'n' {
                out.push('\n');
                i = i + 2;
            } else if e == 't' {
                out.push('\t');
                i = i + 2;
            } else if e == 'r' {
                out.push('\r');
                i = i + 2;
            } else if e == '0' {
                out.push('\0');
                i = i + 2;
            } else if e == '\\' {
                out.push('\\');
                i = i + 2;
            } else if e == '\'' {
                out.push('\'');
                i = i + 2;
            } else if e == '"' {
                out.push('"');
                i = i + 2;
            } else if e == 'u' {
                let mut a = i + 2;
                while a < n && s[a] == '{'
                    invariant
                        i + 2 <= a <= n,
                        n == s@.len(),
                        skip_braces(s@, i + 2) == skip_braces(s@, a as int),
                    decreases n - a,
                {
                    a = a + 1;
                }
                let mut b = a;
                while b < n && s[b] != '}'
                    invariant
                        a <= b <= n,
                        n == s@.len(),
                        find_close(s@, a as int) == find_close(s@, b as int),
                    decreases n - b,
                {
                    b = b + 1;
                }
                let mut hex: Vec<char> = Vec::new();
                let mut h = a;
                while h < b
                    invariant
                        a <= h <= b <= n,
                        n == s@.len(),
                        hex@ == s@.subrange(a as int, h as int),
                    decreases b - h,
                {
                    hex.push(s[h]);
                    assert(hex@ =~= s@.subrange(a as int, h + 1));
                    h = h + 1;
                }
                assert(hex@.skip(0) =~= hex@);
                let next = if b < n {
                    b + 1
                } else {
                    b
                };
                match radix_parse(&hex, 0, 16, 0, 0xffff_ffff) {
                    None => {
                        return Err("malformed unicode escape".to_owned());
                    },
                    Some(v) => {
                        match core::char::from_u32(v as u32) {
                            Some(ch) => {
                                out.push(ch);
                                i = next;
                            },
                            None => {
                                return Err("invalid unicode escape".to_owned());
                            },
                        }
                    },
                }
            } else {
                return Err("unsupported escape sequence".to_owned());
            }
        }
    }
    Ok(out)
}

/// Decode the contents of a character literal (between the quotes): it
/// must decode to exactly one character.
pub fn decode_char(text: &str) -> (r: Result<char, String>)
    ensures
        match decode_from(text@, 0, seq![]) {
            Err(e) => r matches Err(m) && m@ == e,
            Ok(v) => if v.len() == 1 {
                r == Ok::<char, String>(v[0])
            } else {
                r matches Err(m) && m@ == "malformed character literal"@
            },
        },
{
    let decoded = decode_str(text)?;
    let v = chars_of(decoded.as_str());
    if v.len() == 1 {
        Ok(v[0])
    } else {
        Err("malformed character literal".to_owned())
    }
}

} // verus!
