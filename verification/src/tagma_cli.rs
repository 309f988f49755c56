//! The values and reports of the `TagmaCoord` command line: reading a
//! coordinate given as one character or as hexadecimal, and the text of
//! each command's answer.
use vstd::prelude::*;
use vstd::string::StrSliceExecFns;
use crate::coord::{axes_of, abs_diff, push_char};
use crate::tagma_coord::TagmaCoord;
use crate::text::{push_str_seq, push_decimal, push_hex4, spec_decimal, spec_hex4};

verus! {

/// The value of a hexadecimal digit (either case); `None` for other
/// characters.
pub open spec fn hex_digit(c: char) -> Option<int> {
    if '0' <= c && c <= '9' {
        Some(c as int - '0' as int)
    } else if 'a' <= c && c <= 'f' {
        Some(c as int - 'a' as int + 10)
    } else if 'A' <= c && c <= 'F' {
        Some(c as int - 'A' as int + 10)
    } else {
        None
    }
}

/// Every character of `s` is a hexadecimal digit.
pub open spec fn all_hex(s: Seq<char>) -> bool {
    forall|i: int| 0 <= i < s.len() ==> (#[trigger] hex_digit(s[i])) is Some
}

/// The number written by the hexadecimal digits `s`.
pub open spec fn hex_number(s: Seq<char>) -> int
    decreases s.len(),
{
    if s.len() == 0 {
        0
    } else {
        hex_number(s.drop_last()) * 16 + hex_digit(s.last())->0
    }
}

/// Base-16 parsing into a `u16`: an optional `+`, then at least one
/// hexadecimal digit, with a value that fits in 16 bits.
pub open spec fn parse_hex_u16(s: Seq<char>) -> Option<u16> {
    let d = if s.len() > 0 && s[0] == '+' { s.drop_first() } else { s };
    if d.len() > 0 && all_hex(d) && hex_number(d) <= 0xFFFF {
        Some(hex_number(d) as u16)
    } else {
        None
    }
}

/// `s` without a leading `"0x"`.
pub open spec fn strip_0x(s: Seq<char>) -> Seq<char> {
    if s.len() >= 2 && s[0] == '0' && s[1] == 'x' {
        s.subrange(2, s.len() as int)
    } else {
        s
    }
}

/// The value a command-line argument stands for: a single character gives
/// its code point (kept to 16 bits); anything else is read as hexadecimal,
/// with or without a `0x` prefix.
pub open spec fn spec_parse_val(s: Seq<char>) -> Option<u16> {
    if s.len() == 1 {
        Some((s[0] as u32) as u16)
    } else {
        parse_hex_u16(strip_0x(s))
    }
}

proof fn lemma_hex_number_step(s: Seq<char>, i: int)
    requires
        0 <= i < s.len(),
    ensures
        hex_number(s.subrange(0, i + 1)) == hex_number(s.subrange(0, i)) * 16 + hex_digit(s[i])->0,
{
    assert(s.subrange(0, i + 1).drop_last() =~= s.subrange(0, i));
}

proof fn lemma_hex_number_grows(s: Seq<char>)
    requires
        all_hex(s),
    ensures
        hex_number(s) >= 0,
        s.len() > 0 ==> hex_number(s) >= hex_number(s.drop_last()) * 16,
    decreases s.len(),
{
    if s.len() > 0 {
        assert(all_hex(s.drop_last())) by {
            assert forall|i: int| 0 <= i < s.drop_last().len() implies (#[trigger] hex_digit(s.drop_last()[i])) is Some by {
                assert(s.drop_last()[i] == s[i]);
            }
        }
        lemma_hex_number_grows(s.drop_last());
        assert(hex_digit(s[s.len() - 1]) is Some);
    }
}

/// Once the prefix value passes 0xFFFF, no longer digit string fits.
proof fn lemma_hex_too_big(s: Seq<char>, i: int)
    requires
        all_hex(s),
        0 < i <= s.len(),
        hex_number(s.subrange(0, i)) > 0xFFFF,
    ensures
        hex_number(s) > 0xFFFF,
    decreases s.len() - i,
{
    if i < s.len() {
        assert(all_hex(s.subrange(0, i + 1))) by {
            assert forall|k: int| 0 <= k < i + 1 implies (#[trigger] hex_digit(s.subrange(0, i + 1)[k])) is Some by {
                assert(s.subrange(0, i + 1)[k] == s[k]);
            }
        }
        lemma_hex_number_grows(s.subrange(0, i + 1));
        assert(s.subrange(0, i + 1).drop_last() =~= s.subrange(0, i));
        lemma_hex_too_big(s, i + 1);
    } else {
        assert(s.subrange(0, i) =~= s);
    }
}

/// The value of one hexadecimal digit character.
fn hex_digit_value(c: char) -> (r: Option<u16>)
    ensures
        r is Some <==> hex_digit(c) is Some,
        r matches Some(v) ==> v == hex_digit(c)->0,
{
    if '0' <= c && c <= '9' {
        Some((c as u32 - '0' as u32) as u16)
    } else if 'a' <= c && c <= 'f' {
        Some((c as u32 - 'a' as u32 + 10) as u16)
    } else if 'A' <= c && c <= 'F' {
        Some((c as u32 - 'A' as u32 + 10) as u16)
    } else {
        None
    }
}

/// Reads the characters `from..` of `s` as a base-16 `u16` (an optional
/// `+`, then digits).
fn parse_hex_from(s: &str, from: usize) -> (r: Option<u16>)
    requires
        from <= s@.len(),
    ensures
        r == parse_hex_u16(s@.subrange(from as int, s@.len() as int)),
{
    let ghost t = s@.subrange(from as int, s@.len() as int);
    let n = s.unicode_len();
    let mut start = from;
    if start < n && s.get_char(start) == '+' {
        start = start + 1;
    }
    let ghost d = s@.subrange(start as int, s@.len() as int);
    proof {
        if t.len() > 0 && t[0] == '+' {
            assert(t.drop_first() =~= d);
        } else {
            assert(t =~= d);
        }
    }
    if start >= n {
        return None;
    }
    let mut value: u32 = 0;
    let mut i = start;
    while i < n
        invariant
            start <= i <= n,
            n == s@.len(),
            d == s@.subrange(start as int, n as int),
            parse_hex_u16(s@.subrange(from as int, s@.len() as int)) == (if d.len() > 0 && all_hex(d)
                && hex_number(d) <= 0xFFFF {
                Some(hex_number(d) as u16)
            } else {
                None
            }),
            value <= 0xFFFF,
            all_hex(d.subrange(0, i - start)),
            value == hex_number(d.subrange(0, i - start)),
        decreases n - i,
    {
        let c = s.get_char(i);
        proof {
            assert(d[i - start] == c);
        }
        match hex_digit_value(c) {
            None => {
                proof {
                    assert(!all_hex(d)) by {
                        assert(hex_digit(d[i - start]) is None);
                    }
                }
                return None;
            },
            Some(v) => {
                proof {
                    lemma_hex_number_step(d, i - start);
                    assert(all_hex(d.subrange(0, i - start + 1))) by {
                        assert forall|k: int| 0 <= k < i - start + 1 implies (#[trigger] hex_digit(d.subrange(0, i - start + 1)[k])) is Some by {
                            if k < i - start {
                                assert(d.subrange(0, i - start + 1)[k] == d.subrange(0, i - start)[k]);
                            }
                        }
                    }
                }
                value = value * 16 + v as u32;
                if value > 0xFFFF {
                    proof {
                        if all_hex(d) {
                            lemma_hex_too_big(d, i - start + 1);
                        }
                    }
                    return None;
                }
            },
        }
        i = i + 1;
    }
    proof {
        assert(d.subrange(0, n - start) =~= d);
    }
    Some(value as u16)
}

/// The value a command-line argument stands for: one character gives its
/// code point (kept to 16 bits); anything else is read as hexadecimal,
/// with or without a `0x` prefix.
pub fn parse_val(s: &str) -> (r: Option<u16>)
    ensures
        r == spec_parse_val(s@),
{
    let n = s.unicode_len();
    if n == 1 {
        let c = s.get_char(0);
        return Some((c as u32) as u16);
    }
    if n >= 2 && s.get_char(0) == '0' && s.get_char(1) == 'x' {
        let r = parse_hex_from(s, 2);
        proof {
            assert(strip_0x(s@) =~= s@.subrange(2, s@.len() as int));
        }
        r
    } else {
        let r = parse_hex_from(s, 0);
        proof {
            assert(strip_0x(s@) =~= s@.subrange(0, s@.len() as int));
        }
        r
    }
}

/// The answer of `check`: `"valid: <syllable> (U+XXXX, i=.., m=.., f=..)"`
/// for a coordinate's code point, `"invalid: U+XXXX"` otherwise.
pub fn check_report(cp: u16) -> (r: String)
    ensures
        TagmaCoord::spec_valid(cp) ==> r@ == "valid: "@ + seq![cp as char] + " (U+"@ + spec_hex4(cp as nat)
            + ", i="@ + spec_decimal(axes_of(cp - 0xAC00).0 as nat) + ", m="@ + spec_decimal(
            axes_of(cp - 0xAC00).1 as nat,
        ) + ", f="@ + spec_decimal(axes_of(cp - 0xAC00).2 as nat) + ")"@,
        !TagmaCoord::spec_valid(cp) ==> r@ == "invalid: U+"@ + spec_hex4(cp as nat),
{
    let mut out = String::new();
    match TagmaCoord::from_code_point(cp) {
        Some(c) => {
            push_str_seq(&mut out, "valid: ");
            let body = c.to_string();
            push_str_seq(&mut out, body.as_str());
            proof {
                reveal_strlit("valid: ");
                reveal_strlit(" (U+");
                reveal_strlit(", i=");
                reveal_strlit(", m=");
                reveal_strlit(", f=");
                reveal_strlit(")");
            }
        },
        None => {
            push_str_seq(&mut out, "invalid: U+");
            push_hex4(&mut out, cp);
            proof {
                reveal_strlit("invalid: U+");
            }
        },
    }
    out
}

/// The answer of `compose`: `"<syllable> (U+XXXX)"`, or the error
/// `"error: invalid axes (i,m,f)"`.
pub fn compose_report(initial: u8, medial: u8, final_: u8) -> (r: Result<String, String>)
    ensures
        r is Ok <==> (initial < 19 && medial < 21 && final_ < 28),
        r matches Ok(s) ==> {
            let cp = 0xAC00 + initial * 588 + medial * 28 + final_;
            s@ == seq![cp as char] + " (U+"@ + spec_hex4(cp as nat) + ")"@
        },
        r matches Err(s) ==> s@ == "error: invalid axes ("@ + spec_decimal(initial as nat) + ","@
            + spec_decimal(medial as nat) + ","@ + spec_decimal(final_ as nat) + ")"@,
{
    let mut out = String::new();
    match TagmaCoord::new(initial, medial, final_) {
        Some(c) => {
            push_char(&mut out, c.to_char());
            push_str_seq(&mut out, " (U+");
            push_hex4(&mut out, c.code_point());
            push_str_seq(&mut out, ")");
            proof {
                reveal_strlit(" (U+");
                reveal_strlit(")");
                crate::coord::lemma_axes_compose(initial as int, medial as int, final_ as int);
            }
            Ok(out)
        },
        None => {
            push_str_seq(&mut out, "error: invalid axes (");
            push_decimal(&mut out, initial as usize);
            push_str_seq(&mut out, ",");
            push_decimal(&mut out, medial as usize);
            push_str_seq(&mut out, ",");
            push_decimal(&mut out, final_ as usize);
            push_str_seq(&mut out, ")");
            proof {
                reveal_strlit("error: invalid axes (");
                reveal_strlit(",");
                reveal_strlit(")");
            }
            Err(out)
        },
    }
}

/// The answer of `decompose`: `"<syllable>: initial=.., medial=..,
/// final=.."`, or the error `"error: U+XXXX is not valid"`.
pub fn decompose_report(cp: u16) -> (r: Result<String, String>)
    ensures
        r is Ok <==> TagmaCoord::spec_valid(cp),
        r matches Ok(s) ==> s@ == seq![cp as char] + ": initial="@ + spec_decimal(axes_of(cp - 0xAC00).0 as nat)
            + ", medial="@ + spec_decimal(axes_of(cp - 0xAC00).1 as nat) + ", final="@ + spec_decimal(
            axes_of(cp - 0xAC00).2 as nat,
        ),
        r matches Err(s) ==> s@ == "error: U+"@ + spec_hex4(cp as nat) + " is not valid"@,
{
    let mut out = String::new();
    match TagmaCoord::from_code_point(cp) {
        Some(c) => {
            let (i, m, f) = c.decompose();
            push_char(&mut out, c.to_char());
            push_str_seq(&mut out, ": initial=");
            push_decimal(&mut out, i as usize);
            push_str_seq(&mut out, ", medial=");
            push_decimal(&mut out, m as usize);
            push_str_seq(&mut out, ", final=");
            push_decimal(&mut out, f as usize);
            proof {
                reveal_strlit(": initial=");
                reveal_strlit(", medial=");
                reveal_strlit(", final=");
            }
            Ok(out)
        },
        None => {
            push_str_seq(&mut out, "error: U+");
            push_hex4(&mut out, cp);
            push_str_seq(&mut out, " is not valid");
            proof {
                reveal_strlit("error: U+");
                reveal_strlit(" is not valid");
            }
            Err(out)
        },
    }
}

/// The answer of `dist`: `"Hamming distance: initial=.., medial=..,
/// final=.."`, or the error `"error: one or both values are not valid"`.
pub fn dist_report(a: u16, b: u16) -> (r: Result<String, String>)
    ensures
        r is Ok <==> TagmaCoord::spec_valid(a) && TagmaCoord::spec_valid(b),
        r matches Ok(s) ==> s@ == "Hamming distance: initial="@ + spec_decimal(
            abs_diff(axes_of(a - 0xAC00).0, axes_of(b - 0xAC00).0) as nat,
        ) + ", medial="@ + spec_decimal(abs_diff(axes_of(a - 0xAC00).1, axes_of(b - 0xAC00).1) as nat)
            + ", final="@ + spec_decimal(abs_diff(axes_of(a - 0xAC00).2, axes_of(b - 0xAC00).2) as nat),
        r matches Err(s) ==> s@ == "error: one or both values are not valid"@,
{
    match (TagmaCoord::from_code_point(a), TagmaCoord::from_code_point(b)) {
        (Some(ca), Some(cb)) => {
            let (di, dm, df) = ca.hamming_distance(&cb);
            let mut out = String::new();
            push_str_seq(&mut out, "Hamming distance: initial=");
            push_decimal(&mut out, di as usize);
            push_str_seq(&mut out, ", medial=");
            push_decimal(&mut out, dm as usize);
            push_str_seq(&mut out, ", final=");
            push_decimal(&mut out, df as usize);
            proof {
                reveal_strlit("Hamming distance: initial=");
                reveal_strlit(", medial=");
                reveal_strlit(", final=");
            }
            Ok(out)
        },
        _ => {
            let mut out = String::new();
            push_str_seq(&mut out, "error: one or both values are not valid");
            proof {
                reveal_strlit("error: one or both values are not valid");
            }
            Err(out)
        },
    }
}

} // verus!
