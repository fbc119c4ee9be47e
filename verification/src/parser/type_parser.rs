//! Type coercion: syntactic validation of a raw string against a declared
//! type. The value itself is kept in its string form; coercion exists to
//! reject malformed input, not to change representation.
use std::path::PathBuf;

use vstd::prelude::*;

use crate::config::schema::ArgumentType;
use crate::error::types::DynamicCliError;
use crate::error::types::ParseError;
use crate::text::chars_of;
use crate::text::chars_eq_str;
use crate::text::is_digit;
use crate::text::lower_chars;
use crate::text::spec_all_digits;
use crate::text::spec_digit_val;
use crate::text::spec_digits_val;
use crate::text::spec_is_digit;
use crate::text::spec_lower;
use crate::text::spec_trim;
use crate::text::trim_chars;

verus! {

// ---------------------------------------------------------------------------
// Integers
// ---------------------------------------------------------------------------
/// Whether the sequence starts with an explicit sign.
pub open spec fn spec_has_sign(s: Seq<char>) -> bool {
    s.len() > 0 && (s[0] == '-' || s[0] == '+')
}

/// The digits of a signed numeral: everything after the optional sign.
pub open spec fn spec_sign_rest(s: Seq<char>) -> Seq<char> {
    if spec_has_sign(s) {
        s.drop_first()
    } else {
        s
    }
}

/// Whether the sequence is negative: a leading minus sign.
pub open spec fn spec_is_negative(s: Seq<char>) -> bool {
    s.len() > 0 && s[0] == '-'
}

/// The signed 64-bit integer a decimal numeral denotes, if it is one: an
/// optional sign, one or more ASCII digits, and a value that fits.
pub open spec fn spec_parse_i64(s: Seq<char>) -> Option<i64> {
    let digits = spec_sign_rest(s);
    if digits.len() > 0 && spec_all_digits(digits) {
        let v = spec_digits_val(digits) as int;
        if spec_is_negative(s) && v <= 0x8000_0000_0000_0000 {
            Some((-v) as i64)
        } else if !spec_is_negative(s) && v <= 0x7fff_ffff_ffff_ffff {
            Some(v as i64)
        } else {
            None
        }
    } else {
        None
    }
}

/// A longer digit string denotes at least as large a value.
proof fn lemma_digits_val_take_le(s: Seq<char>, i: int)
    requires
        0 <= i <= s.len(),
    ensures
        spec_digits_val(s.take(i)) <= spec_digits_val(s),
    decreases s.len(),
{
    if i < s.len() {
        assert(s.drop_last().take(i) =~= s.take(i));
        lemma_digits_val_take_le(s.drop_last(), i);
    } else {
        assert(s.take(i) =~= s);
    }
}

/// The type error `parse_integer` reports.
pub open spec fn spec_integer_error(r: DynamicCliError, s: Seq<char>) -> bool {
    r matches DynamicCliError::Parse(pe) && (pe matches ParseError::TypeParseError {
        arg_name,
        expected_type,
        value,
        details,
    } && arg_name@ == "value"@ && expected_type@ == "integer"@ && value@ == s)
}

/// Parses a string as a signed 64-bit integer: succeeds exactly on decimal
/// numerals whose value fits, and returns that value.
pub fn parse_integer(value: &str) -> (r: Result<i64, DynamicCliError>)
    ensures
        r matches Ok(n) ==> spec_parse_i64(value@) == Some(n),
        r is Err ==> spec_parse_i64(value@) is None,
        r matches Err(e) ==> spec_integer_error(e, value@),
{
    let v = chars_of(value);
    let mut start: usize = 0;
    let mut neg = false;
    if v.len() > 0 && (v[0] == '-' || v[0] == '+') {
        neg = v[0] == '-';
        start = 1;
    }
    let ghost digits = spec_sign_rest(value@);
    proof {
        assert(digits =~= v@.skip(start as int));
    }
    if start == v.len() {
        // no digits at all
        assert(digits.len() == 0);
        return Err(integer_error(value));
    }
    let limit: u64 = 0x8000_0000_0000_0000;
    let mut mag: u64 = 0;
    let mut k = start;
    while k < v.len()
        invariant
            start <= k <= v.len(),
            v@ == value@,
            digits == spec_sign_rest(value@),
            digits =~= v@.skip(start as int),
            limit == 0x8000_0000_0000_0000u64,
            forall|j: int| start <= j < k ==> spec_is_digit(v@[j]),
            mag as nat == spec_digits_val(v@.subrange(start as int, k as int)),
            mag <= limit,
        decreases v.len() - k,
    {
        if !is_digit(v[k]) {
            assert(!spec_all_digits(digits)) by {
                assert(digits[k - start] == v@[k as int]);
            }
            return Err(integer_error(value));
        }
        let d: u64 = (v[k] as u32 - 48) as u64;
        proof {
            assert(v@.subrange(start as int, k + 1).drop_last() =~= v@.subrange(
                start as int,
                k as int,
            ));
            assert(v@.subrange(start as int, k + 1).last() == v@[k as int]);
        }
        if mag > limit / 10 {
            assert(spec_digits_val(v@.subrange(start as int, k + 1)) > limit) by {
                assert(spec_digit_val(v@[k as int]) >= 0);
            }
            proof {
                lemma_too_large(value@, digits, start as int, k + 1, limit as nat);
            }
            return Err(integer_error(value));
        }
        let next = mag * 10 + d;
        if next > limit {
            proof {
                lemma_too_large(value@, digits, start as int, k + 1, limit as nat);
            }
            return Err(integer_error(value));
        }
        mag = next;
        k += 1;
    }
    proof {
        assert(v@.subrange(start as int, v@.len() as int) =~= digits);
        assert(spec_all_digits(digits));
        assert(digits.len() > 0);
    }
    if neg {
        if mag == limit {
            assert(spec_parse_i64(value@) == Some(i64::MIN));
            Ok(i64::MIN)
        } else {
            Ok(-(mag as i64))
        }
    } else {
        if mag == limit {
            assert(spec_parse_i64(value@) is None);
            Err(integer_error(value))
        } else {
            Ok(mag as i64)
        }
    }
}

/// If some digit prefix already exceeds the limit, the numeral as a whole is
/// out of range, whatever follows.
proof fn lemma_too_large(s: Seq<char>, digits: Seq<char>, start: int, k: int, limit: nat)
    requires
        digits == spec_sign_rest(s),
        0 <= start <= k <= s.len(),
        digits =~= s.skip(start),
        spec_digits_val(s.subrange(start, k)) > limit,
        0x8000_0000_0000_0000 <= limit,
    ensures
        spec_parse_i64(s) is None,
{
    if digits.len() > 0 && spec_all_digits(digits) {
        assert(digits.take(k - start) =~= s.subrange(start, k));
        lemma_digits_val_take_le(digits, k - start);
        assert(spec_digits_val(digits) > limit);
    }
}

fn integer_error(value: &str) -> (r: DynamicCliError)
    ensures
        spec_integer_error(r, value@),
{
    DynamicCliError::Parse(
        ParseError::TypeParseError {
            arg_name: "value".to_owned(),
            expected_type: "integer".to_owned(),
            value: value.to_owned(),
            details: Some("must be a base-10 integer that fits in 64 bits".to_owned()),
        },
    )
}

// ---------------------------------------------------------------------------
// Booleans
// ---------------------------------------------------------------------------
/// The spellings accepted as true: `true`, `yes`, `y`, `1`, `on`.
pub open spec fn spec_truthy(s: Seq<char>) -> bool {
    s == "true"@ || s == "yes"@ || s == "y"@ || s == "1"@ || s == "on"@
}

/// The spellings accepted as false: `false`, `no`, `n`, `0`, `off`.
pub open spec fn spec_falsy(s: Seq<char>) -> bool {
    s == "false"@ || s == "no"@ || s == "n"@ || s == "0"@ || s == "off"@
}

/// The boolean a string denotes, if any: trimmed and lower-cased, it must be
/// one of the accepted spellings.
pub open spec fn spec_parse_bool(s: Seq<char>) -> Option<bool> {
    let n = spec_lower(spec_trim(s));
    if spec_truthy(n) {
        Some(true)
    } else if spec_falsy(n) {
        Some(false)
    } else {
        None
    }
}

/// The type error `parse_bool` reports.
pub open spec fn spec_bool_error(r: DynamicCliError, s: Seq<char>) -> bool {
    r matches DynamicCliError::Parse(pe) && (pe matches ParseError::TypeParseError {
        arg_name,
        expected_type,
        value,
        details,
    } && arg_name@ == "value"@ && expected_type@ == "bool"@ && value@ == s)
}

/// Parses a string as a boolean, trimmed (ASCII whitespace) and
/// case-insensitively (ASCII folding): `true`,
/// `yes`, `y`, `1`, `on` are true; `false`, `no`, `n`, `0`, `off` are false;
/// anything else is rejected.
pub fn parse_bool(value: &str) -> (r: Result<bool, DynamicCliError>)
    ensures
        r matches Ok(b) ==> spec_parse_bool(value@) == Some(b),
        r is Err ==> spec_parse_bool(value@) is None,
        r matches Err(e) ==> spec_bool_error(e, value@),
{
    let chars = chars_of(value);
    let trimmed = trim_chars(&chars);
    let n = lower_chars(&trimmed);
    if chars_eq_str(&n, "true") || chars_eq_str(&n, "yes") || chars_eq_str(&n, "y")
        || chars_eq_str(&n, "1") || chars_eq_str(&n, "on") {
        Ok(true)
    } else if chars_eq_str(&n, "false") || chars_eq_str(&n, "no") || chars_eq_str(&n, "n")
        || chars_eq_str(&n, "0") || chars_eq_str(&n, "off") {
        Ok(false)
    } else {
        Err(
            DynamicCliError::Parse(
                ParseError::TypeParseError {
                    arg_name: "value".to_owned(),
                    expected_type: "bool".to_owned(),
                    value: value.to_owned(),
                    details: Some("expected true/false, yes/no, 1/0, on/off".to_owned()),
                },
            ),
        )
    }
}

/// Law: every accepted boolean spelling denotes exactly what one of the
/// two canonical spellings denotes: a truthy spelling behaves like
/// `true`, a falsy one like `false`, whichever variant the user typed.
pub proof fn lemma_bool_spelling_canonical(s: Seq<char>)
    requires
        spec_parse_bool(s) is Some,
    ensures
        spec_parse_bool(s)->0 ==> spec_parse_bool(s) == spec_parse_bool("true"@),
        !(spec_parse_bool(s)->0) ==> spec_parse_bool(s) == spec_parse_bool("false"@),
{
    reveal_strlit("true");
    reveal_strlit("false");
    reveal_strlit("yes");
    reveal_strlit("y");
    reveal_strlit("1");
    reveal_strlit("on");
    reveal_strlit("no");
    reveal_strlit("n");
    reveal_strlit("0");
    reveal_strlit("off");
    assert(spec_trim("true"@) == "true"@);
    assert(spec_trim("false"@) == "false"@);
    assert(spec_lower("true"@) =~= "true"@) by {
        assert(forall|i: int|
            0 <= i < "true"@.len() ==> spec_lower("true"@)[i] == #[trigger] "true"@[i]);
    }
    assert(spec_lower("false"@) =~= "false"@) by {
        assert(forall|i: int|
            0 <= i < "false"@.len() ==> spec_lower("false"@)[i] == #[trigger] "false"@[i]);
    }
    assert(spec_parse_bool("true"@) == Some(true));
    assert(spec_parse_bool("false"@) == Some(false));
}

// ---------------------------------------------------------------------------
// Floats (syntax only; no floating-point value is ever computed here)
// ---------------------------------------------------------------------------
pub open spec fn spec_is_exp_char(c: char) -> bool {
    c == 'e' || c == 'E'
}

/// The number of ASCII dots in the sequence.
pub open spec fn spec_dots(s: Seq<char>) -> nat
    decreases s.len(),
{
    if s.len() == 0 {
        0
    } else {
        spec_dots(s.drop_last()) + if s.last() == '.' {
            1nat
        } else {
            0nat
        }
    }
}

/// A mantissa: only digits and dots, at most one dot, at least one digit.
pub open spec fn spec_mantissa_ok(s: Seq<char>) -> bool {
    &&& forall|i: int| 0 <= i < s.len() ==> (spec_is_digit(s[i]) || s[i] == '.')
    &&& spec_dots(s) <= 1
    &&& exists|i: int| 0 <= i < s.len() && spec_is_digit(s[i])
}

/// An exponent: an optional sign followed by one or more digits.
pub open spec fn spec_exp_ok(s: Seq<char>) -> bool {
    let d = spec_sign_rest(s);
    d.len() > 0 && spec_all_digits(d)
}

/// The index of the first exponent marker, or -1 if there is none.
pub open spec fn spec_find_exp(s: Seq<char>) -> int
    decreases s.len(),
{
    if s.len() == 0 {
        -1
    } else if spec_is_exp_char(s[0]) {
        0
    } else {
        let r = spec_find_exp(s.drop_first());
        if r == -1 {
            -1
        } else {
            r + 1
        }
    }
}

proof fn lemma_find_exp(s: Seq<char>)
    ensures
        spec_find_exp(s) >= -1,
        spec_find_exp(s) == -1 ==> forall|j: int| 0 <= j < s.len() ==> !spec_is_exp_char(s[j]),
        spec_find_exp(s) >= 0 ==> 0 <= spec_find_exp(s) < s.len() && spec_is_exp_char(
            s[spec_find_exp(s)],
        ) && forall|j: int| 0 <= j < spec_find_exp(s) ==> !spec_is_exp_char(s[j]),
    decreases s.len(),
{
    if s.len() == 0 {
    } else if spec_is_exp_char(s[0]) {
    } else {
        lemma_find_exp(s.drop_first());
        let r = spec_find_exp(s.drop_first());
        if r == -1 {
            assert forall|j: int| 0 <= j < s.len() implies !spec_is_exp_char(s[j]) by {
                if j > 0 {
                    assert(s.drop_first()[j - 1] == s[j]);
                }
            }
        } else {
            assert(s.drop_first()[r] == s[r + 1]);
            assert forall|j: int| 0 <= j < r + 1 implies !spec_is_exp_char(s[j]) by {
                if j > 0 {
                    assert(s.drop_first()[j - 1] == s[j]);
                }
            }
        }
    }
}

/// An unsigned number: a mantissa, optionally followed by an exponent
/// marker and an exponent.
pub open spec fn spec_number_ok(s: Seq<char>) -> bool {
    let i = spec_find_exp(s);
    if i < 0 {
        spec_mantissa_ok(s)
    } else {
        spec_mantissa_ok(s.take(i)) && spec_exp_ok(s.skip(i + 1))
    }
}

/// The grammar of 64-bit float literals: an optional sign, then `inf`,
/// `infinity` or `nan` (case-insensitively) or a number.
pub open spec fn spec_float_ok(s: Seq<char>) -> bool {
    let b = spec_sign_rest(s);
    ||| spec_lower(b) == "inf"@
    ||| spec_lower(b) == "infinity"@
    ||| spec_lower(b) == "nan"@
    ||| spec_number_ok(b)
}

/// Checks a mantissa candidate.
fn mantissa_ok(v: &Vec<char>, from: usize, to: usize) -> (r: bool)
    requires
        0 <= from <= to <= v@.len(),
    ensures
        r == spec_mantissa_ok(v@.subrange(from as int, to as int)),
{
    let ghost s = v@.subrange(from as int, to as int);
    let mut dots: usize = 0;
    let mut seen_digit = false;
    let mut k = from;
    assert(s.take(0) =~= Seq::<char>::empty());
    while k < to
        invariant
            from <= k <= to <= v@.len(),
            s == v@.subrange(from as int, to as int),
            dots as nat == spec_dots(s.take(k - from)),
            dots <= k,
            seen_digit == exists|i: int| 0 <= i < k - from && spec_is_digit(s[i]),
            forall|i: int| 0 <= i < k - from ==> (spec_is_digit(s[i]) || s[i] == '.'),
        decreases to - k,
    {
        let c = v[k];
        assert(s[k - from] == v@[k as int]);
        proof {
            assert(s.take(k - from + 1).drop_last() =~= s.take(k - from));
            assert(s.take(k - from + 1).last() == s[k - from]);
        }
        if is_digit(c) {
            seen_digit = true;
        } else if c == '.' {
            dots += 1;
        } else {
            return false;
        }
        k += 1;
    }
    assert(s.take(to - from) =~= s);
    dots <= 1 && seen_digit
}

/// Checks whether a string is a syntactically valid 64-bit float literal.
/// No conversion is performed; only the grammar is decided.
pub fn float_syntax_ok(value: &str) -> (r: bool)
    ensures
        r == spec_float_ok(value@),
{
    let v = chars_of(value);
    let mut start: usize = 0;
    if v.len() > 0 && (v[0] == '-' || v[0] == '+') {
        start = 1;
    }
    let ghost b = spec_sign_rest(value@);
    proof {
        assert(b =~= v@.skip(start as int));
    }
    // the word forms, case-insensitively
    let mut word: Vec<char> = Vec::new();
    let mut k = start;
    while k < v.len()
        invariant
            start <= k <= v.len(),
            v@ == value@,
            word@ == v@.subrange(start as int, k as int),
        decreases v.len() - k,
    {
        word.push(v[k]);
        assert(word@ =~= v@.subrange(start as int, k + 1));
        k += 1;
    }
    assert(word@ =~= b);
    let lowered = lower_chars(&word);
    if chars_eq_str(&lowered, "inf") || chars_eq_str(&lowered, "infinity") || chars_eq_str(
        &lowered,
        "nan",
    ) {
        return true;
    }
    // otherwise: a number, split at the first exponent marker
    let mut exp_at: usize = 0;
    let mut has_exp = false;
    let mut k = start;
    while k < v.len() && !has_exp
        invariant
            start <= k <= v.len(),
            v@ == value@,
            b =~= v@.skip(start as int),
            !has_exp ==> forall|j: int| 0 <= j < k - start ==> !spec_is_exp_char(b[j]),
            has_exp ==> start <= exp_at < v.len() && spec_is_exp_char(b[exp_at - start])
                && forall|j: int| 0 <= j < exp_at - start ==> !spec_is_exp_char(b[j]),
        decreases v.len() - k + (if has_exp {
            0int
        } else {
            1int
        }),
    {
        let c = v[k];
        assert(b[k - start] == v@[k as int]);
        if c == 'e' || c == 'E' {
            has_exp = true;
            exp_at = k;
        } else {
            k += 1;
        }
    }
    proof {
        lemma_find_exp(b);
    }
    if !has_exp {
        assert(spec_find_exp(b) == -1) by {
            if spec_find_exp(b) >= 0 {
                assert(!spec_is_exp_char(b[spec_find_exp(b)]));
            }
        }
        let r = mantissa_ok(&v, start, v.len());
        assert(v@.subrange(start as int, v@.len() as int) =~= b);
        r
    } else {
        assert(spec_find_exp(b) == exp_at - start) by {
            if spec_find_exp(b) == -1 {
                assert(!spec_is_exp_char(b[exp_at - start]));
            } else if spec_find_exp(b) < exp_at - start {
                assert(!spec_is_exp_char(b[spec_find_exp(b)]));
            } else if spec_find_exp(b) > exp_at - start {
                assert(!spec_is_exp_char(b[exp_at - start]));
            }
        }
        let m = mantissa_ok(&v, start, exp_at);
        assert(v@.subrange(start as int, exp_at as int) =~= b.take(exp_at - start));
        if !m {
            return false;
        }
        // exponent: optional sign then one or more digits
        let mut e = exp_at + 1;
        let ghost etail = b.skip(exp_at - start + 1);
        proof {
            assert(etail =~= v@.skip(e as int));
        }
        if e < v.len() && (v[e] == '-' || v[e] == '+') {
            e += 1;
        }
        let ghost edigits = spec_sign_rest(etail);
        proof {
            assert(edigits =~= v@.skip(e as int));
        }
        if e == v.len() {
            assert(edigits.len() == 0);
            return false;
        }
        let mut k = e;
        while k < v.len()
            invariant
                e <= k <= v.len(),
                v@ == value@,
                edigits =~= v@.skip(e as int),
                forall|j: int| 0 <= j < k - e ==> spec_is_digit(edigits[j]),
            decreases v.len() - k,
        {
            if !is_digit(v[k]) {
                assert(edigits[k - e] == v@[k as int]);
                assert(!spec_all_digits(edigits));
                return false;
            }
            assert(edigits[k - e] == v@[k as int]);
            k += 1;
        }
        assert(spec_all_digits(edigits));
        true
    }
}

// ---------------------------------------------------------------------------
// Paths
// ---------------------------------------------------------------------------
#[verifier::external_type_specification]
#[verifier::external_body]
pub struct ExPathBuf(PathBuf);

/// Relies on `PathBuf::from(&str)`: building an owned path from any string
/// never fails.
#[verifier::external_body]
fn pathbuf_from_str(value: &str) -> PathBuf {
    PathBuf::from(value)
}

/// Parses a string as a file system path. Any string is accepted; whether
/// the path exists is a separate, later validation step.
pub fn parse_path(value: &str) -> (r: Result<PathBuf, DynamicCliError>)
    ensures
        r is Ok,
{
    Ok(pathbuf_from_str(value))
}

// ---------------------------------------------------------------------------
// Dispatch
// ---------------------------------------------------------------------------
/// Whether a raw string is accepted for the given declared type.
pub open spec fn spec_coerces(s: Seq<char>, t: ArgumentType) -> bool {
    match t {
        ArgumentType::String => true,
        ArgumentType::Integer => spec_parse_i64(s) is Some,
        ArgumentType::Float => spec_float_ok(s),
        ArgumentType::Bool => spec_parse_bool(s) is Some,
        ArgumentType::Path => true,
    }
}

/// The type error `parse_value` reports.
pub open spec fn spec_type_error(r: DynamicCliError, s: Seq<char>, t: ArgumentType) -> bool {
    r matches DynamicCliError::Parse(pe) && (pe matches ParseError::TypeParseError {
        arg_name,
        expected_type,
        value,
        details,
    } && arg_name@ == "value"@ && value@ == s && (match t {
        ArgumentType::String => expected_type@ == "string"@,
        ArgumentType::Integer => expected_type@ == "integer"@,
        ArgumentType::Float => expected_type@ == "float"@,
        ArgumentType::Bool => expected_type@ == "bool"@,
        ArgumentType::Path => expected_type@ == "path"@,
    }))
}

/// Validates a raw string against its declared type and returns it
/// unchanged; fails exactly when the string does not coerce.
pub fn parse_value(value: &str, arg_type: ArgumentType) -> (r: Result<String, DynamicCliError>)
    ensures
        r matches Ok(out) ==> out@ == value@ && spec_coerces(value@, arg_type),
        r is Err ==> !spec_coerces(value@, arg_type),
        r matches Err(e) ==> spec_type_error(e, value@, arg_type),
{
    match arg_type {
        ArgumentType::String => Ok(value.to_owned()),
        ArgumentType::Integer => {
            match parse_integer(value) {
                Ok(_) => Ok(value.to_owned()),
                Err(e) => Err(e),
            }
        },
        ArgumentType::Float => {
            if float_syntax_ok(value) {
                Ok(value.to_owned())
            } else {
                Err(
                    DynamicCliError::Parse(
                        ParseError::TypeParseError {
                            arg_name: "value".to_owned(),
                            expected_type: "float".to_owned(),
                            value: value.to_owned(),
                            details: Some("must be a decimal number".to_owned()),
                        },
                    ),
                )
            }
        },
        ArgumentType::Bool => {
            match parse_bool(value) {
                Ok(_) => Ok(value.to_owned()),
                Err(e) => Err(e),
            }
        },
        ArgumentType::Path => {
            match parse_path(value) {
                Ok(_) => Ok(value.to_owned()),
                Err(e) => Err(e),
            }
        },
    }
}

} // verus!
