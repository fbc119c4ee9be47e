//! Common helpers: list and size formatting, string validation and
//! normalisation, loose value parsing, and path manipulation.
use vstd::prelude::*;

use crate::config::schema::ArgumentType;
use crate::error::types::DynamicCliError;
use crate::error::types::ParseError;
use crate::parser::type_parser::float_syntax_ok;
use crate::parser::type_parser::parse_integer;
use crate::parser::type_parser::spec_float_ok;
use crate::parser::type_parser::spec_parse_i64;
use crate::text::chars_eq_str;
use crate::text::chars_of;
use crate::text::lower_chars;
use crate::text::spec_lower;
use crate::text::spec_trim;
use crate::text::string_from_chars;
use crate::text::trim_chars;

verus! {

// ---------------------------------------------------------------------------
// Decimal rendering
// ---------------------------------------------------------------------------
/// The ASCII digit for one decimal digit value.
pub open spec fn spec_digit_char(d: nat) -> char {
    ((48 + d) as u8) as char
}

/// The decimal numeral of a number, most significant digit first.
pub open spec fn spec_dec_digits(n: nat) -> Seq<char>
    decreases n,
{
    if n < 10 {
        seq![spec_digit_char(n)]
    } else {
        spec_dec_digits(n / 10).push(spec_digit_char(n % 10))
    }
}

/// Appends the decimal numeral of `n`.
fn push_dec_chars(n: u64, out: &mut Vec<char>)
    ensures
        final(out)@ == old(out)@ + spec_dec_digits(n as nat),
    decreases n,
{
    if n < 10 {
        out.push(((48 + (n as u8)) as u8) as char);
        assert(out@ =~= old(out)@ + spec_dec_digits(n as nat));
    } else {
        push_dec_chars(n / 10, out);
        out.push(((48 + ((n % 10) as u8)) as u8) as char);
        assert(out@ =~= old(out)@ + spec_dec_digits(n as nat));
    }
}

// ---------------------------------------------------------------------------
// Formatting and display
// ---------------------------------------------------------------------------
/// The numbered list rendering, from entry `k` on: each line is two
/// spaces, the one-based position, a dot and a space, and the item; lines
/// are separated by a newline.
pub open spec fn spec_numbered_from(items: Seq<Seq<char>>, k: int) -> Seq<char>
    decreases items.len() - k,
{
    if k < 0 || k >= items.len() {
        Seq::empty()
    } else {
        let entry = seq![' ', ' '] + spec_dec_digits((k + 1) as nat) + seq!['.', ' ']
            + items[k];
        if k == items.len() - 1 {
            entry
        } else {
            entry + seq!['\n'] + spec_numbered_from(items, k + 1)
        }
    }
}

/// Formats the items as a numbered list, one per line.
pub fn format_numbered_list(items: &Vec<String>) -> (r: String)
    ensures
        r@ == spec_numbered_from(items.deep_view(), 0),
{
    let ghost dv = items.deep_view();
    let mut out: Vec<char> = Vec::new();
    let mut k: usize = 0;
    while k < items.len()
        invariant
            0 <= k <= items@.len(),
            dv == items.deep_view(),
            dv.len() == items@.len(),
            spec_numbered_from(dv, 0) == out@ + spec_numbered_from(dv, k as int),
        decreases items@.len() - k,
    {
        let ghost before = out@;
        out.push(' ');
        out.push(' ');
        push_dec_chars((k as u64) + 1, &mut out);
        out.push('.');
        out.push(' ');
        let item = chars_of(items[k].as_str());
        let mut q: usize = 0;
        let ghost mid = out@;
        while q < item.len()
            invariant
                0 <= q <= item@.len(),
                item@ == dv[k as int],
                0 <= k < dv.len(),
                out@ == mid + item@.take(q as int),
            decreases item@.len() - q,
        {
            out.push(item[q]);
            assert(out@ =~= mid + item@.take(q + 1));
            q += 1;
        }
        proof {
            assert(item@.take(item@.len() as int) =~= item@);
            assert(out@ =~= before + (seq![' ', ' '] + spec_dec_digits((k + 1) as nat) + seq![
                '.',
                ' ',
            ] + dv[k as int]));
        }
        if k + 1 < items.len() {
            out.push('\n');
        }
        proof {
            if k + 1 < dv.len() {
                assert(out@ + spec_numbered_from(dv, k + 1) =~= before + spec_numbered_from(
                    dv,
                    k as int,
                ));
            } else {
                assert(out@ + spec_numbered_from(dv, k + 1) =~= before + spec_numbered_from(
                    dv,
                    k as int,
                ));
            }
        }
        k += 1;
    }
    string_from_chars(&out)
}

/// The sequences joined by a separator.
pub open spec fn spec_join(parts: Seq<Seq<char>>, sep: Seq<char>) -> Seq<char>
    decreases parts.len(),
{
    if parts.len() == 0 {
        Seq::empty()
    } else if parts.len() == 1 {
        parts[0]
    } else {
        spec_join(parts.drop_last(), sep) + sep + parts.last()
    }
}

fn join_chars(parts: &Vec<String>, sep: &str) -> (r: Vec<char>)
    ensures
        r@ == spec_join(parts.deep_view(), sep@),
{
    let ghost dv = parts.deep_view();
    let mut out: Vec<char> = Vec::new();
    let mut k: usize = 0;
    while k < parts.len()
        invariant
            0 <= k <= parts@.len(),
            dv == parts.deep_view(),
            dv.len() == parts@.len(),
            out@ == spec_join(dv.take(k as int), sep@),
        decreases parts@.len() - k,
    {
        let ghost before = out@;
        if k > 0 {
            let sc = chars_of(sep);
            let mut q: usize = 0;
            let ghost mid = out@;
            while q < sc.len()
                invariant
                    0 <= q <= sc@.len(),
                    sc@ == sep@,
                    out@ == mid + sep@.take(q as int),
                decreases sc@.len() - q,
            {
                out.push(sc[q]);
                assert(out@ =~= mid + sep@.take(q + 1));
                q += 1;
            }
            assert(sep@.take(sep@.len() as int) =~= sep@);
        }
        let item = chars_of(parts[k].as_str());
        let mut q: usize = 0;
        let ghost mid2 = out@;
        while q < item.len()
            invariant
                0 <= q <= item@.len(),
                item@ == dv[k as int],
                0 <= k < dv.len(),
                out@ == mid2 + item@.take(q as int),
            decreases item@.len() - q,
        {
            out.push(item[q]);
            assert(out@ =~= mid2 + item@.take(q + 1));
            q += 1;
        }
        proof {
            assert(item@.take(item@.len() as int) =~= item@);
            assert(dv.take(k + 1).drop_last() =~= dv.take(k as int));
            assert(dv.take(k + 1).last() == dv[k as int]);
            if k == 0 {
                assert(out@ =~= spec_join(dv.take(1), sep@));
            } else {
                assert(out@ =~= spec_join(dv.take(k + 1), sep@));
            }
        }
        k += 1;
    }
    assert(dv.take(dv.len() as int) =~= dv);
    out
}

/// The character repeated `n` times.
pub open spec fn spec_repeat_char(c: char, n: nat) -> Seq<char>
    decreases n,
{
    if n == 0 {
        Seq::empty()
    } else {
        spec_repeat_char(c, (n - 1) as nat).push(c)
    }
}

/// The sum of the header lengths, each plus three.
pub open spec fn spec_header_rule_len(headers: Seq<Seq<char>>) -> nat
    decreases headers.len(),
{
    if headers.len() == 0 {
        0
    } else {
        spec_header_rule_len(headers.drop_last()) + headers.last().len() + 3
    }
}

/// What `format_table` renders: the joined headers, a dashed rule as long
/// as the headers plus three dashes each, then the joined rows, every line
/// newline-terminated.
pub open spec fn spec_table(headers: Seq<Seq<char>>, rows: Seq<Seq<Seq<char>>>) -> Seq<char>
    decreases rows.len(),
{
    if rows.len() == 0 {
        spec_join(headers, seq![' ', '|', ' ']) + seq!['\n'] + spec_repeat_char(
            '-',
            spec_header_rule_len(headers),
        ) + seq!['\n']
    } else {
        spec_table(headers, rows.drop_last()) + spec_join(rows.last(), seq![' ', '|', ' '])
            + seq!['\n']
    }
}

/// Formats a table: headers, a dashed rule, then the rows, with columns
/// separated by a pipe.
pub fn format_table(headers: &Vec<String>, rows: &Vec<Vec<String>>) -> (r: String)
    requires
        spec_header_rule_len(headers.deep_view()) <= usize::MAX,
    ensures
        r@ == spec_table(headers.deep_view(), rows.deep_view()),
{
    let ghost hd = headers.deep_view();
    let mut out = join_chars(headers, " | ");
    proof {
        reveal_strlit(" | ");
        assert(" | "@ =~= seq![' ', '|', ' ']);
    }
    out.push('\n');
    // the dashed rule
    let mut total: usize = 0;
    let mut k: usize = 0;
    while k < headers.len()
        invariant
            0 <= k <= headers@.len(),
            hd == headers.deep_view(),
            hd.len() == headers@.len(),
            total as nat == spec_header_rule_len(hd.take(k as int)),
            spec_header_rule_len(hd) <= usize::MAX,
        decreases headers@.len() - k,
    {
        proof {
            assert(hd.take(k + 1).drop_last() =~= hd.take(k as int));
            assert(hd.take(k + 1).last() == hd[k as int]);
            lemma_header_rule_len_mono(hd, k + 1);
        }
        let hk = chars_of(headers[k].as_str());
        total = total + hk.len() + 3;
        k += 1;
    }
    assert(hd.take(hd.len() as int) =~= hd);
    let ghost mid = out@;
    let mut q: usize = 0;
    proof {
        assert(out@ =~= mid + spec_repeat_char('-', 0));
    }
    while q < total
        invariant
            0 <= q <= total,
            out@ == mid + spec_repeat_char('-', q as nat),
        decreases total - q,
    {
        out.push('-');
        assert(out@ =~= mid + spec_repeat_char('-', (q + 1) as nat));
        q += 1;
    }
    out.push('\n');
    let ghost rv = rows.deep_view();
    let mut k: usize = 0;
    while k < rows.len()
        invariant
            0 <= k <= rows@.len(),
            rv == rows.deep_view(),
            rv.len() == rows@.len(),
            hd == headers.deep_view(),
            out@ == spec_table(hd, rv.take(k as int)),
        decreases rows@.len() - k,
    {
        proof {
            assert(rv.take(k + 1).drop_last() =~= rv.take(k as int));
            assert(rv.take(k + 1).last() == rv[k as int]);
        }
        let ghost before = out@;
        let row = join_chars(&rows[k], " | ");
        proof {
            assert(rows[k as int].deep_view() =~~= rv[k as int]);
            reveal_strlit(" | ");
            assert(" | "@ =~= seq![' ', '|', ' ']);
        }
        let mut q: usize = 0;
        let ghost mid2 = out@;
        while q < row.len()
            invariant
                0 <= q <= row@.len(),
                out@ == mid2 + row@.take(q as int),
            decreases row@.len() - q,
        {
            out.push(row[q]);
            assert(out@ =~= mid2 + row@.take(q + 1));
            q += 1;
        }
        assert(row@.take(row@.len() as int) =~= row@);
        out.push('\n');
        assert(out@ =~= spec_table(hd, rv.take(k + 1)));
        k += 1;
    }
    assert(rv.take(rv.len() as int) =~= rv);
    string_from_chars(&out)
}

proof fn lemma_header_rule_len_mono(s: Seq<Seq<char>>, k: int)
    requires
        0 <= k <= s.len(),
    ensures
        spec_header_rule_len(s.take(k)) <= spec_header_rule_len(s),
    decreases s.len(),
{
    if k < s.len() {
        assert(s.drop_last().take(k) =~= s.take(k));
        lemma_header_rule_len_mono(s.drop_last(), k);
    } else {
        assert(s.take(k) =~= s);
    }
}

/// The unit exponent a byte count is displayed in: 0 for bytes, up to 4
/// for terabytes.
pub open spec fn spec_unit_idx(b: nat) -> nat {
    if b >= 0x100_0000_0000 {
        4
    } else if b >= 0x4000_0000 {
        3
    } else if b >= 0x10_0000 {
        2
    } else if b >= 1024 {
        1
    } else {
        0
    }
}

pub open spec fn spec_unit_name(u: nat) -> Seq<char> {
    if u == 0 {
        seq![' ', 'B']
    } else if u == 1 {
        seq![' ', 'K', 'B']
    } else if u == 2 {
        seq![' ', 'M', 'B']
    } else if u == 3 {
        seq![' ', 'G', 'B']
    } else {
        seq![' ', 'T', 'B']
    }
}

/// The scaled value, in hundredths of the chosen unit, rounded to nearest
/// with ties to even.
pub open spec fn spec_scaled_hundredths(b: nat, d: nat) -> nat {
    let q = (b * 100) / d;
    let rem = (b * 100) % d;
    if rem * 2 > d || (rem * 2 == d && q % 2 == 1) {
        q + 1
    } else {
        q
    }
}

/// What `format_bytes` renders.
pub open spec fn spec_format_bytes(b: nat) -> Seq<char> {
    if b == 0 {
        seq!['0', ' ', 'B']
    } else if spec_unit_idx(b) == 0 {
        spec_dec_digits(b) + seq![' ', 'B']
    } else {
        let d: nat = if spec_unit_idx(b) == 1 {
            1024
        } else if spec_unit_idx(b) == 2 {
            0x10_0000
        } else if spec_unit_idx(b) == 3 {
            0x4000_0000
        } else {
            0x100_0000_0000
        };
        let h = spec_scaled_hundredths(b, d);
        spec_dec_digits(h / 100) + seq!['.'] + seq![spec_digit_char((h / 10) % 10)] + seq![
            spec_digit_char(h % 10),
        ] + spec_unit_name(spec_unit_idx(b))
    }
}

/// Formats a byte count in the largest unit that keeps the value at least
/// one, with two decimal places.
pub fn format_bytes(bytes: u64) -> (r: String)
    ensures
        r@ == spec_format_bytes(bytes as nat),
{
    if bytes == 0 {
        let mut out: Vec<char> = Vec::new();
        out.push('0');
        out.push(' ');
        out.push('B');
        assert(out@ =~= seq!['0', ' ', 'B']);
        return string_from_chars(&out);
    }
    let mut out: Vec<char> = Vec::new();
    if bytes < 1024 {
        push_dec_chars(bytes, &mut out);
        out.push(' ');
        out.push('B');
        assert(out@ =~= spec_dec_digits(bytes as nat) + seq![' ', 'B']);
        return string_from_chars(&out);
    }
    let d: u64 = if bytes >= 0x100_0000_0000 {
        0x100_0000_0000
    } else if bytes >= 0x4000_0000 {
        0x4000_0000
    } else if bytes >= 0x10_0000 {
        0x10_0000
    } else {
        1024
    };
    let num: u128 = (bytes as u128) * 100;
    let q128: u128 = num / (d as u128);
    let rem128: u128 = num % (d as u128);
    proof {
        assert(num < 0x7000_0000_0000_0000_0000);
        assert(rem128 < d as u128);
        assert(q128 <= num / 1024) by (nonlinear_arith)
            requires
                q128 == num / (d as u128),
                1024 <= d as u128,
                num >= 0,
        ;
    }
    let q: u64 = q128 as u64;
    let rem: u64 = rem128 as u64;
    proof {
        assert(q as nat == (bytes as nat * 100) / (d as nat));
        assert(rem as nat == (bytes as nat * 100) % (d as nat));
    }
    let h: u64 = if rem * 2 > d || (rem * 2 == d && q % 2 == 1) {
        q + 1
    } else {
        q
    };
    proof {
        assert(h as nat == spec_scaled_hundredths(bytes as nat, d as nat));
    }
    push_dec_chars(h / 100, &mut out);
    out.push('.');
    out.push(((48 + (((h / 10) % 10) as u8)) as u8) as char);
    out.push(((48 + ((h % 10) as u8)) as u8) as char);
    out.push(' ');
    if d == 1024 {
        out.push('K');
    } else if d == 0x10_0000 {
        out.push('M');
    } else if d == 0x4000_0000 {
        out.push('G');
    } else {
        out.push('T');
    }
    out.push('B');
    proof {
        assert(out@ =~= spec_format_bytes(bytes as nat));
    }
    string_from_chars(&out)
}

/// What `format_duration` renders: hours, minutes and seconds, each
/// omitted when zero, except that a zero duration is rendered as zero
/// seconds.
pub open spec fn spec_format_duration(total: nat) -> Seq<char> {
    if total == 0 {
        seq!['0', 's']
    } else {
        let h = total / 3600;
        let m = (total % 3600) / 60;
        let s = total % 60;
        (if h > 0 {
            spec_dec_digits(h) + seq!['h']
        } else {
            Seq::empty()
        }) + (if m > 0 {
            (if h > 0 {
                seq![' ']
            } else {
                Seq::empty()
            }) + spec_dec_digits(m) + seq!['m']
        } else {
            Seq::empty()
        }) + (if s > 0 {
            (if h > 0 || m > 0 {
                seq![' ']
            } else {
                Seq::empty()
            }) + spec_dec_digits(s) + seq!['s']
        } else {
            Seq::empty()
        })
    }
}

/// Formats a whole number of seconds as hours, minutes and seconds.
pub fn format_duration(total_secs: u64) -> (r: String)
    ensures
        r@ == spec_format_duration(total_secs as nat),
{
    if total_secs == 0 {
        let mut out: Vec<char> = Vec::new();
        out.push('0');
        out.push('s');
        assert(out@ =~= seq!['0', 's']);
        return string_from_chars(&out);
    }
    let h = total_secs / 3600;
    let m = (total_secs % 3600) / 60;
    let s = total_secs % 60;
    let mut out: Vec<char> = Vec::new();
    if h > 0 {
        push_dec_chars(h, &mut out);
        out.push('h');
    }
    if m > 0 {
        if h > 0 {
            out.push(' ');
        }
        push_dec_chars(m, &mut out);
        out.push('m');
    }
    if s > 0 {
        if h > 0 || m > 0 {
            out.push(' ');
        }
        push_dec_chars(s, &mut out);
        out.push('s');
    }
    proof {
        if h == 0 && m == 0 && s == 0 {
            assert(total_secs as int == (total_secs as int / 3600) * 3600 + (total_secs as int
                % 3600)) by (nonlinear_arith);
            assert((total_secs as int % 3600) == ((total_secs as int % 3600) / 60) * 60 + ((
            total_secs as int % 3600) % 60)) by (nonlinear_arith);
            assert((total_secs as int % 3600) % 60 == total_secs as int % 60) by (nonlinear_arith);
            assert(false);
        }
        assert(out@ =~= spec_format_duration(total_secs as nat));
    }
    string_from_chars(&out)
}

// ---------------------------------------------------------------------------
// String validation
// ---------------------------------------------------------------------------
/// Whether a string is empty or all ASCII whitespace.
pub fn is_blank(s: &str) -> (r: bool)
    ensures
        r == (spec_trim(s@).len() == 0),
{
    let cs = chars_of(s);
    let t = trim_chars(&cs);
    t.len() == 0
}

/// Trims and lower-cases (ASCII) a string.
pub fn normalize(s: &str) -> (r: String)
    ensures
        r@ == spec_lower(spec_trim(s@)),
{
    let cs = chars_of(s);
    let t = trim_chars(&cs);
    let l = lower_chars(&t);
    string_from_chars(&l)
}

/// What `truncate` produces: the string unchanged if it fits, else its
/// first `max_len - 3` characters followed by three dots.
pub open spec fn spec_truncate(s: Seq<char>, max_len: nat) -> Seq<char> {
    if s.len() <= max_len {
        s
    } else {
        let keep: nat = if max_len >= 3 {
            (max_len - 3) as nat
        } else {
            0
        };
        s.take(keep as int) + seq!['.', '.', '.']
    }
}

/// Truncates a string to at most `max_len` characters, ending in an
/// ellipsis when it had to cut.
pub fn truncate(s: &str, max_len: usize) -> (r: String)
    ensures
        r@ == spec_truncate(s@, max_len as nat),
{
    let cs = chars_of(s);
    if cs.len() <= max_len {
        let r = s.to_owned();
        return r;
    }
    let keep: usize = if max_len >= 3 {
        max_len - 3
    } else {
        0
    };
    let mut out: Vec<char> = Vec::new();
    let mut q: usize = 0;
    while q < keep
        invariant
            0 <= q <= keep,
            keep <= cs@.len(),
            cs@ == s@,
            out@ == s@.take(q as int),
        decreases keep - q,
    {
        out.push(cs[q]);
        assert(out@ =~= s@.take(q + 1));
        q += 1;
    }
    out.push('.');
    out.push('.');
    out.push('.');
    assert(out@ =~= spec_truncate(s@, max_len as nat));
    string_from_chars(&out)
}

/// The number of occurrences of a character.
pub open spec fn spec_count_char(s: Seq<char>, c: char) -> nat
    decreases s.len(),
{
    if s.len() == 0 {
        0
    } else {
        spec_count_char(s.drop_last(), c) + if s.last() == c {
            1nat
        } else {
            0nat
        }
    }
}

/// Whether a string has the basic shape of an email address: exactly one
/// at sign, text on both sides of it, and a dot somewhere after it.
pub open spec fn spec_is_valid_email(s: Seq<char>) -> bool {
    &&& spec_count_char(s, '@') == 1
    &&& exists|i: int|
        0 < i < s.len() - 1 && s[i] == '@' && exists|j: int| i < j < s.len() && s[j] == '.'
}

/// Checks the basic shape of an email address; this is a simple check, not
/// a full validation.
pub fn is_valid_email(s: &str) -> (r: bool)
    ensures
        r == spec_is_valid_email(s@),
{
    let cs = chars_of(s);
    // count at signs and remember the first
    let mut ats: usize = 0;
    let mut at_pos: usize = 0;
    let mut k: usize = 0;
    while k < cs.len()
        invariant
            0 <= k <= cs@.len(),
            cs@ == s@,
            ats as nat == spec_count_char(s@.take(k as int), '@'),
            ats <= k,
            ats > 0 ==> 0 <= at_pos < k && s@[at_pos as int] == '@',
        decreases cs@.len() - k,
    {
        proof {
            assert(s@.take(k + 1).drop_last() =~= s@.take(k as int));
            assert(s@.take(k + 1).last() == s@[k as int]);
        }
        if cs[k] == '@' {
            if ats == 0 {
                at_pos = k;
            }
            ats += 1;
        }
        k += 1;
    }
    assert(s@.take(s@.len() as int) =~= s@);
    if ats != 1 {
        assert(!spec_is_valid_email(s@));
        return false;
    }
    if at_pos == 0 || at_pos + 1 >= cs.len() {
        assert(!spec_is_valid_email(s@)) by {
            if exists|i: int|
                0 < i < s@.len() - 1 && s@[i] == '@' && exists|j: int|
                    i < j < s@.len() && s@[j] == '.' {
                let i = choose|i: int|
                    0 < i < s@.len() - 1 && s@[i] == '@' && exists|j: int|
                        i < j < s@.len() && s@[j] == '.';
                if i != at_pos {
                    lemma_count_two(s@, '@', at_pos as int, i);
                }
            }
        }
        return false;
    }
    let mut j: usize = at_pos + 1;
    while j < cs.len()
        invariant
            at_pos + 1 <= j <= cs@.len(),
            cs@ == s@,
            0 < at_pos < s@.len() - 1,
            s@[at_pos as int] == '@',
            ats as nat == spec_count_char(s@, '@'),
            ats == 1,
            forall|p: int| at_pos < p < j ==> s@[p] != '.',
        decreases cs@.len() - j,
    {
        if cs[j] == '.' {
            return true;
        }
        j += 1;
    }
    assert(!spec_is_valid_email(s@)) by {
        if exists|i: int|
            0 < i < s@.len() - 1 && s@[i] == '@' && exists|p: int| i < p < s@.len() && s@[p]
                == '.' {
            let i = choose|i: int|
                0 < i < s@.len() - 1 && s@[i] == '@' && exists|p: int|
                    i < p < s@.len() && s@[p] == '.';
            if i != at_pos {
                lemma_count_two(s@, '@', at_pos as int, i);
            } else {
                let p = choose|p: int| i < p < s@.len() && s@[p] == '.';
                assert(s@[p] != '.');
            }
        }
    }
    false
}

/// Two distinct positions holding the character mean the count is at least
/// two.
proof fn lemma_count_two(s: Seq<char>, c: char, i: int, j: int)
    requires
        0 <= i < s.len(),
        0 <= j < s.len(),
        i != j,
        s[i] == c,
        s[j] == c,
    ensures
        spec_count_char(s, c) >= 2,
    decreases s.len(),
{
    let lo = if i < j {
        i
    } else {
        j
    };
    let hi = if i < j {
        j
    } else {
        i
    };
    if hi == s.len() - 1 {
        lemma_count_one(s.drop_last(), c, lo);
    } else {
        assert(s.drop_last()[lo] == s[lo]);
        assert(s.drop_last()[hi] == s[hi]);
        lemma_count_two(s.drop_last(), c, lo, hi);
    }
}

proof fn lemma_count_one(s: Seq<char>, c: char, i: int)
    requires
        0 <= i < s.len(),
        s[i] == c,
    ensures
        spec_count_char(s, c) >= 1,
    decreases s.len(),
{
    if i < s.len() - 1 {
        assert(s.drop_last()[i] == s[i]);
        lemma_count_one(s.drop_last(), c, i);
    }
}

// ---------------------------------------------------------------------------
// Loose value parsing
// ---------------------------------------------------------------------------
/// Parses an integer, reporting failures against the given field name.
pub fn parse_int(value: &str, field_name: &str) -> (r: Result<i64, DynamicCliError>)
    ensures
        r matches Ok(n) ==> spec_parse_i64(value@) == Some(n),
        r is Err <==> spec_parse_i64(value@) is None,
        r matches Err(e) ==> (e matches DynamicCliError::Parse(ParseError::TypeParseError {
            arg_name,
            expected_type,
            value: v,
            details,
        }) && arg_name@ == field_name@ && expected_type@ == "integer"@ && v@ == value@),
{
    match parse_integer(value) {
        Ok(n) => Ok(n),
        Err(_) => Err(
            DynamicCliError::Parse(
                ParseError::TypeParseError {
                    arg_name: field_name.to_owned(),
                    expected_type: "integer".to_owned(),
                    value: value.to_owned(),
                    details: Some("must be a valid integer".to_owned()),
                },
            ),
        ),
    }
}

/// The spellings this looser boolean parser accepts as true: `true`,
/// `yes`, `1`, `on`; unlike type coercion it does not accept `y`.
pub open spec fn spec_loose_truthy(s: Seq<char>) -> bool {
    s == "true"@ || s == "yes"@ || s == "1"@ || s == "on"@
}

/// The spellings accepted as false: `false`, `no`, `0`, `off`.
pub open spec fn spec_loose_falsy(s: Seq<char>) -> bool {
    s == "false"@ || s == "no"@ || s == "0"@ || s == "off"@
}

pub open spec fn spec_loose_bool(s: Seq<char>) -> Option<bool> {
    let n = spec_lower(spec_trim(s));
    if spec_loose_truthy(n) {
        Some(true)
    } else if spec_loose_falsy(n) {
        Some(false)
    } else {
        None
    }
}

/// Parses a boolean, trimmed (ASCII whitespace) and case-insensitively
/// (ASCII folding): `true`, `yes`, `1`,
/// `on` are true; `false`, `no`, `0`, `off` are false.
pub fn parse_bool(value: &str) -> (r: Result<bool, DynamicCliError>)
    ensures
        r matches Ok(b) ==> spec_loose_bool(value@) == Some(b),
        r is Err <==> spec_loose_bool(value@) is None,
        r matches Err(e) ==> e matches DynamicCliError::Parse(
            ParseError::TypeParseError { arg_name, expected_type, value: v, details },
        ),
{
    let cs = chars_of(value);
    let t = trim_chars(&cs);
    let n = lower_chars(&t);
    if chars_eq_str(&n, "true") || chars_eq_str(&n, "yes") || chars_eq_str(&n, "1")
        || chars_eq_str(&n, "on") {
        Ok(true)
    } else if chars_eq_str(&n, "false") || chars_eq_str(&n, "no") || chars_eq_str(&n, "0")
        || chars_eq_str(&n, "off") {
        Ok(false)
    } else {
        Err(
            DynamicCliError::Parse(
                ParseError::TypeParseError {
                    arg_name: "value".to_owned(),
                    expected_type: "bool".to_owned(),
                    value: value.to_owned(),
                    details: Some("must be one of: true, false, yes, no, 1, 0, on, off".to_owned()),
                },
            ),
        )
    }
}

/// What `detect_type` decides, in order: boolean spellings, then integers,
/// then floats containing a dot, then path-like shapes, else a string.
pub open spec fn spec_detect_type(s: Seq<char>) -> ArgumentType {
    if spec_loose_bool(s) is Some {
        ArgumentType::Bool
    } else if spec_parse_i64(s) is Some {
        ArgumentType::Integer
    } else if (exists|i: int| 0 <= i < s.len() && s[i] == '.') && spec_float_ok(s) {
        ArgumentType::Float
    } else if (s.len() >= 1 && s[0] == '/') || (s.len() >= 2 && s[0] == '.' && s[1] == '/') || (
    s.len() >= 3 && s[0] == '.' && s[1] == '.' && s[2] == '/') || (exists|i: int|
        0 <= i < s.len() && s[i] == '\\') {
        ArgumentType::Path
    } else {
        ArgumentType::String
    }
}

/// Guesses the most specific type a raw value could have.
pub fn detect_type(value: &str) -> (r: ArgumentType)
    ensures
        r == spec_detect_type(value@),
{
    if parse_bool(value).is_ok() {
        return ArgumentType::Bool;
    }
    if parse_integer(value).is_ok() {
        return ArgumentType::Integer;
    }
    let cs = chars_of(value);
    let mut has_dot = false;
    let mut k: usize = 0;
    while k < cs.len()
        invariant
            0 <= k <= cs@.len(),
            cs@ == value@,
            has_dot == exists|i: int| 0 <= i < k && value@[i] == '.',
        decreases cs@.len() - k,
    {
        if cs[k] == '.' {
            has_dot = true;
        }
        k += 1;
    }
    if has_dot && float_syntax_ok(value) {
        return ArgumentType::Float;
    }
    let mut has_backslash = false;
    let mut k: usize = 0;
    while k < cs.len()
        invariant
            0 <= k <= cs@.len(),
            cs@ == value@,
            has_backslash == exists|i: int| 0 <= i < k && value@[i] == '\\',
        decreases cs@.len() - k,
    {
        if cs[k] == '\\' {
            has_backslash = true;
        }
        k += 1;
    }
    let starts_slash = cs.len() >= 1 && cs[0] == '/';
    let starts_dot_slash = cs.len() >= 2 && cs[0] == '.' && cs[1] == '/';
    let starts_dot_dot_slash = cs.len() >= 3 && cs[0] == '.' && cs[1] == '.' && cs[2] == '/';
    if starts_slash || starts_dot_slash || starts_dot_dot_slash || has_backslash {
        return ArgumentType::Path;
    }
    ArgumentType::String
}

// ---------------------------------------------------------------------------
// Path manipulation
// ---------------------------------------------------------------------------
/// Backslashes replaced by forward slashes.
pub open spec fn spec_normalize_path(s: Seq<char>) -> Seq<char> {
    s.map_values(
        |c: char|
            if c == '\\' {
                '/'
            } else {
                c
            },
    )
}

/// Normalises path separators: backslashes become forward slashes.
pub fn normalize_path(path: &str) -> (r: String)
    ensures
        r@ == spec_normalize_path(path@),
{
    let cs = chars_of(path);
    let mut out: Vec<char> = Vec::new();
    let mut k: usize = 0;
    while k < cs.len()
        invariant
            0 <= k <= cs@.len(),
            cs@ == path@,
            out@ == spec_normalize_path(path@.take(k as int)),
        decreases cs@.len() - k,
    {
        if cs[k] == '\\' {
            out.push('/');
        } else {
            out.push(cs[k]);
        }
        assert(out@ =~= spec_normalize_path(path@.take(k + 1)));
        k += 1;
    }
    assert(path@.take(path@.len() as int) =~= path@);
    string_from_chars(&out)
}

/// The sequence with trailing occurrences of `c` removed.
pub open spec fn spec_strip_trailing(s: Seq<char>, c: char) -> Seq<char>
    decreases s.len(),
{
    if s.len() > 0 && s.last() == c {
        spec_strip_trailing(s.drop_last(), c)
    } else {
        s
    }
}

/// The index of the last occurrence of `c`, or -1.
pub open spec fn spec_find_last(s: Seq<char>, c: char) -> int
    decreases s.len(),
{
    if s.len() == 0 {
        -1
    } else if s.last() == c {
        s.len() - 1
    } else {
        spec_find_last(s.drop_last(), c)
    }
}

proof fn lemma_find_last(s: Seq<char>, c: char)
    ensures
        spec_find_last(s, c) >= -1,
        spec_find_last(s, c) == -1 ==> forall|j: int| 0 <= j < s.len() ==> s[j] != c,
        spec_find_last(s, c) >= 0 ==> 0 <= spec_find_last(s, c) < s.len() && s[spec_find_last(
            s,
            c,
        )] == c && forall|j: int| spec_find_last(s, c) < j < s.len() ==> s[j] != c,
    decreases s.len(),
{
    if s.len() == 0 {
    } else if s.last() == c {
    } else {
        lemma_find_last(s.drop_last(), c);
        assert(forall|j: int| 0 <= j < s.len() - 1 ==> s.drop_last()[j] == s[j]);
    }
}

/// The final component's extension: the text after the last dot of the
/// last path component, lower-cased; nothing when the component has no dot,
/// starts with its only dot, or is the parent-directory name.
pub open spec fn spec_get_extension(s: Seq<char>) -> Option<Seq<char>> {
    let stripped = spec_strip_trailing(s, '/');
    let sl = spec_find_last(stripped, '/');
    let name = stripped.skip(sl + 1);
    if name == seq!['.', '.'] {
        None
    } else {
        let dot = spec_find_last(name, '.');
        if dot <= 0 {
            None
        } else {
            Some(spec_lower(name.skip(dot + 1)))
        }
    }
}

/// The file extension of a path, lower-cased, if it has one.
#[verifier::rlimit(100)]
pub fn get_extension(path: &str) -> (r: Option<String>)
    ensures
        r is Some <==> spec_get_extension(path@) is Some,
        r matches Some(e) ==> (spec_get_extension(path@) matches Some(se) && e@ == se),
{
    let cs = chars_of(path);
    // strip trailing slashes
    let mut hi: usize = cs.len();
    assert(cs@.take(cs@.len() as int) =~= cs@);
    while hi > 0 && cs[hi - 1] == '/'
        invariant
            0 <= hi <= cs@.len(),
            cs@ == path@,
            spec_strip_trailing(path@, '/') == spec_strip_trailing(path@.take(hi as int), '/'),
        decreases hi,
    {
        assert(path@.take(hi as int).drop_last() =~= path@.take(hi as int - 1));
        assert(path@.take(hi as int).last() == path@[hi - 1]);
        hi -= 1;
    }
    proof {
        if hi > 0 {
            assert(path@.take(hi as int).last() == path@[hi - 1]);
        }
        assert(spec_strip_trailing(path@, '/') == path@.take(hi as int));
    }
    let ghost stripped = spec_strip_trailing(path@, '/');
    // find the last slash within the stripped prefix
    proof {
        lemma_find_last(stripped, '/');
    }
    let mut sl: usize = hi;
    while sl > 0 && cs[sl - 1] != '/'
        invariant
            0 <= sl <= hi <= cs@.len(),
            cs@ == path@,
            stripped == path@.take(hi as int),
            forall|j: int| sl <= j < hi ==> stripped[j] != '/',
        decreases sl,
    {
        assert(stripped[sl - 1] == path@[sl - 1]);
        sl -= 1;
    }
    // name = stripped[sl..hi]
    let ghost name = stripped.skip(spec_find_last(stripped, '/') + 1);
    proof {
        if sl > 0 {
            assert(stripped[sl - 1] == path@[sl - 1]);
            assert(spec_find_last(stripped, '/') == sl - 1) by {
                let f = spec_find_last(stripped, '/');
                if f < sl - 1 {
                    assert(stripped[sl - 1] != '/');
                } else if f > sl - 1 {
                    assert(stripped[f] != '/');
                }
            }
        } else {
            assert(spec_find_last(stripped, '/') == -1) by {
                if spec_find_last(stripped, '/') >= 0 {
                    assert(stripped[spec_find_last(stripped, '/')] != '/');
                }
            }
        }
        assert(name =~= path@.subrange(sl as int, hi as int));
    }
    if hi - sl == 2 && cs[sl] == '.' && cs[sl + 1] == '.' {
        assert(name =~= seq!['.', '.']);
        return None;
    }
    assert(name != seq!['.', '.']) by {
        if name == seq!['.', '.'] {
            assert(path@[sl as int] == name[0]);
            assert(path@[sl + 1] == name[1]);
        }
    }
    // find the last dot within the name
    proof {
        lemma_find_last(name, '.');
    }
    let mut dot: usize = hi;
    while dot > sl && cs[dot - 1] != '.'
        invariant
            sl <= dot <= hi <= cs@.len(),
            cs@ == path@,
            name =~= path@.subrange(sl as int, hi as int),
            forall|j: int| dot - sl <= j < hi - sl ==> name[j] != '.',
        decreases dot,
    {
        assert(name[dot - 1 - sl] == path@[dot - 1]);
        dot -= 1;
    }
    if dot <= sl + 1 {
        // no dot at all, or only a leading dot
        proof {
            if dot == sl {
                assert(spec_find_last(name, '.') == -1) by {
                    if spec_find_last(name, '.') >= 0 {
                        assert(name[spec_find_last(name, '.')] != '.');
                    }
                }
            } else {
                assert(name[dot - 1 - sl] == path@[dot - 1]);
                assert(spec_find_last(name, '.') == dot - 1 - sl) by {
                    let f = spec_find_last(name, '.');
                    if f < dot - 1 - sl {
                        assert(name[dot - 1 - sl] != '.');
                    } else if f > dot - 1 - sl {
                        assert(name[f] != '.');
                    }
                }
            }
        }
        return None;
    }
    proof {
        assert(name[dot - 1 - sl] == path@[dot - 1]);
        assert(spec_find_last(name, '.') == dot - 1 - sl) by {
            let f = spec_find_last(name, '.');
            if f < dot - 1 - sl {
                assert(name[dot - 1 - sl] != '.');
            } else if f > dot - 1 - sl {
                assert(name[f] != '.');
            }
        }
    }
    let mut ext: Vec<char> = Vec::new();
    let mut q: usize = dot;
    while q < hi
        invariant
            dot <= q <= hi <= cs@.len(),
            cs@ == path@,
            ext@ == path@.subrange(dot as int, q as int),
        decreases hi - q,
    {
        ext.push(cs[q]);
        assert(ext@ =~= path@.subrange(dot as int, q + 1));
        q += 1;
    }
    proof {
        assert(ext@ =~= name.skip(dot - sl));
    }
    let lowered = lower_chars(&ext);
    Some(string_from_chars(&lowered))
}

/// Whether the path's extension, case-insensitively, is one of the given
/// ones.
pub open spec fn spec_has_extension(s: Seq<char>, exts: Seq<Seq<char>>) -> bool {
    spec_get_extension(s) matches Some(e) && exists|i: int|
        0 <= i < exts.len() && spec_lower(#[trigger] exts[i]) == e
}

/// Checks whether the path has one of the given extensions,
/// case-insensitively.
pub fn has_extension(path: &str, extensions: &Vec<String>) -> (r: bool)
    ensures
        r == spec_has_extension(path@, extensions.deep_view()),
{
    let ext = match get_extension(path) {
        None => {
            return false;
        },
        Some(e) => e,
    };
    let mut i: usize = 0;
    while i < extensions.len()
        invariant
            0 <= i <= extensions@.len(),
            spec_get_extension(path@) matches Some(se) && ext@ == se,
            forall|j: int|
                0 <= j < i ==> spec_lower(#[trigger] extensions.deep_view()[j]) != ext@,
        decreases extensions@.len() - i,
    {
        let lc = lower_chars(&chars_of(extensions[i].as_str()));
        proof {
            assert(extensions.deep_view()[i as int] == extensions@[i as int]@);
        }
        if chars_eq_str(&lc, ext.as_str()) {
            return true;
        }
        i += 1;
    }
    false
}

} // verus!
