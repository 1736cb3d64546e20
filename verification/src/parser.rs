use crate::grammar::{
    continuation_at, escape_at, hex_digit_value, hex_end, hex_escape_at, hex_value, is_hex_digit,
    lemma_hex_end_digits, lemma_hex_value_bound, lemma_pow16_le, lemma_scan_ordinary_step, pow16,
    run_end, scan_body, skip_space, spec_decode_hex_escape, spec_decode_mnemonic,
    spec_parse_fragment, spec_parse_string_literal, SpecOutcome,
};
use crate::outcome::{ErrorKind, ParseOutcome};
use vstd::pervasive::unreached;
use vstd::prelude::*;
use vstd::string::StrSliceExecFns;
use vstd::utf8::is_scalar;

verus! {

/// How a `ParseOutcome<String>` realizes a spec-level outcome `g` of parsing
/// `input`: the same variant, the leftover input past the recognized
/// construct, the decoded characters, and on failure the same kind and offset.
pub open spec fn string_outcome_matches(
    input: Seq<char>,
    r: ParseOutcome<String>,
    g: SpecOutcome,
) -> bool {
    match g {
        SpecOutcome::Done(next, decoded) => {
            &&& r matches ParseOutcome::Done(rest, v)
            &&& rest@ == input.subrange(next, input.len() as int)
            &&& v@ == decoded
        },
        SpecOutcome::Incomplete => r matches ParseOutcome::Incomplete(h) && h == Some(1usize),
        SpecOutcome::Failed(k, p) => {
            &&& r matches ParseOutcome::Failed(k2, p2)
            &&& k2 == k
            &&& p2 as int == p
        },
    }
}

/// How a `ParseOutcome<char>` realizes a spec-level outcome whose decoded
/// fragment is a single character.
pub open spec fn char_outcome_matches(
    input: Seq<char>,
    r: ParseOutcome<char>,
    g: SpecOutcome,
) -> bool {
    match g {
        SpecOutcome::Done(next, decoded) => {
            &&& r matches ParseOutcome::Done(rest, c)
            &&& rest@ == input.subrange(next, input.len() as int)
            &&& decoded == seq![c]
        },
        SpecOutcome::Incomplete => r matches ParseOutcome::Incomplete(h) && h == Some(1usize),
        SpecOutcome::Failed(k, p) => {
            &&& r matches ParseOutcome::Failed(k2, p2)
            &&& k2 == k
            &&& p2 as int == p
        },
    }
}

/// Relies on `char::from_u32` of std: the conversion succeeds exactly on the
/// values with a corresponding scalar character (not in the surrogate range,
/// at most the maximum code point), and returns the character with that code
/// point.
pub assume_specification[ char::from_u32 ](v: u32) -> (r: Option<char>)
    ensures
        r is Some <==> is_scalar(v),
        r matches Some(c) ==> c as u32 == v,
;

/// Relies on `String::push` of std: it appends the given character to the end
/// of the string.
pub assume_specification[ String::push ](s: &mut String, c: char)
    ensures
        final(s)@ == old(s)@.push(c),
;

/// One recognized step over the input: the construct ends at the given index
/// and decodes to at most one character, more input is needed, or the
/// construct can never match.
enum Step {
    Took(usize, Option<char>),
    More,
    Bad(ErrorKind, usize),
}

spec fn frag_of(oc: Option<char>) -> Seq<char> {
    match oc {
        Some(c) => seq![c],
        None => Seq::empty(),
    }
}

spec fn step_matches(s: Seq<char>, g: SpecOutcome, r: Step) -> bool {
    match g {
        SpecOutcome::Done(j, frag) => {
            &&& r matches Step::Took(j2, oc)
            &&& j2 as int == j
            &&& frag_of(oc) == frag
        },
        SpecOutcome::Incomplete => r is More,
        SpecOutcome::Failed(k, p) => {
            &&& r matches Step::Bad(k2, p2)
            &&& k2 == k
            &&& p2 as int == p
        },
    }
}

fn exec_is_hex_digit(c: char) -> (b: bool)
    ensures
        b == is_hex_digit(c),
{
    let u = c as u32;
    (0x30 <= u && u <= 0x39) || (0x41 <= u && u <= 0x46) || (0x61 <= u && u <= 0x66)
}

fn exec_hex_digit_value(c: char) -> (v: u32)
    requires
        is_hex_digit(c),
    ensures
        v as int == hex_digit_value(c),
        v <= 15,
{
    let u = c as u32;
    if u <= 0x39 {
        u - 0x30
    } else if 0x61 <= u {
        u - 0x61 + 10
    } else {
        u - 0x41 + 10
    }
}

fn skip_spaces(input: &str, start: usize) -> (j: usize)
    requires
        start as int <= input@.len(),
    ensures
        j as int == skip_space(input@, start as int),
        start <= j && j as int <= input@.len(),
{
    let n = input.unicode_len();
    let mut j = start;
    loop
        invariant
            start <= j,
            j as int <= n as int,
            n as int == input@.len(),
            skip_space(input@, start as int) == skip_space(input@, j as int),
        decreases n - j,
    {
        if j == n {
            return j;
        }
        let c = input.get_char(j);
        if c == ' ' || c == '\t' {
            j = j + 1;
        } else {
            return j;
        }
    }
}

fn ordinary_run_end(input: &str, start: usize) -> (e: usize)
    requires
        start as int <= input@.len(),
    ensures
        e as int == run_end(input@, start as int),
        start <= e && e as int <= input@.len(),
{
    let n = input.unicode_len();
    let mut e = start;
    loop
        invariant
            start <= e,
            e as int <= n as int,
            n as int == input@.len(),
            run_end(input@, start as int) == run_end(input@, e as int),
        decreases n - e,
    {
        if e == n {
            return e;
        }
        let c = input.get_char(e);
        if c != '"' && c != '\\' {
            e = e + 1;
        } else {
            return e;
        }
    }
}

fn hex_digits_end(input: &str, d: usize) -> (k: usize)
    requires
        d as int <= input@.len(),
    ensures
        k as int == hex_end(input@, d as int, 8),
        d <= k && k as int <= input@.len(),
        k - d <= 8,
{
    let n = input.unicode_len();
    let mut k = d;
    loop
        invariant
            d <= k,
            k as int <= n as int,
            k - d <= 8,
            n as int == input@.len(),
            hex_end(input@, d as int, 8) == hex_end(input@, k as int, (8 - (k - d)) as nat),
        decreases 8 - (k - d),
    {
        if k == n {
            return k;
        }
        if k - d == 8 {
            return k;
        }
        let c = input.get_char(k);
        if exec_is_hex_digit(c) {
            k = k + 1;
        } else {
            return k;
        }
    }
}

/// Decodes the hex escape whose backslash stands at `bs`.
fn scan_hex(input: &str, bs: usize) -> (r: Step)
    requires
        bs as int + 1 < input@.len(),
        input@[bs as int + 1] == 'x',
    ensures
        step_matches(input@, hex_escape_at(input@, bs as int), r),
        r matches Step::Took(j, oc) ==> bs < j && j as int <= input@.len() && oc is Some,
{
    let ghost s = input@;
    let n = input.unicode_len();
    let d = bs + 2;
    let k = hex_digits_end(input, d);
    if k == d {
        if d == n {
            return Step::More;
        }
        return Step::Bad(ErrorKind::InvalidEscape, bs);
    }
    if k == n && k - d < 8 {
        return Step::More;
    }
    proof {
        lemma_hex_end_digits(s, d as int, 8);
    }
    let mut v: u32 = 0;
    let mut t = d;
    while t < k
        invariant
            d <= t <= k,
            k as int <= s.len(),
            k - d <= 8,
            s == input@,
            forall|q: int| d <= q < k ==> is_hex_digit(#[trigger] s[q]),
            v as int == hex_value(s.subrange(d as int, t as int)),
        decreases k - t,
    {
        let c = input.get_char(t);
        proof {
            lemma_hex_value_bound(s.subrange(d as int, t as int));
            lemma_pow16_le((t - d) as nat, 7);
            assert(pow16(7) == 0x10000000) by {
                reveal_with_fuel(pow16, 8);
            }
        }
        let dv = exec_hex_digit_value(c);
        v = v * 16 + dv;
        proof {
            assert(s.subrange(d as int, t as int + 1).drop_last() =~= s.subrange(
                d as int,
                t as int,
            ));
        }
        t = t + 1;
    }
    proof {
        lemma_hex_value_bound(s.subrange(d as int, k as int));
        lemma_pow16_le((k - d) as nat, 8);
        assert(pow16(8) == 0x100000000) by {
            reveal_with_fuel(pow16, 9);
        }
    }
    match char::from_u32(v) {
        Some(ch) => {
            proof {
                vstd::utf8::char_u32_cast(ch, v);
            }
            Step::Took(k, Some(ch))
        },
        None => Step::Bad(ErrorKind::InvalidCodepoint, bs),
    }
}

/// Decodes the line continuation whose backslash stands at `bs`.
fn scan_continuation(input: &str, bs: usize) -> (r: Step)
    requires
        (bs as int) < input@.len(),
    ensures
        step_matches(input@, continuation_at(input@, bs as int), r),
        r matches Step::Took(j, oc) ==> bs < j && j as int <= input@.len() && oc is None,
{
    let n = input.unicode_len();
    let j = skip_spaces(input, bs + 1);
    if j == n {
        return Step::More;
    }
    let c = input.get_char(j);
    if c == '\n' {
        let m = skip_spaces(input, j + 1);
        if m == n {
            Step::More
        } else {
            Step::Took(m, None)
        }
    } else if c == '\r' {
        if j + 1 == n {
            Step::More
        } else if input.get_char(j + 1) == '\n' {
            let m = skip_spaces(input, j + 2);
            if m == n {
                Step::More
            } else {
                Step::Took(m, None)
            }
        } else {
            Step::Bad(ErrorKind::InvalidEscape, bs)
        }
    } else {
        Step::Bad(ErrorKind::InvalidEscape, bs)
    }
}

/// Decodes the escape whose backslash stands at `i`, dispatching on the
/// character after it in the grammar's order.
fn scan_escape(input: &str, i: usize) -> (r: Step)
    requires
        (i as int) < input@.len(),
        input@[i as int] == '\\',
    ensures
        step_matches(input@, escape_at(input@, i as int), r),
        r matches Step::Took(j, oc) ==> i < j && j as int <= input@.len(),
{
    let n = input.unicode_len();
    if i + 1 == n {
        return Step::More;
    }
    let c1 = input.get_char(i + 1);
    if c1 == '"' {
        Step::Took(i + 2, Some('"'))
    } else if c1 == '\\' {
        Step::Took(i + 2, Some('\\'))
    } else if c1 == ' ' || c1 == '\t' || c1 == '\n' || c1 == '\r' {
        scan_continuation(input, i)
    } else if c1 == 'a' {
        Step::Took(i + 2, Some('\u{0007}'))
    } else if c1 == 'b' {
        Step::Took(i + 2, Some('\u{0008}'))
    } else if c1 == 't' {
        Step::Took(i + 2, Some('\t'))
    } else if c1 == 'n' {
        Step::Took(i + 2, Some('\n'))
    } else if c1 == 'r' {
        Step::Took(i + 2, Some('\r'))
    } else if c1 == 'x' {
        scan_hex(input, i)
    } else {
        Step::Bad(ErrorKind::InvalidEscape, i)
    }
}

/// Parses a full string literal at the start of `input`: an opening quote,
/// decoded fragments, and the unescaped closing quote. On success the decoded
/// text and the input past the closing quote come back; partial input yields
/// `Incomplete`, and the first unrecognizable construct yields `Failed` with
/// its offset.
pub fn parse_string_literal(input: &str) -> (r: ParseOutcome<String>)
    ensures
        string_outcome_matches(input@, r, spec_parse_string_literal(input@)),
{
    let ghost s = input@;
    let n = input.unicode_len();
    if n == 0 {
        return ParseOutcome::Incomplete(Some(1));
    }
    if input.get_char(0) != '"' {
        return ParseOutcome::Failed(ErrorKind::NotAString, 0);
    }
    let mut acc = String::new();
    let mut i: usize = 1;
    loop
        invariant
            s == input@,
            n as int == s.len(),
            0 < n,
            s[0] == '"',
            1 <= i && i as int <= s.len(),
            scan_body(s, 1, Seq::<char>::empty()) == scan_body(s, i as int, acc@),
        decreases s.len() - i,
    {
        if i == n {
            return ParseOutcome::Incomplete(Some(1));
        }
        let c = input.get_char(i);
        if c == '"' {
            let rest = input.substring_char(i + 1, n).to_owned();
            return ParseOutcome::Done(rest, acc);
        } else if c != '\\' {
            proof {
                lemma_scan_ordinary_step(s, i as int, acc@);
            }
            acc.push(c);
            i = i + 1;
        } else {
            match scan_escape(input, i) {
                Step::Took(j, oc) => {
                    let ghost prev = acc@;
                    match oc {
                        Some(ch) => {
                            acc.push(ch);
                        },
                        None => {},
                    }
                    proof {
                        assert(prev + frag_of(oc) =~= acc@);
                    }
                    i = j;
                },
                Step::More => {
                    return ParseOutcome::Incomplete(Some(1));
                },
                Step::Bad(k, p) => {
                    return ParseOutcome::Failed(k, p);
                },
            }
        }
    }
}

/// Parses a string literal from input that will grow no further: the same
/// outcome as `parse_string_literal`, except that an undecided (incomplete)
/// parse is reported as `UnterminatedString` at the end of the input.
pub fn parse_string_literal_complete(input: &str) -> (r: ParseOutcome<String>)
    ensures
        spec_parse_string_literal(input@) is Incomplete ==> {
            &&& r matches ParseOutcome::Failed(k, p)
            &&& k == ErrorKind::UnterminatedString
            &&& p as int == input@.len()
        },
        !(spec_parse_string_literal(input@) is Incomplete) ==> string_outcome_matches(
            input@,
            r,
            spec_parse_string_literal(input@),
        ),
{
    match parse_string_literal(input) {
        ParseOutcome::Incomplete(_) => ParseOutcome::Failed(
            ErrorKind::UnterminatedString,
            input.unicode_len(),
        ),
        other => other,
    }
}

/// Recognizes one fragment at the start of `input`: a maximal run of ordinary
/// characters, an escaped quote or backslash, a line continuation, a mnemonic
/// escape, or a hex escape, tried in that order.
pub fn parse_fragment(input: &str) -> (r: ParseOutcome<String>)
    ensures
        string_outcome_matches(input@, r, spec_parse_fragment(input@)),
{
    let ghost s = input@;
    let n = input.unicode_len();
    if n == 0 {
        return ParseOutcome::Incomplete(Some(1));
    }
    let c0 = input.get_char(0);
    if c0 == '\\' {
        match scan_escape(input, 0) {
            Step::Took(j, oc) => {
                let mut v = String::new();
                match oc {
                    Some(ch) => {
                        v.push(ch);
                    },
                    None => {},
                }
                proof {
                    assert(v@ =~= frag_of(oc));
                }
                ParseOutcome::Done(input.substring_char(j, n).to_owned(), v)
            },
            Step::More => ParseOutcome::Incomplete(Some(1)),
            Step::Bad(k, p) => ParseOutcome::Failed(k, p),
        }
    } else if c0 == '"' {
        ParseOutcome::Failed(ErrorKind::InvalidEscape, 0)
    } else {
        let e = ordinary_run_end(input, 0);
        if e == n {
            ParseOutcome::Incomplete(Some(1))
        } else {
            ParseOutcome::Done(
                input.substring_char(e, n).to_owned(),
                input.substring_char(0, e).to_owned(),
            )
        }
    }
}

/// Decodes the mnemonic escape at the start of `input`: a backslash and one
/// letter of the fixed table mapping `a`, `b`, `t`, `n`, `r` to their control
/// characters. Any other letter is an `UnknownEscape`.
pub fn decode_mnemonic(input: &str) -> (r: ParseOutcome<char>)
    ensures
        char_outcome_matches(input@, r, spec_decode_mnemonic(input@)),
{
    let n = input.unicode_len();
    if n == 0 {
        return ParseOutcome::Incomplete(Some(1));
    }
    if input.get_char(0) != '\\' {
        return ParseOutcome::Failed(ErrorKind::InvalidEscape, 0);
    }
    if n == 1 {
        return ParseOutcome::Incomplete(Some(1));
    }
    let c = input.get_char(1);
    let m: Option<char> = if c == 'a' {
        Some('\u{0007}')
    } else if c == 'b' {
        Some('\u{0008}')
    } else if c == 't' {
        Some('\t')
    } else if c == 'n' {
        Some('\n')
    } else if c == 'r' {
        Some('\r')
    } else {
        None
    };
    match m {
        Some(ch) => ParseOutcome::Done(input.substring_char(2, n).to_owned(), ch),
        None => ParseOutcome::Failed(ErrorKind::UnknownEscape(c), 0),
    }
}

/// Decodes the hex escape at the start of `input`: `\x`, then one to eight
/// hexadecimal digits read greedily, denoting a scalar character by code
/// point. Values with no corresponding scalar character are an
/// `InvalidCodepoint`.
pub fn decode_hex_escape(input: &str) -> (r: ParseOutcome<char>)
    ensures
        char_outcome_matches(input@, r, spec_decode_hex_escape(input@)),
{
    let n = input.unicode_len();
    if n == 0 {
        return ParseOutcome::Incomplete(Some(1));
    }
    if input.get_char(0) != '\\' {
        return ParseOutcome::Failed(ErrorKind::InvalidEscape, 0);
    }
    if n == 1 {
        return ParseOutcome::Incomplete(Some(1));
    }
    if input.get_char(1) != 'x' {
        return ParseOutcome::Failed(ErrorKind::InvalidEscape, 0);
    }
    match scan_hex(input, 0) {
        Step::Took(j, Some(ch)) => ParseOutcome::Done(input.substring_char(j, n).to_owned(), ch),
        Step::Took(_, None) => unreached(),
        Step::More => ParseOutcome::Incomplete(Some(1)),
        Step::Bad(k, p) => ParseOutcome::Failed(k, p),
    }
}

} // verus!
