use crate::outcome::ErrorKind;
use vstd::prelude::*;
use vstd::utf8::is_scalar;

verus! {

/// Spec-level outcome of matching one construct of the string grammar against
/// the character sequence `s`. `Done(next, decoded)` holds the index just past
/// the construct and the characters it decodes to; `Incomplete` means the end
/// of `s` was reached before the construct could be decided; `Failed` means no
/// extension of `s` can complete it.
#[verifier::ext_equal]
pub enum SpecOutcome {
    Done(int, Seq<char>),
    Incomplete,
    Failed(ErrorKind, int),
}

/// Horizontal whitespace, as swallowed by a line continuation.
pub open spec fn is_intraline_space(c: char) -> bool {
    c == ' ' || c == '\t'
}

/// A hexadecimal digit, either case.
pub open spec fn is_hex_digit(c: char) -> bool {
    ||| 0x30 <= c as u32 <= 0x39
    ||| 0x41 <= c as u32 <= 0x46
    ||| 0x61 <= c as u32 <= 0x66
}

/// The numeric value of a hexadecimal digit (0 on other characters).
pub open spec fn hex_digit_value(c: char) -> int {
    if 0x30 <= c as u32 <= 0x39 {
        c as u32 - 0x30
    } else if 0x41 <= c as u32 <= 0x46 {
        c as u32 - 0x41 + 10
    } else if 0x61 <= c as u32 <= 0x66 {
        c as u32 - 0x61 + 10
    } else {
        0
    }
}

/// The base-16 value of a digit run, most significant digit first.
pub open spec fn hex_value(ds: Seq<char>) -> int
    decreases ds.len(),
{
    if ds.len() == 0 {
        0
    } else {
        16 * hex_value(ds.drop_last()) + hex_digit_value(ds.last())
    }
}

/// The fixed mnemonic-escape table: the control character named by the letter
/// after the backslash, or `None` for any other character.
pub open spec fn mnemonic_char(c: char) -> Option<char> {
    if c == 'a' {
        Some('\u{0007}')
    } else if c == 'b' {
        Some('\u{0008}')
    } else if c == 't' {
        Some('\t')
    } else if c == 'n' {
        Some('\n')
    } else if c == 'r' {
        Some('\r')
    } else {
        None
    }
}

/// The first index at or after `i` that does not hold horizontal whitespace
/// (or the end of `s`).
pub open spec fn skip_space(s: Seq<char>, i: int) -> int
    decreases s.len() - i,
{
    if 0 <= i < s.len() && is_intraline_space(s[i]) {
        skip_space(s, i + 1)
    } else {
        i
    }
}

/// The end of the maximal run of ordinary characters (neither quote nor
/// backslash) starting at `i`.
pub open spec fn run_end(s: Seq<char>, i: int) -> int
    decreases s.len() - i,
{
    if 0 <= i < s.len() && s[i] != '"' && s[i] != '\\' {
        run_end(s, i + 1)
    } else {
        i
    }
}

/// The end of the run of hexadecimal digits starting at `i`, at most `left`
/// digits long.
pub open spec fn hex_end(s: Seq<char>, i: int, left: nat) -> int
    decreases left,
{
    if left > 0 && 0 <= i < s.len() && is_hex_digit(s[i]) {
        hex_end(s, i + 1, (left - 1) as nat)
    } else {
        i
    }
}

/// The trailing half of a line continuation: horizontal whitespace after the
/// line ending. Greedy, so it cannot be decided while the input ends inside
/// the whitespace.
pub open spec fn continuation_tail(s: Seq<char>, k: int) -> SpecOutcome {
    let m = skip_space(s, k);
    if m >= s.len() {
        SpecOutcome::Incomplete
    } else {
        SpecOutcome::Done(m, Seq::empty())
    }
}

/// A line continuation whose backslash stands at `bs`: backslash, horizontal
/// whitespace, one line ending (`\n` or `\r\n`), horizontal whitespace. The
/// whole run decodes to nothing.
pub open spec fn continuation_at(s: Seq<char>, bs: int) -> SpecOutcome {
    let j = skip_space(s, bs + 1);
    if j >= s.len() {
        SpecOutcome::Incomplete
    } else if s[j] == '\n' {
        continuation_tail(s, j + 1)
    } else if s[j] == '\r' {
        if j + 1 >= s.len() {
            SpecOutcome::Incomplete
        } else if s[j + 1] == '\n' {
            continuation_tail(s, j + 2)
        } else {
            SpecOutcome::Failed(ErrorKind::InvalidEscape, bs)
        }
    } else {
        SpecOutcome::Failed(ErrorKind::InvalidEscape, bs)
    }
}

/// A hex escape whose backslash stands at `bs` (so `s[bs + 1] == 'x'`): one to
/// eight hexadecimal digits, read greedily, denoting a scalar character by
/// code point. Values with no corresponding scalar character (the surrogate
/// range, or values above the maximum code point) are rejected.
pub open spec fn hex_escape_at(s: Seq<char>, bs: int) -> SpecOutcome {
    let d = bs + 2;
    let e = hex_end(s, d, 8);
    if e == d {
        if d >= s.len() {
            SpecOutcome::Incomplete
        } else {
            SpecOutcome::Failed(ErrorKind::InvalidEscape, bs)
        }
    } else if e >= s.len() && e - d < 8 {
        SpecOutcome::Incomplete
    } else {
        let v = hex_value(s.subrange(d, e));
        if is_scalar(v as u32) {
            SpecOutcome::Done(e, seq![(v as u32) as char])
        } else {
            SpecOutcome::Failed(ErrorKind::InvalidCodepoint, bs)
        }
    }
}

/// The escape dispatch for the backslash at `bs`, trying in order: escaped
/// quote, escaped backslash, line continuation, mnemonic escape, hex escape.
/// The order is part of the grammar: a construct is recognized only if no
/// earlier alternative matches.
pub open spec fn escape_at(s: Seq<char>, bs: int) -> SpecOutcome {
    if bs + 1 >= s.len() {
        SpecOutcome::Incomplete
    } else if s[bs + 1] == '"' {
        SpecOutcome::Done(bs + 2, seq!['"'])
    } else if s[bs + 1] == '\\' {
        SpecOutcome::Done(bs + 2, seq!['\\'])
    } else if is_intraline_space(s[bs + 1]) || s[bs + 1] == '\n' || s[bs + 1] == '\r' {
        continuation_at(s, bs)
    } else {
        match mnemonic_char(s[bs + 1]) {
            Some(m) => SpecOutcome::Done(bs + 2, seq![m]),
            None => {
                if s[bs + 1] == 'x' {
                    hex_escape_at(s, bs)
                } else {
                    SpecOutcome::Failed(ErrorKind::InvalidEscape, bs)
                }
            },
        }
    }
}

/// The fragment recognizer at index `i`: a maximal non-empty run of ordinary
/// characters, or an escape introduced by a backslash. A quote starts no
/// fragment, and an ordinary run that reaches the end of the input is not yet
/// decided, since more ordinary characters could follow.
pub open spec fn fragment_at(s: Seq<char>, i: int) -> SpecOutcome {
    if i < 0 || i >= s.len() {
        SpecOutcome::Incomplete
    } else if s[i] != '"' && s[i] != '\\' {
        let e = run_end(s, i);
        if e >= s.len() {
            SpecOutcome::Incomplete
        } else {
            SpecOutcome::Done(e, s.subrange(i, e))
        }
    } else if s[i] == '\\' {
        escape_at(s, i)
    } else {
        SpecOutcome::Failed(ErrorKind::InvalidEscape, i)
    }
}

/// The scanner's walk over the body of a literal: starting inside the quotes
/// at index `i` with `acc` already decoded, it appends decoded fragments until
/// the unescaped closing quote.
pub open spec fn scan_body(s: Seq<char>, i: int, acc: Seq<char>) -> SpecOutcome
    decreases s.len() - i,
{
    if i < 0 || i >= s.len() {
        SpecOutcome::Incomplete
    } else if s[i] == '"' {
        SpecOutcome::Done(i + 1, acc)
    } else {
        match fragment_at(s, i) {
            SpecOutcome::Done(j, frag) => {
                if i < j <= s.len() {
                    scan_body(s, j, acc + frag)
                } else {
                    SpecOutcome::Incomplete
                }
            },
            SpecOutcome::Incomplete => SpecOutcome::Incomplete,
            SpecOutcome::Failed(k, p) => SpecOutcome::Failed(k, p),
        }
    }
}

/// What parsing a whole string literal yields on the character sequence `s`:
/// an opening quote, the scanned body, and the closing quote.
pub open spec fn spec_parse_string_literal(s: Seq<char>) -> SpecOutcome {
    if s.len() == 0 {
        SpecOutcome::Incomplete
    } else if s[0] != '"' {
        SpecOutcome::Failed(ErrorKind::NotAString, 0)
    } else {
        scan_body(s, 1, Seq::empty())
    }
}

/// What recognizing a single fragment at the start of `s` yields.
pub open spec fn spec_parse_fragment(s: Seq<char>) -> SpecOutcome {
    fragment_at(s, 0)
}

/// What decoding a mnemonic escape at the start of `s` yields: a backslash
/// followed by one letter of the fixed table.
pub open spec fn spec_decode_mnemonic(s: Seq<char>) -> SpecOutcome {
    if s.len() == 0 {
        SpecOutcome::Incomplete
    } else if s[0] != '\\' {
        SpecOutcome::Failed(ErrorKind::InvalidEscape, 0)
    } else if s.len() == 1 {
        SpecOutcome::Incomplete
    } else {
        match mnemonic_char(s[1]) {
            Some(m) => SpecOutcome::Done(2, seq![m]),
            None => SpecOutcome::Failed(ErrorKind::UnknownEscape(s[1]), 0),
        }
    }
}

/// What decoding a hex escape at the start of `s` yields: the two characters
/// `\x`, then one to eight hexadecimal digits.
pub open spec fn spec_decode_hex_escape(s: Seq<char>) -> SpecOutcome {
    if s.len() == 0 {
        SpecOutcome::Incomplete
    } else if s[0] != '\\' {
        SpecOutcome::Failed(ErrorKind::InvalidEscape, 0)
    } else if s.len() == 1 {
        SpecOutcome::Incomplete
    } else if s[1] != 'x' {
        SpecOutcome::Failed(ErrorKind::InvalidEscape, 0)
    } else {
        hex_escape_at(s, 0)
    }
}

/// Sixteen to the `n`-th power: the number of digit runs of length `n`.
pub open spec fn pow16(n: nat) -> int
    decreases n,
{
    if n == 0 {
        1
    } else {
        16 * pow16((n - 1) as nat)
    }
}

pub proof fn lemma_pow16_pos(n: nat)
    ensures
        pow16(n) >= 1,
    decreases n,
{
    if n > 0 {
        lemma_pow16_pos((n - 1) as nat);
    }
}

pub proof fn lemma_pow16_le(a: nat, b: nat)
    requires
        a <= b,
    ensures
        pow16(a) <= pow16(b),
    decreases b,
{
    lemma_pow16_pos(a);
    if a < b {
        lemma_pow16_le(a, (b - 1) as nat);
        lemma_pow16_pos((b - 1) as nat);
    }
}

/// A run of `n` digits denotes a value below sixteen to the `n`-th.
pub proof fn lemma_hex_value_bound(ds: Seq<char>)
    ensures
        0 <= hex_value(ds) < pow16(ds.len()),
    decreases ds.len(),
{
    if ds.len() > 0 {
        lemma_hex_value_bound(ds.drop_last());
    }
}

pub proof fn lemma_skip_space_bounds(s: Seq<char>, i: int)
    requires
        0 <= i <= s.len(),
    ensures
        i <= skip_space(s, i) <= s.len(),
    decreases s.len() - i,
{
    if i < s.len() && is_intraline_space(s[i]) {
        lemma_skip_space_bounds(s, i + 1);
    }
}

pub proof fn lemma_run_end_bounds(s: Seq<char>, i: int)
    requires
        0 <= i <= s.len(),
    ensures
        i <= run_end(s, i) <= s.len(),
    decreases s.len() - i,
{
    if i < s.len() && s[i] != '"' && s[i] != '\\' {
        lemma_run_end_bounds(s, i + 1);
    }
}

pub proof fn lemma_hex_end_bounds(s: Seq<char>, i: int, left: nat)
    requires
        0 <= i <= s.len(),
    ensures
        i <= hex_end(s, i, left) <= s.len(),
        hex_end(s, i, left) - i <= left,
    decreases left,
{
    if left > 0 && i < s.len() && is_hex_digit(s[i]) {
        lemma_hex_end_bounds(s, i + 1, (left - 1) as nat);
    }
}

/// Everything before the end of a digit run is a hexadecimal digit.
pub proof fn lemma_hex_end_digits(s: Seq<char>, i: int, left: nat)
    requires
        0 <= i <= s.len(),
    ensures
        forall|q: int| i <= q < hex_end(s, i, left) ==> is_hex_digit(#[trigger] s[q]),
    decreases left,
{
    if left > 0 && i < s.len() && is_hex_digit(s[i]) {
        lemma_hex_end_digits(s, i + 1, (left - 1) as nat);
    }
}

/// An escape that is recognized ends past its backslash and within the input.
pub proof fn lemma_escape_done_bounds(s: Seq<char>, bs: int)
    requires
        0 <= bs < s.len(),
    ensures
        escape_at(s, bs) matches SpecOutcome::Done(j, frag) ==> bs + 2 <= j <= s.len(),
{
    if bs + 1 < s.len() {
        let c = s[bs + 1];
        if is_intraline_space(c) || c == '\n' || c == '\r' {
            let j = skip_space(s, bs + 1);
            lemma_skip_space_bounds(s, bs + 1);
            if j < s.len() {
                if s[j] == '\n' {
                    lemma_skip_space_bounds(s, j + 1);
                } else if s[j] == '\r' && j + 1 < s.len() && s[j + 1] == '\n' {
                    lemma_skip_space_bounds(s, j + 2);
                }
            }
        } else if mnemonic_char(c) is None && c == 'x' {
            lemma_hex_end_bounds(s, bs + 2, 8);
        }
    }
}

/// A fragment that is recognized is non-empty and ends within the input.
pub proof fn lemma_fragment_done_bounds(s: Seq<char>, i: int)
    requires
        0 <= i < s.len(),
    ensures
        fragment_at(s, i) matches SpecOutcome::Done(j, frag) ==> i < j <= s.len(),
{
    if s[i] != '"' && s[i] != '\\' {
        lemma_run_end_bounds(s, i + 1);
    } else if s[i] == '\\' {
        lemma_escape_done_bounds(s, i);
    }
}

/// Scanning from an ordinary character is scanning from the next index with
/// that character appended: the scanner consumes ordinary text one character
/// at a time.
pub proof fn lemma_scan_ordinary_step(s: Seq<char>, i: int, acc: Seq<char>)
    requires
        0 <= i < s.len(),
        s[i] != '"',
        s[i] != '\\',
    ensures
        scan_body(s, i, acc) == scan_body(s, i + 1, acc.push(s[i])),
{
    let e = run_end(s, i);
    assert(e == run_end(s, i + 1));
    lemma_run_end_bounds(s, i + 1);
    if e >= s.len() {
        if i + 1 < s.len() {
            assert(s[i + 1] != '"' && s[i + 1] != '\\');
        }
    } else {
        assert(scan_body(s, i, acc) == scan_body(s, e, acc + s.subrange(i, e)));
        if i + 1 == e {
            assert(acc + s.subrange(i, e) =~= acc.push(s[i]));
        } else {
            assert(s[i + 1] != '"' && s[i + 1] != '\\');
            assert(acc + s.subrange(i, e) =~= acc.push(s[i]) + s.subrange(i + 1, e));
            assert(scan_body(s, i + 1, acc.push(s[i])) == scan_body(
                s,
                e,
                acc.push(s[i]) + s.subrange(i + 1, e),
            ));
        }
    }
}

pub proof fn lemma_skip_space_ext(s: Seq<char>, ext: Seq<char>, i: int)
    requires
        0 <= i <= s.len(),
        skip_space(s, i) < s.len(),
    ensures
        skip_space(s + ext, i) == skip_space(s, i),
    decreases s.len() - i,
{
    lemma_skip_space_bounds(s, i);
    assert((s + ext)[i] == s[i]);
    if i < s.len() && is_intraline_space(s[i]) {
        lemma_skip_space_ext(s, ext, i + 1);
    }
}

pub proof fn lemma_run_end_ext(s: Seq<char>, ext: Seq<char>, i: int)
    requires
        0 <= i <= s.len(),
        run_end(s, i) < s.len(),
    ensures
        run_end(s + ext, i) == run_end(s, i),
    decreases s.len() - i,
{
    lemma_run_end_bounds(s, i);
    assert((s + ext)[i] == s[i]);
    if i < s.len() && s[i] != '"' && s[i] != '\\' {
        lemma_run_end_ext(s, ext, i + 1);
    }
}

pub proof fn lemma_hex_end_ext(s: Seq<char>, ext: Seq<char>, i: int, left: nat)
    requires
        0 <= i <= s.len(),
        hex_end(s, i, left) < s.len() || hex_end(s, i, left) - i >= left,
    ensures
        hex_end(s + ext, i, left) == hex_end(s, i, left),
    decreases left,
{
    lemma_hex_end_bounds(s, i, left);
    if i < s.len() {
        assert((s + ext)[i] == s[i]);
    }
    if left > 0 && i < s.len() && is_hex_digit(s[i]) {
        lemma_hex_end_ext(s, ext, i + 1, (left - 1) as nat);
    }
}

pub proof fn lemma_continuation_ext(s: Seq<char>, ext: Seq<char>, bs: int)
    requires
        0 <= bs < s.len(),
        !(continuation_at(s, bs) is Incomplete),
    ensures
        continuation_at(s + ext, bs) == continuation_at(s, bs),
{
    let s2 = s + ext;
    let j = skip_space(s, bs + 1);
    lemma_skip_space_bounds(s, bs + 1);
    lemma_skip_space_ext(s, ext, bs + 1);
    assert(s2[j] == s[j]);
    if s[j] == '\n' {
        lemma_skip_space_bounds(s, j + 1);
        lemma_skip_space_ext(s, ext, j + 1);
    } else if s[j] == '\r' {
        assert(s2[j + 1] == s[j + 1]);
        if s[j + 1] == '\n' {
            lemma_skip_space_bounds(s, j + 2);
            lemma_skip_space_ext(s, ext, j + 2);
        }
    }
}

pub proof fn lemma_hex_escape_ext(s: Seq<char>, ext: Seq<char>, bs: int)
    requires
        0 <= bs,
        bs + 1 < s.len(),
        !(hex_escape_at(s, bs) is Incomplete),
    ensures
        hex_escape_at(s + ext, bs) == hex_escape_at(s, bs),
{
    let s2 = s + ext;
    let d = bs + 2;
    let e = hex_end(s, d, 8);
    lemma_hex_end_bounds(s, d, 8);
    lemma_hex_end_ext(s, ext, d, 8);
    if e > d && (e < s.len() || e - d == 8) {
        assert(s2.subrange(d, e) =~= s.subrange(d, e));
    }
}

pub proof fn lemma_escape_ext(s: Seq<char>, ext: Seq<char>, bs: int)
    requires
        0 <= bs < s.len(),
        !(escape_at(s, bs) is Incomplete),
    ensures
        escape_at(s + ext, bs) == escape_at(s, bs),
{
    let s2 = s + ext;
    assert(s2[bs + 1] == s[bs + 1]);
    let c = s[bs + 1];
    if c == '"' || c == '\\' {
    } else if is_intraline_space(c) || c == '\n' || c == '\r' {
        lemma_continuation_ext(s, ext, bs);
    } else if mnemonic_char(c) is None && c == 'x' {
        lemma_hex_escape_ext(s, ext, bs);
    }
}

pub proof fn lemma_fragment_ext(s: Seq<char>, ext: Seq<char>, i: int)
    requires
        0 <= i < s.len(),
        !(fragment_at(s, i) is Incomplete),
    ensures
        fragment_at(s + ext, i) == fragment_at(s, i),
{
    let s2 = s + ext;
    assert(s2[i] == s[i]);
    if s[i] != '"' && s[i] != '\\' {
        let e = run_end(s, i);
        lemma_run_end_bounds(s, i);
        lemma_run_end_ext(s, ext, i);
        assert(s2.subrange(i, e) =~= s.subrange(i, e));
    } else if s[i] == '\\' {
        lemma_escape_ext(s, ext, i);
    }
}

/// A scan that closes the literal ends past where it started and within the
/// input.
pub proof fn lemma_scan_done_bounds(s: Seq<char>, i: int, acc: Seq<char>)
    requires
        0 <= i <= s.len(),
    ensures
        scan_body(s, i, acc) matches SpecOutcome::Done(next, decoded) ==> i < next <= s.len(),
    decreases s.len() - i,
{
    if i < s.len() && s[i] != '"' {
        lemma_fragment_done_bounds(s, i);
        match fragment_at(s, i) {
            SpecOutcome::Done(j, frag) => {
                lemma_scan_done_bounds(s, j, acc + frag);
            },
            _ => {},
        }
    }
}

/// Once the scanner has decided (closed the literal or failed), appending more
/// input changes nothing.
pub proof fn lemma_scan_ext(s: Seq<char>, ext: Seq<char>, i: int, acc: Seq<char>)
    requires
        0 <= i <= s.len(),
        !(scan_body(s, i, acc) is Incomplete),
    ensures
        scan_body(s + ext, i, acc) == scan_body(s, i, acc),
    decreases s.len() - i,
{
    let s2 = s + ext;
    if i < s.len() {
        assert(s2[i] == s[i]);
        if s[i] != '"' {
            lemma_fragment_done_bounds(s, i);
            match fragment_at(s, i) {
                SpecOutcome::Done(j, frag) => {
                    lemma_fragment_ext(s, ext, i);
                    lemma_scan_ext(s, ext, j, acc + frag);
                },
                SpecOutcome::Incomplete => {},
                SpecOutcome::Failed(_, _) => {
                    lemma_fragment_ext(s, ext, i);
                },
            }
        }
    }
}

} // verus!
