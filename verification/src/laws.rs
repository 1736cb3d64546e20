use crate::grammar::{
    lemma_scan_done_bounds, lemma_scan_ext, lemma_scan_ordinary_step, scan_body,
    spec_parse_string_literal, SpecOutcome,
};
use vstd::prelude::*;
use vstd::utf8::is_scalar;

verus! {

proof fn lemma_scan_to_quote(t: Seq<char>, i: int, e: int, acc: Seq<char>)
    requires
        0 <= i <= e < t.len(),
        t[e] == '"',
        forall|k: int| i <= k < e ==> t[k] != '"' && t[k] != '\\',
    ensures
        scan_body(t, i, acc) == SpecOutcome::Done(e + 1, acc + t.subrange(i, e)),
    decreases e - i,
{
    if i == e {
        assert(acc + t.subrange(i, e) =~= acc);
    } else {
        lemma_scan_ordinary_step(t, i, acc);
        lemma_scan_to_quote(t, i + 1, e, acc.push(t[i]));
        assert(acc.push(t[i]) + t.subrange(i + 1, e) =~= acc + t.subrange(i, e));
    }
}

/// Law: a quoted literal whose body holds neither a quote nor a backslash
/// decodes to exactly that body, consuming the whole input.
pub proof fn lemma_plain_literal_round_trip(body: Seq<char>)
    requires
        forall|k: int| 0 <= k < body.len() ==> body[k] != '"' && body[k] != '\\',
    ensures
        spec_parse_string_literal(seq!['"'] + body + seq!['"']) == SpecOutcome::Done(
            body.len() as int + 2,
            body,
        ),
{
    let t = seq!['"'] + body + seq!['"'];
    let e = body.len() + 1;
    assert(t.len() == body.len() + 2);
    assert(t[0] == '"');
    assert(t[e as int] == '"');
    assert(forall|k: int| 1 <= k < e ==> t[k] == body[k - 1] && t[k] != '"' && t[k] != '\\');
    lemma_scan_to_quote(t, 1, e as int, Seq::empty());
    assert(Seq::<char>::empty() + t.subrange(1, e as int) =~= body);
}

/// Law: once a parse has decided (`Done` or `Failed`), feeding the same input
/// extended by any further characters yields the identical outcome; only an
/// `Incomplete` parse can change as input grows.
pub proof fn lemma_streaming_monotone(s: Seq<char>, ext: Seq<char>)
    ensures
        !(spec_parse_string_literal(s) is Incomplete) ==> spec_parse_string_literal(s + ext)
            == spec_parse_string_literal(s),
{
    if !(spec_parse_string_literal(s) is Incomplete) {
        let s2 = s + ext;
        assert(s.len() > 0);
        assert(s2[0] == s[0]);
        if s[0] == '"' {
            lemma_scan_ext(s, ext, 1, Seq::empty());
        }
    }
}

/// Law: re-invoking the parser on a longer prefix of the same stream agrees
/// with any decided outcome of a shorter prefix; in particular a prefix that
/// already parsed to `Done` gives the same decoded text as the whole stream.
pub proof fn lemma_prefix_consistent(s: Seq<char>, i: int)
    requires
        0 <= i <= s.len(),
    ensures
        !(spec_parse_string_literal(s.subrange(0, i)) is Incomplete)
            ==> spec_parse_string_literal(s) == spec_parse_string_literal(s.subrange(0, i)),
{
    assert(s =~= s.subrange(0, i) + s.subrange(i, s.len() as int));
    lemma_streaming_monotone(s.subrange(0, i), s.subrange(i, s.len() as int));
}

/// Law: a parse can reach `Done` only once the input covers the whole literal:
/// the index past the closing quote lies after the opening quote and within
/// the input seen so far.
pub proof fn lemma_done_covers_literal(s: Seq<char>)
    ensures
        spec_parse_string_literal(s) matches SpecOutcome::Done(next, decoded) ==> 2 <= next
            <= s.len(),
{
    if s.len() > 0 && s[0] == '"' {
        lemma_scan_done_bounds(s, 1, Seq::empty());
    }
}

/// Law: every character of a decoded literal is a valid Unicode scalar value;
/// no input can decode to a value in the surrogate range.
pub proof fn lemma_decoded_chars_scalar(s: Seq<char>)
    ensures
        spec_parse_string_literal(s) matches SpecOutcome::Done(next, decoded) ==> forall|k: int|
            0 <= k < decoded.len() ==> is_scalar(#[trigger] (decoded[k] as u32)),
{
    match spec_parse_string_literal(s) {
        SpecOutcome::Done(_, decoded) => {
            assert forall|k: int| 0 <= k < decoded.len() implies is_scalar(
                #[trigger] (decoded[k] as u32),
            ) by {
                vstd::utf8::char_is_scalar(decoded[k]);
            }
        },
        _ => {},
    }
}

} // verus!
