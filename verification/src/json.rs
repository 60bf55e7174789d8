//! Reading a function-call argument object that is still being streamed:
//! its open braces are closed before it is parsed.
use crate::text::{chars_of, push_char};
use vstd::prelude::*;

verus! {

#[verifier::external_type_specification]
#[verifier::external_body]
pub struct ExJsonValue(serde_json::Value);

#[verifier::external_type_specification]
#[verifier::external_body]
pub struct ExJsonError(serde_json::Error);

/// Why a JSON text was not read.
#[derive(Clone, Copy, Debug, PartialEq, Eq, Structural)]
pub enum JsonError {
    Invalid,
}

/// Whether `serde_json::from_str` reads the text as a JSON value: a function
/// of the text alone.
pub uninterp spec fn json_accepts(text: Seq<char>) -> bool;

/// The JSON value `serde_json::from_str` reads from an accepted text: a
/// function of the text alone.
pub uninterp spec fn json_value_of(text: Seq<char>) -> serde_json::Value;

/// `serde_json::from_str` into a JSON value. It reports malformed text as an
/// error and does not panic; it succeeds exactly on the texts that
/// `json_accepts` names, with the value `json_value_of` names.
#[verifier::external_body]
fn parse_value(text: &str) -> (r: Result<serde_json::Value, serde_json::Error>)
    ensures
        r is Ok <==> json_accepts(text@),
        r is Ok ==> r->Ok_0 == json_value_of(text@),
{
    serde_json::from_str(text)
}

/// What a parse result becomes: the value itself, or `JsonError::Invalid`.
pub fn read_parsed(parsed: Result<serde_json::Value, serde_json::Error>) -> (r: Result<
    serde_json::Value,
    JsonError,
>)
    ensures
        match parsed {
            Ok(v) => r == Ok::<serde_json::Value, JsonError>(v),
            Err(_) => r == Err::<serde_json::Value, JsonError>(JsonError::Invalid),
        },
{
    match parsed {
        Ok(v) => Ok(v),
        Err(_) => Err(JsonError::Invalid),
    }
}

/// How often `c` occurs in `s`.
pub open spec fn count_char(s: Seq<char>, c: char) -> nat
    decreases s.len(),
{
    if s.len() == 0 {
        0
    } else {
        count_char(s.drop_last(), c) + if s.last() == c {
            1nat
        } else {
            0nat
        }
    }
}

/// The text with one `}` added for every `{` that is not closed.
pub open spec fn completed(s: Seq<char>) -> Seq<char> {
    s + Seq::new((count_char(s, '{') - count_char(s, '}')) as nat, |i: int| '}')
}

/// Closes the open braces of a streamed JSON object; also tells whether it
/// was already complete.
pub fn complete_braces(json: &str) -> (r: (String, bool))
    requires
        count_char(json@, '}') <= count_char(json@, '{'),
    ensures
        r.0@ == completed(json@),
        r.1 == (count_char(json@, '{') == count_char(json@, '}')),
{
    let v = chars_of(json);
    let mut open: usize = 0;
    let mut close: usize = 0;
    let mut i: usize = 0;
    while i < v.len()
        invariant
            i <= v@.len(),
            v@ == json@,
            open == count_char(v@.take(i as int), '{'),
            close == count_char(v@.take(i as int), '}'),
            open + close <= i,
        decreases v@.len() - i,
    {
        assert(v@.take(i + 1).drop_last() =~= v@.take(i as int));
        if v[i] == '{' {
            open = open + 1;
        } else if v[i] == '}' {
            close = close + 1;
        }
        i = i + 1;
    }
    assert(v@.take(i as int) =~= v@);
    let missing = open - close;
    let mut s = String::from_str(json);
    let mut k: usize = 0;
    while k < missing
        invariant
            k <= missing,
            s@ == json@ + Seq::new(k as nat, |j: int| '}'),
        decreases missing - k,
    {
        push_char(&mut s, '}');
        k = k + 1;
        assert(s@ =~= json@ + Seq::new(k as nat, |j: int| '}'));
    }
    (s, missing == 0)
}

/// Reads a streamed argument object: whether it was complete, and the JSON
/// value of its text with open braces closed.
pub fn parse_partial_json(json: &str) -> (r: (bool, Result<serde_json::Value, JsonError>))
    requires
        count_char(json@, '}') <= count_char(json@, '{'),
    ensures
        r.0 == (count_char(json@, '{') == count_char(json@, '}')),
        r.1 is Ok <==> json_accepts(completed(json@)),
        r.1 is Ok ==> r.1 == Ok::<serde_json::Value, JsonError>(json_value_of(completed(json@))),
        r.1 is Err ==> r.1 == Err::<serde_json::Value, JsonError>(JsonError::Invalid),
{
    let (text, complete) = complete_braces(json);
    let value = read_parsed(parse_value(text.as_str()));
    (complete, value)
}

} // verus!
