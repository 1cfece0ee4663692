//! Laws of the decoder, proved of the grammar model that
//! `BEncoder::decode`'s contract is stated over.
//!
//! The headline result is the missing-terminator law: cutting the closing
//! `e` off any integer, list or dict — at any nesting depth, since the
//! result holds at every position — turns a successful parse into exactly
//! the matching unterminated error. On the way there stands a locality law:
//! a successful parse that ends before the end of the input depends only on
//! the characters it consumed.

use vstd::prelude::*;

use crate::model::elems_at;
use crate::model::enough_fuel;
use crate::model::find_char;
use crate::model::lemma_elems_bounds;
use crate::model::lemma_elems_unfold;
use crate::model::lemma_find_char;
use crate::model::lemma_value_bounds;
use crate::model::lemma_value_unfold;
use crate::model::parse_length;
use crate::model::spec_decode;
use crate::model::value_at;
use crate::value::BValue;
use crate::value::ErrorKind;

verus! {

/// A found character is found again in any sequence that agrees up to it.
proof fn lemma_find_char_agree(s: Seq<char>, t: Seq<char>, i: int, c: char)
    requires
        0 <= i,
        find_char(s, i, c) is Some,
        find_char(s, i, c)->Some_0 < t.len(),
        forall|k: int| i <= k <= find_char(s, i, c)->Some_0 ==> #[trigger] t[k] == s[k],
    ensures
        find_char(t, i, c) == find_char(s, i, c),
    decreases s.len() - i,
{
    lemma_find_char(s, i, c);
    if i < s.len() && s[i] != c {
        lemma_find_char_agree(s, t, i + 1, c);
    }
}

/// Parsing is local: a successful parse that ends before the end of the
/// input reads only the characters it consumed, so it comes out the same
/// in any input that carries the same characters there. (A parse that runs
/// to the very end is excluded: a truncated byte string reads the input's
/// length too.)
pub proof fn lemma_value_local(s: Seq<char>, t: Seq<char>, i: int)
    requires
        0 <= i <= s.len(),
        value_at(s, i) is Ok,
        value_at(s, i)->Ok_0.1 < s.len(),
        value_at(s, i)->Ok_0.1 <= t.len(),
        forall|k: int| i <= k < value_at(s, i)->Ok_0.1 ==> #[trigger] t[k] == s[k],
    ensures
        value_at(t, i) == value_at(s, i),
    decreases s.len() - i, 0nat,
{
    let (v, j) = value_at(s, i)->Ok_0;
    lemma_value_bounds(s, i, enough_fuel(s, i));
    lemma_value_unfold(s, i);
    lemma_value_unfold(t, i);
    let c = s[i];
    assert(t[i] == c);
    if c == 'i' {
        lemma_find_char(s, i + 1, 'e');
        let p = find_char(s, i + 1, 'e')->Some_0;
        lemma_find_char_agree(s, t, i + 1, 'e');
        assert(t.subrange(i + 1, p) =~= s.subrange(i + 1, p));
    } else if c == 'd' {
        lemma_elems_local(s, t, i + 1, ErrorKind::UnterminatedDict);
    } else if c == 'l' {
        lemma_elems_local(s, t, i + 1, ErrorKind::UnterminatedList);
    } else {
        // A digit: a byte string. Its end j lies before s's end, so the
        // declared length was served in full, and is served in full by t
        // as well, which reaches to j at least.
        lemma_find_char(s, i + 1, ':');
        let p = find_char(s, i + 1, ':')->Some_0;
        let buf = seq![c] + s.subrange(i + 1, p);
        match parse_length(buf) {
            Ok(n) => {
                crate::model::lemma_digits_val_nonneg(buf);
                assert(j == p + 1 + n);
                lemma_find_char_agree(s, t, i + 1, ':');
                assert(t.subrange(i + 1, p) =~= s.subrange(i + 1, p));
                assert(t.subrange(p + 1, j) =~= s.subrange(p + 1, j));
            },
            Err(_) => {},
        }
    }
}

/// As `lemma_value_local`, for element runs: the elements and the closing
/// `e` are read from the consumed characters alone.
pub proof fn lemma_elems_local(s: Seq<char>, t: Seq<char>, i: int, term_err: ErrorKind)
    requires
        0 <= i <= s.len(),
        elems_at(s, i, term_err) is Ok,
        elems_at(s, i, term_err)->Ok_0.1 <= t.len(),
        forall|k: int| i <= k < elems_at(s, i, term_err)->Ok_0.1 ==> #[trigger] t[k] == s[k],
    ensures
        elems_at(t, i, term_err) == elems_at(s, i, term_err),
    decreases s.len() - i, 1nat,
{
    let (es, j) = elems_at(s, i, term_err)->Ok_0;
    lemma_elems_bounds(s, i, term_err, enough_fuel(s, i));
    lemma_elems_unfold(s, i, term_err);
    lemma_elems_unfold(t, i, term_err);
    if s[i] == 'e' {
        assert(t[i] == 'e');
    } else {
        match value_at(s, i) {
            Ok((v, j1)) => {
                lemma_elems_bounds(s, j1, term_err, enough_fuel(s, j1));
                lemma_value_local(s, t, i);
                lemma_elems_local(s, t, j1, term_err);
            },
            Err(_) => {},
        }
    }
}

/// A successful element run ends just past its sentinel: the character
/// before its end is the `e` that closed it.
pub proof fn lemma_elems_end(s: Seq<char>, i: int, term_err: ErrorKind)
    requires
        0 <= i <= s.len(),
        elems_at(s, i, term_err) is Ok,
    ensures
        ({
            let (es, j) = elems_at(s, i, term_err)->Ok_0;
            i < j <= s.len() && s[j - 1] == 'e'
        }),
    decreases s.len() - i,
{
    lemma_elems_unfold(s, i, term_err);
    if i < s.len() && s[i] != 'e' {
        match value_at(s, i) {
            Ok((v, j1)) => {
                lemma_elems_end(s, j1, term_err);
            },
            Err(_) => {},
        }
    }
}

/// Cutting the closing `e` off a successful element run leaves every
/// element in place and the run unterminated: the parse of the shortened
/// input fails with exactly the handed-in error.
pub proof fn lemma_elems_drop(s: Seq<char>, i: int, term_err: ErrorKind)
    requires
        0 <= i <= s.len(),
        elems_at(s, i, term_err) is Ok,
    ensures
        ({
            let (es, j) = elems_at(s, i, term_err)->Ok_0;
            elems_at(s.take(j - 1), i, term_err) == Err::<(Seq<BValue>, int), ErrorKind>(term_err)
        }),
    decreases s.len() - i,
{
    let (es, j) = elems_at(s, i, term_err)->Ok_0;
    lemma_elems_end(s, i, term_err);
    let t = s.take(j - 1);
    lemma_elems_unfold(s, i, term_err);
    lemma_elems_unfold(t, i, term_err);
    if s[i] == 'e' {
        // The run was empty: the cut input ends right where it begins.
    } else {
        match value_at(s, i) {
            Ok((v, j1)) => {
                lemma_elems_bounds(s, j1, term_err, enough_fuel(s, j1));
                lemma_value_local(s, t, i);
                lemma_elems_drop(s, j1, term_err);
            },
            Err(_) => {},
        }
    }
}

/// The missing-terminator law: for any input position where an integer, a
/// list or a dict parses, cutting the input just before that value's
/// closing `e` makes the parse fail with exactly the matching unterminated
/// error — `UnterminatedInteger`, `UnterminatedList` or
/// `UnterminatedDict`. Because this holds at every position, it covers a
/// value at any nesting depth, whose error the surrounding containers pass
/// up unchanged.
pub proof fn lemma_missing_terminator(s: Seq<char>, i: int)
    requires
        0 <= i <= s.len(),
        value_at(s, i) is Ok,
        !(value_at(s, i)->Ok_0.0 is ByteString),
    ensures
        ({
            let (v, j) = value_at(s, i)->Ok_0;
            &&& i + 2 <= j <= s.len()
            &&& s[j - 1] == 'e'
            &&& value_at(s.take(j - 1), i) == Err::<(BValue, int), ErrorKind>(
                match v {
                    BValue::Integer(_) => ErrorKind::UnterminatedInteger,
                    BValue::List(_) => ErrorKind::UnterminatedList,
                    BValue::Dict(_) => ErrorKind::UnterminatedDict,
                    BValue::ByteString(_) => ErrorKind::UnexpectedToken,
                },
            )
        }),
{
    let (v, j) = value_at(s, i)->Ok_0;
    lemma_value_bounds(s, i, enough_fuel(s, i));
    lemma_value_unfold(s, i);
    let c = s[i];
    let t = s.take(j - 1);
    if c == 'i' {
        lemma_find_char(s, i + 1, 'e');
        let p = find_char(s, i + 1, 'e')->Some_0;
        lemma_value_unfold(t, i);
        lemma_find_char(t, i + 1, 'e');
        match find_char(t, i + 1, 'e') {
            Some(q) => {
                assert(t[q] == s[q]);
                assert(false);
            },
            None => {},
        }
    } else if c == 'd' {
        lemma_elems_end(s, i + 1, ErrorKind::UnterminatedDict);
        lemma_elems_drop(s, i + 1, ErrorKind::UnterminatedDict);
        lemma_value_unfold(t, i);
    } else if c == 'l' {
        lemma_elems_end(s, i + 1, ErrorKind::UnterminatedList);
        lemma_elems_drop(s, i + 1, ErrorKind::UnterminatedList);
        lemma_value_unfold(t, i);
    }
}

/// The missing-terminator law at the front door: when the whole input
/// decodes to an integer, a list or a dict, the input cut just before that
/// value's closing `e` decodes to exactly the matching unterminated error —
/// unless fewer than two characters remain, which the length gate reports
/// as `InputTooShort` first.
pub proof fn lemma_decode_missing_terminator(s: Seq<char>)
    requires
        s.len() >= 2,
        value_at(s, 0) is Ok,
        !(value_at(s, 0)->Ok_0.0 is ByteString),
    ensures
        ({
            let (v, j) = value_at(s, 0)->Ok_0;
            &&& spec_decode(s) == Ok::<BValue, ErrorKind>(v)
            &&& spec_decode(s.take(j - 1)) == Err::<BValue, ErrorKind>(
                if j - 1 >= 2 {
                    match v {
                        BValue::Integer(_) => ErrorKind::UnterminatedInteger,
                        BValue::List(_) => ErrorKind::UnterminatedList,
                        BValue::Dict(_) => ErrorKind::UnterminatedDict,
                        BValue::ByteString(_) => ErrorKind::UnexpectedToken,
                    }
                } else {
                    ErrorKind::InputTooShort
                },
            )
        }),
{
    lemma_missing_terminator(s, 0);
}

} // verus!
