//! The mathematical model of the wire grammar: a recursive-descent decoder
//! written as spec functions over `Seq<char>`.
//!
//! Each parsing function takes the whole input and the position of the next
//! unread character, and yields the decoded model value together with the
//! position just past it, or the decode error. The two mutually recursive
//! functions (`sp_value` and `sp_elems`) carry a fuel argument so that their
//! recursion is well-founded by construction; `lemma_value_fuel` and
//! `lemma_elems_fuel` show that any
//! fuel larger than the remaining input gives one and the same answer, and
//! the fuel-free wrappers `value_at` and `elems_at` fix that answer. All
//! contracts of the executable decoder speak of the wrappers.

use vstd::prelude::*;

use crate::value::BValue;
use crate::value::ErrorKind;
use crate::value::dict_insert;

verus! {

/// An ASCII decimal digit.
pub open spec fn is_digit(c: char) -> bool {
    '0' <= c && c <= '9'
}

/// The numeric value of a digit character.
pub open spec fn digit_val(c: char) -> int {
    c as u32 - '0' as u32
}

/// Whether every character of `s` is a digit.
pub open spec fn all_digits(s: Seq<char>) -> bool {
    forall|k: int| 0 <= k < s.len() ==> is_digit(#[trigger] s[k])
}

/// The number written by a digit sequence, most significant first.
pub open spec fn digits_val(s: Seq<char>) -> int
    decreases s.len(),
{
    if s.len() == 0 {
        0
    } else {
        digits_val(s.drop_last()) * 10 + digit_val(s.last())
    }
}

/// The value of the buffer between `i` and `e`: an optional `-`, then
/// digits, read as a signed 64-bit integer. Anything else — an empty
/// buffer, a stray character, a lone `-`, a value outside the 64-bit
/// range — is `IntegerParseError`.
pub open spec fn parse_integer(buf: Seq<char>) -> Result<int, ErrorKind> {
    let neg = buf.len() > 0 && buf[0] == '-';
    let digits = if neg {
        buf.skip(1)
    } else {
        buf
    };
    if digits.len() == 0 || !all_digits(digits) {
        Err(ErrorKind::IntegerParseError)
    } else {
        let n = if neg {
            -digits_val(digits)
        } else {
            digits_val(digits)
        };
        if n < i64::MIN as int || n > i64::MAX as int {
            Err(ErrorKind::IntegerParseError)
        } else {
            Ok(n)
        }
    }
}

/// The value of a string's length prefix: digits only, within the machine's
/// addressable range. Anything else is `StringLengthParseError`.
pub open spec fn parse_length(buf: Seq<char>) -> Result<int, ErrorKind> {
    if buf.len() == 0 || !all_digits(buf) {
        Err(ErrorKind::StringLengthParseError)
    } else if digits_val(buf) > usize::MAX as int {
        Err(ErrorKind::StringLengthParseError)
    } else {
        Ok(digits_val(buf))
    }
}

/// The position of the first `c` at or after `i`, if there is one.
pub open spec fn find_char(s: Seq<char>, i: int, c: char) -> Option<int>
    decreases s.len() - i,
{
    if i < 0 || i >= s.len() {
        None
    } else if s[i] == c {
        Some(i)
    } else {
        find_char(s, i + 1, c)
    }
}

/// What `find_char` finds: the first hit, past no earlier one, or none at
/// all.
pub proof fn lemma_find_char(s: Seq<char>, i: int, c: char)
    requires
        0 <= i <= s.len(),
    ensures
        match find_char(s, i, c) {
            Some(p) => i <= p < s.len() && s[p] == c && forall|k: int| i <= k < p ==> s[k] != c,
            None => forall|k: int| i <= k < s.len() ==> s[k] != c,
        },
    decreases s.len() - i,
{
    if i < s.len() && s[i] != c {
        lemma_find_char(s, i + 1, c);
    }
}

/// An integer, entered just past its `i` tag: everything up to the closing
/// `e` is the buffer; no `e` before the end of the input is
/// `UnterminatedInteger`.
pub open spec fn integer_at(s: Seq<char>, i: int) -> Result<(BValue, int), ErrorKind> {
    match find_char(s, i, 'e') {
        None => Err(ErrorKind::UnterminatedInteger),
        Some(p) => match parse_integer(s.subrange(i, p)) {
            Err(e) => Err(e),
            Ok(n) => Ok((BValue::Integer(n), p + 1)),
        },
    }
}

/// A byte string, entered just past its first length digit, which the
/// dispatcher already consumed and passes along. The rest of the prefix runs
/// to the `:`; then the declared number of characters follow, or as many as
/// the input still has — a short payload is truncated, never an error.
pub open spec fn string_at(s: Seq<char>, i: int, first: char) -> Result<(BValue, int), ErrorKind> {
    match find_char(s, i, ':') {
        None => Err(ErrorKind::StringLengthParseError),
        Some(p) => match parse_length(seq![first] + s.subrange(i, p)) {
            Err(e) => Err(e),
            Ok(n) => {
                let start = p + 1;
                let end = if start + n <= s.len() {
                    start + n
                } else {
                    s.len() as int
                };
                Ok((BValue::ByteString(s.subrange(start, end)), end))
            },
        },
    }
}

/// The dict elements, taken two at a time in wire order: each key must be a
/// byte string, and each pair lands in the accumulator by `dict_insert`, so
/// a repeated key ends up with the value of its last pair.
pub open spec fn dict_pairs(elems: Seq<BValue>, acc: Seq<(Seq<char>, BValue)>) -> Result<
    Seq<(Seq<char>, BValue)>,
    ErrorKind,
>
    recommends
        elems.len() % 2 == 0,
    decreases elems.len(),
{
    if elems.len() < 2 {
        Ok(acc)
    } else if !(elems[0] is ByteString) {
        Err(ErrorKind::NonStringDictKey)
    } else {
        dict_pairs(elems.skip(2), dict_insert(acc, elems[0]->ByteString_0, elems[1]))
    }
}

/// One value, dispatched on the character at `i`: `d` opens a dict, `i` an
/// integer, `l` a list, a digit a string; anything else, or the end of the
/// input, is `UnexpectedToken`. `None` means the fuel ran out.
pub open spec fn sp_value(s: Seq<char>, i: int, fuel: nat) -> Option<
    Result<(BValue, int), ErrorKind>,
>
    decreases fuel, 0nat,
{
    if fuel == 0 {
        None
    } else if i < 0 || i >= s.len() {
        Some(Err(ErrorKind::UnexpectedToken))
    } else if s[i] == 'd' {
        match sp_elems(s, i + 1, ErrorKind::UnterminatedDict, (fuel - 1) as nat) {
            None => None,
            Some(Err(e)) => Some(Err(e)),
            Some(Ok((elems, j))) => if elems.len() % 2 != 0 {
                Some(Err(ErrorKind::OddDictElements))
            } else {
                match dict_pairs(elems, Seq::empty()) {
                    Err(e) => Some(Err(e)),
                    Ok(pairs) => Some(Ok((BValue::Dict(pairs), j))),
                }
            },
        }
    } else if s[i] == 'i' {
        Some(integer_at(s, i + 1))
    } else if s[i] == 'l' {
        match sp_elems(s, i + 1, ErrorKind::UnterminatedList, (fuel - 1) as nat) {
            None => None,
            Some(Err(e)) => Some(Err(e)),
            Some(Ok((elems, j))) => Some(Ok((BValue::List(elems), j))),
        }
    } else if is_digit(s[i]) {
        Some(string_at(s, i + 1, s[i]))
    } else {
        Some(Err(ErrorKind::UnexpectedToken))
    }
}

/// The elements of a container, entered just past its opening tag: values
/// back to back until the sentinel `e`, which is consumed. Exhausting the
/// input first is the container's unterminated error, handed in as
/// `term_err`. `None` means the fuel ran out.
pub open spec fn sp_elems(s: Seq<char>, i: int, term_err: ErrorKind, fuel: nat) -> Option<
    Result<(Seq<BValue>, int), ErrorKind>,
>
    decreases fuel, 1nat,
{
    if fuel == 0 {
        None
    } else if i < 0 || i >= s.len() {
        Some(Err(term_err))
    } else if s[i] == 'e' {
        Some(Ok((Seq::empty(), i + 1)))
    } else {
        match sp_value(s, i, fuel) {
            None => None,
            Some(Err(e)) => Some(Err(e)),
            Some(Ok((v, j))) => match sp_elems(s, j, term_err, (fuel - 1) as nat) {
                None => None,
                Some(Err(e)) => Some(Err(e)),
                Some(Ok((rest, k))) => Some(Ok((seq![v] + rest, k))),
            },
        }
    }
}

/// One more unit of fuel than the input could ever need from `i`.
pub open spec fn enough_fuel(s: Seq<char>, i: int) -> nat {
    (s.len() - i + 1) as nat
}

/// One value at `i`, with the fuel question settled: see `lemma_value_fuel`.
pub open spec fn value_at(s: Seq<char>, i: int) -> Result<(BValue, int), ErrorKind> {
    match sp_value(s, i, enough_fuel(s, i)) {
        Some(r) => r,
        // Never taken for 0 <= i <= s.len(): lemma_value_fuel.
        None => Err(ErrorKind::UnexpectedToken),
    }
}

/// The elements from `i` on, with the fuel question settled: see
/// `lemma_elems_fuel`.
pub open spec fn elems_at(s: Seq<char>, i: int, term_err: ErrorKind) -> Result<
    (Seq<BValue>, int),
    ErrorKind,
> {
    match sp_elems(s, i, term_err, enough_fuel(s, i)) {
        Some(r) => r,
        // Never taken for 0 <= i <= s.len(): lemma_elems_fuel.
        None => Err(term_err),
    }
}

/// A list seen as one value: its elements, wrapped.
pub open spec fn list_at(s: Seq<char>, i: int) -> Result<(BValue, int), ErrorKind> {
    match elems_at(s, i, ErrorKind::UnterminatedList) {
        Ok((es, j)) => Ok((BValue::List(es), j)),
        Err(e) => Err(e),
    }
}

/// A dict seen as one value: its elements, checked for parity, then paired
/// off.
pub open spec fn dict_at(s: Seq<char>, i: int) -> Result<(BValue, int), ErrorKind> {
    match elems_at(s, i, ErrorKind::UnterminatedDict) {
        Err(e) => Err(e),
        Ok((es, j)) => if es.len() % 2 != 0 {
            Err(ErrorKind::OddDictElements)
        } else {
            match dict_pairs(es, Seq::empty()) {
                Err(e) => Err(e),
                Ok(pairs) => Ok((BValue::Dict(pairs), j)),
            }
        },
    }
}

/// All digits make the written number non-negative, and no prefix of the
/// digits writes a larger number than the whole.
pub proof fn lemma_digits_val_nonneg(s: Seq<char>)
    requires
        all_digits(s),
    ensures
        digits_val(s) >= 0,
    decreases s.len(),
{
    if s.len() > 0 {
        assert(all_digits(s.drop_last()));
        lemma_digits_val_nonneg(s.drop_last());
    }
}

/// Reading one more digit never shrinks the number; so any prefix of an
/// all-digit buffer stays at or below the whole buffer's value.
pub proof fn lemma_digits_val_prefix(s: Seq<char>, m: int)
    requires
        all_digits(s),
        0 <= m <= s.len(),
    ensures
        digits_val(s.take(m)) <= digits_val(s),
    decreases s.len() - m,
{
    if m < s.len() {
        assert(all_digits(s.take(m + 1)));
        assert(s.take(m + 1).drop_last() =~= s.take(m));
        assert(s.take(m + 1).last() == s[m]);
        lemma_digits_val_nonneg(s.take(m));
        lemma_digits_val_prefix(s, m + 1);
    } else {
        assert(s.take(m) =~= s);
    }
}

/// A successful integer parse ends past where it began and inside the
/// input.
pub proof fn lemma_integer_bounds(s: Seq<char>, i: int)
    requires
        0 <= i <= s.len(),
    ensures
        match integer_at(s, i) {
            Ok((v, j)) => i < j <= s.len(),
            Err(_) => true,
        },
{
    lemma_find_char(s, i, 'e');
}

/// A successful string parse ends past where it began and inside the
/// input.
pub proof fn lemma_string_bounds(s: Seq<char>, i: int, first: char)
    requires
        0 <= i <= s.len(),
    ensures
        match string_at(s, i, first) {
            Ok((v, j)) => i < j <= s.len(),
            Err(_) => true,
        },
{
    lemma_find_char(s, i, ':');
    match find_char(s, i, ':') {
        Some(p) => {
            let buf = seq![first] + s.subrange(i, p);
            match parse_length(buf) {
                Ok(n) => {
                    lemma_digits_val_nonneg(buf);
                },
                Err(_) => {},
            }
        },
        None => {},
    }
}

/// A successful parse always moves forward and never leaves the input.
pub proof fn lemma_value_bounds(s: Seq<char>, i: int, fuel: nat)
    requires
        0 <= i <= s.len(),
    ensures
        match sp_value(s, i, fuel) {
            Some(Ok((v, j))) => i < j <= s.len(),
            _ => true,
        },
    decreases s.len() - i, 0nat,
{
    if fuel == 0 || i >= s.len() {
    } else if s[i] == 'd' {
        lemma_elems_bounds(s, i + 1, ErrorKind::UnterminatedDict, (fuel - 1) as nat);
    } else if s[i] == 'i' {
        lemma_integer_bounds(s, i + 1);
    } else if s[i] == 'l' {
        lemma_elems_bounds(s, i + 1, ErrorKind::UnterminatedList, (fuel - 1) as nat);
    } else if is_digit(s[i]) {
        lemma_string_bounds(s, i + 1, s[i]);
    }
}

/// As `lemma_value_bounds`, for element runs.
pub proof fn lemma_elems_bounds(s: Seq<char>, i: int, term_err: ErrorKind, fuel: nat)
    requires
        0 <= i <= s.len(),
    ensures
        match sp_elems(s, i, term_err, fuel) {
            Some(Ok((es, j))) => i < j <= s.len(),
            _ => true,
        },
    decreases s.len() - i, 1nat,
{
    if fuel == 0 || i >= s.len() || s[i] == 'e' {
    } else {
        lemma_value_bounds(s, i, fuel);
        match sp_value(s, i, fuel) {
            Some(Ok((v, j))) => {
                lemma_elems_bounds(s, j, term_err, (fuel - 1) as nat);
            },
            _ => {},
        }
    }
}

/// Fuel beyond the remaining input changes nothing: every such fuel gives
/// the canonical answer, and an answer there always is. This is what lets
/// `value_at` and `elems_at` drop the fuel argument.
pub proof fn lemma_value_fuel(s: Seq<char>, i: int, fuel: nat)
    requires
        0 <= i <= s.len(),
        fuel > s.len() - i,
    ensures
        sp_value(s, i, fuel) is Some,
        sp_value(s, i, fuel) == sp_value(s, i, enough_fuel(s, i)),
    decreases s.len() - i, 0nat,
{
    let ef = enough_fuel(s, i);
    if i >= s.len() {
    } else if s[i] == 'd' {
        lemma_elems_fuel(s, i + 1, ErrorKind::UnterminatedDict, (fuel - 1) as nat);
        lemma_elems_fuel(s, i + 1, ErrorKind::UnterminatedDict, (ef - 1) as nat);
    } else if s[i] == 'l' {
        lemma_elems_fuel(s, i + 1, ErrorKind::UnterminatedList, (fuel - 1) as nat);
        lemma_elems_fuel(s, i + 1, ErrorKind::UnterminatedList, (ef - 1) as nat);
    }
}

/// As `lemma_value_fuel`, for element runs.
pub proof fn lemma_elems_fuel(s: Seq<char>, i: int, term_err: ErrorKind, fuel: nat)
    requires
        0 <= i <= s.len(),
        fuel > s.len() - i,
    ensures
        sp_elems(s, i, term_err, fuel) is Some,
        sp_elems(s, i, term_err, fuel) == sp_elems(s, i, term_err, enough_fuel(s, i)),
    decreases s.len() - i, 1nat,
{
    let ef = enough_fuel(s, i);
    if i >= s.len() || s[i] == 'e' {
    } else {
        lemma_value_fuel(s, i, fuel);
        lemma_value_fuel(s, i, ef);
        lemma_value_bounds(s, i, ef);
        match sp_value(s, i, ef) {
            Some(Ok((v, j))) => {
                lemma_elems_fuel(s, j, term_err, (fuel - 1) as nat);
                lemma_elems_fuel(s, j, term_err, (ef - 1) as nat);
            },
            _ => {},
        }
    }
}

/// How one value unfolds at its dispatch character. The executable
/// dispatcher is proved against exactly these equations.
pub proof fn lemma_value_unfold(s: Seq<char>, i: int)
    requires
        0 <= i <= s.len(),
    ensures
        i == s.len() ==> value_at(s, i) == Err::<(BValue, int), ErrorKind>(
            ErrorKind::UnexpectedToken,
        ),
        i < s.len() && s[i] == 'd' ==> value_at(s, i) == dict_at(s, i + 1),
        i < s.len() && s[i] == 'i' ==> value_at(s, i) == integer_at(s, i + 1),
        i < s.len() && s[i] == 'l' ==> value_at(s, i) == list_at(s, i + 1),
        i < s.len() && is_digit(s[i]) ==> value_at(s, i) == string_at(s, i + 1, s[i]),
        i < s.len() && s[i] != 'd' && s[i] != 'i' && s[i] != 'l' && !is_digit(s[i])
            ==> value_at(s, i) == Err::<(BValue, int), ErrorKind>(ErrorKind::UnexpectedToken),
{
    if i < s.len() {
        if s[i] == 'd' {
            assert((enough_fuel(s, i) - 1) as nat == enough_fuel(s, i + 1));
            lemma_elems_fuel(s, i + 1, ErrorKind::UnterminatedDict, enough_fuel(s, i + 1));
        } else if s[i] == 'l' {
            assert((enough_fuel(s, i) - 1) as nat == enough_fuel(s, i + 1));
            lemma_elems_fuel(s, i + 1, ErrorKind::UnterminatedList, enough_fuel(s, i + 1));
        }
    }
}

/// How an element run unfolds at its first character. The executable
/// element loop is proved against exactly these equations.
pub proof fn lemma_elems_unfold(s: Seq<char>, i: int, term_err: ErrorKind)
    requires
        0 <= i <= s.len(),
    ensures
        i == s.len() ==> elems_at(s, i, term_err) == Err::<(Seq<BValue>, int), ErrorKind>(
            term_err,
        ),
        i < s.len() && s[i] == 'e' ==> elems_at(s, i, term_err) == Ok::<
            (Seq<BValue>, int),
            ErrorKind,
        >((Seq::empty(), i + 1)),
        i < s.len() && s[i] != 'e' ==> match value_at(s, i) {
            Err(e) => elems_at(s, i, term_err) == Err::<(Seq<BValue>, int), ErrorKind>(e),
            Ok((v, j)) => i < j <= s.len() && elems_at(s, i, term_err) == (match elems_at(
                s,
                j,
                term_err,
            ) {
                Ok((rest, k)) => Ok::<(Seq<BValue>, int), ErrorKind>((seq![v] + rest, k)),
                Err(e) => Err::<(Seq<BValue>, int), ErrorKind>(e),
            }),
        },
{
    let ef = enough_fuel(s, i);
    if i < s.len() && s[i] != 'e' {
        lemma_value_fuel(s, i, ef);
        lemma_value_bounds(s, i, ef);
        match sp_value(s, i, ef) {
            Some(Ok((v, j))) => {
                lemma_elems_fuel(s, j, term_err, (ef - 1) as nat);
            },
            _ => {},
        }
    }
}

/// The whole decode: two characters at least, then one value from the
/// front; whatever follows that value is ignored.
pub open spec fn spec_decode(s: Seq<char>) -> Result<BValue, ErrorKind> {
    if s.len() < 2 {
        Err(ErrorKind::InputTooShort)
    } else {
        match value_at(s, 0) {
            Ok((v, j)) => Ok(v),
            Err(e) => Err(e),
        }
    }
}

} // verus!
