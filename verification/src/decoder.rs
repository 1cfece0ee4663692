//! The executable decoder, proved against the grammar model in `model`.

use vstd::pervasive::VecAdditionalExecFns;
use vstd::prelude::*;
use vstd::string::StrSliceExecFns;

use crate::cursor::Cursor;
use crate::model::all_digits;
use crate::model::dict_at;
use crate::model::dict_pairs;
use crate::model::digit_val;
use crate::model::digits_val;
use crate::model::elems_at;
use crate::model::enough_fuel;
use crate::model::find_char;
use crate::model::integer_at;
use crate::model::is_digit;
use crate::model::lemma_digits_val_prefix;
use crate::model::lemma_elems_unfold;
use crate::model::lemma_value_bounds;
use crate::model::lemma_value_unfold;
use crate::model::list_at;
use crate::model::parse_integer;
use crate::model::parse_length;
use crate::model::spec_decode;
use crate::model::string_at;
use crate::model::value_at;
use crate::value::BType;
use crate::value::BValue;
use crate::value::ErrorKind;
use crate::value::dict_insert;
use crate::value::lemma_dict_insert_absent;
use crate::value::lemma_dict_insert_present;

verus! {

/// The views of a run of decoded values, element by element.
pub open spec fn views_of(ts: Seq<BType>) -> Seq<BValue> {
    Seq::new(ts.len(), |k: int| ts[k]@)
}

/// The views of decoded key/value pairs, pair by pair.
pub open spec fn pair_views(ps: Seq<(String, BType)>) -> Seq<(Seq<char>, BValue)> {
    Seq::new(ps.len(), |k: int| (ps[k].0@, ps[k].1@))
}

/// Whether an executable decode outcome, together with the position the
/// cursor ends at, is the one the model names.
pub open spec fn reflects(
    pr: Result<(BValue, int), ErrorKind>,
    r: Result<BType, ErrorKind>,
    endpos: int,
) -> bool {
    match (pr, r) {
        (Ok((bv, j)), Ok(t)) => t@ == bv && endpos == j,
        (Err(e1), Err(e2)) => e1 == e2,
        _ => false,
    }
}

/// Relies on String::push: appends exactly the one character.
#[verifier::external_body]
fn push_char(out: &mut String, c: char)
    ensures
        final(out)@ == old(out)@.push(c),
{
    out.push(c);
}

/// The input, one character at a time.
fn collect_chars(s: &str) -> (v: Vec<char>)
    ensures
        v@ == s@,
{
    let n = s.unicode_len();
    let mut v: Vec<char> = Vec::new();
    let mut k: usize = 0;
    while k < n
        invariant
            n == s@.len(),
            k <= n,
            v@ == s@.take(k as int),
        decreases n - k,
    {
        let c = s.get_char(k);
        v.push(c);
        proof {
            assert(v@ =~= s@.take(k as int + 1));
        }
        k = k + 1;
    }
    proof {
        assert(s@.take(n as int) =~= s@);
    }
    v
}

/// Consume characters up to and including the first `stop`; everything
/// before it goes onto `buf`. Reports whether `stop` was found; if it was
/// not, the whole rest of the input is on `buf`.
fn scan_until(cursor: &mut Cursor, stop: char, buf: &mut Vec<char>) -> (found: bool)
    requires
        old(cursor).wf(),
    ensures
        final(cursor).wf(),
        final(cursor).text() == old(cursor).text(),
        match find_char(old(cursor).text(), old(cursor).at(), stop) {
            Some(p) => found && final(cursor).at() == p + 1 && final(buf)@ == old(buf)@ + old(
                cursor,
            ).text().subrange(old(cursor).at(), p),
            None => !found && final(cursor).at() == old(cursor).text().len() && final(buf)@ == old(
                buf,
            )@ + old(cursor).text().subrange(
                old(cursor).at(),
                old(cursor).text().len() as int,
            ),
        },
    decreases old(cursor).text().len() - old(cursor).at(),
{
    let ghost s = old(cursor).text();
    let ghost i = old(cursor).at();
    let next = cursor.advance();
    match next {
        None => {
            proof {
                assert(old(buf)@ + s.subrange(i, s.len() as int) =~= old(buf)@);
            }
            false
        },
        Some(c) => {
            if c == stop {
                proof {
                    assert(old(buf)@ + s.subrange(i, i) =~= old(buf)@);
                }
                true
            } else {
                buf.push(c);
                let ghost buf1 = buf@;
                let found = scan_until(cursor, stop, buf);
                proof {
                    assert(buf1 == old(buf)@.push(c));
                    crate::model::lemma_find_char(s, i + 1, stop);
                    match find_char(s, i + 1, stop) {
                        Some(p) => {
                            assert(old(buf)@.push(c) + s.subrange(i + 1, p) =~= old(buf)@
                                + s.subrange(i, p));
                        },
                        None => {
                            assert(old(buf)@.push(c) + s.subrange(i + 1, s.len() as int) =~= old(
                                buf,
                            )@ + s.subrange(i, s.len() as int));
                        },
                    }
                }
                found
            }
        },
    }
}

/// Consume the next `n` characters onto `out` — or as many as the input
/// still has, when it is shorter.
fn take_chars(cursor: &mut Cursor, n: usize, out: &mut String)
    requires
        old(cursor).wf(),
    ensures
        final(cursor).wf(),
        final(cursor).text() == old(cursor).text(),
        ({
            let s = old(cursor).text();
            let start = old(cursor).at();
            let end = if start + n <= s.len() {
                start + n
            } else {
                s.len() as int
            };
            final(cursor).at() == end && final(out)@ == old(out)@ + s.subrange(start, end)
        }),
    decreases n,
{
    let ghost s = old(cursor).text();
    let ghost start = old(cursor).at();
    if n == 0 {
        proof {
            assert(old(out)@ + s.subrange(start, start) =~= old(out)@);
        }
        return ;
    }
    let next = cursor.advance();
    match next {
        None => {
            proof {
                assert(old(out)@ + s.subrange(start, start) =~= old(out)@);
            }
        },
        Some(c) => {
            push_char(out, c);
            let ghost out1 = out@;
            take_chars(cursor, n - 1, out);
            proof {
                let end = if start + n <= s.len() {
                    start + n
                } else {
                    s.len() as int
                };
                assert(out1 == old(out)@.push(c));
                assert(old(out)@.push(c) + s.subrange(start + 1, end) =~= old(out)@ + s.subrange(
                    start,
                    end,
                ));
            }
        },
    }
}

/// The integer buffer between `i` and `e`, read as a signed 64-bit number
/// exactly as `parse_integer` describes: an optional `-`, then digits,
/// rejected on anything else or on 64-bit overflow.
fn parse_i64(buf: &Vec<char>) -> (r: Result<i64, ErrorKind>)
    ensures
        match parse_integer(buf@) {
            Ok(n) => r matches Ok(v) && v as int == n,
            Err(e) => r == Err::<i64, ErrorKind>(e),
        },
{
    let neg = buf.len() > 0 && buf[0] == '-';
    let start: usize = if neg {
        1
    } else {
        0
    };
    let ghost digits = if neg {
        buf@.skip(1)
    } else {
        buf@
    };
    if buf.len() <= start {
        return Err(ErrorKind::IntegerParseError);
    }
    let limit: u64 = if neg {
        9223372036854775808
    } else {
        9223372036854775807
    };
    let mut acc: u64 = 0;
    let mut k: usize = start;
    while k < buf.len()
        invariant
            start <= k <= buf.len(),
            neg == (buf@.len() > 0 && buf@[0] == '-'),
            start == (if neg {
                1int
            } else {
                0int
            }),
            digits == (if neg {
                buf@.skip(1)
            } else {
                buf@
            }),
            digits.len() == buf.len() - start,
            forall|m: int| 0 <= m < digits.len() ==> digits[m] == buf@[m + start],
            limit == (if neg {
                9223372036854775808u64
            } else {
                9223372036854775807u64
            }),
            all_digits(digits.take(k - start)),
            acc == digits_val(digits.take(k - start)),
            acc <= limit,
        decreases buf.len() - k,
    {
        let c = buf[k];
        let ghost m = k - start;
        proof {
            assert(digits[m] == c);
        }
        if !(c >= '0' && c <= '9') {
            proof {
                assert(!is_digit(digits[m]));
                assert(!all_digits(digits));
            }
            return Err(ErrorKind::IntegerParseError);
        }
        let d: u64 = (c as u64) - 48;
        proof {
            assert(d == digit_val(c));
            assert(digits.take(m + 1).drop_last() =~= digits.take(m));
            assert(digits.take(m + 1).last() == c);
            assert(digits_val(digits.take(m + 1)) == acc * 10 + d);
            let x = (limit - d) as int;
            vstd::arithmetic::div_mod::lemma_fundamental_div_mod(x, 10);
        }
        if acc > (limit - d) / 10 {
            proof {
                assert(acc * 10 + d > limit);
                if all_digits(digits) {
                    lemma_digits_val_prefix(digits, m + 1);
                    assert(digits_val(digits) > limit);
                }
            }
            return Err(ErrorKind::IntegerParseError);
        }
        proof {
            assert(acc * 10 + d <= limit);
            assert(all_digits(digits.take(m + 1)));
        }
        acc = acc * 10 + d;
        k = k + 1;
    }
    proof {
        assert(digits.take(digits.len() as int) =~= digits);
    }
    if neg {
        if acc == 9223372036854775808 {
            Ok(i64::MIN)
        } else {
            Ok(-(acc as i64))
        }
    } else {
        Ok(acc as i64)
    }
}

/// A string's length prefix, read as an unsigned machine-sized number
/// exactly as `parse_length` describes: digits only, rejected on anything
/// else or on overflow.
fn parse_len(buf: &Vec<char>) -> (r: Result<usize, ErrorKind>)
    ensures
        match parse_length(buf@) {
            Ok(n) => r matches Ok(v) && v as int == n,
            Err(e) => r == Err::<usize, ErrorKind>(e),
        },
{
    if buf.len() == 0 {
        return Err(ErrorKind::StringLengthParseError);
    }
    let limit: usize = usize::MAX;
    let mut acc: usize = 0;
    let mut k: usize = 0;
    while k < buf.len()
        invariant
            k <= buf.len(),
            limit == usize::MAX,
            all_digits(buf@.take(k as int)),
            acc == digits_val(buf@.take(k as int)),
            acc <= limit,
        decreases buf.len() - k,
    {
        let c = buf[k];
        let ghost m = k as int;
        if !(c >= '0' && c <= '9') {
            proof {
                assert(!is_digit(buf@[m]));
            }
            return Err(ErrorKind::StringLengthParseError);
        }
        let d: usize = (c as usize) - 48;
        proof {
            assert(d == digit_val(c));
            assert(buf@.take(m + 1).drop_last() =~= buf@.take(m));
            assert(buf@.take(m + 1).last() == c);
            assert(digits_val(buf@.take(m + 1)) == acc * 10 + d);
            let x = (limit - d) as int;
            vstd::arithmetic::div_mod::lemma_fundamental_div_mod(x, 10);
        }
        if acc > (limit - d) / 10 {
            proof {
                assert(acc * 10 + d > limit);
                if all_digits(buf@) {
                    lemma_digits_val_prefix(buf@, m + 1);
                    assert(digits_val(buf@) > limit);
                }
            }
            return Err(ErrorKind::StringLengthParseError);
        }
        proof {
            assert(acc * 10 + d <= limit);
            assert(all_digits(buf@.take(m + 1)));
        }
        acc = acc * 10 + d;
        k = k + 1;
    }
    proof {
        assert(buf@.take(buf@.len() as int) =~= buf@);
    }
    Ok(acc)
}

/// Put one pair into the dict under construction, replacing the value in
/// place when the key is already there — exactly `dict_insert` on the
/// models.
fn dict_insert_exec(acc: &mut Vec<(String, BType)>, key: String, val: BType)
    ensures
        pair_views(final(acc)@) == dict_insert(pair_views(old(acc)@), key@, val@),
{
    let mut j: usize = 0;
    while j < acc.len()
        invariant
            j <= acc.len(),
            acc@ == old(acc)@,
            forall|m: int| 0 <= m < j ==> acc@[m].0@ != key@,
        decreases acc.len() - j,
    {
        if acc[j].0 == key {
            let ghost oldacc = acc@;
            acc.set(j, (key, val));
            proof {
                lemma_dict_insert_present(pair_views(oldacc), key@, val@, j as int);
                assert(pair_views(acc@) =~= pair_views(oldacc).update(j as int, (key@, val@)));
            }
            return ;
        }
        j = j + 1;
    }
    let ghost oldacc = acc@;
    acc.push((key, val));
    proof {
        assert(!crate::value::dict_has_key(pair_views(oldacc), key@));
        lemma_dict_insert_absent(pair_views(oldacc), key@, val@);
        assert(pair_views(acc@) =~= pair_views(oldacc).push((key@, val@)));
    }
}

/// The error a container's element run reports when the input runs dry.
pub open spec fn elem_term(in_dict: bool) -> ErrorKind {
    if in_dict {
        ErrorKind::UnterminatedDict
    } else {
        ErrorKind::UnterminatedList
    }
}

/// The position a dispatched call is logically at: the dispatch character,
/// which the caller has already consumed and passes along — or the end of
/// the input, when there was none to consume.
pub open spec fn entry_pos(c: Cursor, current: Option<char>) -> int {
    if current is Some {
        c.at() - 1
    } else {
        c.at()
    }
}

/// The decoder. It holds no state of its own: every decode is one pass
/// over one input.
pub struct BEncoder;

impl BEncoder {
    /// Decode one value from the front of the input. The result — the
    /// value or the exact error — is `spec_decode` of the input's
    /// characters, so it is a function of the input alone: total,
    /// deterministic, and free of panics, as the verifier has checked.
    pub fn decode(input: String) -> (r: Result<BType, ErrorKind>)
        ensures
            match spec_decode(input@) {
                Ok(bv) => r matches Ok(t) && t@ == bv,
                Err(e) => r == Err::<BType, ErrorKind>(e),
            },
    {
        let chars = collect_chars(input.as_str());
        if chars.len() < 2 {
            return Err(ErrorKind::InputTooShort);
        }
        let mut cursor = Cursor::new(chars);
        let next = cursor.advance();
        BEncoder::detect_and_decode(&mut cursor, next)
    }

    /// Dispatch on the character the caller just consumed: `d` opens a
    /// dict, `i` an integer, `l` a list, a digit a string; anything else —
    /// or a consumed end of input — is `UnexpectedToken`.
    pub fn detect_and_decode(cursor: &mut Cursor, current: Option<char>) -> (r: Result<
        BType,
        ErrorKind,
    >)
        requires
            old(cursor).wf(),
            match current {
                Some(c) => old(cursor).at() >= 1 && c == old(cursor).text()[old(cursor).at() - 1],
                None => old(cursor).at() == old(cursor).text().len(),
            },
        ensures
            final(cursor).wf(),
            final(cursor).text() == old(cursor).text(),
            reflects(
                value_at(old(cursor).text(), entry_pos(*old(cursor), current)),
                r,
                final(cursor).at(),
            ),
            r is Ok ==> final(cursor).at() > entry_pos(*old(cursor), current),
        decreases old(cursor).text().len() - entry_pos(*old(cursor), current), 0int,
    {
        let ghost s = old(cursor).text();
        let ghost i = entry_pos(*old(cursor), current);
        proof {
            lemma_value_unfold(s, i);
            lemma_value_bounds(s, i, enough_fuel(s, i));
        }
        match current {
            None => Err(ErrorKind::UnexpectedToken),
            Some(c) => {
                if c == 'd' {
                    BEncoder::decode_dict(cursor)
                } else if c == 'i' {
                    BEncoder::decode_integer(cursor)
                } else if c == 'l' {
                    BEncoder::decode_list(cursor)
                } else if c >= '0' && c <= '9' {
                    BEncoder::decode_string(c, cursor)
                } else {
                    Err(ErrorKind::UnexpectedToken)
                }
            },
        }
    }

    /// An integer: everything up to the closing `e` is the buffer, read by
    /// `parse_i64`. No `e` before the end of the input is
    /// `UnterminatedInteger`.
    pub fn decode_integer(cursor: &mut Cursor) -> (r: Result<BType, ErrorKind>)
        requires
            old(cursor).wf(),
        ensures
            final(cursor).wf(),
            final(cursor).text() == old(cursor).text(),
            reflects(integer_at(old(cursor).text(), old(cursor).at()), r, final(cursor).at()),
    {
        let ghost s = old(cursor).text();
        let ghost i = old(cursor).at();
        let mut buf: Vec<char> = Vec::new();
        let found = scan_until(cursor, 'e', &mut buf);
        proof {
            crate::model::lemma_find_char(s, i, 'e');
            if found {
                let p = find_char(s, i, 'e')->Some_0;
                assert(Seq::<char>::empty() + s.subrange(i, p) =~= s.subrange(i, p));
            }
        }
        if !found {
            return Err(ErrorKind::UnterminatedInteger);
        }
        match parse_i64(&buf) {
            Ok(n) => Ok(BType::Integer(n)),
            Err(e) => Err(e),
        }
    }

    /// A byte string: the rest of the length prefix up to the `:`, then
    /// that many characters — or as many as the input still has. The first
    /// prefix digit was consumed by the dispatcher and arrives as `first`.
    pub fn decode_string(first: char, cursor: &mut Cursor) -> (r: Result<BType, ErrorKind>)
        requires
            old(cursor).wf(),
        ensures
            final(cursor).wf(),
            final(cursor).text() == old(cursor).text(),
            reflects(
                string_at(old(cursor).text(), old(cursor).at(), first),
                r,
                final(cursor).at(),
            ),
    {
        let ghost s = old(cursor).text();
        let ghost i = old(cursor).at();
        let mut buf: Vec<char> = Vec::new();
        buf.push(first);
        let found = scan_until(cursor, ':', &mut buf);
        proof {
            crate::model::lemma_find_char(s, i, ':');
            if found {
                let p = find_char(s, i, ':')->Some_0;
                assert(seq![first] + s.subrange(i, p) =~= buf@);
            }
        }
        if !found {
            return Err(ErrorKind::StringLengthParseError);
        }
        match parse_len(&buf) {
            Err(e) => Err(e),
            Ok(n) => {
                let mut out = String::new();
                take_chars(cursor, n, &mut out);
                proof {
                    let p = find_char(s, i, ':')->Some_0;
                    let end = if p + 1 + n <= s.len() {
                        p + 1 + n
                    } else {
                        s.len() as int
                    };
                    assert(Seq::<char>::empty() + s.subrange(p + 1, end) =~= s.subrange(
                        p + 1,
                        end,
                    ));
                }
                Ok(BType::ByteString(out))
            },
        }
    }

    /// The elements of a container, one dispatched value after another,
    /// until the sentinel `e`; each lands on the end of `acc`. Exhausting
    /// the input first is the container's unterminated error.
    pub fn decode_elems(cursor: &mut Cursor, acc: &mut Vec<BType>, in_dict: bool) -> (r: Result<
        (),
        ErrorKind,
    >)
        requires
            old(cursor).wf(),
        ensures
            final(cursor).wf(),
            final(cursor).text() == old(cursor).text(),
            match elems_at(old(cursor).text(), old(cursor).at(), elem_term(in_dict)) {
                Ok((es, j)) => r is Ok && final(cursor).at() == j && final(acc)@.len() == old(
                    acc,
                )@.len() + es.len() && final(acc)@.subrange(0, old(acc)@.len() as int) == old(acc)@
                    && views_of(final(acc)@) == views_of(old(acc)@) + es,
                Err(e) => r == Err::<(), ErrorKind>(e),
            },
        decreases old(cursor).text().len() - old(cursor).at(), 1int,
    {
        let ghost s = old(cursor).text();
        let ghost i = old(cursor).at();
        proof {
            lemma_elems_unfold(s, i, elem_term(in_dict));
        }
        let next = cursor.advance();
        match next {
            None => {
                if in_dict {
                    Err(ErrorKind::UnterminatedDict)
                } else {
                    Err(ErrorKind::UnterminatedList)
                }
            },
            Some(c) => {
                if c == 'e' {
                    proof {
                        assert(final(acc)@.subrange(0, old(acc)@.len() as int) =~= old(acc)@);
                        assert(views_of(old(acc)@) + Seq::<BValue>::empty() =~= views_of(
                            old(acc)@,
                        ));
                    }
                    Ok(())
                } else {
                    match BEncoder::detect_and_decode(cursor, Some(c)) {
                        Err(e) => Err(e),
                        Ok(v) => {
                            let ghost acc0 = acc@;
                            let ghost j = cursor.at();
                            acc.push(v);
                            let r2 = BEncoder::decode_elems(cursor, acc, in_dict);
                            proof {
                                let acc1 = acc0.push(v);
                                match elems_at(s, j, elem_term(in_dict)) {
                                    Ok((rest, k)) => {
                                        assert(views_of(acc1) =~= views_of(acc0) + seq![v@]);
                                        assert((views_of(acc0) + seq![v@]) + rest =~= views_of(
                                            acc0,
                                        ) + (seq![v@] + rest));
                                        assert(final(acc)@.subrange(0, acc0.len() as int)
                                            =~= final(acc)@.subrange(
                                            0,
                                            acc1.len() as int,
                                        ).subrange(0, acc0.len() as int));
                                    },
                                    Err(_) => {},
                                }
                            }
                            r2
                        },
                    }
                }
            },
        }
    }

    /// A list: its elements in wire order, wrapped up when the `e`
    /// arrives.
    pub fn decode_list(cursor: &mut Cursor) -> (r: Result<BType, ErrorKind>)
        requires
            old(cursor).wf(),
        ensures
            final(cursor).wf(),
            final(cursor).text() == old(cursor).text(),
            reflects(list_at(old(cursor).text(), old(cursor).at()), r, final(cursor).at()),
        decreases old(cursor).text().len() - old(cursor).at(), 2int,
    {
        let mut acc: Vec<BType> = Vec::new();
        match BEncoder::decode_elems(cursor, &mut acc, false) {
            Err(e) => Err(e),
            Ok(_u) => {
                let ghost accv = acc@;
                let out = BType::List(acc);
                proof {
                    assert(views_of(Seq::<BType>::empty()) + views_of(accv) =~= views_of(accv));
                    crate::value::lemma_seq_view(accv);
                    assert(out@ is List);
                    assert(out@->List_0 =~= views_of(accv));
                }
                Ok(out)
            },
        }
    }

    /// A dict: elements collected exactly as a list's, then checked — an
    /// even count, every key a byte string — and paired off in wire order,
    /// a later pair for a key replacing an earlier one's value.
    pub fn decode_dict(cursor: &mut Cursor) -> (r: Result<BType, ErrorKind>)
        requires
            old(cursor).wf(),
        ensures
            final(cursor).wf(),
            final(cursor).text() == old(cursor).text(),
            reflects(dict_at(old(cursor).text(), old(cursor).at()), r, final(cursor).at()),
        decreases old(cursor).text().len() - old(cursor).at(), 2int,
    {
        let mut elements: Vec<BType> = Vec::new();
        match BEncoder::decode_elems(cursor, &mut elements, true) {
            Err(e) => {
                return Err(e);
            },
            Ok(_u) => {},
        }
        proof {
            assert(views_of(Seq::<BType>::empty()) + views_of(elements@) =~= views_of(elements@));
        }
        if elements.len() % 2 != 0 {
            return Err(ErrorKind::OddDictElements);
        }
        let ghost full = views_of(elements@);
        let mut acc: Vec<(String, BType)> = Vec::new();
        proof {
            assert(pair_views(acc@) =~= Seq::<(Seq<char>, BValue)>::empty());
        }
        #[verifier::loop_isolation(false)]
        while elements.len() > 0
            invariant
                elements@.len() % 2 == 0,
                dict_pairs(full, Seq::empty()) == dict_pairs(views_of(elements@), pair_views(acc@)),
            decreases elements@.len(),
        {
            let ghost before = elements@;
            let ghost accv = pair_views(acc@);
            let key_elem = elements.remove(0);
            let val_elem = elements.remove(0);
            proof {
                assert(before[0] == key_elem && before[1] == val_elem);
                assert(views_of(before).skip(2) =~= views_of(elements@));
                assert(views_of(before)[0] == key_elem@ && views_of(before)[1] == val_elem@);
            }
            match key_elem {
                BType::ByteString(kstr) => {
                    let ghost kv = kstr@;
                    let ghost vv = val_elem@;
                    dict_insert_exec(&mut acc, kstr, val_elem);
                    proof {
                        assert(dict_pairs(views_of(before), accv) == dict_pairs(
                            views_of(elements@),
                            dict_insert(accv, kv, vv),
                        ));
                    }
                },
                _ => {
                    return Err(ErrorKind::NonStringDictKey);
                },
            }
        }
        let ghost accv = acc@;
        let out = BType::Dict(acc);
        proof {
            crate::value::lemma_pairs_view(accv);
            assert(out@ is Dict);
            assert(out@->Dict_0 =~= pair_views(accv));
        }
        Ok(out)
    }
}

} // verus!
