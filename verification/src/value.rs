//! The decoded value type, its mathematical model, and the decode errors.

use vstd::prelude::*;

verus! {

/// Every way a decode can fail. Each variant is produced by exactly one
/// condition of the wire grammar; `BEncoder::decode`'s contract says which.
#[derive(Debug, Clone, Copy, PartialEq, Eq, Structural)]
pub enum ErrorKind {
    /// The input holds fewer than two characters.
    InputTooShort,
    /// A value was expected but the next character starts no value.
    UnexpectedToken,
    /// The input ended inside an integer, before its closing `e`.
    UnterminatedInteger,
    /// The characters between `i` and `e` are not a signed 64-bit integer.
    IntegerParseError,
    /// A string's length prefix is not a number that fits the machine,
    /// or the input ended before the `:` that closes the prefix.
    StringLengthParseError,
    /// The input ended inside a list, before its closing `e`.
    UnterminatedList,
    /// The input ended inside a dict, before its closing `e`.
    UnterminatedDict,
    /// A dict closed with an odd number of elements.
    OddDictElements,
    /// A dict element in key position is not a byte string.
    NonStringDictKey,
}

/// A decoded value: a tagged tree.
///
/// A dict is held as its key/value pairs with every key distinct, in the
/// order each key first appeared on the wire; when the wire repeats a key,
/// the later value replaces the earlier one in place.
#[derive(Debug, PartialEq, Eq)]
pub enum BType {
    ByteString(String),
    Integer(i64),
    List(Vec<BType>),
    Dict(Vec<(String, BType)>),
}

/// The mathematical shadow of [`BType`]: text as `Seq<char>`, numbers as
/// `int`, containers as `Seq`. Contracts and the grammar model speak of this
/// type, never of the executable one.
pub enum BValue {
    ByteString(Seq<char>),
    Integer(int),
    List(Seq<BValue>),
    Dict(Seq<(Seq<char>, BValue)>),
}

impl View for BType {
    type V = BValue;

    open spec fn view(&self) -> BValue
        decreases self,
    {
        match self {
            BType::ByteString(s) => BValue::ByteString(s@),
            BType::Integer(n) => BValue::Integer(*n as int),
            BType::List(items) => BValue::List(seq_view(items@)),
            BType::Dict(pairs) => BValue::Dict(pairs_view(pairs@)),
        }
    }
}

/// The views of a run of decoded values, element by element.
pub open spec fn seq_view(ts: Seq<BType>) -> Seq<BValue>
    decreases ts,
{
    if ts.len() == 0 {
        Seq::empty()
    } else {
        seq![ts[0]@] + seq_view(ts.drop_first())
    }
}

/// The views of decoded key/value pairs, pair by pair.
pub open spec fn pairs_view(ps: Seq<(String, BType)>) -> Seq<(Seq<char>, BValue)>
    decreases ps,
{
    if ps.len() == 0 {
        Seq::empty()
    } else {
        seq![(ps[0].0@, ps[0].1@)] + pairs_view(ps.drop_first())
    }
}

/// What `seq_view` holds: one view per element, in place.
pub proof fn lemma_seq_view(ts: Seq<BType>)
    ensures
        seq_view(ts).len() == ts.len(),
        forall|k: int| 0 <= k < ts.len() ==> seq_view(ts)[k] == #[trigger] ts[k]@,
    decreases ts.len(),
{
    if ts.len() > 0 {
        lemma_seq_view(ts.drop_first());
        assert(seq_view(ts) == seq![ts[0]@] + seq_view(ts.drop_first()));
        assert forall|k: int| 0 <= k < ts.len() implies seq_view(ts)[k] == #[trigger] ts[k]@ by {
            if k > 0 {
                assert(ts.drop_first()[k - 1] == ts[k]);
            }
        }
    }
}

/// What `pairs_view` holds: one view pair per pair, in place.
pub proof fn lemma_pairs_view(ps: Seq<(String, BType)>)
    ensures
        pairs_view(ps).len() == ps.len(),
        forall|k: int|
            0 <= k < ps.len() ==> pairs_view(ps)[k] == (#[trigger] ps[k].0@, ps[k].1@),
    decreases ps.len(),
{
    if ps.len() > 0 {
        lemma_pairs_view(ps.drop_first());
        assert(pairs_view(ps) == seq![(ps[0].0@, ps[0].1@)] + pairs_view(ps.drop_first()));
        assert forall|k: int|
            0 <= k < ps.len() implies pairs_view(ps)[k] == (#[trigger] ps[k].0@, ps[k].1@) by {
            if k > 0 {
                assert(ps.drop_first()[k - 1] == ps[k]);
            }
        }
    }
}

/// Insertion into a dict model: if the key is present, its value is replaced
/// in place; otherwise the pair goes to the end. This is what each wire pair
/// does to the dict under construction, so a repeated key keeps its first
/// position and its latest value.
pub open spec fn dict_insert(
    pairs: Seq<(Seq<char>, BValue)>,
    key: Seq<char>,
    val: BValue,
) -> Seq<(Seq<char>, BValue)>
    decreases pairs.len(),
{
    if pairs.len() == 0 {
        seq![(key, val)]
    } else if pairs[0].0 == key {
        seq![(key, val)] + pairs.skip(1)
    } else {
        seq![pairs[0]] + dict_insert(pairs.skip(1), key, val)
    }
}

/// Whether a dict model holds a pair for `key`.
pub open spec fn dict_has_key(pairs: Seq<(Seq<char>, BValue)>, key: Seq<char>) -> bool {
    exists|k: int| 0 <= k < pairs.len() && pairs[k].0 == key
}

/// When the key is absent, insertion is exactly a push.
pub proof fn lemma_dict_insert_absent(
    pairs: Seq<(Seq<char>, BValue)>,
    key: Seq<char>,
    val: BValue,
)
    requires
        !dict_has_key(pairs, key),
    ensures
        dict_insert(pairs, key, val) =~= pairs.push((key, val)),
    decreases pairs.len(),
{
    if pairs.len() > 0 {
        assert(pairs[0].0 != key);
        assert(!dict_has_key(pairs.skip(1), key)) by {
            assert(forall|k: int|
                0 <= k < pairs.skip(1).len() ==> pairs.skip(1)[k] == pairs[k + 1]);
        }
        lemma_dict_insert_absent(pairs.skip(1), key, val);
    }
}

/// When the key sits at position `j` (and nowhere earlier), insertion is
/// exactly an update of that position.
pub proof fn lemma_dict_insert_present(
    pairs: Seq<(Seq<char>, BValue)>,
    key: Seq<char>,
    val: BValue,
    j: int,
)
    requires
        0 <= j < pairs.len(),
        pairs[j].0 == key,
        forall|k: int| 0 <= k < j ==> pairs[k].0 != key,
    ensures
        dict_insert(pairs, key, val) =~= pairs.update(j, (key, val)),
    decreases pairs.len(),
{
    if j == 0 {
        assert(pairs[0].0 == key);
    } else {
        assert(pairs[0].0 != key);
        assert(pairs.skip(1)[j - 1] == pairs[j]);
        assert(forall|k: int| 0 <= k < j - 1 ==> pairs.skip(1)[k] == pairs[k + 1]);
        lemma_dict_insert_present(pairs.skip(1), key, val, j - 1);
    }
}

} // verus!
