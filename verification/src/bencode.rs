//! Bencode: the value model, its canonical encoding, and a decoder over raw bytes.
use crate::canonical::{
    canonical, lemma_canonical_item, lemma_insert_sorted, lemma_parse_canonical, sorted,
};
use vstd::prelude::*;
use vstd::string::StringSliceAdditionalSpecFns;

verus! {

/// Mathematical model of a bencoded value. A dictionary is the sequence of its
/// entries in the order in which they are written out.
pub enum Value {
    Integer(int),
    Bytes(Seq<u8>),
    List(Seq<Value>),
    Dict(Seq<Entry>),
}

/// One dictionary entry of the model.
pub struct Entry {
    pub key: Seq<u8>,
    pub value: Value,
}

/// A bencoded value as held in memory.
#[derive(Debug)]
pub enum BencodeValue {
    Integer(i64),
    ByteString(Vec<u8>),
    List(Vec<BencodeValue>),
    Dictionary(Vec<DictEntry>),
}

/// One dictionary entry: a byte-string key and its value.
#[derive(Debug)]
pub struct DictEntry {
    pub key: Vec<u8>,
    pub value: BencodeValue,
}

/// Failure to decode, with the offset of the byte at which decoding stopped.
#[derive(Debug, Clone, Copy, PartialEq, Eq, Structural)]
pub struct DecodeError {
    pub offset: usize,
}

impl View for BencodeValue {
    type V = Value;

    open spec fn view(&self) -> Value
        decreases self,
    {
        match self {
            BencodeValue::Integer(i) => Value::Integer(*i as int),
            BencodeValue::ByteString(b) => Value::Bytes(b@),
            BencodeValue::List(items) => Value::List(
                Seq::new(
                    items@.len(),
                    |i: int|
                        if 0 <= i < items@.len() {
                            items@[i].view()
                        } else {
                            Value::Integer(0)
                        },
                ),
            ),
            BencodeValue::Dictionary(entries) => Value::Dict(
                Seq::new(
                    entries@.len(),
                    |i: int|
                        if 0 <= i < entries@.len() {
                            Entry { key: entries@[i].key@, value: entries@[i].value.view() }
                        } else {
                            Entry { key: Seq::empty(), value: Value::Integer(0) }
                        },
                ),
            ),
        }
    }
}

/// The models of a sequence of values, item by item.
pub open spec fn items_model(items: Seq<BencodeValue>) -> Seq<Value> {
    Seq::new(items.len(), |i: int| items[i]@)
}

/// The models of a sequence of dictionary entries, entry by entry.
pub open spec fn entries_model(entries: Seq<DictEntry>) -> Seq<Entry> {
    Seq::new(entries.len(), |i: int| Entry { key: entries[i].key@, value: entries[i].value@ })
}

/// The model of a list is the list of its items' models.
pub proof fn lemma_list_view(items: Vec<BencodeValue>)
    ensures
        BencodeValue::List(items)@ == Value::List(items_model(items@)),
{
    let a = BencodeValue::List(items)@->List_0;
    assert(a =~= items_model(items@));
}

/// The model of a dictionary is the sequence of its entries' models.
pub proof fn lemma_dictionary_view(entries: Vec<DictEntry>)
    ensures
        BencodeValue::Dictionary(entries)@ == Value::Dict(entries_model(entries@)),
{
    let a = BencodeValue::Dictionary(entries)@->Dict_0;
    assert(a =~= entries_model(entries@));
}

// ---------------------------------------------------------------------------
// Decimal text
// ---------------------------------------------------------------------------

pub open spec fn is_digit(b: u8) -> bool {
    48 <= b <= 57
}

/// The first position at or after `from` that holds no decimal digit.
pub open spec fn digits_end(s: Seq<u8>, from: int) -> int
    decreases s.len() - from,
{
    if 0 <= from < s.len() && is_digit(s[from]) {
        digits_end(s, from + 1)
    } else {
        from
    }
}

/// The number that a run of decimal digits denotes.
pub open spec fn digits_value(s: Seq<u8>) -> nat
    decreases s.len(),
{
    if s.len() == 0 {
        0
    } else {
        digits_value(s.drop_last()) * 10 + (s.last() - 48) as nat
    }
}

/// The decimal digits of a natural number, without leading zeros.
pub open spec fn nat_text(n: nat) -> Seq<u8>
    decreases n,
{
    if n < 10 {
        seq![(48 + n) as u8]
    } else {
        nat_text(n / 10).push((48 + n % 10) as u8)
    }
}

/// The decimal text of an integer: a minus sign for a negative one, then its digits.
pub open spec fn int_text(i: int) -> Seq<u8> {
    if i < 0 {
        seq![45u8] + nat_text((-i) as nat)
    } else {
        nat_text(i as nat)
    }
}

/// The number that the first digits of a run denote is not above the number
/// that the whole run denotes.
pub proof fn lemma_digits_prefix_le(s: Seq<u8>, k: int)
    requires
        0 <= k <= s.len(),
        forall|i: int| 0 <= i < s.len() ==> is_digit(#[trigger] s[i]),
    ensures
        digits_value(s.take(k)) <= digits_value(s),
    decreases s.len(),
{
    if k == s.len() {
        assert(s.take(k) =~= s);
    } else {
        let t = s.drop_last();
        lemma_digits_prefix_le(t, k);
        assert(t.take(k) =~= s.take(k));
    }
}

/// Reads forward over decimal digits.
pub fn scan_digits(raw: &[u8], start: usize) -> (end: usize)
    requires
        start <= raw@.len(),
    ensures
        end == digits_end(raw@, start as int),
        start <= end <= raw@.len(),
        forall|i: int| start <= i < end ==> is_digit(#[trigger] raw@[i]),
        end < raw@.len() ==> !is_digit(raw@[end as int]),
{
    let mut i: usize = start;
    while i < raw.len() && raw[i] >= 48 && raw[i] <= 57
        invariant
            start <= i <= raw@.len(),
            digits_end(raw@, start as int) == digits_end(raw@, i as int),
            forall|j: int| start <= j < i ==> is_digit(#[trigger] raw@[j]),
        decreases raw@.len() - i,
    {
        i = i + 1;
    }
    i
}

/// The number written in `raw[start..end]`, unless it is above `limit`.
pub fn digits_to_number(raw: &[u8], start: usize, end: usize, limit: u64) -> (r: Option<u64>)
    requires
        start <= end <= raw@.len(),
        forall|i: int| start <= i < end ==> is_digit(#[trigger] raw@[i]),
    ensures
        match r {
            Some(v) => v == digits_value(raw@.subrange(start as int, end as int)) && v <= limit,
            None => digits_value(raw@.subrange(start as int, end as int)) > limit,
        },
{
    let mut acc: u64 = 0;
    let mut i: usize = start;
    while i < end
        invariant
            start <= i <= end <= raw@.len(),
            forall|j: int| start <= j < end ==> is_digit(#[trigger] raw@[j]),
            acc == digits_value(raw@.subrange(start as int, i as int)),
            acc <= limit,
        decreases end - i,
    {
        let d: u8 = raw[i] - 48;
        let next: u128 = acc as u128 * 10 + d as u128;
        proof {
            let whole = raw@.subrange(start as int, end as int);
            let upto = raw@.subrange(start as int, i + 1);
            assert(upto.drop_last() =~= raw@.subrange(start as int, i as int));
            assert(upto.last() == raw@[i as int]);
            assert(digits_value(upto) == next);
            assert(whole.take(i + 1 - start) =~= upto);
            lemma_digits_prefix_le(whole, i + 1 - start);
        }
        if next > limit as u128 {
            return None;
        }
        acc = next as u64;
        i = i + 1;
    }
    Some(acc)
}

// ---------------------------------------------------------------------------
// Key order and dictionaries
// ---------------------------------------------------------------------------

/// Whether `a` comes before `b` in byte order, given that they agree before `from`.
pub open spec fn bytes_lt_from(a: Seq<u8>, b: Seq<u8>, from: int) -> bool
    decreases a.len() - from,
{
    if from < 0 || from >= b.len() {
        false
    } else if from >= a.len() {
        true
    } else if a[from] != b[from] {
        a[from] < b[from]
    } else {
        bytes_lt_from(a, b, from + 1)
    }
}

/// Lexicographic byte order on keys.
pub open spec fn bytes_lt(a: Seq<u8>, b: Seq<u8>) -> bool {
    bytes_lt_from(a, b, 0)
}

/// The first position at or after `from` whose key is not below `key`.
pub open spec fn slot_from(d: Seq<Entry>, key: Seq<u8>, from: int) -> int
    decreases d.len() - from,
{
    if 0 <= from < d.len() && bytes_lt(d[from].key, key) {
        slot_from(d, key, from + 1)
    } else {
        from
    }
}

/// The dictionary after `key` has been set to `value`: an entry with that key is
/// replaced, otherwise the new entry goes in front of the first larger key.
pub open spec fn dict_insert(d: Seq<Entry>, key: Seq<u8>, value: Value) -> Seq<Entry> {
    let i = slot_from(d, key, 0);
    if 0 <= i < d.len() && !bytes_lt(key, d[i].key) {
        d.update(i, Entry { key, value })
    } else {
        d.insert(i, Entry { key, value })
    }
}

/// Whether two byte strings hold the same bytes.
pub fn bytes_equal(a: &[u8], b: &[u8]) -> (r: bool)
    ensures
        r == (a@ == b@),
{
    if a.len() != b.len() {
        return false;
    }
    let mut i: usize = 0;
    while i < a.len()
        invariant
            i <= a@.len(),
            a@.len() == b@.len(),
            forall|j: int| 0 <= j < i ==> a@[j] == b@[j],
        decreases a@.len() - i,
    {
        if a[i] != b[i] {
            return false;
        }
        i = i + 1;
    }
    assert(a@ =~= b@);
    true
}

/// Whether `a` comes before `b` in byte order.
pub fn bytes_less(a: &[u8], b: &[u8]) -> (r: bool)
    ensures
        r == bytes_lt(a@, b@),
{
    let mut i: usize = 0;
    while i < a.len() && i < b.len() && a[i] == b[i]
        invariant
            i <= a@.len(),
            i <= b@.len(),
            bytes_lt(a@, b@) == bytes_lt_from(a@, b@, i as int),
        decreases a@.len() - i,
    {
        i = i + 1;
    }
    if i >= b.len() {
        false
    } else if i >= a.len() {
        true
    } else {
        a[i] < b[i]
    }
}

/// Sets `key` to `value` in a dictionary's entries, keeping them in key order.
pub fn insert_entry(entries: &mut Vec<DictEntry>, key: Vec<u8>, value: BencodeValue)
    ensures
        entries_model(final(entries)@) == dict_insert(entries_model(old(entries)@), key@, value@),
        sorted(entries_model(old(entries)@)) ==> sorted(entries_model(final(entries)@)),
{
    let ghost before = entries_model(entries@);
    proof {
        if sorted(before) {
            lemma_insert_sorted(before, key@, value@);
        }
    }
    let ghost k = key@;
    let ghost v = value@;
    let mut i: usize = 0;
    while i < entries.len() && bytes_less(entries[i].key.as_slice(), key.as_slice())
        invariant
            i <= entries@.len(),
            before == entries_model(entries@),
            k == key@,
            slot_from(before, k, 0) == slot_from(before, k, i as int),
        decreases entries@.len() - i,
    {
        i = i + 1;
    }
    if i < entries.len() && !bytes_less(key.as_slice(), entries[i].key.as_slice()) {
        entries.set(i, DictEntry { key, value });
        assert(entries_model(entries@) =~= before.update(i as int, Entry { key: k, value: v }));
    } else {
        entries.insert(i, DictEntry { key, value });
        assert(entries_model(entries@) =~= before.insert(i as int, Entry { key: k, value: v }));
    }
}

/// The value of the first entry at or after `from` whose key is `key`.
pub open spec fn lookup_from(d: Seq<Entry>, key: Seq<u8>, from: int) -> Option<Value>
    decreases d.len() - from,
{
    if from < 0 || from >= d.len() {
        None
    } else if d[from].key == key {
        Some(d[from].value)
    } else {
        lookup_from(d, key, from + 1)
    }
}

/// The value that a dictionary holds for `key`.
pub open spec fn lookup(d: Seq<Entry>, key: Seq<u8>) -> Option<Value> {
    lookup_from(d, key, 0)
}

/// The value that a dictionary's entries hold for `key`.
pub fn dict_get<'a>(entries: &'a Vec<DictEntry>, key: &[u8]) -> (r: Option<&'a BencodeValue>)
    ensures
        match r {
            Some(v) => lookup(entries_model(entries@), key@) == Some(v@),
            None => lookup(entries_model(entries@), key@) is None,
        },
{
    let mut i: usize = 0;
    while i < entries.len()
        invariant
            i <= entries@.len(),
            lookup(entries_model(entries@), key@) == lookup_from(
                entries_model(entries@),
                key@,
                i as int,
            ),
        decreases entries@.len() - i,
    {
        if bytes_equal(entries[i].key.as_slice(), key) {
            return Some(&entries[i].value);
        }
        i = i + 1;
    }
    None
}

// ---------------------------------------------------------------------------
// Encoding
// ---------------------------------------------------------------------------

/// The encoding of a byte string: its length in decimal, a colon, the bytes.
pub open spec fn bytes_encoding(b: Seq<u8>) -> Seq<u8> {
    nat_text(b.len()) + seq![58u8] + b
}

/// The encoding of a value. A dictionary's entries are written in the order in
/// which the model holds them.
pub open spec fn encoding(v: Value) -> Seq<u8>
    decreases v, 0nat,
{
    match v {
        Value::Integer(i) => seq![105u8] + int_text(i) + seq![101u8],
        Value::Bytes(b) => bytes_encoding(b),
        Value::List(items) => seq![108u8] + items_encoding(items, items.len()) + seq![101u8],
        Value::Dict(entries) => seq![100u8] + entries_encoding(entries, entries.len()) + seq![
            101u8,
        ],
    }
}

/// The encodings of the first `n` items, one after the other.
pub open spec fn items_encoding(items: Seq<Value>, n: nat) -> Seq<u8>
    decreases items, n,
{
    if n == 0 || n > items.len() {
        Seq::empty()
    } else {
        items_encoding(items, (n - 1) as nat) + encoding(items[n - 1])
    }
}

/// The encodings of the first `n` entries: each key as a byte string, then its value.
pub open spec fn entries_encoding(entries: Seq<Entry>, n: nat) -> Seq<u8>
    decreases entries, n,
{
    if n == 0 || n > entries.len() {
        Seq::empty()
    } else {
        entries_encoding(entries, (n - 1) as nat) + bytes_encoding(entries[n - 1].key) + encoding(
            entries[n - 1].value,
        )
    }
}

/// Appends the decimal digits of `n`.
pub fn push_decimal(n: u64, out: &mut Vec<u8>)
    ensures
        final(out)@ == old(out)@ + nat_text(n as nat),
    decreases n,
{
    if n >= 10 {
        push_decimal(n / 10, out);
    }
    let d: u8 = (48 + n % 10) as u8;
    out.push(d);
    assert(out@ =~= old(out)@ + nat_text(n as nat));
}

/// Appends the encoding of a byte string.
pub fn push_bytes(b: &[u8], out: &mut Vec<u8>)
    ensures
        final(out)@ == old(out)@ + bytes_encoding(b@),
{
    push_decimal(b.len() as u64, out);
    out.push(58u8);
    let ghost head = out@;
    let mut i: usize = 0;
    while i < b.len()
        invariant
            i <= b@.len(),
            out@ == head + b@.take(i as int),
        decreases b@.len() - i,
    {
        out.push(b[i]);
        assert(b@.take(i + 1) =~= b@.take(i as int).push(b@[i as int]));
        assert(out@ =~= head + b@.take(i + 1));
        i = i + 1;
    }
    assert(b@.take(b@.len() as int) =~= b@);
    assert(out@ =~= old(out)@ + bytes_encoding(b@));
}

/// Appends the encoding of `v`, a canonical value: the keys of each of its
/// dictionaries are in ascending order, and are written out in that order.
pub fn encode_into(v: &BencodeValue, out: &mut Vec<u8>)
    requires
        canonical(v@),
    ensures
        final(out)@ == old(out)@ + encoding(v@),
    decreases v,
{
    match v {
        BencodeValue::Integer(i) => {
            out.push(105u8);
            if *i < 0 {
                out.push(45u8);
                let m: u64 = if *i == i64::MIN {
                    9223372036854775808u64
                } else {
                    (-*i) as u64
                };
                push_decimal(m, out);
            } else {
                push_decimal(*i as u64, out);
            }
            out.push(101u8);
            assert(out@ =~= old(out)@ + encoding(v@));
        },
        BencodeValue::ByteString(b) => {
            push_bytes(b.as_slice(), out);
        },
        BencodeValue::List(items) => {
            proof {
                lemma_list_view(*items);
            }
            let ghost model = items_model(items@);
            assert(canonical(Value::List(model)));
            out.push(108u8);
            let mut i: usize = 0;
            while i < items.len()
                invariant
                    i <= items@.len(),
                    model == items_model(items@),
                    decreases_to!(v => *items),
                    canonical(Value::List(model)),
                    out@ == old(out)@ + seq![108u8] + items_encoding(model, i as nat),
                decreases items@.len() - i,
            {
                assert(decreases_to!(*items => items[i as int]));
                assert(model[i as int] == items[i as int]@);
                proof {
                    lemma_canonical_item(model, i as int);
                }
                encode_into(&items[i], out);
                assert(out@ =~= old(out)@ + seq![108u8] + items_encoding(model, (i + 1) as nat));
                i = i + 1;
            }
            out.push(101u8);
            assert(out@ =~= old(out)@ + encoding(v@));
        },
        BencodeValue::Dictionary(entries) => {
            proof {
                lemma_dictionary_view(*entries);
            }
            let ghost model = entries_model(entries@);
            assert(canonical(Value::Dict(model)));
            out.push(100u8);
            let mut i: usize = 0;
            while i < entries.len()
                invariant
                    i <= entries@.len(),
                    model == entries_model(entries@),
                    decreases_to!(v => *entries),
                    forall|j: int| 0 <= j < model.len() ==> canonical((#[trigger] model[j]).value),
                    out@ == old(out)@ + seq![100u8] + entries_encoding(model, i as nat),
                decreases entries@.len() - i,
            {
                push_bytes(entries[i].key.as_slice(), out);
                assert(decreases_to!(*entries => entries[i as int]));
                assert(model[i as int].value == entries[i as int].value@);
                encode_into(&entries[i].value, out);
                assert(out@ =~= old(out)@ + seq![100u8] + entries_encoding(
                    model,
                    (i + 1) as nat,
                ));
                i = i + 1;
            }
            out.push(101u8);
            assert(out@ =~= old(out)@ + encoding(v@));
        },
    }
}

/// The encoding of `v`, a canonical value, as a fresh byte vector.
pub fn encode(v: &BencodeValue) -> (out: Vec<u8>)
    requires
        canonical(v@),
    ensures
        out@ == encoding(v@),
{
    let mut out: Vec<u8> = Vec::new();
    encode_into(v, &mut out);
    assert(out@ =~= encoding(v@));
    out
}

// ---------------------------------------------------------------------------
// Decoding
// ---------------------------------------------------------------------------

/// What decoding an integer at `pos` gives, where `s[pos]` is the letter `i`: the
/// value and the position behind its closing `e`, or the offset of the failure.
/// Only the text that `int_text` writes for a 64-bit integer is accepted.
pub open spec fn parse_integer(s: Seq<u8>, pos: int) -> Result<(Value, int), int> {
    let negative = pos + 1 < s.len() && s[pos + 1] == 45u8;
    let first = if negative {
        pos + 2
    } else {
        pos + 1
    };
    let end = digits_end(s, first);
    let magnitude = digits_value(s.subrange(first, end)) as int;
    let number = if negative {
        -magnitude
    } else {
        magnitude
    };
    if end == first || end >= s.len() || s[end] != 101u8 {
        Err(end)
    } else if s[first] == 48u8 && (negative || end - first > 1) {
        Err(first)
    } else if number < i64::MIN || number > i64::MAX {
        Err(first)
    } else {
        Ok((Value::Integer(number), end + 1))
    }
}

/// What decoding a byte string at `pos` gives: the bytes and the position behind
/// them, or the offset of the failure.
pub open spec fn parse_bytes(s: Seq<u8>, pos: int) -> Result<(Seq<u8>, int), int> {
    let colon = digits_end(s, pos);
    let n = digits_value(s.subrange(pos, colon)) as int;
    if colon == pos || colon >= s.len() || s[colon] != 58u8 {
        Err(colon)
    } else if colon + 1 + n > s.len() {
        Err(s.len() as int)
    } else {
        Ok((s.subrange(colon + 1, colon + 1 + n), colon + 1 + n))
    }
}

/// What decoding one value at `pos` gives: the value and the position behind it,
/// or the offset of the failure.
pub open spec fn parse_value(s: Seq<u8>, pos: int) -> Result<(Value, int), int>
    decreases s.len() - pos, 0int,
{
    if pos < 0 || pos >= s.len() {
        Err(pos)
    } else if s[pos] == 105u8 {
        parse_integer(s, pos)
    } else if s[pos] == 108u8 {
        match parse_items(s, pos + 1, Seq::empty()) {
            Ok((items, next)) => Ok((Value::List(items), next)),
            Err(offset) => Err(offset),
        }
    } else if s[pos] == 100u8 {
        match parse_entries(s, pos + 1, Seq::empty()) {
            Ok((entries, next)) => Ok((Value::Dict(entries), next)),
            Err(offset) => Err(offset),
        }
    } else if is_digit(s[pos]) {
        match parse_bytes(s, pos) {
            Ok((b, next)) => Ok((Value::Bytes(b), next)),
            Err(offset) => Err(offset),
        }
    } else {
        Err(pos)
    }
}

/// What decoding the rest of a list at `pos` gives, `done` being the items read
/// so far: all the items and the position behind the closing `e`.
pub open spec fn parse_items(s: Seq<u8>, pos: int, done: Seq<Value>) -> Result<
    (Seq<Value>, int),
    int,
>
    decreases s.len() - pos, 1int,
{
    if pos < 0 || pos >= s.len() {
        Err(pos)
    } else if s[pos] == 101u8 {
        Ok((done, pos + 1))
    } else {
        match parse_value(s, pos) {
            Err(offset) => Err(offset),
            Ok((v, next)) => if next <= pos || next > s.len() {
                Err(pos)
            } else {
                parse_items(s, next, done.push(v))
            },
        }
    }
}

/// What decoding the rest of a dictionary at `pos` gives, `done` being the
/// entries read so far: all the entries, in key order, and the position behind
/// the closing `e`. A key that is no byte string fails at its own offset; of two
/// entries with one key the later stays.
pub open spec fn parse_entries(s: Seq<u8>, pos: int, done: Seq<Entry>) -> Result<
    (Seq<Entry>, int),
    int,
>
    decreases s.len() - pos, 1int,
{
    if pos < 0 || pos >= s.len() {
        Err(pos)
    } else if s[pos] == 101u8 {
        Ok((done, pos + 1))
    } else if !is_digit(s[pos]) {
        Err(pos)
    } else {
        match parse_bytes(s, pos) {
            Err(offset) => Err(offset),
            Ok((key, mid)) => if mid <= pos || mid > s.len() {
                Err(pos)
            } else {
                match parse_value(s, mid) {
                    Err(offset) => Err(offset),
                    Ok((v, next)) => if next <= mid || next > s.len() {
                        Err(pos)
                    } else {
                        parse_entries(s, next, dict_insert(done, key, v))
                    },
                }
            },
        }
    }
}

/// Whether a decoder's result is what the model prescribes.
pub open spec fn decode_matches(
    r: Result<(BencodeValue, usize), DecodeError>,
    p: Result<(Value, int), int>,
) -> bool {
    match (r, p) {
        (Ok((v, next)), Ok((m, n))) => v@ == m && next == n,
        (Err(e), Err(offset)) => e.offset == offset,
        _ => false,
    }
}

/// A copy of `raw[from..to]`.
pub fn copy_range(raw: &[u8], from: usize, to: usize) -> (out: Vec<u8>)
    requires
        from <= to <= raw@.len(),
    ensures
        out@ == raw@.subrange(from as int, to as int),
{
    let mut out: Vec<u8> = Vec::new();
    let mut i: usize = from;
    while i < to
        invariant
            from <= i <= to <= raw@.len(),
            out@ == raw@.subrange(from as int, i as int),
        decreases to - i,
    {
        out.push(raw[i]);
        assert(out@ =~= raw@.subrange(from as int, i + 1));
        i = i + 1;
    }
    out
}

/// Decodes the integer that starts at `pos` with the letter `i`.
pub fn decode_integer(raw: &[u8], pos: usize) -> (r: Result<(i64, usize), DecodeError>)
    requires
        pos < raw@.len(),
    ensures
        match (r, parse_integer(raw@, pos as int)) {
            (Ok((number, next)), Ok((m, n))) => m == Value::Integer(number as int) && next == n
                && pos < next <= raw@.len(),
            (Err(e), Err(offset)) => e.offset == offset,
            _ => false,
        },
{
    let len = raw.len();
    let negative = pos + 1 < len && raw[pos + 1] == 45u8;
    let first: usize = if negative {
        pos + 2
    } else {
        pos + 1
    };
    let end = scan_digits(raw, first);
    if end == first || end >= raw.len() || raw[end] != 101u8 {
        return Err(DecodeError { offset: end });
    }
    if raw[first] == 48u8 && (negative || end - first > 1) {
        return Err(DecodeError { offset: first });
    }
    let limit: u64 = if negative {
        9223372036854775808u64
    } else {
        9223372036854775807u64
    };
    match digits_to_number(raw, first, end, limit) {
        None => Err(DecodeError { offset: first }),
        Some(m) => {
            let number: i64 = if negative {
                if m == 9223372036854775808u64 {
                    i64::MIN
                } else {
                    -(m as i64)
                }
            } else {
                m as i64
            };
            Ok((number, end + 1))
        },
    }
}

/// Decodes the byte string that starts at `pos`.
pub fn decode_byte_string(raw: &[u8], pos: usize) -> (r: Result<(Vec<u8>, usize), DecodeError>)
    requires
        pos <= raw@.len(),
    ensures
        match (r, parse_bytes(raw@, pos as int)) {
            (Ok((b, next)), Ok((m, n))) => b@ == m && next == n && pos < next <= raw@.len(),
            (Err(e), Err(offset)) => e.offset == offset,
            _ => false,
        },
{
    let colon = scan_digits(raw, pos);
    if colon == pos || colon >= raw.len() || raw[colon] != 58u8 {
        return Err(DecodeError { offset: colon });
    }
    let room: u64 = (raw.len() - colon - 1) as u64;
    match digits_to_number(raw, pos, colon, room) {
        None => Err(DecodeError { offset: raw.len() }),
        Some(n) => {
            let end: usize = colon + 1 + n as usize;
            Ok((copy_range(raw, colon + 1, end), end))
        },
    }
}

/// Decodes the items of a list from `pos`, the position behind its `l`, up to
/// and with its closing `e`.
pub fn decode_list(raw: &[u8], pos: usize) -> (r: Result<(Vec<BencodeValue>, usize), DecodeError>)
    requires
        pos <= raw@.len(),
    ensures
        match (r, parse_items(raw@, pos as int, Seq::empty())) {
            (Ok((items, next)), Ok((m, n))) => items_model(items@) == m && next == n && pos < next
                <= raw@.len(),
            (Err(e), Err(offset)) => e.offset == offset,
            _ => false,
        },
    decreases raw@.len() - pos, 1int,
{
    let mut items: Vec<BencodeValue> = Vec::new();
    let mut index: usize = pos;
    assert(items_model(items@) =~= Seq::empty());
    loop
        invariant
            pos <= index <= raw@.len(),
            parse_items(raw@, pos as int, Seq::empty()) == parse_items(
                raw@,
                index as int,
                items_model(items@),
            ),
        decreases raw@.len() - index,
    {
        if index >= raw.len() {
            return Err(DecodeError { offset: index });
        }
        if raw[index] == 101u8 {
            return Ok((items, index + 1));
        }
        match decode_bencoded_vec_start_at(raw, index) {
            Err(e) => {
                return Err(e);
            },
            Ok((v, next)) => {
                let ghost before = items_model(items@);
                let ghost m = v@;
                items.push(v);
                assert(items_model(items@) =~= before.push(m));
                index = next;
            },
        }
    }
}

/// Decodes the entries of a dictionary from `pos`, the position behind its `d`,
/// up to and with its closing `e`.
pub fn decode_dictionary(raw: &[u8], pos: usize) -> (r: Result<
    (Vec<DictEntry>, usize),
    DecodeError,
>)
    requires
        pos <= raw@.len(),
    ensures
        match (r, parse_entries(raw@, pos as int, Seq::empty())) {
            (Ok((entries, next)), Ok((m, n))) => entries_model(entries@) == m && next == n && pos
                < next <= raw@.len(),
            (Err(e), Err(offset)) => e.offset == offset,
            _ => false,
        },
    decreases raw@.len() - pos, 1int,
{
    let mut entries: Vec<DictEntry> = Vec::new();
    let mut index: usize = pos;
    assert(entries_model(entries@) =~= Seq::empty());
    loop
        invariant
            pos <= index <= raw@.len(),
            parse_entries(raw@, pos as int, Seq::empty()) == parse_entries(
                raw@,
                index as int,
                entries_model(entries@),
            ),
        decreases raw@.len() - index,
    {
        if index >= raw.len() {
            return Err(DecodeError { offset: index });
        }
        if raw[index] == 101u8 {
            return Ok((entries, index + 1));
        }
        if raw[index] < 48u8 || raw[index] > 57u8 {
            return Err(DecodeError { offset: index });
        }
        match decode_byte_string(raw, index) {
            Err(e) => {
                return Err(e);
            },
            Ok((key, mid)) => {
                match decode_bencoded_vec_start_at(raw, mid) {
                    Err(e) => {
                        return Err(e);
                    },
                    Ok((v, next)) => {
                        insert_entry(&mut entries, key, v);
                        index = next;
                    },
                }
            },
        }
    }
}

/// Decodes the value that starts at `start_index`, and gives it with the
/// position behind it.
pub fn decode_bencoded_vec_start_at(raw_vec: &[u8], start_index: usize) -> (r: Result<
    (BencodeValue, usize),
    DecodeError,
>)
    ensures
        decode_matches(r, parse_value(raw_vec@, start_index as int)),
        r is Ok ==> start_index < r->Ok_0.1 <= raw_vec@.len(),
        r is Ok ==> canonical(r->Ok_0.0@),
    decreases raw_vec@.len() - start_index, 0int,
{
    proof {
        lemma_parse_canonical(raw_vec@, start_index as int);
    }
    if start_index >= raw_vec.len() {
        return Err(DecodeError { offset: start_index });
    }
    let lead: u8 = raw_vec[start_index];
    if lead == 105u8 {
        match decode_integer(raw_vec, start_index) {
            Ok((number, next)) => Ok((BencodeValue::Integer(number), next)),
            Err(e) => Err(e),
        }
    } else if lead == 108u8 {
        match decode_list(raw_vec, start_index + 1) {
            Ok((items, next)) => {
                proof {
                    lemma_list_view(items);
                }
                Ok((BencodeValue::List(items), next))
            },
            Err(e) => Err(e),
        }
    } else if lead == 100u8 {
        match decode_dictionary(raw_vec, start_index + 1) {
            Ok((entries, next)) => {
                proof {
                    lemma_dictionary_view(entries);
                }
                Ok((BencodeValue::Dictionary(entries), next))
            },
            Err(e) => Err(e),
        }
    } else if lead >= 48u8 && lead <= 57u8 {
        match decode_byte_string(raw_vec, start_index) {
            Ok((b, next)) => Ok((BencodeValue::ByteString(b), next)),
            Err(e) => Err(e),
        }
    } else {
        Err(DecodeError { offset: start_index })
    }
}

/// Decodes the value at the front of `encoded_vec`; what follows it is not read.
pub fn decode_bencoded_vec(encoded_vec: &Vec<u8>) -> (r: Result<BencodeValue, DecodeError>)
    ensures
        match (r, parse_value(encoded_vec@, 0)) {
            (Ok(v), Ok((m, _))) => v@ == m && canonical(m),
            (Err(e), Err(offset)) => e.offset == offset,
            _ => false,
        },
{
    match decode_bencoded_vec_start_at(encoded_vec.as_slice(), 0) {
        Ok((v, _)) => Ok(v),
        Err(e) => Err(e),
    }
}

/// Decodes the value at the front of a text's bytes; what follows it is not read.
pub fn decode_bencoded_value(encoded_value: &str) -> (r: Result<BencodeValue, DecodeError>)
    ensures
        match (r, parse_value(encoded_value.spec_bytes(), 0)) {
            (Ok(v), Ok((m, _))) => v@ == m && canonical(m),
            (Err(e), Err(offset)) => e.offset == offset,
            _ => false,
        },
{
    match decode_bencoded_vec_start_at(encoded_value.as_bytes(), 0) {
        Ok((v, _)) => Ok(v),
        Err(e) => Err(e),
    }
}

} // verus!
