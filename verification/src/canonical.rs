//! Canonical values: what is decoded from an encoding is the value encoded.
use crate::bencode::{
    bytes_less, entries_model, insert_entry, items_model, lemma_dictionary_view, lemma_list_view,
    BencodeValue, DictEntry,
};
use crate::bencode::{lookup, lookup_from};
use crate::bencode::{
    bytes_encoding, bytes_lt, bytes_lt_from, dict_insert, digits_end, digits_value, encoding, entries_encoding,
    int_text, is_digit, items_encoding, nat_text, parse_bytes, parse_entries, parse_integer,
    parse_items, parse_value, slot_from, Entry, Value,
};
use vstd::prelude::*;

verus! {

/// Whether a value is canonical: its integers fit 64 bits, and the keys of each
/// of its dictionaries stand in strictly ascending byte order.
pub open spec fn canonical(v: Value) -> bool
    decreases v,
{
    match v {
        Value::Integer(i) => i64::MIN <= i <= i64::MAX,
        Value::Bytes(_) => true,
        Value::List(items) => forall|i: int|
            0 <= i < items.len() ==> canonical(#[trigger] items[i]),
        Value::Dict(entries) => sorted(entries) && forall|i: int|
            0 <= i < entries.len() ==> canonical((#[trigger] entries[i]).value),
    }
}

/// Each item of a canonical list is canonical.
pub proof fn lemma_canonical_item(items: Seq<Value>, i: int)
    requires
        canonical(Value::List(items)),
        0 <= i < items.len(),
    ensures
        canonical(items[i]),
{
    let v = Value::List(items);
    assert(canonical(v));
    assert(v->List_0 == items);
    assert(canonical(v->List_0[i]));
}

/// Whether the keys of the entries stand in strictly ascending byte order.
pub open spec fn sorted(entries: Seq<Entry>) -> bool {
    forall|i: int, j: int|
        0 <= i < j < entries.len() ==> bytes_lt(
            (#[trigger] entries[i]).key,
            (#[trigger] entries[j]).key,
        )
}

/// The decimal text of a number is made of digits, has no leading zero, and
/// denotes that number.
pub proof fn lemma_nat_text(n: nat)
    ensures
        nat_text(n).len() >= 1,
        forall|i: int| 0 <= i < nat_text(n).len() ==> is_digit(#[trigger] nat_text(n)[i]),
        digits_value(nat_text(n)) == n,
        nat_text(n)[0] == 48u8 ==> n == 0 && nat_text(n).len() == 1,
    decreases n,
{
    if n < 10 {
        let t = nat_text(n);
        assert(t.drop_last().len() == 0);
        assert(digits_value(t.drop_last()) == 0);
        assert(t.last() == (48 + n) as u8);
    } else {
        lemma_nat_text(n / 10);
        let t = nat_text(n / 10);
        let d = (48 + n % 10) as u8;
        assert(nat_text(n) == t.push(d));
        assert(t.push(d).drop_last() =~= t);
        assert(t.push(d).last() == d);
        assert(t.push(d)[0] == t[0]);
    }
}

/// A run of digits ends where the first other byte stands.
pub proof fn lemma_digits_end_run(s: Seq<u8>, from: int, to: int)
    requires
        0 <= from <= to <= s.len(),
        forall|i: int| from <= i < to ==> is_digit(#[trigger] s[i]),
        to == s.len() || !is_digit(s[to]),
    ensures
        digits_end(s, from) == to,
    decreases to - from,
{
    if from < to {
        lemma_digits_end_run(s, from + 1, to);
    }
}

/// Where the text of a number stands, followed by a byte that is no digit, the
/// run of digits is that text.
proof fn lemma_number_at(s: Seq<u8>, from: int, n: nat)
    requires
        0 <= from,
        from + nat_text(n).len() < s.len(),
        s.subrange(from, from + nat_text(n).len()) == nat_text(n),
        !is_digit(s[from + nat_text(n).len()]),
    ensures
        digits_end(s, from) == from + nat_text(n).len(),
        digits_value(s.subrange(from, digits_end(s, from))) == n,
        s[from] == nat_text(n)[0],
        is_digit(s[from]),
{
    lemma_nat_text(n);
    let t = nat_text(n);
    let to = from + t.len();
    assert forall|i: int| from <= i < to implies is_digit(#[trigger] s[i]) by {
        assert(s[i] == s.subrange(from, to)[i - from]);
    }
    assert(s[from] == s.subrange(from, to)[0]);
    lemma_digits_end_run(s, from, to);
}

/// An integer's encoding is decoded as that integer.
pub proof fn lemma_parse_integer(s: Seq<u8>, pos: int, i: int)
    requires
        0 <= pos,
        i64::MIN <= i <= i64::MAX,
        pos + int_text(i).len() + 2 <= s.len(),
        s[pos] == 105u8,
        s.subrange(pos + 1, pos + 1 + int_text(i).len()) == int_text(i),
        s[pos + 1 + int_text(i).len()] == 101u8,
    ensures
        parse_integer(s, pos) == Ok::<(Value, int), int>(
            (Value::Integer(i), pos + int_text(i).len() + 2),
        ),
{
    let t = int_text(i);
    let whole = s.subrange(pos + 1, pos + 1 + t.len());
    if i < 0 {
        let m = (-i) as nat;
        let digits = nat_text(m);
        lemma_nat_text(m);
        assert(t == seq![45u8] + digits);
        assert(s[pos + 1] == whole[0]);
        assert(s.subrange(pos + 2, pos + 2 + digits.len()) =~= digits) by {
            assert forall|j: int| 0 <= j < digits.len() implies s[pos + 2 + j] == digits[j] by {
                assert(s[pos + 2 + j] == whole[j + 1]);
            }
        }
        lemma_number_at(s, pos + 2, m);
    } else {
        lemma_nat_text(i as nat);
        lemma_number_at(s, pos + 1, i as nat);
    }
}

/// A byte string's encoding is decoded as that byte string.
pub proof fn lemma_parse_bytes(s: Seq<u8>, pos: int, b: Seq<u8>)
    requires
        0 <= pos,
        pos + bytes_encoding(b).len() <= s.len(),
        s.subrange(pos, pos + bytes_encoding(b).len()) == bytes_encoding(b),
    ensures
        parse_bytes(s, pos) == Ok::<(Seq<u8>, int), int>((b, pos + bytes_encoding(b).len())),
        is_digit(s[pos]),
        bytes_encoding(b).len() > 0,
{
    let n = b.len();
    let digits = nat_text(n);
    let e = bytes_encoding(b);
    let whole = s.subrange(pos, pos + e.len());
    lemma_nat_text(n);
    assert(s.subrange(pos, pos + digits.len()) =~= digits) by {
        assert forall|j: int| 0 <= j < digits.len() implies s[pos + j] == digits[j] by {
            assert(s[pos + j] == whole[j]);
        }
    }
    assert(s[pos + digits.len()] == whole[digits.len() as int]);
    lemma_number_at(s, pos, n);
    let colon = pos + digits.len();
    assert(s.subrange(colon + 1, colon + 1 + n) =~= b) by {
        assert forall|j: int| 0 <= j < n implies s[colon + 1 + j] == b[j] by {
            assert(s[colon + 1 + j] == whole[digits.len() + 1 + j]);
        }
    }
}

/// An encoding is not empty, and starts with a byte other than the closing `e`.
pub proof fn lemma_encoding_head(v: Value)
    ensures
        encoding(v).len() > 0,
        encoding(v)[0] != 101u8,
{
    match v {
        Value::Integer(i) => {},
        Value::Bytes(b) => {
            lemma_nat_text(b.len());
        },
        Value::List(items) => {},
        Value::Dict(entries) => {},
    }
}

/// The encodings of the first `k` items stand at the front of those of the
/// first `n`.
pub proof fn lemma_items_prefix(items: Seq<Value>, k: nat, n: nat)
    requires
        k <= n <= items.len(),
    ensures
        items_encoding(items, k).len() <= items_encoding(items, n).len(),
        items_encoding(items, n).subrange(0, items_encoding(items, k).len() as int)
            == items_encoding(items, k),
    decreases n - k,
{
    if k == n {
        assert(items_encoding(items, n).subrange(0, items_encoding(items, n).len() as int)
            =~= items_encoding(items, n));
    } else {
        lemma_items_prefix(items, k, (n - 1) as nat);
        let shorter = items_encoding(items, (n - 1) as nat);
        assert(items_encoding(items, n) == shorter + encoding(items[n - 1]));
        assert(items_encoding(items, n).subrange(0, items_encoding(items, k).len() as int)
            =~= shorter.subrange(0, items_encoding(items, k).len() as int));
    }
}

/// The encodings of the first `k` entries stand at the front of those of the
/// first `n`.
pub proof fn lemma_entries_prefix(entries: Seq<Entry>, k: nat, n: nat)
    requires
        k <= n <= entries.len(),
    ensures
        entries_encoding(entries, k).len() <= entries_encoding(entries, n).len(),
        entries_encoding(entries, n).subrange(0, entries_encoding(entries, k).len() as int)
            == entries_encoding(entries, k),
    decreases n - k,
{
    if k == n {
        assert(entries_encoding(entries, n).subrange(
            0,
            entries_encoding(entries, n).len() as int,
        ) =~= entries_encoding(entries, n));
    } else {
        lemma_entries_prefix(entries, k, (n - 1) as nat);
        let shorter = entries_encoding(entries, (n - 1) as nat);
        assert(entries_encoding(entries, n) == shorter + bytes_encoding(entries[n - 1].key)
            + encoding(entries[n - 1].value));
        assert(entries_encoding(entries, n).subrange(
            0,
            entries_encoding(entries, k).len() as int,
        ) =~= shorter.subrange(0, entries_encoding(entries, k).len() as int));
    }
}

/// A key above all the keys of a dictionary is inserted behind them.
pub proof fn lemma_insert_behind(d: Seq<Entry>, key: Seq<u8>, value: Value)
    requires
        forall|i: int| 0 <= i < d.len() ==> bytes_lt((#[trigger] d[i]).key, key),
    ensures
        dict_insert(d, key, value) == d.push(Entry { key, value }),
{
    lemma_slot_behind(d, key, 0);
    assert(d.insert(d.len() as int, Entry { key, value }) =~= d.push(Entry { key, value }));
}

proof fn lemma_slot_behind(d: Seq<Entry>, key: Seq<u8>, from: int)
    requires
        0 <= from <= d.len(),
        forall|i: int| 0 <= i < d.len() ==> bytes_lt((#[trigger] d[i]).key, key),
    ensures
        slot_from(d, key, from) == d.len(),
    decreases d.len() - from,
{
    if from < d.len() {
        lemma_slot_behind(d, key, from + 1);
    }
}

/// Where the encoding of a canonical value stands in `s` at `pos`, decoding at
/// `pos` gives that value and the position behind the encoding.
pub proof fn lemma_decode_at(v: Value, s: Seq<u8>, pos: int)
    requires
        canonical(v),
        0 <= pos,
        pos + encoding(v).len() <= s.len(),
        s.subrange(pos, pos + encoding(v).len()) == encoding(v),
    ensures
        parse_value(s, pos) == Ok::<(Value, int), int>((v, pos + encoding(v).len())),
    decreases v, 0nat, 0nat,
{
    let e = encoding(v);
    let whole = s.subrange(pos, pos + e.len());
    lemma_encoding_head(v);
    assert(s[pos] == whole[0]);
    match v {
        Value::Integer(i) => {
            let t = int_text(i);
            assert(e == seq![105u8] + t + seq![101u8]);
            assert(s.subrange(pos + 1, pos + 1 + t.len()) =~= t) by {
                assert forall|j: int| 0 <= j < t.len() implies s[pos + 1 + j] == t[j] by {
                    assert(s[pos + 1 + j] == whole[1 + j]);
                }
            }
            assert(s[pos + 1 + t.len()] == whole[1 + t.len() as int]);
            lemma_parse_integer(s, pos, i);
        },
        Value::Bytes(b) => {
            lemma_parse_bytes(s, pos, b);
            lemma_nat_text(b.len());
        },
        Value::List(items) => {
            let body = items_encoding(items, items.len());
            assert(e == seq![108u8] + body + seq![101u8]);
            assert(s.subrange(pos + 1, pos + 1 + body.len()) =~= body) by {
                assert forall|j: int| 0 <= j < body.len() implies s[pos + 1 + j] == body[j] by {
                    assert(s[pos + 1 + j] == whole[1 + j]);
                }
            }
            assert(s[pos + 1 + body.len()] == whole[1 + body.len() as int]);
            lemma_decode_items(items, s, pos + 1, 0);
            assert(items.take(0) =~= Seq::empty());
        },
        Value::Dict(entries) => {
            let body = entries_encoding(entries, entries.len());
            assert(e == seq![100u8] + body + seq![101u8]);
            assert(s.subrange(pos + 1, pos + 1 + body.len()) =~= body) by {
                assert forall|j: int| 0 <= j < body.len() implies s[pos + 1 + j] == body[j] by {
                    assert(s[pos + 1 + j] == whole[1 + j]);
                }
            }
            assert(s[pos + 1 + body.len()] == whole[1 + body.len() as int]);
            lemma_decode_entries(entries, s, pos + 1, 0);
            assert(entries.take(0) =~= Seq::empty());
        },
    }
}

/// Where the encodings of canonical items stand in `s` from `start` on, with the
/// closing `e` behind them, decoding the list from behind the first `k` items,
/// with those items read, gives all the items.
pub proof fn lemma_decode_items(items: Seq<Value>, s: Seq<u8>, start: int, k: nat)
    requires
        forall|i: int| 0 <= i < items.len() ==> canonical(#[trigger] items[i]),
        k <= items.len(),
        0 <= start,
        start + items_encoding(items, items.len()).len() < s.len(),
        s.subrange(start, start + items_encoding(items, items.len()).len()) == items_encoding(
            items,
            items.len(),
        ),
        s[start + items_encoding(items, items.len()).len()] == 101u8,
    ensures
        parse_items(s, start + items_encoding(items, k).len(), items.take(k as int)) == Ok::<
            (Seq<Value>, int),
            int,
        >((items, start + items_encoding(items, items.len()).len() + 1)),
    decreases items, items.len() - k, 1nat,
{
    let n = items.len();
    let body = items_encoding(items, n);
    let whole = s.subrange(start, start + body.len());
    if k == n {
        assert(items.take(n as int) =~= items);
    } else {
        let here = items_encoding(items, k);
        let item = encoding(items[k as int]);
        let there = items_encoding(items, k + 1);
        assert(there == here + item);
        lemma_items_prefix(items, k + 1, n);
        let at = start + here.len();
        assert(s.subrange(at, at + item.len()) =~= item) by {
            assert forall|j: int| 0 <= j < item.len() implies s[at + j] == item[j] by {
                assert(s[at + j] == whole[here.len() + j]);
                assert(body.subrange(0, there.len() as int)[here.len() + j] == there[here.len()
                    + j]);
            }
        }
        lemma_encoding_head(items[k as int]);
        assert(s[at] == s.subrange(at, at + item.len())[0]);
        lemma_decode_at(items[k as int], s, at);
        assert(items.take(k as int).push(items[k as int]) =~= items.take(k as int + 1));
        lemma_decode_items(items, s, start, k + 1);
    }
}

/// Where the encodings of the entries of a canonical dictionary stand in `s`
/// from `start` on, with the closing `e` behind them, decoding the dictionary
/// from behind the first `k` entries, with those entries read, gives all the
/// entries.
pub proof fn lemma_decode_entries(entries: Seq<Entry>, s: Seq<u8>, start: int, k: nat)
    requires
        sorted(entries),
        forall|i: int| 0 <= i < entries.len() ==> canonical((#[trigger] entries[i]).value),
        k <= entries.len(),
        0 <= start,
        start + entries_encoding(entries, entries.len()).len() < s.len(),
        s.subrange(start, start + entries_encoding(entries, entries.len()).len())
            == entries_encoding(entries, entries.len()),
        s[start + entries_encoding(entries, entries.len()).len()] == 101u8,
    ensures
        parse_entries(s, start + entries_encoding(entries, k).len(), entries.take(k as int))
            == Ok::<(Seq<Entry>, int), int>(
            (entries, start + entries_encoding(entries, entries.len()).len() + 1),
        ),
    decreases entries, entries.len() - k, 1nat,
{
    let n = entries.len();
    let body = entries_encoding(entries, n);
    let whole = s.subrange(start, start + body.len());
    if k == n {
        assert(entries.take(n as int) =~= entries);
    } else {
        let here = entries_encoding(entries, k);
        let entry = entries[k as int];
        let head = bytes_encoding(entry.key);
        let item = encoding(entry.value);
        let there = entries_encoding(entries, k + 1);
        assert(there == here + head + item);
        lemma_entries_prefix(entries, k + 1, n);
        let at = start + here.len();
        let mid = at + head.len();
        assert forall|j: int| 0 <= j < head.len() + item.len() implies s[at + j] == (head
            + item)[j] by {
            assert(s[at + j] == whole[here.len() + j]);
            assert(body.subrange(0, there.len() as int)[here.len() + j] == there[here.len() + j]);
        }
        assert(s.subrange(at, at + head.len()) =~= head) by {
            assert forall|j: int| 0 <= j < head.len() implies s[at + j] == head[j] by {
                assert(s[at + j] == (head + item)[j]);
            }
        }
        assert(s.subrange(mid, mid + item.len()) =~= item) by {
            assert forall|j: int| 0 <= j < item.len() implies s[mid + j] == item[j] by {
                assert(s[at + (head.len() + j)] == (head + item)[head.len() + j]);
            }
        }
        lemma_parse_bytes(s, at, entry.key);
        lemma_encoding_head(entry.value);
        lemma_decode_at(entry.value, s, mid);
        let before = entries.take(k as int);
        assert forall|i: int| 0 <= i < before.len() implies bytes_lt(
            (#[trigger] before[i]).key,
            entry.key,
        ) by {
            assert(before[i] == entries[i]);
        }
        lemma_insert_behind(before, entry.key, entry.value);
        assert(before.push(Entry { key: entry.key, value: entry.value }) =~= entries.take(k as int + 1));
        lemma_decode_entries(entries, s, start, k + 1);
    }
}

/// Decoding the encoding of a canonical value gives that value back, whatever
/// follows the encoding.
pub proof fn lemma_decode_encode(v: Value, rest: Seq<u8>)
    requires
        canonical(v),
    ensures
        parse_value(encoding(v) + rest, 0) == Ok::<(Value, int), int>(
            (v, encoding(v).len() as int),
        ),
{
    let s = encoding(v) + rest;
    assert(s.subrange(0, encoding(v).len() as int) =~= encoding(v));
    lemma_decode_at(v, s, 0);
}

// ---------------------------------------------------------------------------
// The order of keys
// ---------------------------------------------------------------------------

proof fn lemma_lt_irreflexive_from(a: Seq<u8>, from: int)
    requires
        0 <= from,
    ensures
        !bytes_lt_from(a, a, from),
    decreases a.len() - from,
{
    if from < a.len() {
        lemma_lt_irreflexive_from(a, from + 1);
    }
}

proof fn lemma_lt_asymmetric_from(a: Seq<u8>, b: Seq<u8>, from: int)
    requires
        0 <= from,
        bytes_lt_from(a, b, from),
    ensures
        !bytes_lt_from(b, a, from),
    decreases a.len() - from,
{
    if from < a.len() && from < b.len() && a[from] == b[from] {
        lemma_lt_asymmetric_from(a, b, from + 1);
    }
}

proof fn lemma_lt_transitive_from(a: Seq<u8>, b: Seq<u8>, c: Seq<u8>, from: int)
    requires
        0 <= from,
        bytes_lt_from(a, b, from),
        bytes_lt_from(b, c, from),
    ensures
        bytes_lt_from(a, c, from),
    decreases a.len() - from,
{
    if from < a.len() && a[from] == b[from] && b[from] == c[from] {
        lemma_lt_transitive_from(a, b, c, from + 1);
    }
}

proof fn lemma_lt_total_from(a: Seq<u8>, b: Seq<u8>, from: int)
    requires
        0 <= from <= a.len(),
        from <= b.len(),
        forall|j: int| 0 <= j < from ==> a[j] == b[j],
        a != b,
    ensures
        bytes_lt_from(a, b, from) || bytes_lt_from(b, a, from),
    decreases a.len() - from,
{
    if from < a.len() && from < b.len() {
        if a[from] == b[from] {
            lemma_lt_total_from(a, b, from + 1);
        }
    } else if from == a.len() && from == b.len() {
        assert(a =~= b);
    }
}

/// No key is below itself.
pub proof fn lemma_lt_irreflexive(a: Seq<u8>)
    ensures
        !bytes_lt(a, a),
{
    lemma_lt_irreflexive_from(a, 0);
}

/// Of two keys at most one is below the other.
pub proof fn lemma_lt_asymmetric(a: Seq<u8>, b: Seq<u8>)
    requires
        bytes_lt(a, b),
    ensures
        !bytes_lt(b, a),
{
    lemma_lt_asymmetric_from(a, b, 0);
}

/// A key below a key that is below a third is below the third.
pub proof fn lemma_lt_transitive(a: Seq<u8>, b: Seq<u8>, c: Seq<u8>)
    requires
        bytes_lt(a, b),
        bytes_lt(b, c),
    ensures
        bytes_lt(a, c),
{
    lemma_lt_transitive_from(a, b, c, 0);
}

/// Of two different keys one is below the other.
pub proof fn lemma_lt_total(a: Seq<u8>, b: Seq<u8>)
    requires
        a != b,
    ensures
        bytes_lt(a, b) || bytes_lt(b, a),
{
    lemma_lt_total_from(a, b, 0);
}

// ---------------------------------------------------------------------------
// Insertion keeps the order
// ---------------------------------------------------------------------------

/// The slot for a key: all the keys in front of it are below the key, and the
/// key at it, if there is one, is not.
pub proof fn lemma_slot(d: Seq<Entry>, key: Seq<u8>, from: int)
    requires
        0 <= from <= d.len(),
        forall|j: int| 0 <= j < from ==> bytes_lt((#[trigger] d[j]).key, key),
    ensures
        from <= slot_from(d, key, from) <= d.len(),
        forall|j: int|
            0 <= j < slot_from(d, key, from) ==> bytes_lt((#[trigger] d[j]).key, key),
        slot_from(d, key, from) < d.len() ==> !bytes_lt(d[slot_from(d, key, from)].key, key),
    decreases d.len() - from,
{
    if from < d.len() && bytes_lt(d[from].key, key) {
        lemma_slot(d, key, from + 1);
    }
}

/// Setting a key in a dictionary whose keys are in order leaves them in order.
pub proof fn lemma_insert_sorted(d: Seq<Entry>, key: Seq<u8>, value: Value)
    requires
        sorted(d),
    ensures
        sorted(dict_insert(d, key, value)),
{
    lemma_slot(d, key, 0);
    let i = slot_from(d, key, 0);
    let r = dict_insert(d, key, value);
    let e = Entry { key, value };
    if i < d.len() && !bytes_lt(key, d[i].key) {
        if d[i].key != key {
            lemma_lt_total(d[i].key, key);
        }
        assert(d[i].key == key);
        assert forall|a: int, b: int| 0 <= a < b < r.len() implies bytes_lt(
            (#[trigger] r[a]).key,
            (#[trigger] r[b]).key,
        ) by {
            assert(r[a].key == d[a].key);
            assert(r[b].key == d[b].key);
        }
    } else {
        assert forall|j: int| i <= j < d.len() implies bytes_lt(key, (#[trigger] d[j]).key) by {
            if i < j {
                lemma_lt_transitive(key, d[i].key, d[j].key);
            }
        }
        assert forall|a: int, b: int| 0 <= a < b < r.len() implies bytes_lt(
            (#[trigger] r[a]).key,
            (#[trigger] r[b]).key,
        ) by {
            let x = if a < i {
                d[a]
            } else if a == i {
                e
            } else {
                d[a - 1]
            };
            let y = if b < i {
                d[b]
            } else if b == i {
                e
            } else {
                d[b - 1]
            };
            assert(r[a] == x);
            assert(r[b] == y);
        }
    }
}

/// What is decoded is canonical.
pub proof fn lemma_parse_canonical(s: Seq<u8>, pos: int)
    ensures
        parse_value(s, pos) is Ok ==> canonical(parse_value(s, pos)->Ok_0.0),
    decreases s.len() - pos, 0int,
{
    if 0 <= pos < s.len() {
        if s[pos] == 108u8 {
            lemma_parse_items_canonical(s, pos + 1, Seq::empty());
        } else if s[pos] == 100u8 {
            lemma_parse_entries_canonical(s, pos + 1, Seq::empty());
        }
    }
}

proof fn lemma_parse_items_canonical(s: Seq<u8>, pos: int, done: Seq<Value>)
    requires
        forall|i: int| 0 <= i < done.len() ==> canonical(#[trigger] done[i]),
    ensures
        parse_items(s, pos, done) is Ok ==> forall|i: int|
            0 <= i < parse_items(s, pos, done)->Ok_0.0.len() ==> canonical(
                #[trigger] parse_items(s, pos, done)->Ok_0.0[i],
            ),
    decreases s.len() - pos, 1int,
{
    if 0 <= pos < s.len() && s[pos] != 101u8 {
        lemma_parse_canonical(s, pos);
        match parse_value(s, pos) {
            Ok((v, next)) => {
                if pos < next <= s.len() {
                    lemma_parse_items_canonical(s, next, done.push(v));
                }
            },
            Err(_) => {},
        }
    }
}

proof fn lemma_parse_entries_canonical(s: Seq<u8>, pos: int, done: Seq<Entry>)
    requires
        sorted(done),
        forall|i: int| 0 <= i < done.len() ==> canonical((#[trigger] done[i]).value),
    ensures
        parse_entries(s, pos, done) is Ok ==> sorted(parse_entries(s, pos, done)->Ok_0.0)
            && forall|i: int|
            0 <= i < parse_entries(s, pos, done)->Ok_0.0.len() ==> canonical(
                (#[trigger] parse_entries(s, pos, done)->Ok_0.0[i]).value,
            ),
    decreases s.len() - pos, 1int,
{
    if 0 <= pos < s.len() && s[pos] != 101u8 && is_digit(s[pos]) {
        match parse_bytes(s, pos) {
            Ok((key, mid)) => {
                if pos < mid <= s.len() {
                    lemma_parse_canonical(s, mid);
                    match parse_value(s, mid) {
                        Ok((v, next)) => {
                            if mid < next <= s.len() {
                                lemma_insert_sorted(done, key, v);
                                lemma_slot(done, key, 0);
                                let after = dict_insert(done, key, v);
                                assert forall|i: int| 0 <= i < after.len() implies canonical(
                                    (#[trigger] after[i]).value,
                                ) by {
                                    let at = slot_from(done, key, 0);
                                    if i < at {
                                        assert(after[i] == done[i]);
                                    } else if i == at {
                                        assert(after[i].value == v);
                                    } else if after.len() == done.len() {
                                        assert(after[i] == done[i]);
                                    } else {
                                        assert(after[i] == done[i - 1]);
                                    }
                                }
                                lemma_parse_entries_canonical(s, next, after);
                            }
                        },
                        Err(_) => {},
                    }
                }
            },
            Err(_) => {},
        }
    }
}

// ---------------------------------------------------------------------------
// A dictionary does not depend on the order in which it was filled
// ---------------------------------------------------------------------------

/// The entries of a dictionary after a key was set: the entry set, and the old
/// entries with other keys.
pub proof fn lemma_insert_members(d: Seq<Entry>, key: Seq<u8>, value: Value)
    requires
        sorted(d),
    ensures
        forall|e: Entry| #[trigger]
            dict_insert(d, key, value).contains(e) <==> (e == (Entry { key, value }) || (
            d.contains(e) && e.key != key)),
{
    lemma_slot(d, key, 0);
    let i = slot_from(d, key, 0);
    let r = dict_insert(d, key, value);
    let new = Entry { key, value };
    let replaced = i < d.len() && !bytes_lt(key, d[i].key);
    if replaced {
        if d[i].key != key {
            lemma_lt_total(d[i].key, key);
        }
    }
    assert forall|j: int| 0 <= j < d.len() && !(replaced && j == i) implies (#[trigger] d[j]).key
        != key by {
        lemma_lt_irreflexive(key);
        if j < i {
        } else if replaced {
            assert(bytes_lt(d[i].key, d[j].key));
        } else if j > i {
            lemma_lt_transitive(key, d[i].key, d[j].key);
        }
    }
    assert(r[i] == new);
    assert forall|e: Entry| #[trigger] r.contains(e) implies (e == new || (d.contains(e) && e.key
        != key)) by {
        let j = choose|j: int| 0 <= j < r.len() && r[j] == e;
        if j != i {
            if replaced {
                assert(e == d[j]);
            } else if j < i {
                assert(e == d[j]);
            } else {
                assert(e == d[j - 1]);
            }
        }
    }
    assert forall|e: Entry| (e == new || (d.contains(e) && e.key != key)) implies #[trigger]
        r.contains(e) by {
        if e != new {
            let j = choose|j: int| 0 <= j < d.len() && d[j] == e;
            if replaced || j < i {
                assert(r[j] == e);
            } else {
                assert(r[j + 1] == e);
            }
        }
    }
}

/// Two dictionaries with their keys in order that hold the same entries are
/// one and the same.
pub proof fn lemma_sorted_unique(a: Seq<Entry>, b: Seq<Entry>)
    requires
        sorted(a),
        sorted(b),
        forall|e: Entry| a.contains(e) <==> b.contains(e),
    ensures
        a == b,
    decreases a.len(),
{
    if a.len() == 0 {
        if b.len() > 0 {
            assert(b.contains(b[0]));
        }
        assert(a =~= b);
    } else {
        let x = a.last();
        assert(a.contains(x));
        assert(b.contains(x));
        let y = b.last();
        assert(b.contains(y));
        assert(a.contains(y));
        let j = choose|j: int| 0 <= j < b.len() && b[j] == x;
        let i = choose|i: int| 0 <= i < a.len() && a[i] == y;
        if j < b.len() - 1 {
            assert(bytes_lt(b[j].key, b[b.len() - 1].key));
            if i < a.len() - 1 {
                assert(bytes_lt(a[i].key, a[a.len() - 1].key));
                lemma_lt_asymmetric(x.key, y.key);
            } else {
                lemma_lt_irreflexive(x.key);
            }
        }
        assert(x == y);
        let shorter_a = a.drop_last();
        let shorter_b = b.drop_last();
        lemma_members_without_last(a);
        lemma_members_without_last(b);
        assert forall|e: Entry| shorter_a.contains(e) <==> shorter_b.contains(e) by {
            assert(shorter_a.contains(e) <==> (a.contains(e) && e != x));
            assert(shorter_b.contains(e) <==> (b.contains(e) && e != y));
        }
        assert(sorted(shorter_a)) by {
            assert forall|p: int, q: int| 0 <= p < q < shorter_a.len() implies bytes_lt(
                (#[trigger] shorter_a[p]).key,
                (#[trigger] shorter_a[q]).key,
            ) by {
                assert(shorter_a[p] == a[p] && shorter_a[q] == a[q]);
            }
        }
        assert(sorted(shorter_b)) by {
            assert forall|p: int, q: int| 0 <= p < q < shorter_b.len() implies bytes_lt(
                (#[trigger] shorter_b[p]).key,
                (#[trigger] shorter_b[q]).key,
            ) by {
                assert(shorter_b[p] == b[p] && shorter_b[q] == b[q]);
            }
        }
        lemma_sorted_unique(shorter_a, shorter_b);
        assert(a =~= shorter_a.push(x));
        assert(b =~= shorter_b.push(y));
    }
}

/// The entries in front of the last are the entries other than the last.
proof fn lemma_members_without_last(a: Seq<Entry>)
    requires
        sorted(a),
        a.len() > 0,
    ensures
        forall|e: Entry| #[trigger]
            a.drop_last().contains(e) <==> (a.contains(e) && e != a.last()),
{
    let shorter = a.drop_last();
    assert forall|e: Entry| #[trigger] shorter.contains(e) implies (a.contains(e) && e
        != a.last()) by {
        let k = choose|k: int| 0 <= k < shorter.len() && shorter[k] == e;
        assert(a[k] == e);
        assert(bytes_lt(a[k].key, a[a.len() - 1].key));
        lemma_lt_irreflexive(e.key);
    }
    assert forall|e: Entry| (a.contains(e) && e != a.last()) implies #[trigger] shorter.contains(
        e,
    ) by {
        let k = choose|k: int| 0 <= k < a.len() && a[k] == e;
        assert(shorter[k] == e);
    }
}

/// Setting two different keys in a dictionary gives the same dictionary in
/// either order, and so the same encoding.
pub proof fn lemma_insert_commutes(
    d: Seq<Entry>,
    k1: Seq<u8>,
    v1: Value,
    k2: Seq<u8>,
    v2: Value,
)
    requires
        sorted(d),
        k1 != k2,
    ensures
        dict_insert(dict_insert(d, k1, v1), k2, v2) == dict_insert(dict_insert(d, k2, v2), k1, v1),
        encoding(Value::Dict(dict_insert(dict_insert(d, k1, v1), k2, v2))) == encoding(
            Value::Dict(dict_insert(dict_insert(d, k2, v2), k1, v1)),
        ),
{
    let d1 = dict_insert(d, k1, v1);
    let d2 = dict_insert(d, k2, v2);
    let d12 = dict_insert(d1, k2, v2);
    let d21 = dict_insert(d2, k1, v1);
    lemma_insert_sorted(d, k1, v1);
    lemma_insert_sorted(d, k2, v2);
    lemma_insert_sorted(d1, k2, v2);
    lemma_insert_sorted(d2, k1, v1);
    lemma_insert_members(d, k1, v1);
    lemma_insert_members(d, k2, v2);
    lemma_insert_members(d1, k2, v2);
    lemma_insert_members(d2, k1, v1);
    assert forall|e: Entry| d12.contains(e) <==> d21.contains(e) by {
        assert(d1.contains(e) <==> (e == (Entry { key: k1, value: v1 }) || (d.contains(e) && e.key
            != k1)));
        assert(d2.contains(e) <==> (e == (Entry { key: k2, value: v2 }) || (d.contains(e) && e.key
            != k2)));
    }
    lemma_sorted_unique(d12, d21);
}

/// The dictionary that comes of setting the first `n` of the given entries, one
/// after the other, in an empty dictionary.
pub open spec fn built(entries: Seq<Entry>, n: nat) -> Seq<Entry>
    decreases n,
{
    if n == 0 || n > entries.len() {
        Seq::empty()
    } else {
        dict_insert(built(entries, (n - 1) as nat), entries[n - 1].key, entries[n - 1].value)
    }
}

/// Whether no two of the entries have the same key.
pub open spec fn distinct_keys(entries: Seq<Entry>) -> bool {
    forall|i: int, j: int|
        0 <= i < entries.len() && 0 <= j < entries.len() && i != j ==> (#[trigger] entries[i]).key
            != (#[trigger] entries[j]).key
}

/// A dictionary built from entries with different keys has its keys in order
/// and holds just those entries.
pub proof fn lemma_built(entries: Seq<Entry>, n: nat)
    requires
        distinct_keys(entries),
        n <= entries.len(),
    ensures
        sorted(built(entries, n)),
        forall|e: Entry| #[trigger]
            built(entries, n).contains(e) <==> entries.take(n as int).contains(e),
    decreases n,
{
    let now = built(entries, n);
    let taken = entries.take(n as int);
    if n == 0 {
        assert forall|e: Entry| #[trigger] now.contains(e) <==> taken.contains(e) by {
            if now.contains(e) {
                let i = choose|i: int| 0 <= i < now.len() && now[i] == e;
            }
            if taken.contains(e) {
                let i = choose|i: int| 0 <= i < taken.len() && taken[i] == e;
            }
        }
    } else {
        let before = built(entries, (n - 1) as nat);
        let shorter = entries.take(n - 1);
        let new = entries[n - 1];
        lemma_built(entries, (n - 1) as nat);
        lemma_insert_sorted(before, new.key, new.value);
        lemma_insert_members(before, new.key, new.value);
        assert forall|e: Entry| #[trigger] now.contains(e) implies taken.contains(e) by {
            if e == new {
                assert(taken[n - 1] == e);
            } else {
                assert(before.contains(e));
                assert(shorter.contains(e));
                let i = choose|i: int| 0 <= i < shorter.len() && shorter[i] == e;
                assert(taken[i] == e);
            }
        }
        assert forall|e: Entry| #[trigger] taken.contains(e) implies now.contains(e) by {
            let i = choose|i: int| 0 <= i < taken.len() && taken[i] == e;
            if i < n - 1 {
                assert(shorter[i] == e);
                assert(shorter.contains(e));
                assert(entries[i].key != entries[n - 1].key);
            } else {
                assert(e == new);
            }
        }
    }
}

/// The order of insertion does not matter: two runs of entries with different
/// keys that hold the same entries build the same dictionary, with the same
/// encoding.
pub proof fn lemma_order_of_insertion(first: Seq<Entry>, second: Seq<Entry>)
    requires
        distinct_keys(first),
        distinct_keys(second),
        forall|e: Entry| first.contains(e) <==> second.contains(e),
    ensures
        built(first, first.len()) == built(second, second.len()),
        encoding(Value::Dict(built(first, first.len()))) == encoding(
            Value::Dict(built(second, second.len())),
        ),
{
    lemma_built(first, first.len());
    lemma_built(second, second.len());
    assert(first.take(first.len() as int) =~= first);
    assert(second.take(second.len() as int) =~= second);
    let a = built(first, first.len());
    let b = built(second, second.len());
    assert forall|e: Entry| a.contains(e) <==> b.contains(e) by {
        assert(a.contains(e) <==> first.contains(e));
        assert(b.contains(e) <==> second.contains(e));
    }
    lemma_sorted_unique(a, b);
}

// ---------------------------------------------------------------------------
// What a dictionary holds for a key
// ---------------------------------------------------------------------------

/// In a dictionary with its keys in order no key stands twice.
pub proof fn lemma_keys_differ(d: Seq<Entry>, i: int, j: int)
    requires
        sorted(d),
        0 <= i < d.len(),
        0 <= j < d.len(),
        i != j,
    ensures
        d[i].key != d[j].key,
{
    lemma_lt_irreflexive(d[i].key);
    if i < j {
        assert(bytes_lt(d[i].key, d[j].key));
    } else {
        assert(bytes_lt(d[j].key, d[i].key));
    }
}

proof fn lemma_lookup_found(d: Seq<Entry>, q: Seq<u8>, from: int, i: int)
    requires
        0 <= from <= i < d.len(),
        d[i].key == q,
        forall|j: int| from <= j < i ==> (#[trigger] d[j]).key != q,
    ensures
        lookup_from(d, q, from) == Some(d[i].value),
    decreases i - from,
{
    if from < i {
        lemma_lookup_found(d, q, from + 1, i);
    }
}

proof fn lemma_lookup_none(d: Seq<Entry>, q: Seq<u8>, from: int)
    requires
        0 <= from,
        forall|j: int| from <= j < d.len() ==> (#[trigger] d[j]).key != q,
    ensures
        lookup_from(d, q, from) is None,
    decreases d.len() - from,
{
    if from < d.len() {
        lemma_lookup_none(d, q, from + 1);
    }
}

/// What a dictionary with its keys in order holds for a key: the value of the
/// entry with that key, or nothing if no entry has it.
pub proof fn lemma_lookup(d: Seq<Entry>, q: Seq<u8>)
    requires
        sorted(d),
    ensures
        forall|i: int| 0 <= i < d.len() && (#[trigger] d[i]).key == q ==> lookup(d, q) == Some(
            d[i].value,
        ),
        (forall|i: int| 0 <= i < d.len() ==> (#[trigger] d[i]).key != q) ==> lookup(d, q) is None,
{
    assert forall|i: int| 0 <= i < d.len() && (#[trigger] d[i]).key == q implies lookup(d, q)
        == Some(d[i].value) by {
        assert forall|j: int| 0 <= j < i implies (#[trigger] d[j]).key != q by {
            lemma_keys_differ(d, i, j);
        }
        lemma_lookup_found(d, q, 0, i);
    }
    if forall|i: int| 0 <= i < d.len() ==> (#[trigger] d[i]).key != q {
        lemma_lookup_none(d, q, 0);
    }
}

/// After a key was set, the dictionary holds the new value for it, and for
/// every other key what it held before.
pub proof fn lemma_lookup_after_insert(d: Seq<Entry>, key: Seq<u8>, value: Value, q: Seq<u8>)
    requires
        sorted(d),
    ensures
        lookup(dict_insert(d, key, value), q) == if q == key {
            Some(value)
        } else {
            lookup(d, q)
        },
{
    let r = dict_insert(d, key, value);
    let new = Entry { key, value };
    lemma_insert_sorted(d, key, value);
    lemma_insert_members(d, key, value);
    lemma_lookup(r, q);
    lemma_lookup(d, q);
    if q == key {
        assert(r.contains(new));
        let i = choose|i: int| 0 <= i < r.len() && r[i] == new;
        assert(r[i].key == q);
    } else if exists|j: int| 0 <= j < d.len() && (#[trigger] d[j]).key == q {
        let j = choose|j: int| 0 <= j < d.len() && (#[trigger] d[j]).key == q;
        assert(d.contains(d[j]));
        assert(r.contains(d[j]));
        let i = choose|i: int| 0 <= i < r.len() && r[i] == d[j];
        assert(r[i].key == q);
    } else {
        assert forall|i: int| 0 <= i < r.len() implies (#[trigger] r[i]).key != q by {
            assert(r.contains(r[i]));
            if r[i] != new {
                assert(d.contains(r[i]));
                let j = choose|j: int| 0 <= j < d.len() && d[j] == r[i];
                assert(d[j].key != q);
            }
        }
    }
}

// ---------------------------------------------------------------------------
// Telling whether a value is canonical
// ---------------------------------------------------------------------------

/// A list is canonical exactly if each of its items is.
pub proof fn lemma_canonical_list(items: Seq<Value>)
    ensures
        canonical(Value::List(items)) <==> forall|i: int|
            0 <= i < items.len() ==> canonical(#[trigger] items[i]),
{
    let v = Value::List(items);
    assert(v->List_0 == items);
    if canonical(v) {
        assert forall|i: int| 0 <= i < items.len() implies canonical(#[trigger] items[i]) by {
            lemma_canonical_item(items, i);
        }
    }
}

/// A dictionary is canonical exactly if its keys are in order and each of its
/// values is canonical.
pub proof fn lemma_canonical_dict(entries: Seq<Entry>)
    ensures
        canonical(Value::Dict(entries)) <==> (sorted(entries) && forall|i: int|
            0 <= i < entries.len() ==> canonical((#[trigger] entries[i]).value)),
{
    let v = Value::Dict(entries);
    assert(v->Dict_0 == entries);
    if canonical(v) {
        assert forall|i: int| 0 <= i < entries.len() implies canonical(
            (#[trigger] entries[i]).value,
        ) by {
            assert(canonical(v->Dict_0[i].value));
        }
    }
}

/// Whether the keys of a dictionary's entries are in strictly ascending order.
pub fn entries_sorted(entries: &Vec<DictEntry>) -> (r: bool)
    ensures
        r == sorted(entries_model(entries@)),
{
    let ghost model = entries_model(entries@);
    let mut i: usize = 1;
    while i < entries.len()
        invariant
            1 <= i,
            model == entries_model(entries@),
            forall|a: int, b: int|
                0 <= a < b < i && b < model.len() ==> bytes_lt(
                    (#[trigger] model[a]).key,
                    (#[trigger] model[b]).key,
                ),
        decreases entries@.len() - i,
    {
        if !bytes_less(entries[i - 1].key.as_slice(), entries[i].key.as_slice()) {
            assert(!bytes_lt(model[i - 1].key, model[i as int].key));
            return false;
        }
        proof {
            assert forall|a: int, b: int| 0 <= a < b < i + 1 && b < model.len() implies bytes_lt(
                (#[trigger] model[a]).key,
                (#[trigger] model[b]).key,
            ) by {
                if b == i && a < i - 1 {
                    lemma_lt_transitive(model[a].key, model[i - 1].key, model[i as int].key);
                }
            }
        }
        i = i + 1;
    }
    true
}

/// Whether a value is canonical, and so may be encoded.
pub fn is_canonical(v: &BencodeValue) -> (r: bool)
    ensures
        r == canonical(v@),
    decreases v,
{
    match v {
        BencodeValue::Integer(_) => true,
        BencodeValue::ByteString(_) => true,
        BencodeValue::List(items) => {
            let ghost model = items_model(items@);
            proof {
                lemma_list_view(*items);
                lemma_canonical_list(model);
            }
            let mut i: usize = 0;
            while i < items.len()
                invariant
                    i <= items@.len(),
                    model == items_model(items@),
                    decreases_to!(v => *items),
                    forall|j: int| 0 <= j < i ==> canonical(#[trigger] model[j]),
                    canonical(v@) ==> forall|j: int|
                        0 <= j < model.len() ==> canonical(#[trigger] model[j]),
                decreases items@.len() - i,
            {
                assert(decreases_to!(*items => items[i as int]));
                assert(model[i as int] == items[i as int]@);
                if !is_canonical(&items[i]) {
                    return false;
                }
                i = i + 1;
            }
            true
        },
        BencodeValue::Dictionary(entries) => {
            let ghost model = entries_model(entries@);
            proof {
                lemma_dictionary_view(*entries);
                lemma_canonical_dict(model);
            }
            if !entries_sorted(entries) {
                return false;
            }
            let mut i: usize = 0;
            while i < entries.len()
                invariant
                    i <= entries@.len(),
                    model == entries_model(entries@),
                    decreases_to!(v => *entries),
                    forall|j: int| 0 <= j < i ==> canonical((#[trigger] model[j]).value),
                    canonical(v@) ==> forall|j: int|
                        0 <= j < model.len() ==> canonical((#[trigger] model[j]).value),
                decreases entries@.len() - i,
            {
                assert(decreases_to!(*entries => entries[i as int]));
                assert(model[i as int].value == entries[i as int].value@);
                if !is_canonical(&entries[i].value) {
                    return false;
                }
                i = i + 1;
            }
            true
        },
    }
}

/// Builds a dictionary from entries given in any order: each is set in turn, so
/// that the keys come to stand in ascending order, and of two entries with one
/// key the later stays.
pub fn dictionary_of(entries: Vec<DictEntry>) -> (v: BencodeValue)
    ensures
        v@ == Value::Dict(built(entries_model(entries@), entries@.len())),
        sorted(built(entries_model(entries@), entries@.len())),
        (forall|i: int| 0 <= i < entries@.len() ==> canonical((#[trigger] entries@[i]).value@))
            ==> canonical(v@),
{
    let ghost all = entries_model(entries@);
    let ghost fine = forall|i: int| 0 <= i < all.len() ==> canonical((#[trigger] all[i]).value);
    let mut rest = entries;
    let count: usize = rest.len();
    let mut out: Vec<DictEntry> = Vec::new();
    let mut n: usize = 0;
    proof {
        assert(entries_model(rest@) =~= all.skip(0));
        assert(entries_model(out@) =~= built(all, 0));
        if forall|i: int| 0 <= i < entries@.len() ==> canonical((#[trigger] entries@[i]).value@) {
            assert forall|i: int| 0 <= i < all.len() implies canonical(
                (#[trigger] all[i]).value,
            ) by {
                assert(all[i].value == entries@[i].value@);
            }
        }
    }
    while rest.len() > 0
        invariant
            n + rest@.len() == all.len(),
            all.len() == count,
            entries_model(rest@) == all.skip(n as int),
            entries_model(out@) == built(all, n as nat),
            sorted(entries_model(out@)),
            fine == (forall|i: int| 0 <= i < all.len() ==> canonical((#[trigger] all[i]).value)),
            fine ==> forall|i: int|
                0 <= i < out@.len() ==> canonical((#[trigger] entries_model(out@)[i]).value),
        decreases rest@.len(),
    {
        let ghost before = entries_model(out@);
        let ghost waiting = entries_model(rest@);
        let ghost held = rest@;
        let entry = rest.remove(0);
        let DictEntry { key, value } = entry;
        proof {
            assert(waiting[0] == all[n as int]);
            assert(key@ == all[n as int].key);
            assert(value@ == all[n as int].value);
            assert forall|j: int| 0 <= j < rest@.len() implies entries_model(rest@)[j] == all.skip(
                n + 1,
            )[j] by {
                assert(rest@[j] == held[j + 1]);
                assert(waiting[j + 1] == all[n + 1 + j]);
            }
            assert(entries_model(rest@) =~= all.skip(n + 1));
            lemma_insert_members(before, key@, value@);
        }
        insert_entry(&mut out, key, value);
        proof {
            let after = entries_model(out@);
            if fine {
                assert forall|i: int| 0 <= i < after.len() implies canonical(
                    (#[trigger] after[i]).value,
                ) by {
                    assert(after.contains(after[i]));
                    if after[i] != (Entry { key: all[n as int].key, value: all[n as int].value }) {
                        assert(before.contains(after[i]));
                        let j = choose|j: int| 0 <= j < before.len() && before[j] == after[i];
                    }
                }
            }
        }
        n = n + 1;
    }
    proof {
        lemma_dictionary_view(out);
        lemma_canonical_dict(entries_model(out@));
    }
    BencodeValue::Dictionary(out)
}

} // verus!
