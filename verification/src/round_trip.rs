//! Laws of the codec: reading the canonical bytes of a value gives the value
//! back.

use vstd::prelude::*;
use crate::decimal::{
    decimal_int, decimal_nat, is_digit, lemma_decimal_nat_denotes, lemma_parse_decimal_int,
};
use crate::grammar::{
    bytes_lt, dict_insert, dict_of, encoding, encoding_bytes, encoding_entries, encoding_items,
    lemma_first_index, lemma_parse_value_sound, parse_items, parse_pairs, parse_value, sorted,
    well_formed, Bencode, DecodeError,
    COLON,
    DICT, END, INT, LIST,
};

verus! {

/// The canonical bytes of a value are not empty and start with a digit, `i`,
/// `l` or `d`.
pub proof fn lemma_encoding_head(v: Bencode)
    ensures
        encoding(v).len() >= 2,
        is_digit(encoding(v)[0]) || encoding(v)[0] == INT || encoding(v)[0] == LIST || encoding(
            v,
        )[0] == DICT,
{
    match v {
        Bencode::Bytes(b) => {
            lemma_decimal_nat_denotes(b.len());
            assert(encoding(v)[0] == decimal_nat(b.len())[0]);
        },
        Bencode::Int(n) => {},
        Bencode::List(items) => {},
        Bencode::Dict(entries) => {},
    }
}

/// Reading the canonical bytes of a byte string, whatever follows them, gives
/// the byte string back and takes up exactly those bytes.
pub proof fn lemma_round_trip_bytes(b: Seq<u8>, tail: Seq<u8>)
    ensures
        parse_value(encoding_bytes(b) + tail) == Ok::<(Bencode, int), DecodeError>(
            (Bencode::Bytes(b), encoding_bytes(b).len() as int),
        ),
{
    let digits = decimal_nat(b.len());
    let s = encoding_bytes(b) + tail;
    let c = digits.len() as int;
    lemma_decimal_nat_denotes(b.len());
    assert(s[0] == digits[0]);
    assert forall|j: int| 0 <= j < c implies s[j] != COLON by {
        assert(s[j] == digits[j]);
    }
    assert(s[c] == COLON);
    lemma_first_index(s, COLON, c);
    assert(s.subrange(0, c) =~= digits);
    assert(s.subrange(c + 1, c + 1 + b.len()) =~= b);
}

/// Reading the canonical bytes of a 64-bit integer, whatever follows them,
/// gives the integer back and takes up exactly those bytes.
pub proof fn lemma_round_trip_int(n: int, tail: Seq<u8>)
    requires
        i64::MIN <= n <= i64::MAX,
    ensures
        parse_value(encoding(Bencode::Int(n)) + tail) == Ok::<(Bencode, int), DecodeError>(
            (Bencode::Int(n), encoding(Bencode::Int(n)).len() as int),
        ),
{
    let number = decimal_int(n);
    let s = encoding(Bencode::Int(n)) + tail;
    let e = 1 + number.len() as int;
    lemma_parse_decimal_int(n);
    assert(s[0] == INT);
    assert forall|j: int| 0 <= j < e implies s[j] != END by {
        if j > 0 {
            assert(s[j] == number[j - 1]);
        }
    }
    assert(s[e] == END);
    lemma_first_index(s, END, e);
    assert(s.subrange(1, e) =~= number);
}

/// A sorted run of pairs is the dictionary that it makes.
pub proof fn lemma_dict_of_sorted(entries: Seq<(Seq<u8>, Bencode)>)
    requires
        sorted(entries),
    ensures
        dict_of(entries) == entries,
    decreases entries.len(),
{
    if entries.len() > 0 {
        let front = entries.drop_last();
        assert(sorted(front));
        lemma_dict_of_sorted(front);
        if front.len() > 0 {
            assert(front.last() == entries[entries.len() - 2]);
            assert(bytes_lt(entries[entries.len() - 2].0, entries[entries.len() - 1].0));
        }
        assert(dict_insert(front, entries.last().0, entries.last().1) =~= entries);
    } else {
        assert(entries =~= Seq::empty());
    }
}

/// Reading the canonical bytes of a well-formed value, whatever follows
/// them, gives the value back and takes up exactly those bytes.
pub proof fn lemma_round_trip(v: Bencode, tail: Seq<u8>)
    requires
        well_formed(v),
    ensures
        parse_value(encoding(v) + tail) == Ok::<(Bencode, int), DecodeError>((v, encoding(v).len() as int)),
    decreases v, 0nat,
{
    let s = encoding(v) + tail;
    match v {
        Bencode::Bytes(b) => {
            lemma_round_trip_bytes(b, tail);
        },
        Bencode::Int(n) => {
            lemma_round_trip_int(n, tail);
        },
        Bencode::List(items) => {
            lemma_round_trip_items(items, 0, tail);
            assert(s[0] == LIST);
            assert(s.skip(1) =~= encoding_items(items, 0) + seq![END] + tail);
            assert(items.skip(0) =~= items);
        },
        Bencode::Dict(entries) => {
            lemma_round_trip_entries(entries, 0, tail);
            assert(s[0] == DICT);
            assert(s.skip(1) =~= encoding_entries(entries, 0) + seq![END] + tail);
            assert(entries.skip(0) =~= entries);
            lemma_dict_of_sorted(entries);
        },
    }
}

/// Reading the canonical bytes of the items from `from` on, closed by `e`,
/// gives those items back.
pub proof fn lemma_round_trip_items(items: Seq<Bencode>, from: nat, tail: Seq<u8>)
    requires
        forall|i: int| 0 <= i < items.len() ==> well_formed(#[trigger] items[i]),
        from <= items.len(),
    ensures
        parse_items(encoding_items(items, from) + seq![END] + tail) == Ok::<
            (Seq<Bencode>, int),
            DecodeError,
        >((items.skip(from as int), (encoding_items(items, from).len() + 1) as int)),
    decreases items, items.len() - from,
{
    let s = encoding_items(items, from) + seq![END] + tail;
    if from >= items.len() {
        assert(s[0] == END);
        assert(items.skip(from as int) =~= Seq::<Bencode>::empty());
    } else {
        let item = items[from as int];
        let rest = encoding_items(items, from + 1) + seq![END] + tail;
        let n = encoding(item).len() as int;
        lemma_encoding_head(item);
        assert(s =~= encoding(item) + rest);
        assert(s[0] == encoding(item)[0]);
        lemma_round_trip(item, rest);
        assert(s.skip(n) =~= rest);
        lemma_round_trip_items(items, from + 1, tail);
        assert(seq![item] + items.skip(from + 1 as int) =~= items.skip(from as int));
    }
}

/// Reading the canonical bytes of the entries from `from` on, closed by `e`,
/// gives those entries back as pairs.
pub proof fn lemma_round_trip_entries(entries: Seq<(Seq<u8>, Bencode)>, from: nat, tail: Seq<u8>)
    requires
        forall|i: int| 0 <= i < entries.len() ==> well_formed((#[trigger] entries[i]).1),
        from <= entries.len(),
    ensures
        parse_pairs(encoding_entries(entries, from) + seq![END] + tail) == Ok::<
            (Seq<(Seq<u8>, Bencode)>, int),
            DecodeError,
        >((entries.skip(from as int), (encoding_entries(entries, from).len() + 1) as int)),
    decreases entries, entries.len() - from,
{
    let s = encoding_entries(entries, from) + seq![END] + tail;
    if from >= entries.len() {
        assert(s[0] == END);
        assert(entries.skip(from as int) =~= Seq::<(Seq<u8>, Bencode)>::empty());
    } else {
        let entry = entries[from as int];
        let rest = encoding_entries(entries, from + 1) + seq![END] + tail;
        let after_key = encoding(entry.1) + rest;
        let n = encoding_bytes(entry.0).len() as int;
        let m = encoding(entry.1).len() as int;
        lemma_encoding_head(Bencode::Bytes(entry.0));
        lemma_encoding_head(entry.1);
        assert(s =~= encoding_bytes(entry.0) + after_key);
        assert(s[0] == encoding_bytes(entry.0)[0]);
        lemma_round_trip_bytes(entry.0, after_key);
        assert(s.skip(n) =~= after_key);
        lemma_round_trip(entry.1, rest);
        assert(after_key.skip(m) =~= rest);
        assert(s.skip(n + m) =~= rest);
        lemma_round_trip_entries(entries, from + 1, tail);
        assert(seq![(entry.0, entry.1)] + entries.skip(from + 1 as int) =~= entries.skip(from as int));
    }
}

/// The canonical bytes of a value that was read from a stream read back as
/// that value, with nothing left over.
pub proof fn lemma_decode_encode(s: Seq<u8>)
    ensures
        parse_value(s) matches Ok((v, _)) ==> parse_value(encoding(v)) == Ok::<
            (Bencode, int),
            DecodeError,
        >((v, encoding(v).len() as int)),
{
    if let Ok((v, n)) = parse_value(s) {
        lemma_parse_value_sound(s);
        lemma_round_trip(v, Seq::empty());
        assert(encoding(v) + Seq::<u8>::empty() =~= encoding(v));
    }
}

/// The canonical bytes of a well-formed dictionary hold its pairs in
/// ascending raw byte order of their keys, each key once.
pub proof fn lemma_canonical_emission(entries: Seq<(Seq<u8>, Bencode)>)
    requires
        well_formed(Bencode::Dict(entries)),
    ensures
        encoding(Bencode::Dict(entries))[0] == DICT,
        parse_pairs(encoding(Bencode::Dict(entries)).skip(1)) == Ok::<
            (Seq<(Seq<u8>, Bencode)>, int),
            DecodeError,
        >((entries, encoding(Bencode::Dict(entries)).len() - 1)),
        forall|i: int, j: int|
            0 <= i < j < entries.len() ==> bytes_lt(#[trigger] entries[i].0, #[trigger] entries[j].0),
{
    let bytes = encoding(Bencode::Dict(entries));
    lemma_round_trip_entries(entries, 0, Seq::empty());
    assert(bytes.skip(1) =~= encoding_entries(entries, 0) + seq![END] + Seq::<u8>::empty());
    assert(entries.skip(0) =~= entries);
}

} // verus!
