//! The bencode grammar as mathematics: what a byte stream denotes, and the
//! canonical bytes of a value.

use vstd::prelude::*;
use vstd::utf8::{decode_utf8, valid_utf8};
use crate::decimal::{
    all_digits, decimal_int, decimal_int_text, decimal_nat, digits_value, is_digit, parse_int,
};
use crate::text::{byte_list_text, str_debug};

verus! {

/// The mathematical value that a piece of bencode denotes.
pub enum Bencode {
    Bytes(Seq<u8>),
    Int(int),
    List(Seq<Bencode>),
    Dict(Seq<(Seq<u8>, Bencode)>),
}

/// Why a byte stream is not bencode.
#[derive(Debug, Clone, Copy, PartialEq, Eq, Structural)]
pub enum DecodeError {
    /// A value was expected where the input ends.
    EmptyInput,
    /// The first byte of a value starts none of the four kinds.
    InvalidLeadingByte,
    /// The `:` of a byte string, or the `e` of an integer, list or
    /// dictionary, is missing.
    MissingTerminator,
    /// A byte string declares more bytes than the input holds.
    LengthExceedsInput,
    /// A number is not ASCII decimal, or an integer does not fit in 64 bits.
    InvalidNumber,
    /// A dictionary key is not a byte string.
    NonStringKey,
    /// The value was read from text, and the unread rest of the text does not
    /// start at a character boundary.
    RestNotText,
}

/// The byte `:`.
pub const COLON: u8 = 58;

/// The byte `d`.
pub const DICT: u8 = 100;

/// The byte `e`.
pub const END: u8 = 101;

/// The byte `i`.
pub const INT: u8 = 105;

/// The byte `l`.
pub const LIST: u8 = 108;

/// Raw byte order: `a` comes strictly before `b` when, at the first position
/// where they differ, `a` has the smaller byte, or when `a` is a proper
/// prefix of `b`.
pub open spec fn bytes_lt(a: Seq<u8>, b: Seq<u8>) -> bool
    decreases a.len(),
{
    if b.len() == 0 {
        false
    } else if a.len() == 0 {
        true
    } else if a[0] != b[0] {
        a[0] < b[0]
    } else {
        bytes_lt(a.skip(1), b.skip(1))
    }
}

/// Whether the keys of `d` ascend strictly in raw byte order.
pub open spec fn sorted(d: Seq<(Seq<u8>, Bencode)>) -> bool {
    forall|i: int, j: int| 0 <= i < j < d.len() ==> bytes_lt(#[trigger] d[i].0, #[trigger] d[j].0)
}

/// The dictionary `d` with `k` bound to `v`: an entry with the key `k` is
/// replaced, and a new key goes to its place in the order.
pub open spec fn dict_insert(d: Seq<(Seq<u8>, Bencode)>, k: Seq<u8>, v: Bencode) -> Seq<
    (Seq<u8>, Bencode),
>
    decreases d.len(),
{
    if d.len() == 0 {
        seq![(k, v)]
    } else if bytes_lt(d.last().0, k) {
        d.push((k, v))
    } else if d.last().0 == k {
        d.drop_last().push((k, v))
    } else {
        dict_insert(d.drop_last(), k, v).push(d.last())
    }
}

/// The dictionary that a stream's pairs make, taken in stream order: a key
/// that comes again replaces the earlier entry.
pub open spec fn dict_of(pairs: Seq<(Seq<u8>, Bencode)>) -> Seq<(Seq<u8>, Bencode)>
    decreases pairs.len(),
{
    if pairs.len() == 0 {
        Seq::empty()
    } else {
        dict_insert(dict_of(pairs.drop_last()), pairs.last().0, pairs.last().1)
    }
}

/// What `k` is bound to in the dictionary `d`.
pub open spec fn lookup(d: Seq<(Seq<u8>, Bencode)>, k: Seq<u8>) -> Option<Bencode> {
    if exists|i: int| 0 <= i < d.len() && d[i].0 == k {
        Some(d[choose|i: int| 0 <= i < d.len() && d[i].0 == k].1)
    } else {
        None
    }
}

/// In a sorted dictionary the entry with the key `k` is what `k` is bound to.
pub proof fn lemma_lookup_at(d: Seq<(Seq<u8>, Bencode)>, k: Seq<u8>, j: int)
    requires
        sorted(d),
        0 <= j < d.len(),
        d[j].0 == k,
    ensures
        lookup(d, k) == Some(d[j].1),
{
    let i = choose|i: int| 0 <= i < d.len() && d[i].0 == k;
    lemma_bytes_lt_irreflexive(k);
    if i < j {
        assert(bytes_lt(d[i].0, d[j].0));
    } else if j < i {
        assert(bytes_lt(d[j].0, d[i].0));
    }
}

/// The first position of `b` in `s`.
pub open spec fn first_index(s: Seq<u8>, b: u8) -> Option<int>
    decreases s.len(),
{
    if s.len() == 0 {
        None
    } else if s[0] == b {
        Some(0)
    } else {
        match first_index(s.skip(1), b) {
            Some(i) => Some(i + 1),
            None => None,
        }
    }
}

/// A byte string at the head of `s`: digits, `:`, then as many bytes as the
/// digits say.
pub open spec fn parse_byte_string(s: Seq<u8>) -> Result<(Bencode, int), DecodeError> {
    match first_index(s, COLON) {
        None => Err(DecodeError::MissingTerminator),
        Some(colon) => {
            let digits = s.subrange(0, colon);
            if !all_digits(digits) {
                Err(DecodeError::InvalidNumber)
            } else if colon + 1 + digits_value(digits) > s.len() {
                Err(DecodeError::LengthExceedsInput)
            } else {
                let end = colon + 1 + digits_value(digits);
                Ok((Bencode::Bytes(s.subrange(colon + 1, end)), end))
            }
        },
    }
}

/// An integer at the head of `s`: `i`, a decimal number, `e`.
pub open spec fn parse_integer(s: Seq<u8>) -> Result<(Bencode, int), DecodeError> {
    match first_index(s, END) {
        None => Err(DecodeError::MissingTerminator),
        Some(end) => match parse_int(s.subrange(1, end)) {
            None => Err(DecodeError::InvalidNumber),
            Some(n) => if i64::MIN <= n <= i64::MAX {
                Ok((Bencode::Int(n), end + 1))
            } else {
                Err(DecodeError::InvalidNumber)
            },
        },
    }
}

/// The value at the head of `s`, with the number of bytes that it takes up.
pub open spec fn parse_value(s: Seq<u8>) -> Result<(Bencode, int), DecodeError>
    decreases s.len(), 0int,
{
    if s.len() == 0 {
        Err(DecodeError::EmptyInput)
    } else if is_digit(s[0]) {
        parse_byte_string(s)
    } else if s[0] == INT {
        parse_integer(s)
    } else if s[0] == LIST {
        match parse_items(s.skip(1)) {
            Ok((items, n)) => Ok((Bencode::List(items), n + 1)),
            Err(e) => Err(e),
        }
    } else if s[0] == DICT {
        match parse_pairs(s.skip(1)) {
            Ok((pairs, n)) => Ok((Bencode::Dict(dict_of(pairs)), n + 1)),
            Err(e) => Err(e),
        }
    } else {
        Err(DecodeError::InvalidLeadingByte)
    }
}

/// The items of a list whose `l` has been read, up to and with its `e`.
pub open spec fn parse_items(s: Seq<u8>) -> Result<(Seq<Bencode>, int), DecodeError>
    decreases s.len(), 1int,
{
    if s.len() == 0 {
        Err(DecodeError::MissingTerminator)
    } else if s[0] == END {
        Ok((Seq::empty(), 1))
    } else {
        match parse_value(s) {
            Err(e) => Err(e),
            Ok((item, n)) => if 0 < n <= s.len() {
                match parse_items(s.skip(n)) {
                    Err(e) => Err(e),
                    Ok((items, m)) => Ok((seq![item] + items, n + m)),
                }
            } else {
                Err(DecodeError::EmptyInput)
            },
        }
    }
}

/// The pairs of a dictionary whose `d` has been read, in stream order, up to
/// and with its `e`.
pub open spec fn parse_pairs(s: Seq<u8>) -> Result<(Seq<(Seq<u8>, Bencode)>, int), DecodeError>
    decreases s.len(), 1int,
{
    if s.len() == 0 {
        Err(DecodeError::MissingTerminator)
    } else if s[0] == END {
        Ok((Seq::empty(), 1))
    } else {
        match parse_value(s) {
            Err(e) => Err(e),
            Ok((key, n)) => if 0 < n <= s.len() {
                match parse_value(s.skip(n)) {
                    Err(e) => Err(e),
                    Ok((value, m)) => if 0 < m <= s.len() - n {
                        match key {
                            Bencode::Bytes(k) => match parse_pairs(s.skip(n + m)) {
                                Err(e) => Err(e),
                                Ok((pairs, p)) => Ok((seq![(k, value)] + pairs, n + m + p)),
                            },
                            _ => Err(DecodeError::NonStringKey),
                        }
                    } else {
                        Err(DecodeError::EmptyInput)
                    },
                }
            } else {
                Err(DecodeError::EmptyInput)
            },
        }
    }
}

/// The canonical bytes of the byte string `b`: its length in decimal, `:`,
/// and the bytes.
pub open spec fn encoding_bytes(b: Seq<u8>) -> Seq<u8> {
    decimal_nat(b.len()) + seq![COLON] + b
}

/// The canonical bytes of `v`.
pub open spec fn encoding(v: Bencode) -> Seq<u8>
    decreases v, 0nat,
{
    match v {
        Bencode::Bytes(b) => encoding_bytes(b),
        Bencode::Int(n) => seq![INT] + decimal_int(n) + seq![END],
        Bencode::List(items) => seq![LIST] + encoding_items(items, 0) + seq![END],
        Bencode::Dict(entries) => seq![DICT] + encoding_entries(entries, 0) + seq![END],
    }
}

/// The canonical bytes of the items of `items` from position `from` on, one
/// after the other.
pub open spec fn encoding_items(items: Seq<Bencode>, from: nat) -> Seq<u8>
    decreases items, items.len() - from,
{
    if from >= items.len() {
        Seq::empty()
    } else {
        encoding(items[from as int]) + encoding_items(items, from + 1)
    }
}

/// The canonical bytes of the entries of `entries` from position `from` on:
/// each key as a byte string, then its value.
pub open spec fn encoding_entries(entries: Seq<(Seq<u8>, Bencode)>, from: nat) -> Seq<u8>
    decreases entries, entries.len() - from,
{
    if from >= entries.len() {
        Seq::empty()
    } else {
        encoding_bytes(entries[from as int].0) + encoding(entries[from as int].1)
            + encoding_entries(entries, from + 1)
    }
}

/// Whether `v` is a value that a parser can give: each integer fits in 64
/// bits, and the keys of each dictionary ascend strictly.
pub open spec fn well_formed(v: Bencode) -> bool
    decreases v,
{
    match v {
        Bencode::Bytes(_) => true,
        Bencode::Int(n) => i64::MIN <= n <= i64::MAX,
        Bencode::List(items) => forall|i: int|
            0 <= i < items.len() ==> well_formed(#[trigger] items[i]),
        Bencode::Dict(entries) => sorted(entries) && forall|i: int|
            0 <= i < entries.len() ==> well_formed((#[trigger] entries[i]).1),
    }
}


/// The first `b` of `s` stands at `p` when no earlier byte is `b` and `s[p]`
/// is; with no `b` before `p == s.len()`, `s` holds none.
pub proof fn lemma_first_index(s: Seq<u8>, b: u8, p: int)
    requires
        0 <= p <= s.len(),
        forall|j: int| 0 <= j < p ==> s[j] != b,
        p < s.len() ==> s[p] == b,
    ensures
        p < s.len() ==> first_index(s, b) == Some(p),
        p == s.len() ==> first_index(s, b) is None,
    decreases p,
{
    if p > 0 {
        let t = s.skip(1);
        assert forall|j: int| 0 <= j < p - 1 implies t[j] != b by {
            assert(t[j] == s[j + 1]);
        }
        lemma_first_index(t, b, p - 1);
    }
}

/// Where `first_index` finds `b`, it is the first one.
pub proof fn lemma_first_index_is_first(s: Seq<u8>, b: u8)
    ensures
        match first_index(s, b) {
            Some(p) => 0 <= p < s.len() && s[p] == b && forall|j: int| 0 <= j < p ==> s[j] != b,
            None => forall|j: int| 0 <= j < s.len() ==> s[j] != b,
        },
    decreases s.len(),
{
    if s.len() > 0 && s[0] != b {
        let t = s.skip(1);
        lemma_first_index_is_first(t, b);
        match first_index(t, b) {
            Some(q) => {
                assert forall|j: int| 0 <= j < q + 1 implies s[j] != b by {
                    if j > 0 {
                        assert(t[j - 1] == s[j]);
                    }
                }
            },
            None => {
                assert forall|j: int| 0 <= j < s.len() implies s[j] != b by {
                    if j > 0 {
                        assert(t[j - 1] == s[j]);
                    }
                }
            },
        }
    }
}

/// No byte string comes before itself.
pub proof fn lemma_bytes_lt_irreflexive(a: Seq<u8>)
    ensures
        !bytes_lt(a, a),
    decreases a.len(),
{
    if a.len() > 0 {
        lemma_bytes_lt_irreflexive(a.skip(1));
    }
}

/// Of two byte strings, at most one comes before the other.
pub proof fn lemma_bytes_lt_asymmetric(a: Seq<u8>, b: Seq<u8>)
    ensures
        !(bytes_lt(a, b) && bytes_lt(b, a)),
    decreases a.len(),
{
    if a.len() > 0 && b.len() > 0 && a[0] == b[0] {
        lemma_bytes_lt_asymmetric(a.skip(1), b.skip(1));
    }
}

/// Two different byte strings are ordered one way or the other.
pub proof fn lemma_bytes_lt_total(a: Seq<u8>, b: Seq<u8>)
    ensures
        bytes_lt(a, b) || bytes_lt(b, a) || a == b,
    decreases a.len(),
{
    if a.len() > 0 && b.len() > 0 && a[0] == b[0] {
        lemma_bytes_lt_total(a.skip(1), b.skip(1));
        if a.skip(1) == b.skip(1) {
            assert(a =~= seq![a[0]] + a.skip(1));
            assert(b =~= seq![b[0]] + b.skip(1));
        }
    } else if a.len() == 0 && b.len() == 0 {
        assert(a =~= b);
    }
}

/// Raw byte order is transitive.
pub proof fn lemma_bytes_lt_transitive(a: Seq<u8>, b: Seq<u8>, c: Seq<u8>)
    requires
        bytes_lt(a, b),
        bytes_lt(b, c),
    ensures
        bytes_lt(a, c),
    decreases a.len(),
{
    if a.len() > 0 && a[0] == b[0] && b[0] == c[0] {
        lemma_bytes_lt_transitive(a.skip(1), b.skip(1), c.skip(1));
    }
}


/// The place of `k` in the sorted dictionary `d`: every key before `p` comes
/// before `k`, and the key at `p`, if there is one, does not.
pub open spec fn is_place(d: Seq<(Seq<u8>, Bencode)>, k: Seq<u8>, p: int) -> bool {
    &&& 0 <= p <= d.len()
    &&& forall|j: int| 0 <= j < p ==> bytes_lt(#[trigger] d[j].0, k)
    &&& p < d.len() ==> !bytes_lt(d[p].0, k)
}

/// The dictionary `d` with `(k, v)` at the place `p`: in place of the entry
/// there when it has the key `k`, and else before it.
pub open spec fn placed(d: Seq<(Seq<u8>, Bencode)>, k: Seq<u8>, v: Bencode, p: int) -> Seq<
    (Seq<u8>, Bencode),
> {
    if p < d.len() && d[p].0 == k {
        d.update(p, (k, v))
    } else {
        d.insert(p, (k, v))
    }
}

/// Binding `k` in a sorted dictionary puts the entry at the place of `k`.
pub proof fn lemma_dict_insert_placed(d: Seq<(Seq<u8>, Bencode)>, k: Seq<u8>, v: Bencode, p: int)
    requires
        sorted(d),
        is_place(d, k, p),
    ensures
        dict_insert(d, k, v) == placed(d, k, v, p),
    decreases d.len(),
{
    let n = d.len() as int;
    let r = dict_insert(d, k, v);
    if n == 0 {
        assert(r =~= d.insert(p, (k, v)));
    } else if bytes_lt(d.last().0, k) {
        if p < n {
            if p < n - 1 {
                lemma_bytes_lt_transitive(d[p].0, d[n - 1].0, k);
            }
            assert(false);
        }
        assert(r =~= d.insert(p, (k, v)));
    } else if d.last().0 == k {
        lemma_bytes_lt_irreflexive(k);
        if p == n {
            assert(bytes_lt(d[n - 1].0, k));
        }
        if p < n - 1 {
            assert(bytes_lt(d[p].0, d[n - 1].0));
        }
        assert(p == n - 1);
        assert(r =~= d.update(p, (k, v)));
    } else {
        let front = d.drop_last();
        if p == n {
            assert(bytes_lt(d[n - 1].0, k));
        }
        assert(sorted(front));
        assert(is_place(front, k, p));
        lemma_dict_insert_placed(front, k, v, p);
        if p < n - 1 {
            if d[p].0 == k {
                assert(r =~= d.update(p, (k, v)));
            } else {
                assert(r =~= d.insert(p, (k, v)));
            }
        } else {
            assert(front.insert(p, (k, v)) =~= front.push((k, v)));
            assert(r =~= d.insert(p, (k, v)));
        }
    }
}

/// An entry put at the place of its key leaves a sorted dictionary sorted.
pub proof fn lemma_placed_sorted(d: Seq<(Seq<u8>, Bencode)>, k: Seq<u8>, v: Bencode, p: int)
    requires
        sorted(d),
        is_place(d, k, p),
    ensures
        sorted(placed(d, k, v, p)),
{
    let r = placed(d, k, v, p);
    if p < d.len() && d[p].0 == k {
        assert forall|i: int, j: int| 0 <= i < j < r.len() implies bytes_lt(
            #[trigger] r[i].0,
            #[trigger] r[j].0,
        ) by {
            assert(r[i].0 == d[i].0 && r[j].0 == d[j].0);
        }
    } else {
        assert forall|i: int, j: int| 0 <= i < j < r.len() implies bytes_lt(
            #[trigger] r[i].0,
            #[trigger] r[j].0,
        ) by {
            if j < p {
                assert(r[i] == d[i] && r[j] == d[j]);
            } else if j == p {
                assert(r[i] == d[i]);
            } else {
                assert(r[j] == d[j - 1]);
                lemma_bytes_lt_total(d[p].0, k);
                if j - 1 > p {
                    assert(bytes_lt(d[p].0, d[j - 1].0));
                    lemma_bytes_lt_transitive(k, d[p].0, d[j - 1].0);
                }
                assert(bytes_lt(k, d[j - 1].0));
                if i < p {
                    assert(r[i] == d[i]);
                    assert(bytes_lt(d[i].0, d[j - 1].0));
                } else if i > p {
                    assert(r[i] == d[i - 1]);
                    assert(bytes_lt(d[i - 1].0, d[j - 1].0));
                }
            }
        }
    }
}

/// Binding `k` in a sorted dictionary overwrites the entry at the place of
/// `k` when that entry has the key `k`, and else puts the new entry there;
/// the dictionary stays sorted.
pub proof fn lemma_dict_insert_at(d: Seq<(Seq<u8>, Bencode)>, k: Seq<u8>, v: Bencode, p: int)
    requires
        sorted(d),
        is_place(d, k, p),
    ensures
        dict_insert(d, k, v) == placed(d, k, v, p),
        sorted(dict_insert(d, k, v)),
{
    lemma_dict_insert_placed(d, k, v, p);
    lemma_placed_sorted(d, k, v, p);
}


/// Whether every value of the entries `d` is well formed.
pub open spec fn values_well_formed(d: Seq<(Seq<u8>, Bencode)>) -> bool {
    forall|i: int| 0 <= i < d.len() ==> well_formed((#[trigger] d[i]).1)
}

/// Every key has a place in a dictionary.
pub proof fn place_of(d: Seq<(Seq<u8>, Bencode)>, k: Seq<u8>) -> (p: int)
    ensures
        is_place(d, k, p),
    decreases d.len(),
{
    if d.len() == 0 {
        0
    } else {
        let front = d.drop_last();
        let q = place_of(front, k);
        assert forall|j: int| 0 <= j < q implies bytes_lt(#[trigger] d[j].0, k) by {
            assert(front[j] == d[j]);
        }
        if q < front.len() {
            assert(front[q] == d[q]);
            q
        } else if bytes_lt(d.last().0, k) {
            q + 1
        } else {
            q
        }
    }
}

/// Binding a key to a well-formed value keeps a dictionary sorted and its
/// values well formed.
pub proof fn lemma_dict_insert_well_formed(d: Seq<(Seq<u8>, Bencode)>, k: Seq<u8>, v: Bencode)
    requires
        sorted(d),
        values_well_formed(d),
        well_formed(v),
    ensures
        sorted(dict_insert(d, k, v)),
        values_well_formed(dict_insert(d, k, v)),
{
    let p = place_of(d, k);
    lemma_dict_insert_at(d, k, v, p);
    let r = dict_insert(d, k, v);
    assert forall|i: int| 0 <= i < r.len() implies well_formed((#[trigger] r[i]).1) by {
        if p < d.len() && d[p].0 == k {
            if i != p {
                assert(r[i] == d[i]);
            }
        } else {
            if i < p {
                assert(r[i] == d[i]);
            } else if i > p {
                assert(r[i] == d[i - 1]);
            }
        }
    }
}

/// The dictionary made of pairs with well-formed values is sorted, and its
/// values are well formed.
pub proof fn lemma_dict_of_well_formed(pairs: Seq<(Seq<u8>, Bencode)>)
    requires
        values_well_formed(pairs),
    ensures
        sorted(dict_of(pairs)),
        values_well_formed(dict_of(pairs)),
    decreases pairs.len(),
{
    if pairs.len() > 0 {
        let front = pairs.drop_last();
        assert forall|i: int| 0 <= i < front.len() implies well_formed((#[trigger] front[i]).1) by {
            assert(front[i] == pairs[i]);
        }
        lemma_dict_of_well_formed(front);
        lemma_dict_insert_well_formed(dict_of(front), pairs.last().0, pairs.last().1);
    }
}

/// A value that the grammar reads takes up at least one byte and no more
/// than the input has, and is well formed.
pub proof fn lemma_parse_value_sound(s: Seq<u8>)
    ensures
        parse_value(s) matches Ok((v, n)) ==> 0 < n <= s.len() && well_formed(v),
    decreases s.len(), 0int,
{
    if s.len() == 0 {
    } else if is_digit(s[0]) {
        lemma_first_index_is_first(s, COLON);
    } else if s[0] == INT {
        lemma_first_index_is_first(s, END);
    } else if s[0] == LIST {
        lemma_parse_items_sound(s.skip(1));
    } else if s[0] == DICT {
        lemma_parse_pairs_sound(s.skip(1));
        if let Ok((pairs, n)) = parse_pairs(s.skip(1)) {
            lemma_dict_of_well_formed(pairs);
        }
    }
}

/// The items that the grammar reads are well formed, and their bytes lie
/// within the input.
pub proof fn lemma_parse_items_sound(s: Seq<u8>)
    ensures
        parse_items(s) matches Ok((items, n)) ==> 0 < n <= s.len() && forall|i: int|
            0 <= i < items.len() ==> well_formed(#[trigger] items[i]),
    decreases s.len(), 1int,
{
    if s.len() > 0 && s[0] != END {
        lemma_parse_value_sound(s);
        if let Ok((item, n)) = parse_value(s) {
            lemma_parse_items_sound(s.skip(n));
        }
    }
}

/// The pairs that the grammar reads have well-formed values, and their bytes
/// lie within the input.
pub proof fn lemma_parse_pairs_sound(s: Seq<u8>)
    ensures
        parse_pairs(s) matches Ok((pairs, n)) ==> 0 < n <= s.len() && values_well_formed(pairs),
    decreases s.len(), 1int,
{
    if s.len() > 0 && s[0] != END {
        lemma_parse_value_sound(s);
        if let Ok((key, n)) = parse_value(s) {
            lemma_parse_value_sound(s.skip(n));
            if let Ok((value, m)) = parse_value(s.skip(n)) {
                lemma_parse_pairs_sound(s.skip(n + m));
            }
        }
    }
}


/// A byte string comes before another when, after a common start of `k`
/// bytes, it ends or has the smaller byte.
pub proof fn lemma_bytes_lt_at(a: Seq<u8>, b: Seq<u8>, k: int)
    requires
        0 <= k <= a.len(),
        k < b.len(),
        forall|j: int| 0 <= j < k ==> a[j] == b[j],
        k < a.len() ==> a[k] < b[k],
    ensures
        bytes_lt(a, b),
    decreases k,
{
    if k > 0 {
        let x = a.skip(1);
        let y = b.skip(1);
        assert forall|j: int| 0 <= j < k - 1 implies x[j] == y[j] by {
            assert(x[j] == a[j + 1] && y[j] == b[j + 1]);
        }
        lemma_bytes_lt_at(x, y, k - 1);
    }
}


/// A byte string for a reader: as quoted text where it is UTF-8, and else as
/// a list of numbers.
pub open spec fn rendering_bytes(b: Seq<u8>) -> Seq<char> {
    if valid_utf8(b) {
        str_debug(decode_utf8(b))
    } else {
        byte_list_text(b)
    }
}

/// A value for a reader: a list in square brackets, a dictionary in braces
/// with `:` between key and value, and `,` between the members of either.
pub open spec fn rendering(v: Bencode) -> Seq<char>
    decreases v, 0nat,
{
    match v {
        Bencode::Bytes(b) => rendering_bytes(b),
        Bencode::Int(n) => decimal_int_text(n),
        Bencode::List(items) => "["@ + rendering_items(items, 0) + "]"@,
        Bencode::Dict(entries) => "{"@ + rendering_entries(entries, 0) + "}"@,
    }
}

/// The items of `items` from position `from` on for a reader, with `,`
/// between them.
pub open spec fn rendering_items(items: Seq<Bencode>, from: nat) -> Seq<char>
    decreases items, items.len() - from,
{
    if from >= items.len() {
        Seq::empty()
    } else if from + 1 == items.len() {
        rendering(items[from as int])
    } else {
        rendering(items[from as int]) + ","@ + rendering_items(items, from + 1)
    }
}

/// The entries of `entries` from position `from` on for a reader, with `,`
/// between them.
pub open spec fn rendering_entries(entries: Seq<(Seq<u8>, Bencode)>, from: nat) -> Seq<char>
    decreases entries, entries.len() - from,
{
    if from >= entries.len() {
        Seq::empty()
    } else if from + 1 == entries.len() {
        rendering_bytes(entries[from as int].0) + ":"@ + rendering(entries[from as int].1)
    } else {
        rendering_bytes(entries[from as int].0) + ":"@ + rendering(entries[from as int].1) + ","@
            + rendering_entries(entries, from + 1)
    }
}

} // verus!
