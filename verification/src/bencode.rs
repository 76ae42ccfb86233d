//! Bencode values: their four kinds, the dictionary that keeps its keys in
//! order, the canonical emitter, and the rendering for a reader.

use vstd::prelude::*;
use vstd::string::StringExecFns;
use crate::decimal::{push_decimal, push_integer, push_integer_text};
use crate::grammar::{
    bytes_lt, dict_insert, encoding, encoding_bytes, encoding_entries, encoding_items, is_place,
    lemma_bytes_lt_asymmetric, lemma_bytes_lt_irreflexive, lemma_dict_insert_at, lemma_lookup_at,
    lookup, rendering, rendering_bytes, rendering_entries, rendering_items, sorted,
    well_formed, Bencode, COLON, DICT, END, INT, LIST,
};
use crate::text::{debug_text, push_byte_list, utf8_text};

verus! {

/// A byte string of a bencode stream; the bytes need not be UTF-8.
#[derive(Debug, Hash, PartialEq, Eq, PartialOrd, Ord)]
pub struct BencodeByteString<'input>(pub &'input [u8]);

/// The entries of a bencode dictionary, kept in ascending order of their keys.
#[derive(Debug, PartialEq)]
pub struct BencodeDictionary<'input> {
    entries: Vec<(BencodeByteString<'input>, BencodeValue<'input>)>,
}

/// A parsed bencode value.
#[derive(Debug, PartialEq)]
pub enum BencodeValue<'input> {
    ByteString(BencodeByteString<'input>),
    Integer(i64),
    List(Vec<BencodeValue<'input>>),
    Dictionary(BencodeDictionary<'input>),
}

impl<'input> View for BencodeByteString<'input> {
    type V = Seq<u8>;

    open spec fn view(&self) -> Seq<u8> {
        self.0@
    }
}

impl<'input> View for BencodeValue<'input> {
    type V = Bencode;

    open spec fn view(&self) -> Bencode
        decreases self,
    {
        match self {
            BencodeValue::ByteString(b) => Bencode::Bytes(b@),
            BencodeValue::Integer(n) => Bencode::Int(*n as int),
            BencodeValue::List(items) => Bencode::List(
                Seq::new(
                    items@.len(),
                    |i: int|
                        if 0 <= i < items@.len() {
                            items@[i]@
                        } else {
                            Bencode::Int(0)
                        },
                ),
            ),
            BencodeValue::Dictionary(d) => Bencode::Dict(d@),
        }
    }
}

impl<'input> View for BencodeDictionary<'input> {
    type V = Seq<(Seq<u8>, Bencode)>;

    closed spec fn view(&self) -> Seq<(Seq<u8>, Bencode)>
        decreases self,
    {
        Seq::new(
            self.entries@.len(),
            |i: int|
                if 0 <= i < self.entries@.len() {
                    (self.entries@[i].0@, self.entries@[i].1@)
                } else {
                    (Seq::empty(), Bencode::Int(0))
                },
        )
    }
}

/// How one byte string stands to another in raw byte order.
#[derive(Debug, Clone, Copy, PartialEq, Eq, Structural)]
pub enum ByteOrder {
    Before,
    Same,
    After,
}

/// Compares `a` with `b` in raw byte order.
pub fn byte_order(a: &[u8], b: &[u8]) -> (r: ByteOrder)
    ensures
        r == ByteOrder::Before <==> bytes_lt(a@, b@),
        r == ByteOrder::Same <==> a@ == b@,
        r == ByteOrder::After <==> bytes_lt(b@, a@),
{
    proof {
        lemma_bytes_lt_asymmetric(a@, b@);
        lemma_bytes_lt_irreflexive(a@);
        assert(a@.skip(0) =~= a@);
        assert(b@.skip(0) =~= b@);
    }
    let mut i: usize = 0;
    while i < a.len() && i < b.len()
        invariant
            i <= a@.len(),
            i <= b@.len(),
            a@.subrange(0, i as int) == b@.subrange(0, i as int),
            bytes_lt(a@, b@) == bytes_lt(a@.skip(i as int), b@.skip(i as int)),
            bytes_lt(b@, a@) == bytes_lt(b@.skip(i as int), a@.skip(i as int)),
        decreases a@.len() - i,
    {
        let x: u8 = a[i];
        let y: u8 = b[i];
        proof {
            assert(a@.skip(i as int)[0] == x);
            assert(b@.skip(i as int)[0] == y);
            assert(a@.skip(i as int).skip(1) =~= a@.skip(i + 1));
            assert(b@.skip(i as int).skip(1) =~= b@.skip(i + 1));
        }
        if x < y {
            proof {
                assert(a@[i as int] != b@[i as int]);
            }
            return ByteOrder::Before;
        }
        if x > y {
            proof {
                assert(a@[i as int] != b@[i as int]);
            }
            return ByteOrder::After;
        }
        proof {
            assert(a@.subrange(0, i + 1) =~= a@.subrange(0, i as int).push(x));
            assert(b@.subrange(0, i + 1) =~= b@.subrange(0, i as int).push(y));
        }
        i = i + 1;
    }
    if i < b.len() {
        proof {
            assert(a@.skip(i as int).len() == 0);
            assert(a@.len() != b@.len());
        }
        ByteOrder::Before
    } else if i < a.len() {
        proof {
            assert(b@.skip(i as int).len() == 0);
            assert(a@.len() != b@.len());
        }
        ByteOrder::After
    } else {
        proof {
            assert(a@ =~= a@.subrange(0, i as int));
            assert(b@ =~= b@.subrange(0, i as int));
        }
        ByteOrder::Same
    }
}

impl<'input> BencodeDictionary<'input> {
    #[verifier::type_invariant]
    spec fn keys_ascend(self) -> bool {
        sorted(self@)
    }

    /// The dictionary without entries.
    pub fn new() -> (d: Self)
        ensures
            d@ == Seq::<(Seq<u8>, Bencode)>::empty(),
    {
        let d = BencodeDictionary { entries: Vec::new() };
        assert(d@ =~= Seq::<(Seq<u8>, Bencode)>::empty());
        d
    }

    /// The number of entries.
    pub fn len(&self) -> (n: usize)
        ensures
            n == self@.len(),
    {
        self.entries.len()
    }

    /// The key of the entry at position `i`, counted in ascending key order.
    pub fn key_at(&self, i: usize) -> (k: &BencodeByteString<'input>)
        requires
            i < self@.len(),
        ensures
            k@ == self@[i as int].0,
    {
        &self.entries[i].0
    }

    /// The value of the entry at position `i`, counted in ascending key order.
    pub fn value_at(&self, i: usize) -> (v: &BencodeValue<'input>)
        requires
            i < self@.len(),
        ensures
            v@ == self@[i as int].1,
    {
        &self.entries[i].1
    }

    /// The value that `key` is bound to.
    pub fn get(&self, key: &[u8]) -> (r: Option<&BencodeValue<'input>>)
        ensures
            match r {
                Some(v) => lookup(self@, key@) == Some(v@),
                None => lookup(self@, key@) is None,
            },
    {
        proof {
            use_type_invariant(self);
        }
        let mut i: usize = 0;
        while i < self.entries.len()
            invariant
                i <= self.entries@.len(),
                sorted(self@),
                forall|j: int| 0 <= j < i ==> (#[trigger] self@[j]).0 != key@,
            decreases self.entries@.len() - i,
        {
            if byte_order(self.entries[i].0.0, key) == ByteOrder::Same {
                proof {
                    lemma_lookup_at(self@, key@, i as int);
                }
                return Some(&self.entries[i].1);
            }
            i = i + 1;
        }
        None
    }

    /// Binds `key` to `value`, in place of an earlier entry with that key.
    pub fn insert(&mut self, key: BencodeByteString<'input>, value: BencodeValue<'input>)
        ensures
            final(self)@ == dict_insert(old(self)@, key@, value@),
    {
        proof {
            use_type_invariant(&*self);
        }
        let n: usize = self.entries.len();
        let mut p: usize = 0;
        let mut order: ByteOrder = ByteOrder::After;
        while p < n
            invariant
                n == self.entries@.len(),
                p <= n,
                *self == *old(self),
                forall|j: int| 0 <= j < p ==> bytes_lt(#[trigger] self@[j].0, key@),
            ensures
                p <= n,
                forall|j: int| 0 <= j < p ==> bytes_lt(#[trigger] self@[j].0, key@),
                p < n ==> !bytes_lt(self@[p as int].0, key@),
                p < n ==> (order == ByteOrder::Same <==> self@[p as int].0 == key@),
            decreases n - p,
        {
            order = byte_order(self.entries[p].0.0, key.0);
            if order != ByteOrder::Before {
                break;
            }
            p = p + 1;
            order = ByteOrder::After;
        }
        proof {
            assert(is_place(self@, key@, p as int));
            lemma_dict_insert_at(self@, key@, value@, p as int);
        }
        let ghost before = self@;
        let mut taken = BencodeDictionary { entries: Vec::new() };
        core::mem::swap(self, &mut taken);
        let BencodeDictionary { entries } = taken;
        let mut entries = entries;
        if p < n && order == ByteOrder::Same {
            entries.set(p, (key, value));
        } else {
            entries.insert(p, (key, value));
        }
        proof {
            let after = BencodeDictionary { entries };
            if p < n && order == ByteOrder::Same {
                assert(after@ =~= before.update(p as int, (key@, value@)));
            } else {
                assert(after@ =~= before.insert(p as int, (key@, value@)));
            }
        }
        *self = BencodeDictionary { entries };
    }
}

/// Appends the canonical bytes of the byte string `bytes` to `out`.
pub fn write_byte_string(bytes: &[u8], out: &mut Vec<u8>)
    ensures
        final(out)@ == old(out)@ + encoding_bytes(bytes@),
{
    let n: usize = bytes.len();
    push_decimal(n as u64, out);
    out.push(COLON);
    out.extend_from_slice(bytes);
    assert(out@ =~= old(out)@ + encoding_bytes(bytes@));
}

impl<'input> BencodeValue<'input> {
    /// The canonical bytes of this value. The keys of each dictionary in it
    /// are emitted in ascending raw byte order.
    pub fn to_bytes(&self) -> (out: Vec<u8>)
        ensures
            out@ == encoding(self@),
            well_formed(self@),
    {
        let mut out: Vec<u8> = Vec::new();
        self.write_to(&mut out);
        assert(out@ =~= encoding(self@));
        out
    }

    /// Appends the canonical bytes of this value to `out`.
    pub fn write_to(&self, out: &mut Vec<u8>)
        ensures
            final(out)@ == old(out)@ + encoding(self@),
            well_formed(self@),
        decreases self,
    {
        match self {
            BencodeValue::ByteString(b) => {
                write_byte_string(b.0, out);
            },
            BencodeValue::Integer(n) => {
                out.push(INT);
                push_integer(*n, out);
                out.push(END);
                assert(out@ =~= old(out)@ + encoding(self@));
            },
            BencodeValue::List(items) => {
                out.push(LIST);
                let ghost start = out@;
                let ghost list = self@->List_0;
                let mut i: usize = 0;
                while i < items.len()
                    invariant
                        i <= items@.len(),
                        self == BencodeValue::List(*items),
                        list == self@->List_0,
                        list.len() == items@.len(),
                        out@ + encoding_items(list, i as nat) == start + encoding_items(list, 0),
                        forall|j: int| 0 <= j < i ==> well_formed(#[trigger] list[j]),
                    decreases items@.len() - i,
                {
                    let ghost before = out@;
                    items[i].write_to(out);
                    proof {
                        assert(list[i as int] == items@[i as int]@);
                        assert(before + (encoding(list[i as int]) + encoding_items(
                            list,
                            (i + 1) as nat,
                        )) =~= out@ + encoding_items(list, (i + 1) as nat));
                    }
                    i = i + 1;
                }
                out.push(END);
                assert(out@ =~= old(out)@ + encoding(self@));
            },
            BencodeValue::Dictionary(d) => {
                proof {
                    use_type_invariant(d);
                }
                out.push(DICT);
                let ghost start = out@;
                let ghost entries = d@;
                let mut i: usize = 0;
                while i < d.entries.len()
                    invariant
                        i <= d.entries@.len(),
                        decreases_to!(self => d.entries),
                        entries == d@,
                        entries.len() == d.entries@.len(),
                        out@ + encoding_entries(entries, i as nat) == start + encoding_entries(
                            entries,
                            0,
                        ),
                        forall|j: int| 0 <= j < i ==> well_formed((#[trigger] entries[j]).1),
                    decreases d.entries@.len() - i,
                {
                    let ghost before = out@;
                    write_byte_string(d.entries[i].0.0, out);
                    proof {
                        let ghost entry = d.entries@[i as int];
                        assert(decreases_to!(d.entries => d.entries[i as int]));
                        assert(decreases_to!(entry => entry.1));
                        assert(decreases_to!(self => d.entries[i as int].1));
                    }
                    d.entries[i].1.write_to(out);
                    proof {
                        assert(entries[i as int] == (
                            d.entries@[i as int].0@,
                            d.entries@[i as int].1@,
                        ));
                        assert(before + (encoding_bytes(entries[i as int].0) + encoding(
                            entries[i as int].1,
                        ) + encoding_entries(entries, (i + 1) as nat)) =~= out@ + encoding_entries(
                            entries,
                            (i + 1) as nat,
                        ));
                    }
                    i = i + 1;
                }
                out.push(END);
                assert(out@ =~= old(out)@ + encoding(self@));
            },
        }
    }
}

/// Appends the byte string `bytes` for a reader to `out`.
pub fn write_bytes_text(bytes: &[u8], out: &mut String)
    ensures
        final(out)@ == old(out)@ + rendering_bytes(bytes@),
{
    match utf8_text(bytes) {
        Some(text) => {
            proof {
                vstd::utf8::encode_utf8_decode_utf8(text@);
            }
            let quoted = debug_text(text);
            out.append(quoted.as_str());
        },
        None => {
            push_byte_list(bytes, out);
        },
    }
}

impl<'input> BencodeByteString<'input> {
    /// This byte string for a reader: as quoted text where it is UTF-8, and
    /// else as a list of numbers.
    pub fn to_text(&self) -> (text: String)
        ensures
            text@ == rendering_bytes(self@),
    {
        let mut text = String::new();
        write_bytes_text(self.0, &mut text);
        assert(text@ =~= rendering_bytes(self@));
        text
    }
}

impl<'input> BencodeValue<'input> {
    /// This value for a reader.
    pub fn to_text(&self) -> (text: String)
        ensures
            text@ == rendering(self@),
    {
        let mut text = String::new();
        self.write_text(&mut text);
        assert(text@ =~= rendering(self@));
        text
    }

    /// Appends this value for a reader to `out`.
    pub fn write_text(&self, out: &mut String)
        ensures
            final(out)@ == old(out)@ + rendering(self@),
        decreases self,
    {
        match self {
            BencodeValue::ByteString(b) => {
                write_bytes_text(b.0, out);
            },
            BencodeValue::Integer(n) => {
                push_integer_text(*n, out);
            },
            BencodeValue::List(items) => {
                out.append("[");
                let ghost start = out@;
                let ghost list = self@->List_0;
                let mut i: usize = 0;
                while i < items.len()
                    invariant
                        i <= items@.len(),
                        self == BencodeValue::List(*items),
                        list == self@->List_0,
                        list.len() == items@.len(),
                        out@ + rendering_items(list, i as nat) == start + rendering_items(list, 0),
                    decreases items@.len() - i,
                {
                    let ghost before = out@;
                    items[i].write_text(out);
                    if i < items.len() - 1 {
                        out.append(",");
                    }
                    proof {
                        assert(list[i as int] == items@[i as int]@);
                        let rest = rendering_items(list, (i + 1) as nat);
                        if i + 1 == list.len() {
                            assert(out@ + rest =~= before + rendering_items(list, i as nat));
                        } else {
                            assert(out@ + rest =~= before + (rendering(list[i as int]) + ","@
                                + rest));
                        }
                    }
                    i = i + 1;
                }
                out.append("]");
                assert(out@ =~= old(out)@ + rendering(self@));
            },
            BencodeValue::Dictionary(d) => {
                out.append("{");
                let ghost start = out@;
                let ghost entries = d@;
                let mut i: usize = 0;
                while i < d.entries.len()
                    invariant
                        i <= d.entries@.len(),
                        decreases_to!(self => d.entries),
                        entries == d@,
                        entries.len() == d.entries@.len(),
                        out@ + rendering_entries(entries, i as nat) == start + rendering_entries(
                            entries,
                            0,
                        ),
                    decreases d.entries@.len() - i,
                {
                    let ghost before = out@;
                    write_bytes_text(d.entries[i].0.0, out);
                    out.append(":");
                    proof {
                        let ghost entry = d.entries@[i as int];
                        assert(decreases_to!(d.entries => d.entries[i as int]));
                        assert(decreases_to!(entry => entry.1));
                        assert(decreases_to!(self => d.entries[i as int].1));
                    }
                    d.entries[i].1.write_text(out);
                    if i < d.entries.len() - 1 {
                        out.append(",");
                    }
                    proof {
                        assert(entries[i as int] == (
                            d.entries@[i as int].0@,
                            d.entries@[i as int].1@,
                        ));
                        let this = rendering_bytes(entries[i as int].0) + ":"@ + rendering(
                            entries[i as int].1,
                        );
                        let rest = rendering_entries(entries, (i + 1) as nat);
                        if i + 1 == entries.len() {
                            assert(out@ + rest =~= before + this);
                        } else {
                            assert(out@ + rest =~= before + (this + ","@ + rest));
                        }
                    }
                    i = i + 1;
                }
                out.append("}");
                assert(out@ =~= old(out)@ + rendering(self@));
            },
        }
    }
}

} // verus!
