//! The bencode parser: reads one value from the head of a byte stream.

use vstd::prelude::*;
use vstd::slice::slice_subrange;
use vstd::string::StringSliceAdditionalSpecFns;
use vstd::utf8::is_char_boundary;
use crate::bencode::{BencodeByteString, BencodeDictionary, BencodeValue};
use crate::decimal::{is_digit_run, read_digits, read_integer};
use crate::grammar::{
    dict_of, first_index, lemma_first_index, lemma_parse_value_sound, parse_items, parse_pairs,
    parse_value, well_formed, Bencode, DecodeError, COLON, DICT, END, INT, LIST,
};

verus! {

/// The position of the first `b` in `input`.
pub fn find_byte(input: &[u8], b: u8) -> (r: Option<usize>)
    ensures
        match r {
            Some(p) => first_index(input@, b) == Some(p as int) && p < input@.len() && input@[p as int]
                == b,
            None => first_index(input@, b) is None,
        },
{
    let mut i: usize = 0;
    while i < input.len()
        invariant
            i <= input@.len(),
            forall|j: int| 0 <= j < i ==> input@[j] != b,
        decreases input@.len() - i,
    {
        if input[i] == b {
            proof {
                lemma_first_index(input@, b, i as int);
            }
            return Some(i);
        }
        i = i + 1;
    }
    proof {
        lemma_first_index(input@, b, i as int);
    }
    None
}

/// The values that the items `items` denote, in order.
pub open spec fn views(items: Seq<BencodeValue>) -> Seq<Bencode> {
    Seq::new(items.len(), |i: int| items[i]@)
}

/// What a list denotes when `done` has been read from `used` bytes and `r` is
/// what the rest of the stream gives.
pub open spec fn after_items(
    done: Seq<Bencode>,
    used: int,
    r: Result<(Seq<Bencode>, int), DecodeError>,
) -> Result<(Seq<Bencode>, int), DecodeError> {
    match r {
        Ok((items, n)) => Ok((done + items, used + n)),
        Err(e) => Err(e),
    }
}

/// What a dictionary's pairs are when `done` has been read from `used` bytes
/// and `r` is what the rest of the stream gives.
pub open spec fn after_pairs(
    done: Seq<(Seq<u8>, Bencode)>,
    used: int,
    r: Result<(Seq<(Seq<u8>, Bencode)>, int), DecodeError>,
) -> Result<(Seq<(Seq<u8>, Bencode)>, int), DecodeError> {
    match r {
        Ok((pairs, n)) => Ok((done + pairs, used + n)),
        Err(e) => Err(e),
    }
}

/// Whether `r` is what the grammar `g` gives on `input`: the same value with
/// the unread rest of `input`, or the same error.
pub open spec fn decoded<'a>(
    input: Seq<u8>,
    g: Result<(Bencode, int), DecodeError>,
    r: Result<(&'a [u8], BencodeValue<'a>), DecodeError>,
) -> bool {
    match g {
        Ok((v, n)) => r matches Ok((rest, value)) && value@ == v && 0 < n <= input.len() && rest@
            == input.skip(n),
        Err(e) => r matches Err(f) && f == e,
    }
}

/// Reads the byte string at the head of `input`, which starts with a digit.
fn read_byte_string<'input>(input: &'input [u8]) -> (r: Result<
    (&'input [u8], BencodeValue<'input>),
    DecodeError,
>)
    requires
        input@.len() > 0,
        crate::decimal::is_digit(input@[0]),
    ensures
        decoded(input@, parse_value(input@), r),
{
    proof {
        lemma_parse_value_sound(input@);
    }
    let total: usize = input.len();
    match find_byte(input, COLON) {
        None => Err(DecodeError::MissingTerminator),
        Some(colon) => {
            if !is_digit_run(input, 0, colon) {
                return Err(DecodeError::InvalidNumber);
            }
            match read_digits(input, 0, colon) {
                None => Err(DecodeError::LengthExceedsInput),
                Some(length) => {
                    let room: usize = total - colon - 1;
                    if length > room as u64 {
                        return Err(DecodeError::LengthExceedsInput);
                    }
                    let end: usize = colon + 1 + length as usize;
                    let bytes = slice_subrange(input, colon + 1, end);
                    let rest = slice_subrange(input, end, total);
                    proof {
                        assert(rest@ =~= input@.skip(end as int));
                    }
                    Ok((rest, BencodeValue::ByteString(BencodeByteString(bytes))))
                },
            }
        },
    }
}

/// Reads the integer at the head of `input`, which starts with `i`.
fn read_integer_value<'input>(input: &'input [u8]) -> (r: Result<
    (&'input [u8], BencodeValue<'input>),
    DecodeError,
>)
    requires
        input@.len() > 0,
        input@[0] == INT,
    ensures
        decoded(input@, parse_value(input@), r),
{
    proof {
        lemma_parse_value_sound(input@);
    }
    let total: usize = input.len();
    match find_byte(input, END) {
        None => Err(DecodeError::MissingTerminator),
        Some(end) => {
            match read_integer(input, 1, end) {
                None => Err(DecodeError::InvalidNumber),
                Some(n) => {
                    let rest = slice_subrange(input, end + 1, total);
                    proof {
                        assert(rest@ =~= input@.skip(end + 1));
                    }
                    Ok((rest, BencodeValue::Integer(n)))
                },
            }
        },
    }
}

/// Reads the list at the head of `input`, which starts with `l`.
fn read_list<'input>(input: &'input [u8]) -> (r: Result<
    (&'input [u8], BencodeValue<'input>),
    DecodeError,
>)
    requires
        input@.len() > 0,
        input@[0] == LIST,
    ensures
        decoded(input@, parse_value(input@), r),
    decreases input@.len(), 0int,
{
    let total: usize = input.len();
    let mut values: Vec<BencodeValue<'input>> = Vec::new();
    let mut pos: usize = 1;
    proof {
        assert(views(values@) + Seq::<Bencode>::empty() =~= Seq::<Bencode>::empty());
        match parse_items(input@.skip(1)) {
            Ok((items, n)) => {
                assert(views(values@) + items =~= items);
            },
            Err(_) => {},
        }
    }
    loop
        invariant
            total == input@.len(),
            1 <= pos <= total,
            input@[0] == LIST,
            parse_items(input@.skip(1)) == after_items(
                views(values@),
                pos - 1,
                parse_items(input@.skip(pos as int)),
            ),
        decreases total - pos,
    {
        if pos >= total {
            return Err(DecodeError::MissingTerminator);
        }
        assert(input@.skip(pos as int)[0] == input@[pos as int]);
        if input[pos] == END {
            let rest = slice_subrange(input, pos + 1, total);
            proof {
                assert(rest@ =~= input@.skip(pos + 1));
                assert(views(values@) + Seq::<Bencode>::empty() =~= views(values@));
                assert(BencodeValue::List(values)@->List_0 =~= views(values@));
            }
            return Ok((rest, BencodeValue::List(values)));
        }
        let tail = slice_subrange(input, pos, total);
        assert(tail@ =~= input@.skip(pos as int));
        match BencodeValue::from_bytes(tail) {
            Err(e) => {
                return Err(e);
            },
            Ok((rest, value)) => {
                let ghost n = tail@.len() - rest@.len();
                let ghost done = views(values@);
                proof {
                    lemma_parse_value_sound(tail@);
                    assert(tail@.skip(n) =~= input@.skip(pos + n));
                    match parse_items(input@.skip(pos + n)) {
                        Ok((items, m)) => {
                            assert(done + (seq![value@] + items) =~= done.push(value@) + items);
                        },
                        Err(_) => {},
                    }
                }
                pos = total - rest.len();
                values.push(value);
                assert(views(values@) =~= done.push(value@));
            },
        }
    }
}

/// Reads the dictionary at the head of `input`, which starts with `d`.
fn read_dictionary<'input>(input: &'input [u8]) -> (r: Result<
    (&'input [u8], BencodeValue<'input>),
    DecodeError,
>)
    requires
        input@.len() > 0,
        input@[0] == DICT,
    ensures
        decoded(input@, parse_value(input@), r),
    decreases input@.len(), 0int,
{
    let total: usize = input.len();
    let mut dict: BencodeDictionary<'input> = BencodeDictionary::new();
    let ghost mut pairs: Seq<(Seq<u8>, Bencode)> = Seq::empty();
    let mut pos: usize = 1;
    proof {
        match parse_pairs(input@.skip(1)) {
            Ok((rest_pairs, n)) => {
                assert(pairs + rest_pairs =~= rest_pairs);
            },
            Err(_) => {},
        }
    }
    loop
        invariant
            total == input@.len(),
            1 <= pos <= total,
            input@[0] == DICT,
            dict@ == dict_of(pairs),
            parse_pairs(input@.skip(1)) == after_pairs(
                pairs,
                pos - 1,
                parse_pairs(input@.skip(pos as int)),
            ),
        decreases total - pos,
    {
        if pos >= total {
            return Err(DecodeError::MissingTerminator);
        }
        assert(input@.skip(pos as int)[0] == input@[pos as int]);
        if input[pos] == END {
            let rest = slice_subrange(input, pos + 1, total);
            proof {
                assert(rest@ =~= input@.skip(pos + 1));
                assert(pairs + Seq::<(Seq<u8>, Bencode)>::empty() =~= pairs);
            }
            return Ok((rest, BencodeValue::Dictionary(dict)));
        }
        let tail = slice_subrange(input, pos, total);
        assert(tail@ =~= input@.skip(pos as int));
        let (after_key, key) = match BencodeValue::from_bytes(tail) {
            Err(e) => {
                return Err(e);
            },
            Ok(read) => read,
        };
        let ghost n = tail@.len() - after_key@.len();
        proof {
            lemma_parse_value_sound(tail@);
        }
        let (rest, value) = match BencodeValue::from_bytes(after_key) {
            Err(e) => {
                return Err(e);
            },
            Ok(read) => read,
        };
        let ghost m = after_key@.len() - rest@.len();
        proof {
            lemma_parse_value_sound(after_key@);
            assert(tail@.skip(n).skip(m) =~= input@.skip(pos + n + m));
            assert(tail@.skip(n + m) =~= input@.skip(pos + n + m));
        }
        match key {
            BencodeValue::ByteString(name) => {
                proof {
                    let entry = (name@, value@);
                    match parse_pairs(input@.skip(pos + n + m)) {
                        Ok((rest_pairs, p)) => {
                            assert(pairs + (seq![entry] + rest_pairs) =~= pairs.push(entry)
                                + rest_pairs);
                        },
                        Err(_) => {},
                    }
                    assert(pairs.push(entry).drop_last() =~= pairs);
                    pairs = pairs.push(entry);
                }
                pos = total - rest.len();
                dict.insert(name, value);
            },
            _ => {
                return Err(DecodeError::NonStringKey);
            },
        }
    }
}

impl<'input> BencodeValue<'input> {
    /// Reads one value from the head of `input` and returns it with the
    /// unread rest of `input`.
    pub fn from_bytes(input: &'input [u8]) -> (r: Result<
        (&'input [u8], BencodeValue<'input>),
        DecodeError,
    >)
        ensures
            decoded(input@, parse_value(input@), r),
            r matches Ok((_, value)) ==> well_formed(value@),
        decreases input@.len(), 1int,
    {
        proof {
            lemma_parse_value_sound(input@);
        }
        if input.len() == 0 {
            return Err(DecodeError::EmptyInput);
        }
        let first: u8 = input[0];
        if 48 <= first && first <= 57 {
            read_byte_string(input)
        } else if first == INT {
            read_integer_value(input)
        } else if first == LIST {
            read_list(input)
        } else if first == DICT {
            read_dictionary(input)
        } else {
            Err(DecodeError::InvalidLeadingByte)
        }
    }
}

impl<'input> BencodeValue<'input> {
    /// Reads one value from the head of the text `input` and returns it with
    /// the unread rest of the text. The value may end inside a character of
    /// the text; the rest is then no text, and that is an error.
    pub fn from_str(input: &'input str) -> (r: Result<(&'input str, BencodeValue<'input>), DecodeError>)
        ensures
            match parse_value(input.spec_bytes()) {
                Ok((v, n)) => if is_char_boundary(input.spec_bytes(), n) {
                    r matches Ok((rest, value)) && value@ == v && rest.spec_bytes()
                        == input.spec_bytes().skip(n)
                } else {
                    r matches Err(e) && e == DecodeError::RestNotText
                },
                Err(e) => r matches Err(f) && f == e,
            },
    {
        let bytes = input.as_bytes();
        match BencodeValue::from_bytes(bytes) {
            Err(e) => Err(e),
            Ok((rest, value)) => {
                let used: usize = bytes.len() - rest.len();
                if input.is_char_boundary(used) {
                    let (_, text) = input.split_at(used);
                    Ok((text, value))
                } else {
                    Err(DecodeError::RestNotText)
                }
            },
        }
    }

    /// The byte string that this value is, if it is one.
    pub fn as_byte_string(&self) -> (r: Option<&BencodeByteString<'input>>)
        ensures
            match *self {
                BencodeValue::ByteString(b) => r matches Some(s) && *s == b,
                _ => r is None,
            },
    {
        match self {
            BencodeValue::ByteString(b) => Some(b),
            _ => None,
        }
    }

    /// The dictionary that this value is, if it is one.
    pub fn as_dictionary(&self) -> (r: Option<&BencodeDictionary<'input>>)
        ensures
            match *self {
                BencodeValue::Dictionary(d) => r matches Some(s) && *s == d,
                _ => r is None,
            },
    {
        match self {
            BencodeValue::Dictionary(d) => Some(d),
            _ => None,
        }
    }

    /// The integer that this value is, if it is one.
    pub fn as_integer(&self) -> (r: Option<&i64>)
        ensures
            match *self {
                BencodeValue::Integer(n) => r matches Some(s) && *s == n,
                _ => r is None,
            },
    {
        match self {
            BencodeValue::Integer(n) => Some(n),
            _ => None,
        }
    }

    /// The items of the list that this value is, if it is one.
    pub fn as_list(&self) -> (r: Option<&[BencodeValue<'input>]>)
        ensures
            match *self {
                BencodeValue::List(items) => r matches Some(s) && s@ == items@,
                _ => r is None,
            },
    {
        match self {
            BencodeValue::List(items) => Some(items.as_slice()),
            _ => None,
        }
    }
}

} // verus!
