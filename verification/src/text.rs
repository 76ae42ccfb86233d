//! Text in byte strings: UTF-8 validation and the bytes of ASCII literals.

use vstd::prelude::*;
use vstd::string::{StringExecFns, StringSliceAdditionalSpecFns};
use crate::decimal::{decimal_text, push_decimal_text};
use vstd::utf8::valid_utf8;

verus! {

/// `std::str::from_utf8`: the text that `bytes` are, when they are valid
/// UTF-8, and nothing otherwise.
#[verifier::external_body]
pub(crate) fn utf8_text<'a>(bytes: &'a [u8]) -> (r: Option<&'a str>)
    ensures
        match r {
            Some(text) => valid_utf8(bytes@) && text.spec_bytes() == bytes@,
            None => !valid_utf8(bytes@),
        },
{
    std::str::from_utf8(bytes).ok()
}

/// The text that std's `Debug` writes for the text `text`: the text in
/// double quotes, with its escapes.
pub uninterp spec fn str_debug(text: Seq<char>) -> Seq<char>;

/// `format!` with `{:?}` on a `str`, which is std's `Debug` for `str`: a
/// function of the text alone.
#[verifier::external_body]
pub(crate) fn debug_text(text: &str) -> (r: String)
    ensures
        r@ == str_debug(text@),
{
    format!("{:?}", text)
}

/// The text of a list of bytes: the numbers in decimal, with `, ` between
/// them, in square brackets.
pub open spec fn byte_list_text(bytes: Seq<u8>) -> Seq<char> {
    "["@ + byte_items_text(bytes) + "]"@
}

/// The numbers `bytes` in decimal, with `, ` between them.
pub open spec fn byte_items_text(bytes: Seq<u8>) -> Seq<char>
    decreases bytes.len(),
{
    if bytes.len() == 0 {
        Seq::empty()
    } else if bytes.len() == 1 {
        decimal_text(bytes[0] as nat)
    } else {
        byte_items_text(bytes.drop_last()) + ", "@ + decimal_text(bytes.last() as nat)
    }
}

/// Appends the text of the list of bytes `bytes` to `out`.
pub fn push_byte_list(bytes: &[u8], out: &mut String)
    ensures
        final(out)@ == old(out)@ + byte_list_text(bytes@),
{
    out.append("[");
    let ghost head = out@;
    let mut i: usize = 0;
    while i < bytes.len()
        invariant
            i <= bytes@.len(),
            out@ == head + byte_items_text(bytes@.subrange(0, i as int)),
        decreases bytes@.len() - i,
    {
        let ghost before = out@;
        if i > 0 {
            out.append(", ");
        }
        push_decimal_text(bytes[i] as u64, out);
        proof {
            let done = bytes@.subrange(0, i as int);
            let next = bytes@.subrange(0, i + 1);
            assert(next.drop_last() =~= done);
            assert(next.last() == bytes@[i as int]);
            assert(out@ =~= head + byte_items_text(next));
        }
        i = i + 1;
    }
    out.append("]");
    proof {
        assert(bytes@.subrange(0, i as int) =~= bytes@);
        assert(out@ =~= old(out)@ + byte_list_text(bytes@));
    }
}

} // verus!
