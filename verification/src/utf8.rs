//! UTF-8, as far as hex strings meet it.
use vstd::prelude::*;
use vstd::slice::slice_subrange;
use vstd::utf8::*;

verus! {

/// Whether every byte of `text` is ASCII.
pub open spec fn is_ascii_text(text: Seq<u8>) -> bool {
    forall|i: int| 0 <= i < text.len() ==> #[trigger] text[i] < 0x80
}

/// ASCII text as characters.
pub open spec fn ascii_chars(text: Seq<u8>) -> Seq<char> {
    text.map_values(|b: u8| b as char)
}

/// ASCII is UTF-8, and each of its bytes is a character.
pub proof fn lemma_ascii(text: Seq<u8>)
    requires
        is_ascii_text(text),
    ensures
        valid_utf8(text),
        decode_utf8(text) == ascii_chars(text),
        encode_utf8(ascii_chars(text)) == text,
{
    let chars = ascii_chars(text);
    is_ascii_chars_encode_utf8(chars);
    assert(encode_utf8(chars) =~= text) by {
        assert forall|i: int| 0 <= i < text.len() implies encode_utf8(chars)[i] == text[i] by {
            assert(chars[i] as u8 == text[i]);
        }
    }
    encode_utf8_valid_utf8(chars);
    encode_utf8_decode_utf8(chars);
}

/// `core::str::from_utf8`, which accepts exactly well-formed UTF-8 and leaves the bytes as they
/// are. Of a refusal it keeps what `Utf8Error::valid_up_to` tells: the longest prefix that would
/// have been accepted.
#[verifier::external_body]
pub(crate) fn from_utf8(bytes: &[u8]) -> (r: Result<&str, usize>)
    ensures
        match r {
            Ok(s) => valid_utf8(bytes@) && s@ == decode_utf8(bytes@),
            Err(n) => {
                &&& !valid_utf8(bytes@)
                &&& partial_valid_utf8(bytes@, n as int)
                &&& forall|k: int| n < k ==> !#[trigger] partial_valid_utf8(bytes@, k)
            },
        },
{
    match core::str::from_utf8(bytes) {
        Ok(s) => Ok(s),
        Err(e) => Err(e.valid_up_to()),
    }
}

/// The text that well-formed UTF-8 encodes.
pub(crate) fn str_of_utf8(bytes: &[u8]) -> (s: &str)
    requires
        valid_utf8(bytes@),
    ensures
        s@ == decode_utf8(bytes@),
{
    from_utf8(bytes).unwrap()
}

/// The character that `bytes` begin with, if they begin with a well-formed one.
pub(crate) fn first_char(bytes: &[u8]) -> (c: Option<char>)
    requires
        bytes@.len() > 0,
    ensures
        c == (if valid_first_scalar(bytes@) {
            Some(decode_first_scalar(bytes@) as char)
        } else {
            None
        }),
{
    let s = match from_utf8(bytes) {
        Ok(s) => s,
        Err(0) => {
            proof {
                lemma_first_scalar_is_prefix(bytes@);
            }
            return None;
        },
        Err(v) => {
            let prefix = slice_subrange(bytes, 0, v);
            assert(valid_first_scalar(prefix@));
            assert(decode_first_scalar(prefix@) == decode_first_scalar(bytes@));
            str_of_utf8(prefix)
        },
    };
    s.chars().next()
}

/// A well-formed first character is by itself well-formed UTF-8.
proof fn lemma_first_scalar_is_prefix(bytes: Seq<u8>)
    ensures
        valid_first_scalar(bytes) ==> partial_valid_utf8(bytes, length_of_first_scalar(bytes)),
{
    if valid_first_scalar(bytes) {
        assert(bytes.subrange(0, bytes.len() as int) =~= bytes);
        assert(partial_valid_utf8(bytes, 0));
        partial_valid_utf8_extend(bytes, 0);
    }
}

/// `char::encode_utf8`: `c` as a string of its own, which is kept in `dst`. Four bytes are room
/// enough for every character.
#[verifier::external_body]
pub(crate) fn encode_char<'a>(c: char, dst: &'a mut [u8; 4]) -> (s: &'a str)
    ensures
        s@ == seq![c],
{
    c.encode_utf8(dst)
}

} // verus!
