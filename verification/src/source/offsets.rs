use vstd::prelude::*;
use vstd::string::StrSliceExecFns;
use vstd::string::StringSliceAdditionalSpecFns;
use vstd::utf8::decode_utf8;
use vstd::utf8::decode_utf8_split;
use vstd::utf8::encode_scalar;
use vstd::utf8::encode_utf8;
use vstd::utf8::encode_utf8_decode_utf8;
use vstd::utf8::encode_utf8_valid_utf8;
use vstd::utf8::is_char_boundary;
use vstd::utf8::valid_utf8_split;

verus! {

/// Where the character at `at` starts among the bytes of `text` in UTF-8:
/// the number of bytes that the characters before it take.
pub open spec fn byte_offset(text: Seq<char>, at: int) -> int {
    encode_utf8(text.subrange(0, at)).len() as int
}

/// The number of characters of `text` that lie before the byte `byte` of
/// its UTF-8 form, which starts a character or is the end.
pub open spec fn chars_before(text: Seq<char>, byte: int) -> int {
    decode_utf8(encode_utf8(text).subrange(0, byte)).len() as int
}

/// The bytes of two texts one after the other are the bytes of the one
/// after the bytes of the other.
pub proof fn lemma_encode_concat(a: Seq<char>, b: Seq<char>)
    ensures
        encode_utf8(a + b) == encode_utf8(a) + encode_utf8(b),
    decreases a.len(),
{
    if a.len() == 0 {
        assert(a + b =~= b);
        assert(encode_utf8(a) + encode_utf8(b) =~= encode_utf8(b));
    } else {
        lemma_encode_concat(a.drop_first(), b);
        assert((a + b).drop_first() =~= a.drop_first() + b);
        assert(encode_utf8(a + b) =~= encode_scalar(a[0] as u32) + (encode_utf8(a.drop_first())
            + encode_utf8(b)));
        assert(encode_utf8(a) + encode_utf8(b) =~= encode_scalar(a[0] as u32) + (encode_utf8(
            a.drop_first(),
        ) + encode_utf8(b)));
    }
}

/// The bytes of a text start with the bytes of each of its beginnings.
pub proof fn lemma_offset_within(text: Seq<char>, at: int)
    requires
        0 <= at <= text.len(),
    ensures
        0 <= byte_offset(text, at) <= encode_utf8(text).len(),
        encode_utf8(text).subrange(0, byte_offset(text, at)) == encode_utf8(text.subrange(0, at)),
        chars_before(text, byte_offset(text, at)) == at,
{
    let before = text.subrange(0, at);
    let after = text.subrange(at, text.len() as int);
    assert(text =~= before + after);
    lemma_encode_concat(before, after);
    assert(encode_utf8(text).subrange(0, byte_offset(text, at)) =~= encode_utf8(before));
    encode_utf8_decode_utf8(before);
}

/// The beginnings of a text grow with their bytes.
pub proof fn lemma_offset_grows(text: Seq<char>, at: int, to: int)
    requires
        0 <= at <= to <= text.len(),
    ensures
        byte_offset(text, at) <= byte_offset(text, to),
{
    let whole = text.subrange(0, to);
    assert(whole.subrange(0, at) =~= text.subrange(0, at));
    lemma_offset_within(whole, at);
}

/// The characters before a character boundary are a beginning of the
/// text, and their bytes are the bytes before the boundary.
pub proof fn lemma_chars_before(text: Seq<char>, byte: int)
    requires
        is_char_boundary(encode_utf8(text), byte),
    ensures
        0 <= chars_before(text, byte) <= text.len(),
        decode_utf8(encode_utf8(text).subrange(0, byte)) == text.subrange(
            0,
            chars_before(text, byte),
        ),
        0 <= byte ==> byte_offset(text, chars_before(text, byte)) == byte,
{
    let bytes = encode_utf8(text);
    encode_utf8_valid_utf8(text);
    encode_utf8_decode_utf8(text);
    decode_utf8_split(bytes, byte);
    let front = decode_utf8(bytes.subrange(0, byte));
    let back = decode_utf8(bytes.subrange(byte, bytes.len() as int));
    assert(text =~= front + back);
    assert(front =~= text.subrange(0, front.len() as int));
    if 0 <= byte {
        valid_utf8_split(bytes, byte);
        vstd::utf8::decode_utf8_encode_utf8(bytes.subrange(0, byte));
    }
}

/// The byte at which the character at `at` starts.
pub fn to_byte_offset(text: &str, at: usize) -> (byte: usize)
    requires
        at <= text@.len(),
    ensures
        byte == byte_offset(text@, at as int),
        byte <= text.spec_bytes().len(),
{
    proof {
        lemma_offset_within(text@, at as int);
    }
    text.substring_char(0, at).as_bytes().len()
}

/// The number of characters before the byte `byte`, which starts a
/// character or is the end.
pub fn to_char_index(text: &str, byte: usize) -> (at: usize)
    requires
        is_char_boundary(text.spec_bytes(), byte as int),
    ensures
        at == chars_before(text@, byte as int),
        at <= text@.len(),
        byte_offset(text@, at as int) == byte,
{
    proof {
        lemma_chars_before(text@, byte as int);
    }
    let (front, _) = text.split_at(byte);
    proof {
        encode_utf8_decode_utf8(front@);
    }
    front.unicode_len()
}

} // verus!
