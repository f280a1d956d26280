//! Decoding one character of UTF-8 at a time, byte by byte.
use vstd::prelude::*;
use vstd::utf8::*;

verus! {

/// What reading a character came to after one more byte, or the end of input.
#[derive(Clone, Copy, Debug, PartialEq, Eq)]
pub enum CharRead {
    /// The bytes so far encode this character.
    Char(char),
    /// The bytes so far start a character that needs more of them.
    Incomplete,
    /// The input ended where no character had been started.
    End,
}

/// Why the input is not text.
#[derive(Clone, Copy, Debug, PartialEq, Eq)]
pub enum ReadError {
    /// The input ended inside a multi-byte character.
    PartialChar,
    /// Four bytes were read and they do not start with a character.
    InvalidUtf8,
}

impl ReadError {
    pub open spec fn spec_message(self) -> Seq<char> {
        match self {
            ReadError::PartialChar => "EOF reached in partial UTF-8 character"@,
            ReadError::InvalidUtf8 => "Invalid UTF-8 character"@,
        }
    }

    /// The message this error is reported with.
    pub fn message(&self) -> (r: &'static str)
        ensures
            r@ == self.spec_message(),
    {
        match self {
            ReadError::PartialChar => "EOF reached in partial UTF-8 character",
            ReadError::InvalidUtf8 => "Invalid UTF-8 character",
        }
    }
}

/// The character whose UTF-8 encoding is exactly `bytes`, if there is one.
pub open spec fn char_encoded_by(bytes: Seq<u8>) -> Option<char> {
    if exists|c: char| encode_utf8(seq![c]) == bytes {
        Some(choose|c: char| encode_utf8(seq![c]) == bytes)
    } else {
        None
    }
}

/// What reading goes to when `input` follows the bytes `pending` of a character not yet
/// complete (`None`: the input ended), and the bytes it then keeps pending.
pub open spec fn read_step(pending: Seq<u8>, input: Option<u8>) -> (
    Result<CharRead, ReadError>,
    Seq<u8>,
) {
    match input {
        None => if pending.len() == 0 {
            (Ok(CharRead::End), Seq::empty())
        } else {
            (Err(ReadError::PartialChar), Seq::empty())
        },
        Some(b) => {
            let bytes = pending.push(b);
            match char_encoded_by(bytes) {
                Some(c) => (Ok(CharRead::Char(c)), Seq::empty()),
                None => if bytes.len() >= 4 {
                    (Err(ReadError::InvalidUtf8), Seq::empty())
                } else {
                    (Ok(CharRead::Incomplete), bytes)
                },
            }
        },
    }
}

/// Relies on `char::from_u32`: the character of a Unicode scalar value, `None` for
/// any other number.
#[verifier::external_body]
fn char_from_u32(v: u32) -> (r: Option<char>)
    ensures
        is_scalar(v) ==> r == Some(v as char),
        !is_scalar(v) ==> r is None,
{
    char::from_u32(v)
}

proof fn lemma_encode_single(c: char)
    ensures
        encode_utf8(seq![c]) == encode_scalar(c as u32),
{
    let s = seq![c];
    reveal_with_fuel(encode_utf8, 2);
    assert(s.drop_first() =~= Seq::<char>::empty());
    assert(encode_scalar(c as u32) + Seq::<u8>::empty() =~= encode_scalar(c as u32));
}

proof fn lemma_width_bounds(b0: u8, b1: u8, b2: u8)
    ensures
        ((b0 & 0x7F) as u32) <= 0x7F,
        ((((b0 & 0x1F) as u32) << 6) | ((b1 & 0x3F) as u32)) <= 0x7FF,
        ((((b0 & 0x0F) as u32) << 12) | (((b1 & 0x3F) as u32) << 6) | ((b2 & 0x3F) as u32))
            <= 0xFFFF,
{
    assert(((b0 & 0x7F) as u32) <= 0x7F) by (bit_vector);
    assert(((((b0 & 0x1F) as u32) << 6) | ((b1 & 0x3F) as u32)) <= 0x7FF) by (bit_vector);
    assert(((((b0 & 0x0F) as u32) << 12) | (((b1 & 0x3F) as u32) << 6) | ((b2 & 0x3F) as u32))
        <= 0xFFFF) by (bit_vector);
}

/// A character is the only one with its encoding.
proof fn lemma_encoding_unique(c: char, bytes: Seq<u8>)
    requires
        encode_utf8(seq![c]) == bytes,
    ensures
        char_encoded_by(bytes) == Some(c),
{
    assert(exists|d: char| encode_utf8(seq![d]) == bytes);
    let d = choose|d: char| encode_utf8(seq![d]) == bytes;
    encode_utf8_first_scalar(seq![c]);
    encode_utf8_first_scalar(seq![d]);
    char_u32_cast(c, c as u32);
    char_u32_cast(d, d as u32);
}

/// Whether `bytes` is exactly the encoding of one character, decoded.
fn decode_single(bytes: &Vec<u8>) -> (r: Option<char>)
    requires
        1 <= bytes@.len(),
    ensures
        r == char_encoded_by(bytes@),
{
    let ghost s = bytes@;
    let n = bytes.len();
    let b0 = bytes[0];
    let mut cp: Option<u32> = None;
    proof {
        let b1: u8 = if s.len() > 1 { s[1] } else { 0 };
        let b2: u8 = if s.len() > 2 { s[2] } else { 0 };
        lemma_width_bounds(b0, b1, b2);
    }
    if n == 1 && b0 <= 0x7f {
        cp = Some((b0 & 0x7F) as u32);
    } else if n == 2 && 0xc0 <= b0 && b0 <= 0xdf && 0x80 <= bytes[1] && bytes[1] <= 0xbf {
        let v = (((b0 & 0x1F) as u32) << 6) | ((bytes[1] & 0x3F) as u32);
        if 0x80 <= v {
            cp = Some(v);
        }
    } else if n == 3 && 0xe0 <= b0 && b0 <= 0xef && 0x80 <= bytes[1] && bytes[1] <= 0xbf && 0x80
        <= bytes[2] && bytes[2] <= 0xbf {
        let v = (((b0 & 0x0F) as u32) << 12) | (((bytes[1] & 0x3F) as u32) << 6) | ((bytes[2]
            & 0x3F) as u32);
        if 0x800 <= v && !(0xD800 <= v && v <= 0xDFFF) {
            cp = Some(v);
        }
    } else if n == 4 && 0xf0 <= b0 && b0 <= 0xf7 && 0x80 <= bytes[1] && bytes[1] <= 0xbf && 0x80
        <= bytes[2] && bytes[2] <= 0xbf && 0x80 <= bytes[3] && bytes[3] <= 0xbf {
        let v = (((b0 & 0x07) as u32) << 18) | (((bytes[1] & 0x3F) as u32) << 12) | (((bytes[2]
            & 0x3F) as u32) << 6) | ((bytes[3] & 0x3F) as u32);
        if 0x10000 <= v && v <= 0x10ffff {
            cp = Some(v);
        }
    }
    // `cp` is set exactly when `bytes` is one well-formed scalar of its own length.
    assert(cp is Some <==> (valid_first_scalar(s) && length_of_first_scalar(s) == s.len()));
    match cp {
        None => {
            proof {
                if exists|c: char| encode_utf8(seq![c]) == s {
                    let c = choose|c: char| encode_utf8(seq![c]) == s;
                    encode_utf8_first_scalar(seq![c]);
                    lemma_encode_single(c);
                }
            }
            None
        },
        Some(v) => {
            proof {
                assert(v == decode_first_scalar(s));
                assert(is_scalar(v));
                assert(pop_first_scalar(s).len() == 0);
                assert(valid_utf8(s)) by {
                    reveal_with_fuel(valid_utf8, 2);
                }
                decode_utf8_first_scalar(s);
                assert(take_first_scalar(s) =~= s);
                lemma_encode_single(v as char);
                lemma_encoding_unique(v as char, s);
            }
            char_from_u32(v)
        },
    }
}

/// Reads the next character with `input` the next byte, or `None` where the input
/// ended; `pending` holds the bytes of a character not yet complete.
pub fn read_char(pending: &mut Vec<u8>, input: Option<u8>) -> (r: Result<CharRead, ReadError>)
    ensures
        (r, final(pending)@) == read_step(old(pending)@, input),
{
    match input {
        None => {
            if pending.len() == 0 {
                Ok(CharRead::End)
            } else {
                pending.clear();
                Err(ReadError::PartialChar)
            }
        },
        Some(b) => {
            pending.push(b);
            match decode_single(pending) {
                Some(c) => {
                    pending.clear();
                    Ok(CharRead::Char(c))
                },
                None => {
                    if pending.len() >= 4 {
                        pending.clear();
                        Err(ReadError::InvalidUtf8)
                    } else {
                        Ok(CharRead::Incomplete)
                    }
                },
            }
        },
    }
}

} // verus!
