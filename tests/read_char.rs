use linetime::read_char::{read_char, CharRead, ReadError};

/// Reads one character from the front of `stream`, byte by byte, as a reader of a
/// stream does.
fn read_from(stream: &mut &[u8], pending: &mut Vec<u8>) -> Result<Option<char>, ReadError> {
    loop {
        let input = stream.first().copied();
        if input.is_some() {
            *stream = &stream[1..];
        }
        match read_char(pending, input)? {
            CharRead::Char(c) => return Ok(Some(c)),
            CharRead::End => return Ok(None),
            CharRead::Incomplete => {}
        }
    }
}

#[test]
fn read_char_can_read_ascii_and_detect_eof() {
    let mut chars = "text".as_bytes();
    let stream = &mut chars;
    let mut pending = Vec::new();
    assert_eq!(Some('t'), read_from(stream, &mut pending).unwrap());
    assert_eq!(Some('e'), read_from(stream, &mut pending).unwrap());
    assert_eq!(Some('x'), read_from(stream, &mut pending).unwrap());
    assert_eq!(Some('t'), read_from(stream, &mut pending).unwrap());
    assert_eq!(None, read_from(stream, &mut pending).unwrap());
}

#[test]
fn read_char_can_read_utf8() {
    let sparkle_heart: [u8; 4] = [240, 159, 146, 150];
    let stream = &mut &sparkle_heart[..];
    let mut pending = Vec::new();
    assert_eq!(Some('💖'), read_from(stream, &mut pending).unwrap());
}

#[test]
fn read_char_fails_when_eof_in_middle_of_utf8_char() {
    let half_utf8: [u8; 2] = [240, 159];
    let stream = &mut &half_utf8[..];
    let mut pending = Vec::new();
    assert_eq!(
        "EOF reached in partial UTF-8 character",
        read_from(stream, &mut pending).unwrap_err().message()
    );
}

#[test]
fn read_char_fails_when_invalid_utf_char() {
    let half_utf8: [u8; 4] = [255, 255, 255, 255];
    let stream = &mut &half_utf8[..];
    let mut pending = Vec::new();
    assert_eq!(
        "Invalid UTF-8 character",
        read_from(stream, &mut pending).unwrap_err().message()
    );
}

#[test]
fn each_byte_reports_its_step() {
    let mut pending = Vec::new();
    assert_eq!(Ok(CharRead::Incomplete), read_char(&mut pending, Some(0xc3)));
    assert_eq!(vec![0xc3], pending);
    assert_eq!(Ok(CharRead::Char('é')), read_char(&mut pending, Some(0xa9)));
    assert!(pending.is_empty());
    assert_eq!(Ok(CharRead::End), read_char(&mut pending, None));
}

#[test]
fn invalid_byte_is_reported_after_four_bytes() {
    let mut pending = Vec::new();
    assert_eq!(Ok(CharRead::Incomplete), read_char(&mut pending, Some(0xff)));
    assert_eq!(Ok(CharRead::Incomplete), read_char(&mut pending, Some(b'a')));
    assert_eq!(Ok(CharRead::Incomplete), read_char(&mut pending, Some(b'b')));
    assert_eq!(Err(ReadError::InvalidUtf8), read_char(&mut pending, Some(b'c')));
    assert!(pending.is_empty());
}

#[test]
fn overlong_and_surrogate_encodings_are_invalid() {
    let mut pending = Vec::new();
    // An overlong encoding of '/'.
    assert_eq!(Ok(CharRead::Incomplete), read_char(&mut pending, Some(0xc0)));
    assert_eq!(Ok(CharRead::Incomplete), read_char(&mut pending, Some(0xaf)));
    assert_eq!(Err(ReadError::PartialChar), read_char(&mut pending, None));
    // U+D800, a surrogate.
    let mut pending = Vec::new();
    assert_eq!(Ok(CharRead::Incomplete), read_char(&mut pending, Some(0xed)));
    assert_eq!(Ok(CharRead::Incomplete), read_char(&mut pending, Some(0xa0)));
    assert_eq!(Ok(CharRead::Incomplete), read_char(&mut pending, Some(0x80)));
    assert_eq!(Err(ReadError::InvalidUtf8), read_char(&mut pending, Some(b'x')));
}

#[test]
fn three_and_two_byte_characters_decode() {
    let mut pending = Vec::new();
    let euro = "€".as_bytes();
    assert_eq!(Ok(CharRead::Incomplete), read_char(&mut pending, Some(euro[0])));
    assert_eq!(Ok(CharRead::Incomplete), read_char(&mut pending, Some(euro[1])));
    assert_eq!(Ok(CharRead::Char('€')), read_char(&mut pending, Some(euro[2])));
    assert_eq!(Ok(CharRead::Char('\u{7f}')), read_char(&mut pending, Some(0x7f)));
}
