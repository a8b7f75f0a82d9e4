use random_access_unicode::DecodeError;
use random_access_unicode::IndexError;
use random_access_unicode::MappedFile;

#[test]
fn hello_world_out_of_bounds() {
    let mut r = MappedFile::new(b"Hello\nworld!\n".to_vec());
    assert_eq!(r.unicode_at(13), Err(IndexError::OutOfBounds));
    assert_eq!(r.unicode_at(14), Err(IndexError::OutOfBounds));
    assert_eq!(r.unicode_at(1000), Err(IndexError::OutOfBounds));
    // earlier indices still work after the failures
    assert_eq!(r.unicode_at(12), Ok('\n'));
}

#[test]
fn empty_buffer() {
    let mut r = MappedFile::new(Vec::new());
    assert_eq!(r.unicode_at(0), Err(IndexError::OutOfBounds));
    assert_eq!(r.unicode_at(1), Err(IndexError::OutOfBounds));
}

#[test]
fn single_character() {
    let mut r = MappedFile::new(b"x".to_vec());
    assert_eq!(r.unicode_at(0), Ok('x'));
    assert_eq!(r.unicode_at(1), Err(IndexError::OutOfBounds));
}

#[test]
fn lone_line_feed() {
    let mut r = MappedFile::new(b"\n".to_vec());
    assert_eq!(r.unicode_at(0), Ok('\n'));
    assert_eq!(r.unicode_at(1), Err(IndexError::OutOfBounds));
}

#[test]
fn multibyte_characters() {
    // 'a' is 1 byte, 'é' 2 bytes, '中' 3 bytes, '𝄞' 4 bytes
    let text = "aé中𝄞\nz";
    let mut r = MappedFile::new(text.as_bytes().to_vec());
    assert_eq!(r.unicode_at(0), Ok('a'));
    assert_eq!(r.unicode_at(1), Ok('é'));
    assert_eq!(r.unicode_at(2), Ok('中'));
    assert_eq!(r.unicode_at(3), Ok('𝄞'));
    assert_eq!(r.unicode_at(4), Ok('\n'));
    assert_eq!(r.unicode_at(5), Ok('z'));
    assert_eq!(r.unicode_at(6), Err(IndexError::OutOfBounds));
}

#[test]
fn character_after_line_feed() {
    let mut r = MappedFile::new(b"ab\ncd\nef".to_vec());
    // the characters just after each line feed belong to their own lines
    assert_eq!(r.unicode_at(3), Ok('c'));
    assert_eq!(r.unicode_at(6), Ok('e'));
    // and so do the line feeds and the characters before them
    assert_eq!(r.unicode_at(2), Ok('\n'));
    assert_eq!(r.unicode_at(5), Ok('\n'));
    assert_eq!(r.unicode_at(4), Ok('d'));
    assert_eq!(r.unicode_at(7), Ok('f'));
}

#[test]
fn random_order_matches_increasing_order() {
    let text = "alpha\nbeta\ngamma\n";
    let chars: Vec<char> = text.chars().collect();

    let mut increasing = MappedFile::new(text.as_bytes().to_vec());
    let mut expected = Vec::new();
    for i in 0..chars.len() {
        expected.push(increasing.unicode_at(i));
    }

    let order = [12usize, 3, 15, 0, 16, 7, 12, 1, 10, 5, 14, 2, 9, 4, 6, 8, 11, 13, 3];
    let mut shuffled = MappedFile::new(text.as_bytes().to_vec());
    for &i in order.iter() {
        assert_eq!(shuffled.unicode_at(i), expected[i]);
        assert_eq!(shuffled.unicode_at(i), Ok(chars[i]));
    }
}

#[test]
fn repeated_queries_are_idempotent() {
    let mut r = MappedFile::new(b"one\ntwo\nthree".to_vec());
    let first = r.unicode_at(9);
    assert_eq!(first, Ok('h'));
    assert_eq!(r.unicode_at(9), first);
    assert_eq!(r.unicode_at(4), Ok('t'));
    assert_eq!(r.unicode_at(9), first);
    assert_eq!(r.unicode_at(13), Err(IndexError::OutOfBounds));
    assert_eq!(r.unicode_at(9), first);
}

#[test]
fn truncated_multibyte_sequence() {
    // 0xC3 opens a two-byte encoding that the buffer cuts short
    let mut r = MappedFile::new(b"ab\xC3".to_vec());
    let expected = Err(IndexError::InvalidChar(DecodeError { valid_up_to: 2 }));
    assert_eq!(r.unicode_at(0), expected);
    assert_eq!(r.unicode_at(2), expected);
    assert_eq!(r.unicode_at(5), expected);
}

#[test]
fn invalid_byte_mid_buffer() {
    // the bytes before the stray continuation byte are well formed
    let mut r = MappedFile::new(b"ok\n\x80rest".to_vec());
    let expected = Err(IndexError::InvalidChar(DecodeError { valid_up_to: 3 }));
    assert_eq!(r.unicode_at(0), expected);
    assert_eq!(r.unicode_at(4), expected);
}

#[test]
fn surrogate_encoding_rejected() {
    // 0xED 0xA0 0x80 would encode the surrogate 0xD800
    let mut r = MappedFile::new(vec![0xED, 0xA0, 0x80]);
    let expected = Err(IndexError::InvalidChar(DecodeError { valid_up_to: 0 }));
    assert_eq!(r.unicode_at(0), expected);
}

#[test]
fn overlong_encoding_rejected() {
    // 0xC0 0x80 is an overlong encoding of 0
    let mut r = MappedFile::new(vec![0xC0, 0x80]);
    let expected = Err(IndexError::InvalidChar(DecodeError { valid_up_to: 0 }));
    assert_eq!(r.unicode_at(0), expected);
}

#[test]
fn out_of_range_leading_byte_rejected() {
    // 0xF5 can only open values past the last Unicode scalar
    let mut r = MappedFile::new(vec![0xF5, 0x80, 0x80, 0x80]);
    let expected = Err(IndexError::InvalidChar(DecodeError { valid_up_to: 0 }));
    assert_eq!(r.unicode_at(0), expected);
}

#[test]
fn far_query_then_near_queries() {
    let text = "first\nsecond\nthird\nfourth\n";
    let chars: Vec<char> = text.chars().collect();
    let mut r = MappedFile::new(text.as_bytes().to_vec());
    // a far-forward query grows the cache past three line feeds
    assert_eq!(r.unicode_at(20), Ok(chars[20]));
    // nearby and earlier queries are then served from the cache
    for i in (0..chars.len()).rev() {
        assert_eq!(r.unicode_at(i), Ok(chars[i]));
    }
    assert_eq!(r.unicode_at(chars.len()), Err(IndexError::OutOfBounds));
}
