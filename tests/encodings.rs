use loe::encodings::{Ascii, Checker, Utf8};
use loe::{Encoding, EncodingChecker};

fn feed_valid<C: EncodingChecker>(encoding: &mut C, bytes: &[u8]) {
    for byte in bytes {
        assert!(encoding.feed(*byte));
    }
}

fn feed_invalid<C: EncodingChecker>(encoding: &mut C, bytes: &[u8]) {
    let mut flag = true;
    for byte in bytes {
        flag &= encoding.feed(*byte);
    }
    assert!(!flag);
}

/// Position of the first byte that a fresh checker refuses, if any.
fn first_refused(encoding: Encoding, bytes: &[u8]) -> Option<usize> {
    let mut checker: Checker = encoding.checker();
    for (i, byte) in bytes.iter().enumerate() {
        if !checker.feed(*byte) {
            return Some(i);
        }
    }
    None
}

#[test]
fn ascii() {
    feed_valid(&mut Ascii::new(), b"Hello world!");
    feed_valid(&mut Ascii::new(), &[0, 0x7f]);

    feed_invalid(&mut Ascii::new(), "Ahoj světe!".as_bytes());
}

#[test]
fn utf8() {
    feed_valid(&mut Utf8::new(), b"Hello world!");
    feed_valid(&mut Utf8::new(), &[0, 0x7f]);
    feed_valid(&mut Utf8::new(), "Ahoj světe!".as_bytes());
    feed_valid(
        &mut Utf8::new(),
        &[0xc0, 0x80, 0xe0, 0x80, 0x80, 0xf0, 0x80, 0x80, 0x80],
    );
    feed_valid(
        &mut Utf8::new(),
        &[0xc0, 0xbf, 0xe0, 0xbf, 0xbf, 0xf0, 0xbf, 0xbf, 0xbf],
    );

    feed_invalid(&mut Utf8::new(), &[0x80]);
    feed_invalid(&mut Utf8::new(), &[0xc0, 0x7f]);
    feed_invalid(&mut Utf8::new(), &[0xc0, 0x80, 0x80]);
}

#[test]
fn ascii_refuses_first_high_byte_at_its_position() {
    assert_eq!(first_refused(Encoding::Ascii, b"abc\x80def\xff"), Some(3));
    assert_eq!(first_refused(Encoding::Ascii, "Ahoj světe!".as_bytes()), Some(7));
    assert_eq!(first_refused(Encoding::Ascii, b"plain\r\ntext\n"), None);
    assert_eq!(first_refused(Encoding::Ascii, &[]), None);
}

#[test]
fn utf8_accepts_every_byte_of_valid_text() {
    assert_eq!(first_refused(Encoding::Utf8, "žluťoučký kůň 🐎 ∑".as_bytes()), None);
    // overlong forms are structurally valid
    assert_eq!(first_refused(Encoding::Utf8, &[0xc0, 0x80, 0xe0, 0x80, 0x80]), None);
}

#[test]
fn utf8_refuses_at_the_offending_byte() {
    // stray continuation byte
    assert_eq!(first_refused(Encoding::Utf8, &[b'a', 0x80]), Some(1));
    // invalid leading byte
    assert_eq!(first_refused(Encoding::Utf8, &[b'a', b'b', 0xf8]), Some(2));
    assert_eq!(first_refused(Encoding::Utf8, &[0xff]), Some(0));
    // truncated sequences
    assert_eq!(first_refused(Encoding::Utf8, &[0xe0, 0x80, b'a']), Some(2));
    assert_eq!(first_refused(Encoding::Utf8, &[0xf0, 0x80, 0x80, 0x41]), Some(3));
    assert_eq!(first_refused(Encoding::Utf8, &[0xc0, 0x7f]), Some(1));
}

#[test]
fn ignore_accepts_everything() {
    let all: Vec<u8> = (0..=255u8).collect();
    assert_eq!(first_refused(Encoding::Ignore, &all), None);
}

#[test]
fn encoding_names() {
    assert_eq!(Encoding::Utf8.name(), "UTF-8");
    assert_eq!(Encoding::Ascii.name(), "Ascii");
    assert_eq!(Encoding::Ignore.name(), "<none>");
}
