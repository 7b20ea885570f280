//! Incremental, bounded terminal input decoding.
use replai::{Decoder, EditError, Key};

fn decode(bytes: &[u8], limit: usize) -> Vec<Key> {
    let mut d = Decoder::new(limit);
    bytes.iter().filter_map(|&b| d.feed(b)).collect()
}

#[test]
fn keys_and_every_escape_alias_are_incremental() {
    for (bytes, expected) in [
        (b"\x1b[A".as_slice(), Key::Up),
        (b"\x1b[B", Key::Down),
        (b"\x1b[C", Key::Right),
        (b"\x1b[D", Key::Left),
        (b"\x1b[H", Key::Home),
        (b"\x1bOH", Key::Home),
        (b"\x1b[1~", Key::Home),
        (b"\x1b[7~", Key::Home),
        (b"\x1b[F", Key::End),
        (b"\x1bOF", Key::End),
        (b"\x1b[4~", Key::End),
        (b"\x1b[8~", Key::End),
        (b"\x1b[3~", Key::Delete),
    ] {
        assert_eq!(decode(bytes, 100), [expected]);
    }
    assert_eq!(
        decode(b"\x01\x03\x04\x05\x0c\x08\x7f\t\r\n", 100),
        [
            Key::Home,
            Key::Interrupt,
            Key::Eof,
            Key::End,
            Key::Clear,
            Key::Backspace,
            Key::Backspace,
            Key::Tab,
            Key::Enter,
            Key::Enter
        ]
    );
}

#[test]
fn paste_is_atomic_normalized_and_not_shortcuts() {
    assert_eq!(
        decode("\x1b[200~é\r\n界\r🌍\n\x1b[201~\r".as_bytes(), 100),
        [Key::Text("é\n界\n🌍\n".into()), Key::Enter]
    );
    for control in [3, 4, 8, 12, 27, 127, 0] {
        let mut input = b"\x1b[200~safe".to_vec();
        input.push(control);
        input.extend_from_slice(b"\x1b[201~");
        assert_eq!(decode(&input, 100), [Key::Rejected(EditError::InvalidText)]);
    }
}

#[test]
fn oversized_paste_drains_through_the_end_marker() {
    assert_eq!(
        decode(b"\x1b[200~abcdef\r\x03\x1b[201~x", 3),
        [Key::Rejected(EditError::Capacity), Key::Text("x".into())]
    );
}

#[test]
fn invalid_utf8_and_partial_sequences_are_observable() {
    assert_eq!(
        decode(&[0xff, 0xc0, 0xed, 0xa0, 0x80], 10),
        [
            Key::Rejected(EditError::InvalidUtf8),
            Key::Rejected(EditError::InvalidUtf8),
            Key::Rejected(EditError::InvalidUtf8),
            Key::Rejected(EditError::InvalidUtf8)
        ]
    );
    for prefix in [b"\x1b".as_slice(), b"\x1b[20", b"\xf0\x9f"] {
        let mut d = Decoder::new(8);
        for b in prefix {
            assert!(d.feed(*b).is_none());
        }
        assert!(matches!(d.expire(), Some(Key::Rejected(_))));
        assert_eq!(d.feed(b'a'), Some(Key::Text("a".into())));
    }
    let mut d = Decoder::new(8);
    for b in b"\x1b[200~a\x1b[20" {
        d.feed(*b);
    }
    assert_eq!(d.expire(), Some(Key::IncompletePaste));
}

#[test]
fn unknown_sequences_make_bounded_progress() {
    assert_eq!(
        decode(b"\x1b[999~a", 5),
        [
            Key::Rejected(EditError::InvalidSequence),
            Key::Text("a".into())
        ]
    );
    let mut d = Decoder::new(5);
    for b in b"\x1b[" {
        d.feed(*b);
    }
    for _ in 0..10000 {
        d.feed(b'1');
    }
    assert!(d.feed(b'~').is_none());
    assert_eq!(d.feed(b'a'), Some(Key::Text("a".into())));
}
