//! Concrete cases of the decoder's laws and edge cases.
use replai::{Decoder, EditError, Key};

fn keys(bytes: &[u8], limit: usize) -> Vec<Key> {
    let mut d = Decoder::new(limit);
    bytes.iter().filter_map(|&b| d.feed(b)).collect()
}

#[test]
fn multibyte_scalars_decode_after_their_last_byte() {
    assert_eq!(keys("é界🌍".as_bytes(), 0), [
        Key::Text("é".into()),
        Key::Text("界".into()),
        Key::Text("🌍".into())
    ]);
    assert_eq!(keys("\u{85}".as_bytes(), 0), [Key::Rejected(EditError::InvalidText)]);
}

#[test]
fn a_broken_scalar_is_rejected_with_its_byte_not_replayed() {
    assert_eq!(keys(&[0xe2, 0x28], 0), [Key::Rejected(EditError::InvalidUtf8)]);
    assert_eq!(keys(&[0xc3, 0x01, b'a'], 0), [
        Key::Rejected(EditError::InvalidUtf8),
        Key::Text("a".into())
    ]);
    assert_eq!(keys(&[0x80, 0xf5], 0), [
        Key::Rejected(EditError::InvalidUtf8),
        Key::Rejected(EditError::InvalidUtf8)
    ]);
    assert_eq!(keys(&[0x1f], 0), [Key::Rejected(EditError::InvalidText)]);
}

#[test]
fn pending_reports_staging_and_expiry_resets() {
    let mut d = Decoder::new(4);
    assert!(!d.pending());
    assert_eq!(d.expire(), None);
    d.feed(0xe2);
    assert!(d.pending());
    assert_eq!(d.expire(), Some(Key::Rejected(EditError::InvalidUtf8)));
    assert!(!d.pending());
    d.feed(27);
    d.feed(b'O');
    assert_eq!(d.feed(b'H'), Some(Key::Home));
    assert_eq!(d.feed(27), None);
    assert_eq!(d.expire(), Some(Key::Rejected(EditError::InvalidSequence)));
    assert_eq!(d.feed(b'\r'), Some(Key::Enter));
}

#[test]
fn other_escapes_end_after_their_second_byte() {
    assert_eq!(keys(b"\x1bxa", 4), [
        Key::Rejected(EditError::InvalidSequence),
        Key::Text("a".into())
    ]);
    assert_eq!(keys(b"\x1bOz", 4), [Key::Rejected(EditError::InvalidSequence)]);
}

#[test]
fn oversized_osc_drains_to_its_terminator() {
    let mut input = b"\x1b]".to_vec();
    input.extend(std::iter::repeat(b'x').take(100));
    input.extend_from_slice(b"\x1b\\b");
    assert_eq!(keys(&input, 4), [
        Key::Rejected(EditError::InvalidSequence),
        Key::Text("b".into())
    ]);
    assert_eq!(keys(b"\x1b]0;title\x07c", 4), [
        Key::Rejected(EditError::InvalidSequence),
        Key::Text("c".into())
    ]);
}

#[test]
fn paste_keeps_tabs_and_false_end_markers() {
    assert_eq!(
        keys(b"\x1b[200~a\tb\x1b[20x\x1b[201~", 32),
        [Key::Rejected(EditError::InvalidText)]
    );
    assert_eq!(
        keys(b"\x1b[200~a\x1b[2\x1b[201~", 32),
        [Key::Rejected(EditError::InvalidText)]
    );
    assert_eq!(
        keys(b"\x1b[200~a\tb\x1b[201~", 32),
        [Key::Text("a\tb".into())]
    );
    assert_eq!(
        keys(b"\x1b[200~\r\r\n\x1b[201~", 32),
        [Key::Text("\n\n".into())]
    );
}

#[test]
fn paste_payload_exactly_at_the_limit_is_accepted() {
    assert_eq!(keys(b"\x1b[200~abc\x1b[201~", 3), [Key::Text("abc".into())]);
    assert_eq!(keys(b"\x1b[200~abcd\x1b[201~", 3), [Key::Rejected(EditError::Capacity)]);
    assert_eq!(keys(b"\x1b[200~\xff\x1b[201~", 3), [Key::Rejected(EditError::InvalidUtf8)]);
}

#[test]
fn text_without_controls_decodes_to_one_key_per_character() {
    let text = "a\u{e9}\u{754c}\u{1f30d} z";
    let mut d = Decoder::new(8);
    let mut seen = Vec::new();
    for c in text.chars() {
        let mut buf = [0u8; 4];
        let bytes = c.encode_utf8(&mut buf).as_bytes();
        for (i, &b) in bytes.iter().enumerate() {
            let k = d.feed(b);
            if i + 1 < bytes.len() {
                assert_eq!(k, None);
            } else {
                seen.push(k.unwrap());
            }
        }
    }
    assert!(!d.pending());
    let expected: Vec<Key> = text.chars().map(|c| Key::Text(c.to_string())).collect();
    assert_eq!(seen, expected);
}

#[test]
fn an_oversized_escape_is_rejected_once_then_drains() {
    let mut d = Decoder::new(8);
    let mut out = Vec::new();
    out.push(d.feed(0x1b));
    out.push(d.feed(b'['));
    for _ in 0..200 {
        out.push(d.feed(b'1'));
    }
    out.push(d.feed(b'm'));
    assert!(!d.pending());
    let hits: Vec<usize> = out.iter().enumerate().filter(|(_, k)| k.is_some()).map(|(i, _)| i).collect();
    assert_eq!(hits, [63]);
    assert_eq!(out[63], Some(Key::Rejected(EditError::InvalidSequence)));
    assert_eq!(d.feed(b'q'), Some(Key::Text("q".into())));
}
