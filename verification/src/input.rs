use vstd::prelude::*;
use vstd::utf8::*;

use crate::editor::EditError;
use crate::text::{
    chars_of, is_control, lemma_without_prepend, string_from_chars, string_from_utf8, valid_chars,
    valid_text, without,
};

verus! {

/// A decoded key or input outcome; the decoder never interprets host meaning.
#[derive(Debug, PartialEq)]
pub enum Key {
    Text(String),
    Enter,
    Interrupt,
    Eof,
    Home,
    End,
    Clear,
    Backspace,
    Delete,
    Tab,
    Up,
    Down,
    Left,
    Right,
    Rejected(EditError),
    IncompletePaste,
}

/// A [`Key`] with its text as characters.
pub enum KeyView {
    Text(Seq<char>),
    Enter,
    Interrupt,
    Eof,
    Home,
    End,
    Clear,
    Backspace,
    Delete,
    Tab,
    Up,
    Down,
    Left,
    Right,
    Rejected(EditError),
    IncompletePaste,
}

impl View for Key {
    type V = KeyView;

    open spec fn view(&self) -> KeyView {
        match self {
            Key::Text(s) => KeyView::Text(s@),
            Key::Enter => KeyView::Enter,
            Key::Interrupt => KeyView::Interrupt,
            Key::Eof => KeyView::Eof,
            Key::Home => KeyView::Home,
            Key::End => KeyView::End,
            Key::Clear => KeyView::Clear,
            Key::Backspace => KeyView::Backspace,
            Key::Delete => KeyView::Delete,
            Key::Tab => KeyView::Tab,
            Key::Up => KeyView::Up,
            Key::Down => KeyView::Down,
            Key::Left => KeyView::Left,
            Key::Right => KeyView::Right,
            Key::Rejected(e) => KeyView::Rejected(*e),
            Key::IncompletePaste => KeyView::IncompletePaste,
        }
    }
}

/// The view of an optional key.
pub open spec fn key_view(key: Option<Key>) -> Option<KeyView> {
    match key {
        Some(k) => Some(k@),
        None => None,
    }
}

/// What the decoder is in the middle of.
pub enum Phase {
    /// Between keys.
    Ready,
    /// Staging the bytes of one multi-byte UTF-8 scalar.
    Utf8(Seq<u8>),
    /// Staging an escape sequence, starting with ESC.
    Escape(Seq<u8>),
    /// Draining an oversized sequence up to its terminator.
    Discard { osc: bool, esc: bool },
    /// Inside a bracketed paste: the staged payload, how much of the end marker
    /// has been seen, and whether the payload outgrew the limit.
    Paste { bytes: Seq<u8>, matched: int, overflow: bool },
}

/// The abstract state of a [`Decoder`].
pub struct DecoderView {
    pub phase: Phase,
    pub limit: int,
}

/// The escape sequence that opens a bracketed paste: `ESC [ 2 0 0 ~`.
pub open spec fn paste_begin() -> Seq<u8> {
    seq![27u8, 91u8, 50u8, 48u8, 48u8, 126u8]
}

/// The escape sequence that closes a bracketed paste: `ESC [ 2 0 1 ~`.
pub open spec fn paste_end() -> Seq<u8> {
    seq![27u8, 91u8, 50u8, 48u8, 49u8, 126u8]
}

/// The number of bytes of the UTF-8 scalar that `lead` starts, for the lead
/// bytes that begin a multi-byte scalar; 0 for any other byte.
pub open spec fn lead_width(lead: u8) -> int {
    if 0xc2 <= lead <= 0xdf {
        2
    } else if 0xe0 <= lead <= 0xef {
        3
    } else if 0xf0 <= lead <= 0xf4 {
        4
    } else {
        0
    }
}

/// The second byte allowed after `lead` in well-formed UTF-8 (Unicode Table 3-7).
pub open spec fn second_byte_ok(lead: u8, byte: u8) -> bool {
    if lead == 0xe0 {
        0xa0 <= byte <= 0xbf
    } else if lead == 0xed {
        0x80 <= byte <= 0x9f
    } else if lead == 0xf0 {
        0x90 <= byte <= 0xbf
    } else if lead == 0xf4 {
        0x80 <= byte <= 0x8f
    } else {
        0x80 <= byte <= 0xbf
    }
}

/// The bytes are a proper, so far well-formed, prefix of one multi-byte scalar:
/// what `std::str::from_utf8` reports as an unexpected end of input.
pub open spec fn utf8_incomplete(bytes: Seq<u8>) -> bool {
    &&& 1 <= bytes.len() < lead_width(bytes[0])
    &&& (bytes.len() >= 2 ==> second_byte_ok(bytes[0], bytes[1]))
    &&& forall|i: int| 2 <= i < bytes.len() ==> 0x80 <= #[trigger] bytes[i] <= 0xbf
}

/// The key that a lone byte stands for outside any sequence, with the phase
/// it starts when it begins a sequence.
pub open spec fn ordinary_step(byte: u8) -> (Phase, Option<KeyView>) {
    if byte == 27 {
        (Phase::Escape(seq![27u8]), None)
    } else if 0xc2 <= byte <= 0xf4 {
        (Phase::Utf8(seq![byte]), None)
    } else {
        (
            Phase::Ready,
            Some(
                if byte == 1 {
                    KeyView::Home
                } else if byte == 3 {
                    KeyView::Interrupt
                } else if byte == 4 {
                    KeyView::Eof
                } else if byte == 5 {
                    KeyView::End
                } else if byte == 8 || byte == 127 {
                    KeyView::Backspace
                } else if byte == 9 {
                    KeyView::Tab
                } else if byte == 10 || byte == 13 {
                    KeyView::Enter
                } else if byte == 12 {
                    KeyView::Clear
                } else if 32 <= byte <= 126 {
                    KeyView::Text(seq![byte as char])
                } else if byte <= 31 {
                    KeyView::Rejected(EditError::InvalidText)
                } else {
                    KeyView::Rejected(EditError::InvalidUtf8)
                },
            ),
        )
    }
}

/// The key named by a complete escape sequence.
pub open spec fn sequence_key(bytes: Seq<u8>) -> KeyView {
    if bytes == seq![27u8, 91u8, 65u8] {
        KeyView::Up
    } else if bytes == seq![27u8, 91u8, 66u8] {
        KeyView::Down
    } else if bytes == seq![27u8, 91u8, 67u8] {
        KeyView::Right
    } else if bytes == seq![27u8, 91u8, 68u8] {
        KeyView::Left
    } else if bytes == seq![27u8, 91u8, 72u8] || bytes == seq![27u8, 79u8, 72u8] || bytes
        == seq![27u8, 91u8, 49u8, 126u8] || bytes == seq![27u8, 91u8, 55u8, 126u8] {
        KeyView::Home
    } else if bytes == seq![27u8, 91u8, 70u8] || bytes == seq![27u8, 79u8, 70u8] || bytes
        == seq![27u8, 91u8, 52u8, 126u8] || bytes == seq![27u8, 91u8, 56u8, 126u8] {
        KeyView::End
    } else if bytes == seq![27u8, 91u8, 51u8, 126u8] {
        KeyView::Delete
    } else {
        KeyView::Rejected(EditError::InvalidSequence)
    }
}

/// Whether staged escape bytes (ESC and at least one more) form a whole
/// sequence: OSC (`ESC ]`) ends with BEL or `ESC \`, CSI (`ESC [`) with a
/// final byte 0x40..=0x7e after at least one more byte, SS3 (`ESC O`) after
/// one more byte, and any other escape after its second byte.
pub open spec fn escape_finished(bytes: Seq<u8>) -> bool {
    let last = bytes.last();
    if bytes[1] == 93 {
        last == 7 || (bytes[bytes.len() - 2] == 27 && last == 92)
    } else if bytes[1] == 91 {
        bytes.len() >= 3 && 0x40 <= last <= 0x7e
    } else {
        bytes[1] != 79 || bytes.len() >= 3
    }
}

/// The byte that ends a drained sequence.
pub open spec fn discard_ends(osc: bool, esc: bool, byte: u8) -> bool {
    if osc {
        byte == 7 || (esc && byte == 92)
    } else {
        0x40 <= byte <= 0x7e
    }
}

/// Staging `more` bytes of paste payload under `limit`: bytes beyond the
/// limit are dropped and mark the payload as overflowed.
pub open spec fn stage(bytes: Seq<u8>, overflow: bool, more: Seq<u8>, limit: int) -> (
    Seq<u8>,
    bool,
) {
    if overflow {
        (bytes, true)
    } else if bytes.len() + more.len() <= limit {
        (bytes + more, false)
    } else {
        ((bytes + more).take(limit), true)
    }
}

/// Pasted newlines: CRLF becomes one LF, a lone CR becomes LF.
pub open spec fn normalize_newlines(text: Seq<char>) -> Seq<char>
    decreases text.len(),
{
    if text.len() == 0 {
        text
    } else if text[0] == '\r' && text.len() > 1 && text[1] == '\n' {
        seq!['\n'] + normalize_newlines(text.skip(2))
    } else if text[0] == '\r' {
        seq!['\n'] + normalize_newlines(text.drop_first())
    } else {
        seq![text[0]] + normalize_newlines(text.drop_first())
    }
}

/// A character with CR written as LF.
pub open spec fn cr_as_lf(c: char) -> char {
    if c == '\r' {
        '\n'
    } else {
        c
    }
}

/// Newline normalization of a paste changes only carriage returns: a text
/// without CR is delivered as it is; no CR survives; in a text without LF
/// each CR becomes one LF; a text whose every CR opens a CRLF loses exactly
/// its CRs; and all characters but CR and LF keep their order.
pub proof fn law_paste_newlines(text: Seq<char>)
    ensures
        !text.contains('\r') ==> normalize_newlines(text) == text,
        !normalize_newlines(text).contains('\r'),
        !text.contains('\n') ==> normalize_newlines(text) == text.map_values(
            |c: char| cr_as_lf(c),
        ),
        (forall|i: int|
            0 <= i < text.len() && #[trigger] text[i] == '\r' ==> i + 1 < text.len() && text[i
                + 1] == '\n') ==> normalize_newlines(text) == without(text, '\r'),
        without(normalize_newlines(text), '\n') == without(without(text, '\r'), '\n'),
    decreases text.len(),
{
    let n = normalize_newlines(text);
    if text.len() == 0 {
        assert(!n.contains('\r'));
        assert(text.map_values(|c: char| cr_as_lf(c)) =~= text);
    } else {
        let x = text[0];
        let tail = text.drop_first();
        assert(seq![x] + tail =~= text);
        lemma_without_prepend(x, tail, '\r');
        if x == '\r' && text.len() > 1 && text[1] == '\n' {
            let r = text.skip(2);
            law_paste_newlines(r);
            let nr = normalize_newlines(r);
            assert(n == seq!['\n'] + nr);
            assert(tail =~= seq!['\n'] + r);
            lemma_without_prepend('\n', r, '\r');
            lemma_without_prepend('\n', nr, '\n');
            lemma_without_prepend('\n', without(r, '\r'), '\n');
            assert(!n.contains('\r')) by {
                if n.contains('\r') {
                    let k = choose|k: int| 0 <= k < n.len() && n[k] == '\r';
                    assert(k > 0);
                    assert(nr[k - 1] == '\r');
                }
            }
            assert(text.contains('\r'));
            assert(text[1] == '\n');
            assert(text.contains('\n'));
            if forall|i: int|
                0 <= i < text.len() && #[trigger] text[i] == '\r' ==> i + 1 < text.len() && text[i
                    + 1] == '\n' {
                assert forall|i: int|
                    0 <= i < r.len() && #[trigger] r[i] == '\r' implies i + 1 < r.len() && r[i + 1]
                    == '\n' by {
                    assert(text[i + 2] == '\r');
                    assert(text[i + 3] == r[i + 1]);
                }
            }
        } else {
            law_paste_newlines(tail);
            let nt = normalize_newlines(tail);
            let y = cr_as_lf(x);
            assert(n == seq![y] + nt);
            lemma_without_prepend(y, nt, '\n');
            lemma_without_prepend(x, without(tail, '\r'), '\n');
            assert(!n.contains('\r')) by {
                if n.contains('\r') {
                    let k = choose|k: int| 0 <= k < n.len() && n[k] == '\r';
                    if k == 0 {
                        assert(n[0] == y);
                    } else {
                        assert(nt[k - 1] == '\r');
                    }
                }
            }
            if !text.contains('\r') {
                assert(x != '\r');
                assert(!tail.contains('\r')) by {
                    if tail.contains('\r') {
                        let k = choose|k: int| 0 <= k < tail.len() && tail[k] == '\r';
                        assert(text[k + 1] == '\r');
                    }
                }
            }
            if !text.contains('\n') {
                assert(!tail.contains('\n')) by {
                    if tail.contains('\n') {
                        let k = choose|k: int| 0 <= k < tail.len() && tail[k] == '\n';
                        assert(text[k + 1] == '\n');
                    }
                }
                assert(text.map_values(|c: char| cr_as_lf(c)) =~= seq![y] + tail.map_values(
                    |c: char| cr_as_lf(c),
                ));
            }
            if forall|i: int|
                0 <= i < text.len() && #[trigger] text[i] == '\r' ==> i + 1 < text.len() && text[i
                    + 1] == '\n' {
                assert(x != '\r') by {
                    if x == '\r' {
                        assert(text[0] == '\r');
                    }
                }
                assert forall|i: int|
                    0 <= i < tail.len() && #[trigger] tail[i] == '\r' implies i + 1 < tail.len()
                    && tail[i + 1] == '\n' by {
                    assert(text[i + 1] == '\r');
                    assert(text[i + 2] == tail[i + 1]);
                }
            }
        }
    }
}

/// A whole bracketed paste of UTF-8 text that holds no CR and only permitted
/// characters, within the limit, is delivered exactly as it was pasted.
pub proof fn law_paste_delivers_text_without_cr(limit: int, payload: Seq<u8>)
    requires
        limit >= payload.len(),
        !has_end_marker(payload),
        valid_utf8(payload),
        !decode_utf8(payload).contains('\r'),
        valid_chars(decode_utf8(payload)),
    ensures
        run(Phase::Ready, limit, paste_begin() + payload + paste_end()).1.last() == Some(
            KeyView::Text(decode_utf8(payload)),
        ),
{
    law_whole_paste(limit, payload);
    law_paste_newlines(decode_utf8(payload));
}

/// The outcome of a completed paste payload.
pub open spec fn paste_result(bytes: Seq<u8>, overflow: bool) -> KeyView {
    if overflow {
        KeyView::Rejected(EditError::Capacity)
    } else if !valid_utf8(bytes) {
        KeyView::Rejected(EditError::InvalidUtf8)
    } else if valid_chars(normalize_newlines(decode_utf8(bytes))) {
        KeyView::Text(normalize_newlines(decode_utf8(bytes)))
    } else {
        KeyView::Rejected(EditError::InvalidText)
    }
}

/// One step of the decoder on one input byte: the next phase and the key, if any.
pub open spec fn feed_step(phase: Phase, limit: int, byte: u8) -> (Phase, Option<KeyView>) {
    match phase {
        Phase::Ready => ordinary_step(byte),
        Phase::Utf8(staged) => {
            let bytes = staged.push(byte);
            if valid_utf8(bytes) {
                if valid_chars(decode_utf8(bytes)) {
                    (Phase::Ready, Some(KeyView::Text(decode_utf8(bytes))))
                } else {
                    (Phase::Ready, Some(KeyView::Rejected(EditError::InvalidText)))
                }
            } else if utf8_incomplete(bytes) && bytes.len() < 4 {
                (Phase::Utf8(bytes), None)
            } else {
                (Phase::Ready, Some(KeyView::Rejected(EditError::InvalidUtf8)))
            }
        },
        Phase::Escape(staged) => {
            let bytes = staged.push(byte);
            if escape_finished(bytes) {
                if bytes == paste_begin() {
                    (Phase::Paste { bytes: Seq::empty(), matched: 0, overflow: false }, None)
                } else {
                    (Phase::Ready, Some(sequence_key(bytes)))
                }
            } else if bytes.len() >= 64 {
                (
                    Phase::Discard { osc: bytes[1] == 93, esc: byte == 27 },
                    Some(KeyView::Rejected(EditError::InvalidSequence)),
                )
            } else {
                (Phase::Escape(bytes), None)
            }
        },
        Phase::Discard { osc, esc } => {
            if discard_ends(osc, esc, byte) {
                (Phase::Ready, None)
            } else {
                (Phase::Discard { osc, esc: byte == 27 }, None)
            }
        },
        Phase::Paste { bytes, matched, overflow } => {
            if byte == paste_end()[matched] {
                if matched + 1 == paste_end().len() {
                    (Phase::Ready, Some(paste_result(bytes, overflow)))
                } else {
                    (Phase::Paste { bytes, matched: matched + 1, overflow }, None)
                }
            } else {
                let held = paste_end().take(matched);
                if byte == paste_end()[0] {
                    let (b, o) = stage(bytes, overflow, held, limit);
                    (Phase::Paste { bytes: b, matched: 1, overflow: o }, None)
                } else {
                    let (b, o) = stage(bytes, overflow, held.push(byte), limit);
                    (Phase::Paste { bytes: b, matched: 0, overflow: o }, None)
                }
            }
        },
    }
}

/// What an idle timeout reports for a pending sequence.
pub open spec fn expire_key(phase: Phase) -> Option<KeyView> {
    match phase {
        Phase::Ready => None,
        Phase::Paste { .. } => Some(KeyView::IncompletePaste),
        Phase::Utf8(_) => Some(KeyView::Rejected(EditError::InvalidUtf8)),
        _ => Some(KeyView::Rejected(EditError::InvalidSequence)),
    }
}

/// The decoder's bounded staging: at most three staged UTF-8 bytes, fewer than
/// 64 staged escape bytes, and a paste payload within the limit.
pub open spec fn decoder_wf(v: DecoderView) -> bool {
    &&& 0 <= v.limit <= usize::MAX
    &&& match v.phase {
        Phase::Ready => true,
        Phase::Utf8(bytes) => 1 <= bytes.len() <= 3,
        Phase::Escape(bytes) => 1 <= bytes.len() < 64 && bytes[0] == 27,
        Phase::Discard { .. } => true,
        Phase::Paste { bytes, matched, overflow } => bytes.len() <= v.limit && 0 <= matched
            < paste_end().len(),
    }
}

enum State {
    Ready,
    Utf8(Vec<u8>),
    Escape(Vec<u8>),
    Discard { osc: bool, esc: bool },
    Paste { bytes: Vec<u8>, matched: usize, overflow: bool },
}

/// Incremental, bounded decoding of terminal input bytes into keys.
pub struct Decoder {
    state: State,
    limit: usize,
}

impl View for Decoder {
    type V = DecoderView;

    closed spec fn view(&self) -> DecoderView {
        DecoderView {
            phase: match self.state {
                State::Ready => Phase::Ready,
                State::Utf8(b) => Phase::Utf8(b@),
                State::Escape(b) => Phase::Escape(b@),
                State::Discard { osc, esc } => Phase::Discard { osc, esc },
                State::Paste { bytes, matched, overflow } => Phase::Paste {
                    bytes: bytes@,
                    matched: matched as int,
                    overflow,
                },
            },
            limit: self.limit as int,
        }
    }
}


/// Staging payload never grows it past the limit.
proof fn lemma_stage_bounded(bytes: Seq<u8>, overflow: bool, more: Seq<u8>, limit: int)
    requires
        bytes.len() <= limit,
    ensures
        stage(bytes, overflow, more, limit).0.len() <= limit,
{
}

/// Decoding keeps all staging bounded: at most three staged UTF-8 bytes, fewer
/// than 64 staged escape bytes, no buffer while draining an oversized
/// sequence, and a paste payload within the limit.
pub proof fn law_staging_is_bounded(v: DecoderView, byte: u8)
    requires
        decoder_wf(v),
    ensures
        decoder_wf(DecoderView { phase: feed_step(v.phase, v.limit, byte).0, limit: v.limit }),
{
    match v.phase {
        Phase::Paste { bytes, matched, overflow } => {
            let held = paste_end().take(matched);
            lemma_stage_bounded(bytes, overflow, held, v.limit);
            lemma_stage_bounded(bytes, overflow, held.push(byte), v.limit);
        },
        Phase::Escape(staged) => {
            assert(staged.push(byte)[0] == 27);
        },
        _ => {},
    }
}

/// An escape sequence makes bounded progress: each byte either completes it,
/// rejects it, or extends it by one byte while it stays shorter than 64 bytes.
pub proof fn law_escape_progress(staged: Seq<u8>, limit: int, byte: u8)
    requires
        1 <= staged.len() < 64,
    ensures
        feed_step(Phase::Escape(staged), limit, byte).0 matches Phase::Escape(next) ==> next
            == staged.push(byte) && next.len() < 64,
        feed_step(Phase::Escape(staged), limit, byte).1 is None ==> (feed_step(
            Phase::Escape(staged),
            limit,
            byte,
        ).0 is Escape || feed_step(Phase::Escape(staged), limit, byte).0 is Paste),
{
}

/// A bracketed paste is atomic: no key is produced until the end marker
/// completes, and then only the whole payload as text or its rejection,
/// never an editing shortcut or a submission.
pub proof fn law_paste_is_atomic(bytes: Seq<u8>, matched: int, overflow: bool, limit: int, byte: u8)
    requires
        0 <= matched < 6,
    ensures
        ({
            let (next, key) = feed_step(
                Phase::Paste { bytes, matched, overflow },
                limit,
                byte,
            );
            &&& key is None ==> next is Paste
            &&& key matches Some(k) ==> {
                &&& matched == 5 && byte == 126 && next is Ready
                &&& k == paste_result(bytes, overflow)
                &&& (k is Text || k is Rejected)
            }
        }),
{
}

/// An oversized paste drains through its end marker and is then rejected as
/// a whole for capacity.
pub proof fn law_oversized_paste_is_rejected(bytes: Seq<u8>, matched: int, limit: int, byte: u8)
    requires
        0 <= matched < 6,
    ensures
        ({
            let (next, key) = feed_step(
                Phase::Paste { bytes, matched, overflow: true },
                limit,
                byte,
            );
            &&& next matches Phase::Paste { overflow, .. } ==> overflow
            &&& key matches Some(k) ==> k == KeyView::Rejected(EditError::Capacity)
        }),
{
}

/// A byte that breaks a multi-byte UTF-8 scalar is rejected together with it:
/// it is never replayed as a shortcut key, and an incomplete scalar is staged.
pub proof fn law_bad_utf8_is_not_replayed(staged: Seq<u8>, limit: int, byte: u8)
    ensures
        ({
            let (next, key) = feed_step(Phase::Utf8(staged), limit, byte);
            &&& key is None ==> next == Phase::Utf8(staged.push(byte))
            &&& key matches Some(k) ==> next is Ready && (k is Text || k
                == KeyView::Rejected(EditError::InvalidText) || k == KeyView::Rejected(
                EditError::InvalidUtf8,
            ))
        }),
{
}

/// After a timeout the decoder is between keys, so the next byte is decoded
/// on its own, exactly as a lone byte.
pub proof fn law_expiry_restarts_decoding(phase: Phase, limit: int, byte: u8)
    ensures
        expire_key(phase) is None <==> phase is Ready,
        feed_step(Phase::Ready, limit, byte) == ordinary_step(byte),
{
}

/// The phase after feeding `bytes` in order, with the key (or none) that
/// each byte produced.
pub open spec fn run(phase: Phase, limit: int, bytes: Seq<u8>) -> (Phase, Seq<Option<KeyView>>)
    decreases bytes.len(),
{
    if bytes.len() == 0 {
        (phase, Seq::empty())
    } else {
        let (next, key) = feed_step(phase, limit, bytes[0]);
        let (last, keys) = run(next, limit, bytes.drop_first());
        (last, seq![key] + keys)
    }
}

/// `n` steps that produce no key.
pub open spec fn quiet(n: nat) -> Seq<Option<KeyView>> {
    Seq::new(n, |i: int| None)
}

/// Feeding two byte strings in turn is feeding their concatenation.
pub proof fn lemma_run_concat(phase: Phase, limit: int, a: Seq<u8>, b: Seq<u8>)
    ensures
        run(phase, limit, a + b) == (
            run(run(phase, limit, a).0, limit, b).0,
            run(phase, limit, a).1 + run(run(phase, limit, a).0, limit, b).1,
        ),
    decreases a.len(),
{
    if a.len() == 0 {
        assert(a + b =~= b);
        assert(run(phase, limit, a).1 + run(phase, limit, b).1 =~= run(phase, limit, b).1);
    } else {
        let (next, key) = feed_step(phase, limit, a[0]);
        assert((a + b).drop_first() =~= a.drop_first() + b);
        assert((a + b)[0] == a[0]);
        lemma_run_concat(next, limit, a.drop_first(), b);
        let tail = run(next, limit, a.drop_first());
        assert(seq![key] + (tail.1 + run(tail.0, limit, b).1) =~= (seq![key] + tail.1) + run(
            tail.0,
            limit,
            b,
        ).1);
    }
}

/// Decoding any byte string keeps all staging bounded.
pub proof fn law_run_stays_bounded(v: DecoderView, bytes: Seq<u8>)
    requires
        decoder_wf(v),
    ensures
        decoder_wf(DecoderView { phase: run(v.phase, v.limit, bytes).0, limit: v.limit }),
    decreases bytes.len(),
{
    if bytes.len() > 0 {
        law_staging_is_bounded(v, bytes[0]);
        let next = DecoderView { phase: feed_step(v.phase, v.limit, bytes[0]).0, limit: v.limit };
        law_run_stays_bounded(next, bytes.drop_first());
    }
}

/// A CSI parameter or intermediate byte: not a final byte 0x40..=0x7e.
pub open spec fn not_final(byte: u8) -> bool {
    !(0x40 <= byte <= 0x7e)
}

/// Staging CSI bytes that are not final keeps the sequence open while it is
/// shorter than 64 bytes.
proof fn lemma_csi_fill(staged: Seq<u8>, limit: int, fill: Seq<u8>)
    requires
        staged.len() >= 2,
        staged[1] == 91,
        staged.len() + fill.len() < 64,
        forall|i: int| 0 <= i < fill.len() ==> not_final(#[trigger] fill[i]),
    ensures
        run(Phase::Escape(staged), limit, fill) == (Phase::Escape(staged + fill), quiet(
            fill.len(),
        )),
    decreases fill.len(),
{
    if fill.len() == 0 {
        assert(staged + fill =~= staged);
        assert(quiet(0) =~= Seq::<Option<KeyView>>::empty());
    } else {
        let next = staged.push(fill[0]);
        assert(next.last() == fill[0]);
        assert(!escape_finished(next));
        assert forall|i: int| 0 <= i < fill.drop_first().len() implies not_final(
            #[trigger] fill.drop_first()[i],
        ) by {
            assert(fill.drop_first()[i] == fill[i + 1]);
        }
        lemma_csi_fill(next, limit, fill.drop_first());
        assert(next + fill.drop_first() =~= staged + fill);
        assert(seq![None] + quiet((fill.len() - 1) as nat) =~= quiet(fill.len()));
    }
}

/// Draining a CSI sequence consumes bytes that are not final without a key.
proof fn lemma_csi_drain(esc: bool, limit: int, fill: Seq<u8>)
    requires
        forall|i: int| 0 <= i < fill.len() ==> not_final(#[trigger] fill[i]),
    ensures
        run(Phase::Discard { osc: false, esc }, limit, fill).0 matches Phase::Discard { osc, .. }
            && !osc,
        run(Phase::Discard { osc: false, esc }, limit, fill).1 == quiet(fill.len()),
    decreases fill.len(),
{
    if fill.len() == 0 {
        assert(quiet(0) =~= Seq::<Option<KeyView>>::empty());
    } else {
        assert forall|i: int| 0 <= i < fill.drop_first().len() implies not_final(
            #[trigger] fill.drop_first()[i],
        ) by {
            assert(fill.drop_first()[i] == fill[i + 1]);
        }
        lemma_csi_drain(fill[0] == 27, limit, fill.drop_first());
        assert(seq![None] + quiet((fill.len() - 1) as nat) =~= quiet(fill.len()));
    }
}

/// An oversized CSI sequence (`ESC [`, then at least 62 bytes that are not
/// final, then a final byte) is rejected exactly once, when its 64th byte is
/// staged; every other byte yields no key, and decoding then stands between keys.
pub proof fn law_oversized_escape_rejected_once(limit: int, fill: Seq<u8>, last: u8)
    requires
        fill.len() >= 62,
        forall|i: int| 0 <= i < fill.len() ==> not_final(#[trigger] fill[i]),
        !not_final(last),
    ensures
        ({
            let bytes = seq![27u8, 91u8] + fill + seq![last];
            let (phase, keys) = run(Phase::Ready, limit, bytes);
            &&& phase == Phase::Ready
            &&& keys.len() == bytes.len()
            &&& keys[63] == Some(KeyView::Rejected(EditError::InvalidSequence))
            &&& forall|i: int| 0 <= i < keys.len() && i != 63 ==> keys[i] is None
        }),
{
    let head = seq![27u8, 91u8];
    let staged_fill = fill.take(61);
    let overflow_byte = fill[61];
    let rest = fill.skip(62);
    assert(fill =~= staged_fill + seq![overflow_byte] + rest);
    // ESC [
    reveal_with_fuel(run, 3);
    assert(seq![27u8].push(91u8) =~= head);
    assert(run(Phase::Ready, limit, head) == (Phase::Escape(head), quiet(2))) by {
        assert(head.drop_first() =~= seq![91u8]);
        assert(seq![91u8].drop_first() =~= Seq::<u8>::empty());
        assert(!escape_finished(head));
        assert(seq![None::<KeyView>] + (seq![None::<KeyView>] + Seq::<Option<KeyView>>::empty())
            =~= quiet(2));
    }
    assert forall|i: int| 0 <= i < staged_fill.len() implies not_final(
        #[trigger] staged_fill[i],
    ) by {
        assert(staged_fill[i] == fill[i]);
    }
    lemma_csi_fill(head, limit, staged_fill);
    let full = head + staged_fill;
    assert(full.len() == 63);
    // the 64th staged byte
    let over = full.push(overflow_byte);
    assert(over.last() == overflow_byte);
    assert(over[1] == 91);
    assert(!escape_finished(over));
    let esc = overflow_byte == 27;
    assert(run(Phase::Escape(full), limit, seq![overflow_byte]) == (
        Phase::Discard { osc: false, esc },
        seq![Some(KeyView::Rejected(EditError::InvalidSequence))],
    )) by {
        assert(seq![overflow_byte].drop_first() =~= Seq::<u8>::empty());
        assert(seq![Some(KeyView::Rejected(EditError::InvalidSequence))] + Seq::<
            Option<KeyView>,
        >::empty() =~= seq![Some(KeyView::Rejected(EditError::InvalidSequence))]);
    }
    assert forall|i: int| 0 <= i < rest.len() implies not_final(#[trigger] rest[i]) by {
        assert(rest[i] == fill[i + 62]);
    }
    lemma_csi_drain(esc, limit, rest);
    let drained = run(Phase::Discard { osc: false, esc }, limit, rest);
    let tail_keys = seq![None::<KeyView>];
    assert(run(drained.0, limit, seq![last]) == (Phase::Ready, tail_keys)) by {
        assert(seq![last].drop_first() =~= Seq::<u8>::empty());
        assert(tail_keys + Seq::<Option<KeyView>>::empty() =~= tail_keys);
    }
    let bytes = head + fill + seq![last];
    assert(bytes =~= ((head + staged_fill) + seq![overflow_byte]) + rest + seq![last]);
    lemma_run_concat(Phase::Ready, limit, head, staged_fill);
    lemma_run_concat(Phase::Ready, limit, head + staged_fill, seq![overflow_byte]);
    lemma_run_concat(Phase::Ready, limit, (head + staged_fill) + seq![overflow_byte], rest);
    lemma_run_concat(
        Phase::Ready,
        limit,
        ((head + staged_fill) + seq![overflow_byte]) + rest,
        seq![last],
    );
    let keys = run(Phase::Ready, limit, bytes).1;
    let expected = quiet(2) + quiet(61) + seq![Some(KeyView::Rejected(EditError::InvalidSequence))]
        + quiet(rest.len()) + tail_keys;
    assert(keys =~= expected);
    assert forall|i: int| 0 <= i < keys.len() && i != 63 implies keys[i] is None by {
        assert(keys[i] == expected[i]);
    }
}

/// Feeding one byte is one decoder step.
proof fn lemma_run_one(phase: Phase, limit: int, byte: u8)
    ensures
        run(phase, limit, seq![byte]) == (
            feed_step(phase, limit, byte).0,
            seq![feed_step(phase, limit, byte).1],
        ),
{
    reveal_with_fuel(run, 2);
    assert(seq![byte].drop_first() =~= Seq::<u8>::empty());
    assert(seq![feed_step(phase, limit, byte).1] + Seq::<Option<KeyView>>::empty() =~= seq![
        feed_step(phase, limit, byte).1,
    ]);
}

/// Whether the closing paste marker occurs somewhere in `bytes`.
pub open spec fn has_end_marker(bytes: Seq<u8>) -> bool {
    exists|k: int| 0 <= k && k + 6 <= bytes.len() && #[trigger] bytes.subrange(k, k + 6) == paste_end()
}

/// Staging in two parts is staging the concatenation.
proof fn lemma_stage_concat(bytes: Seq<u8>, overflow: bool, x: Seq<u8>, y: Seq<u8>, limit: int)
    requires
        bytes.len() <= limit,
    ensures
        ({
            let (b1, o1) = stage(bytes, overflow, x, limit);
            stage(b1, o1, y, limit) == stage(bytes, overflow, x + y, limit)
        }),
{
    let (b1, o1) = stage(bytes, overflow, x, limit);
    if !overflow {
        if bytes.len() + x.len() + y.len() <= limit {
            assert(b1 + y =~= bytes + (x + y));
        } else if bytes.len() + x.len() <= limit {
            assert((b1 + y).take(limit) =~= (bytes + (x + y)).take(limit));
        } else {
            assert(b1 =~= (bytes + (x + y)).take(limit));
        }
    }
}

/// Inside a paste that has consumed payload `x`: the end marker's first
/// `matched` bytes were the last of `x`, and the rest of `x` is staged.
pub open spec fn paste_tracks(phase: Phase, x: Seq<u8>, limit: int) -> bool {
    &&& phase matches Phase::Paste { bytes, matched, overflow }
    &&& 0 <= matched < 6
    &&& matched <= x.len()
    &&& x.subrange(x.len() - matched, x.len() as int) == paste_end().take(matched)
    &&& (bytes, overflow) == stage(Seq::empty(), false, x.take(x.len() - matched), limit)
}

/// One payload byte that does not complete the end marker is staged silently.
proof fn lemma_paste_step(phase: Phase, x: Seq<u8>, limit: int, byte: u8)
    requires
        limit >= 0,
        paste_tracks(phase, x, limit),
        !has_end_marker(x.push(byte)),
    ensures
        feed_step(phase, limit, byte).1 is None,
        paste_tracks(feed_step(phase, limit, byte).0, x.push(byte), limit),
{
    if let Phase::Paste { bytes, matched, overflow } = phase {
        let y = x.push(byte);
        let n = x.len() as int;
        assert(x =~= x.take(n - matched) + paste_end().take(matched));
        if byte == paste_end()[matched] {
            if matched + 1 == 6 {
                assert(y.subrange(n + 1 - 6, n + 1) =~= paste_end());
                assert(has_end_marker(y));
            }
            assert(y.subrange(n + 1 - (matched + 1), n + 1) =~= paste_end().take(matched + 1));
            assert(y.take(n + 1 - (matched + 1)) =~= x.take(n - matched));
        } else {
            lemma_stage_concat(Seq::empty(), false, x.take(n - matched), paste_end().take(matched), limit);
            if byte == paste_end()[0] {
                assert(y.subrange(n, n + 1) =~= paste_end().take(1));
                assert(y.take(n) =~= x);
            } else {
                lemma_stage_concat(
                    Seq::empty(),
                    false,
                    x.take(n - matched),
                    paste_end().take(matched).push(byte),
                    limit,
                );
                assert(x.take(n - matched) + paste_end().take(matched).push(byte) =~= y);
                assert(y.subrange(n + 1, n + 1) =~= paste_end().take(0));
                assert(y.take(n + 1) =~= y);
            }
        }
    }
}

/// A payload without the end marker is staged silently, byte by byte.
proof fn lemma_paste_body(phase: Phase, x: Seq<u8>, y: Seq<u8>, limit: int)
    requires
        limit >= 0,
        paste_tracks(phase, x, limit),
        !has_end_marker(x + y),
    ensures
        paste_tracks(run(phase, limit, y).0, x + y, limit),
        run(phase, limit, y).1 == quiet(y.len()),
    decreases y.len(),
{
    if y.len() == 0 {
        assert(x + y =~= x);
        assert(quiet(0) =~= Seq::<Option<KeyView>>::empty());
    } else {
        let x1 = x.push(y[0]);
        assert(x1 + y.drop_first() =~= x + y);
        if has_end_marker(x1) {
            let k = choose|k: int|
                0 <= k && k + 6 <= x1.len() && #[trigger] x1.subrange(k, k + 6) == paste_end();
            assert((x + y).subrange(k, k + 6) =~= x1.subrange(k, k + 6));
        }
        lemma_paste_step(phase, x, limit, y[0]);
        lemma_paste_body(feed_step(phase, limit, y[0]).0, x1, y.drop_first(), limit);
        assert(seq![None] + quiet((y.len() - 1) as nat) =~= quiet(y.len()));
    }
}

/// The outcome of a whole paste of `payload` bytes under `limit`.
pub open spec fn paste_outcome(payload: Seq<u8>, limit: int) -> KeyView {
    if payload.len() > limit {
        KeyView::Rejected(EditError::Capacity)
    } else {
        paste_result(payload, false)
    }
}

/// The end marker closes a tracked paste with its one outcome.
proof fn lemma_paste_close(phase: Phase, payload: Seq<u8>, limit: int)
    requires
        limit >= 0,
        paste_tracks(phase, payload, limit),
    ensures
        run(phase, limit, paste_end()) == (
            Phase::Ready,
            quiet(5).push(Some(paste_outcome(payload, limit))),
        ),
{
    if let Phase::Paste { bytes, matched, overflow } = phase {
        let n = payload.len() as int;
        let (sb, so) = stage(Seq::empty(), false, payload, limit);
        assert(payload =~= payload.take(n - matched) + paste_end().take(matched));
        lemma_stage_concat(Seq::empty(), false, payload.take(n - matched), paste_end().take(matched), limit);
        let p1 = Phase::Paste { bytes: sb, matched: 1, overflow: so };
        assert(feed_step(phase, limit, 27u8) == (p1, None::<KeyView>));
        let p2 = Phase::Paste { bytes: sb, matched: 2, overflow: so };
        let p3 = Phase::Paste { bytes: sb, matched: 3, overflow: so };
        let p4 = Phase::Paste { bytes: sb, matched: 4, overflow: so };
        let p5 = Phase::Paste { bytes: sb, matched: 5, overflow: so };
        assert(feed_step(p1, limit, 91u8) == (p2, None::<KeyView>));
        assert(feed_step(p2, limit, 50u8) == (p3, None::<KeyView>));
        assert(feed_step(p3, limit, 48u8) == (p4, None::<KeyView>));
        assert(feed_step(p4, limit, 49u8) == (p5, None::<KeyView>));
        let outcome = Some(paste_result(sb, so));
        assert(feed_step(p5, limit, 126u8) == (Phase::Ready, outcome));
        if n <= limit {
            assert(Seq::<u8>::empty() + payload =~= payload);
        }
        assert(outcome == Some(paste_outcome(payload, limit)));
        lemma_run_one(phase, limit, 27u8);
        lemma_run_one(p1, limit, 91u8);
        lemma_run_one(p2, limit, 50u8);
        lemma_run_one(p3, limit, 48u8);
        lemma_run_one(p4, limit, 49u8);
        lemma_run_one(p5, limit, 126u8);
        let e = paste_end();
        assert(e =~= seq![27u8] + seq![91u8] + seq![50u8] + seq![48u8] + seq![49u8] + seq![126u8]);
        lemma_run_concat(phase, limit, seq![27u8], seq![91u8]);
        lemma_run_concat(phase, limit, seq![27u8] + seq![91u8], seq![50u8]);
        lemma_run_concat(phase, limit, seq![27u8] + seq![91u8] + seq![50u8], seq![48u8]);
        lemma_run_concat(
            phase,
            limit,
            seq![27u8] + seq![91u8] + seq![50u8] + seq![48u8],
            seq![49u8],
        );
        lemma_run_concat(
            phase,
            limit,
            seq![27u8] + seq![91u8] + seq![50u8] + seq![48u8] + seq![49u8],
            seq![126u8],
        );
        assert(run(phase, limit, e).1 =~= quiet(5).push(outcome));
    }
}

/// The opening marker starts an empty paste without a key.
proof fn lemma_paste_open(limit: int)
    ensures
        run(Phase::Ready, limit, paste_begin()) == (
            Phase::Paste { bytes: Seq::empty(), matched: 0, overflow: false },
            quiet(6),
        ),
{
    let b1 = seq![27u8];
    let b2 = b1.push(91u8);
    let b3 = b2.push(50u8);
    let b4 = b3.push(48u8);
    let b5 = b4.push(48u8);
    let b6 = b5.push(126u8);
    let q0 = Phase::Ready;
    let q1 = Phase::Escape(b1);
    let q2 = Phase::Escape(b2);
    let q3 = Phase::Escape(b3);
    let q4 = Phase::Escape(b4);
    let q5 = Phase::Escape(b5);
    let q6 = Phase::Paste { bytes: Seq::empty(), matched: 0, overflow: false };
    assert(b6 =~= paste_begin());
    assert(feed_step(q0, limit, 27u8) == (q1, None::<KeyView>));
    assert(!escape_finished(b2));
    assert(feed_step(q1, limit, 91u8) == (q2, None::<KeyView>));
    assert(!escape_finished(b3));
    assert(feed_step(q2, limit, 50u8) == (q3, None::<KeyView>));
    assert(!escape_finished(b4));
    assert(feed_step(q3, limit, 48u8) == (q4, None::<KeyView>));
    assert(!escape_finished(b5));
    assert(feed_step(q4, limit, 48u8) == (q5, None::<KeyView>));
    assert(escape_finished(b6));
    assert(feed_step(q5, limit, 126u8) == (q6, None::<KeyView>));
    lemma_run_one(q0, limit, 27u8);
    lemma_run_one(q1, limit, 91u8);
    lemma_run_one(q2, limit, 50u8);
    lemma_run_one(q3, limit, 48u8);
    lemma_run_one(q4, limit, 48u8);
    lemma_run_one(q5, limit, 126u8);
    let s1 = seq![27u8];
    let s2 = s1 + seq![91u8];
    let s3 = s2 + seq![50u8];
    let s4 = s3 + seq![48u8];
    let s5 = s4 + seq![48u8];
    let s6 = s5 + seq![126u8];
    assert(s6 =~= paste_begin());
    lemma_run_concat(q0, limit, s1, seq![91u8]);
    lemma_run_concat(q0, limit, s2, seq![50u8]);
    lemma_run_concat(q0, limit, s3, seq![48u8]);
    lemma_run_concat(q0, limit, s4, seq![48u8]);
    lemma_run_concat(q0, limit, s5, seq![126u8]);
    assert(run(q0, limit, s6).1 =~= quiet(6));
}

/// A whole bracketed paste, fed byte by byte, yields nothing until the last
/// byte of its end marker, which yields one outcome for the whole payload:
/// capacity when it is longer than the limit, else invalid UTF-8, else the
/// text with CRLF and CR made LF, or invalid text when that holds a control
/// character other than LF or TAB. Decoding then stands between keys.
pub proof fn law_whole_paste(limit: int, payload: Seq<u8>)
    requires
        limit >= 0,
        !has_end_marker(payload),
    ensures
        ({
            let bytes = paste_begin() + payload + paste_end();
            let (phase, keys) = run(Phase::Ready, limit, bytes);
            &&& phase == Phase::Ready
            &&& keys == quiet((bytes.len() - 1) as nat).push(
                Some(paste_outcome(payload, limit)),
            )
        }),
{
    lemma_paste_open(limit);
    let start = Phase::Paste { bytes: Seq::empty(), matched: 0, overflow: false };
    let empty = Seq::<u8>::empty();
    assert(empty.subrange(0, 0) =~= paste_end().take(0));
    assert(empty.take(0) =~= empty);
    assert(Seq::<u8>::empty() + empty =~= empty);
    assert(paste_tracks(start, empty, limit));
    assert(empty + payload =~= payload);
    lemma_paste_body(start, empty, payload, limit);
    let body_end = run(start, limit, payload).0;
    lemma_paste_close(body_end, payload, limit);
    lemma_run_concat(Phase::Ready, limit, paste_begin(), payload);
    lemma_run_concat(Phase::Ready, limit, paste_begin() + payload, paste_end());
    let bytes = paste_begin() + payload + paste_end();
    assert(run(Phase::Ready, limit, bytes).1 =~= quiet((bytes.len() - 1) as nat).push(
        Some(paste_outcome(payload, limit)),
    ));
}

/// The keys produced by typing `text` as UTF-8: no key for the bytes of a
/// character before its last, then one text key holding that character.
pub open spec fn typed_keys(text: Seq<char>) -> Seq<Option<KeyView>>
    decreases text.len(),
{
    if text.len() == 0 {
        Seq::empty()
    } else {
        quiet((encode_scalar(text[0] as u32).len() - 1) as nat).push(
            Some(KeyView::Text(seq![text[0]])),
        ) + typed_keys(text.drop_first())
    }
}

/// The bytes of a character encoded in two bytes.
proof fn lemma_width_2_bytes(v: u32)
    requires
        has_width_2_encoding(v),
    ensures
        0xc2 <= leading_byte_width_2(v) <= 0xdf,
        is_continuation_byte(last_continuation_byte(v)),
{
    assert(0x80 <= v <= 0x7FF ==> 0xc2 <= (0xC0 | ((v >> 6) & 0x1F) as u8) <= 0xdf) by (bit_vector);
    assert(0x80 <= (0x80 | (v & 0x3F) as u8) <= 0xbf) by (bit_vector);
}

/// The bytes of a character encoded in three bytes: a lead byte
/// 0xe0..=0xef and the second byte that Table 3-7 allows after it.
proof fn lemma_width_3_bytes(v: u32)
    requires
        has_width_3_encoding(v),
    ensures
        0xe0 <= leading_byte_width_3(v) <= 0xef,
        second_byte_ok(leading_byte_width_3(v), second_last_continuation_byte(v)),
        is_continuation_byte(last_continuation_byte(v)),
{
    assert(0x800 <= v <= 0xFFFF ==> 0xe0 <= (0xE0 | ((v >> 12) & 0x0F) as u8) <= 0xef) by (bit_vector);
    assert(0x800 <= v <= 0xFFFF && (0xE0 | ((v >> 12) & 0x0F) as u8) == 0xe0 ==> 0xa0 <= (0x80 | ((
    v >> 6) & 0x3F) as u8) <= 0xbf) by (bit_vector);
    assert(0x800 <= v <= 0xFFFF && !(0xD800 <= v <= 0xDFFF) && (0xE0 | ((v >> 12) & 0x0F) as u8)
        == 0xed ==> 0x80 <= (0x80 | ((v >> 6) & 0x3F) as u8) <= 0x9f) by (bit_vector);
    assert(0x80 <= (0x80 | ((v >> 6) & 0x3F) as u8) <= 0xbf) by (bit_vector);
    assert(0x80 <= (0x80 | (v & 0x3F) as u8) <= 0xbf) by (bit_vector);
}

/// The bytes of a character encoded in four bytes: a lead byte
/// 0xf0..=0xf4, the second byte that Table 3-7 allows, and continuations.
proof fn lemma_width_4_bytes(v: u32)
    requires
        has_width_4_encoding(v),
    ensures
        0xf0 <= leading_byte_width_4(v) <= 0xf4,
        second_byte_ok(leading_byte_width_4(v), third_last_continuation_byte(v)),
        is_continuation_byte(second_last_continuation_byte(v)),
        is_continuation_byte(last_continuation_byte(v)),
{
    assert(0x10000 <= v <= 0x10FFFF ==> 0xf0 <= (0xF0 | ((v >> 18) & 0x7) as u8) <= 0xf4) by (bit_vector);
    assert(0x10000 <= v <= 0x10FFFF && (0xF0 | ((v >> 18) & 0x7) as u8) == 0xf0 ==> 0x90 <= (0x80
        | ((v >> 12) & 0x3F) as u8) <= 0xbf) by (bit_vector);
    assert(0x10000 <= v <= 0x10FFFF && (0xF0 | ((v >> 18) & 0x7) as u8) == 0xf4 ==> 0x80 <= (0x80
        | ((v >> 12) & 0x3F) as u8) <= 0x8f) by (bit_vector);
    assert(0x80 <= (0x80 | ((v >> 12) & 0x3F) as u8) <= 0xbf) by (bit_vector);
    assert(0x80 <= (0x80 | ((v >> 6) & 0x3F) as u8) <= 0xbf) by (bit_vector);
    assert(0x80 <= (0x80 | (v & 0x3F) as u8) <= 0xbf) by (bit_vector);
}

/// Typing one character that is not a control code yields one text key
/// holding it, after its last byte.
proof fn lemma_typed_char(limit: int, c: char)
    requires
        !is_control(c),
    ensures
        run(Phase::Ready, limit, encode_scalar(c as u32)) == (
            Phase::Ready,
            quiet((encode_scalar(c as u32).len() - 1) as nat).push(Some(KeyView::Text(seq![c]))),
        ),
{
    let v = c as u32;
    char_is_scalar(c);
    let bytes = encode_scalar(v);
    assert(encode_utf8(seq![c]) =~= bytes) by {
        let one = seq![c];
        assert(one[0] == c);
        assert(one.drop_first() =~= Seq::<char>::empty());
        assert(encode_utf8(one.drop_first()) =~= Seq::<u8>::empty());
        assert(encode_utf8(one) == encode_scalar(v) + encode_utf8(one.drop_first()));
        assert(encode_scalar(v) + Seq::<u8>::empty() =~= bytes);
    }
    encode_utf8_valid_utf8(seq![c]);
    encode_utf8_decode_utf8(seq![c]);
    assert(valid_chars(seq![c]));
    let key = Some(KeyView::Text(seq![c]));
    if has_width_1_encoding(v) {
        let b = leading_byte_width_1(v);
        assert(v <= 0x7F ==> (v & 0x7F) as u8 == v) by (bit_vector);
        assert((b as u32) == v);
        assert(b as char == c) by {
            char_u32_cast(c, v);
            assert((b as u32) as char == b as char);
        }
        assert(feed_step(Phase::Ready, limit, b) == (Phase::Ready, key));
        lemma_run_one(Phase::Ready, limit, b);
        assert(bytes =~= seq![b]);
        assert(quiet(0).push(key) =~= seq![key]);
    } else if has_width_2_encoding(v) {
        lemma_width_2_bytes(v);
        let (l, t) = (leading_byte_width_2(v), last_continuation_byte(v));
        assert(bytes =~= seq![l] + seq![t]);
        let q1 = Phase::Utf8(seq![l]);
        assert(feed_step(Phase::Ready, limit, l) == (q1, None::<KeyView>));
        assert(seq![l].push(t) =~= bytes);
        assert(feed_step(q1, limit, t) == (Phase::Ready, key));
        lemma_run_one(Phase::Ready, limit, l);
        lemma_run_one(q1, limit, t);
        lemma_run_concat(Phase::Ready, limit, seq![l], seq![t]);
        assert(seq![None::<KeyView>] + seq![key] =~= quiet(1).push(key));
    } else if has_width_3_encoding(v) {
        lemma_width_3_bytes(v);
        let (l, m, t) = (
            leading_byte_width_3(v),
            second_last_continuation_byte(v),
            last_continuation_byte(v),
        );
        assert(bytes =~= seq![l] + seq![m] + seq![t]);
        let two = seq![l].push(m);
        assert(!valid_utf8(two));
        assert(utf8_incomplete(two));
        let q1 = Phase::Utf8(seq![l]);
        let q2 = Phase::Utf8(two);
        assert(feed_step(Phase::Ready, limit, l) == (q1, None::<KeyView>));
        assert(feed_step(q1, limit, m) == (q2, None::<KeyView>));
        assert(two.push(t) =~= bytes);
        assert(feed_step(q2, limit, t) == (Phase::Ready, key));
        lemma_run_one(Phase::Ready, limit, l);
        lemma_run_one(q1, limit, m);
        lemma_run_one(q2, limit, t);
        lemma_run_concat(Phase::Ready, limit, seq![l], seq![m]);
        lemma_run_concat(Phase::Ready, limit, seq![l] + seq![m], seq![t]);
        assert(seq![None::<KeyView>] + seq![None::<KeyView>] + seq![key] =~= quiet(2).push(key));
    } else {
        lemma_width_4_bytes(v);
        let (l, m1, m2, t) = (
            leading_byte_width_4(v),
            third_last_continuation_byte(v),
            second_last_continuation_byte(v),
            last_continuation_byte(v),
        );
        assert(bytes =~= seq![l] + seq![m1] + seq![m2] + seq![t]);
        let two = seq![l].push(m1);
        let three = two.push(m2);
        assert(!valid_utf8(two));
        assert(utf8_incomplete(two));
        assert(!valid_utf8(three));
        assert(utf8_incomplete(three));
        let q1 = Phase::Utf8(seq![l]);
        let q2 = Phase::Utf8(two);
        let q3 = Phase::Utf8(three);
        assert(feed_step(Phase::Ready, limit, l) == (q1, None::<KeyView>));
        assert(feed_step(q1, limit, m1) == (q2, None::<KeyView>));
        assert(feed_step(q2, limit, m2) == (q3, None::<KeyView>));
        assert(three.push(t) =~= bytes);
        assert(feed_step(q3, limit, t) == (Phase::Ready, key));
        lemma_run_one(Phase::Ready, limit, l);
        lemma_run_one(q1, limit, m1);
        lemma_run_one(q2, limit, m2);
        lemma_run_one(q3, limit, t);
        lemma_run_concat(Phase::Ready, limit, seq![l], seq![m1]);
        lemma_run_concat(Phase::Ready, limit, seq![l] + seq![m1], seq![m2]);
        lemma_run_concat(Phase::Ready, limit, seq![l] + seq![m1] + seq![m2], seq![t]);
        assert(seq![None::<KeyView>] + seq![None::<KeyView>] + seq![None::<KeyView>] + seq![key]
            =~= quiet(3).push(key));
    }
}

/// Typing text with no control character, byte by byte, yields exactly one
/// text key per character, in order, each at the character's last byte, and
/// decoding then stands between keys.
pub proof fn law_typed_text(limit: int, text: Seq<char>)
    requires
        forall|i: int| 0 <= i < text.len() ==> !is_control(#[trigger] text[i]),
    ensures
        run(Phase::Ready, limit, encode_utf8(text)) == (Phase::Ready, typed_keys(text)),
    decreases text.len(),
{
    if text.len() == 0 {
        assert(encode_utf8(text) =~= Seq::<u8>::empty());
    } else {
        let rest = text.drop_first();
        assert forall|i: int| 0 <= i < rest.len() implies !is_control(#[trigger] rest[i]) by {
            assert(rest[i] == text[i + 1]);
        }
        assert(!is_control(text[0]));
        lemma_typed_char(limit, text[0]);
        law_typed_text(limit, rest);
        lemma_run_concat(Phase::Ready, limit, encode_scalar(text[0] as u32), encode_utf8(rest));
    }
}

/// A printable ASCII byte decodes to the one character it encodes.
proof fn lemma_ascii_byte(byte: u8)
    requires
        byte < 128,
    ensures
        valid_utf8(seq![byte]),
        decode_utf8(seq![byte]) == seq![byte as char],
{
    let chars = seq![byte as char];
    assert(is_ascii_chars(chars));
    is_ascii_chars_encode_utf8(chars);
    assert(encode_utf8(chars) =~= seq![byte]);
    encode_utf8_valid_utf8(chars);
    encode_utf8_decode_utf8(chars);
}

/// The text key for a printable ASCII byte.
fn ascii_text(byte: u8) -> (s: String)
    requires
        32 <= byte <= 126,
    ensures
        s@ == seq![byte as char],
{
    proof {
        lemma_ascii_byte(byte);
    }
    let bytes = vec![byte];
    assert(bytes@ =~= seq![byte]);
    match string_from_utf8(bytes) {
        Some(s) => s,
        None => String::new(),
    }
}

/// Staging more payload one byte at a time agrees with staging it at once.
proof fn lemma_stage_one_more(bytes: Seq<u8>, overflow: bool, more: Seq<u8>, byte: u8, limit: int)
    requires
        bytes.len() <= limit,
    ensures
        ({
            let (b1, o1) = stage(bytes, overflow, more, limit);
            stage(b1, o1, seq![byte], limit) == stage(bytes, overflow, more.push(byte), limit)
        }),
        stage(bytes, overflow, more, limit).0.len() <= limit,
{
    let (b1, o1) = stage(bytes, overflow, more, limit);
    if !overflow {
        if bytes.len() + more.len() + 1 <= limit {
            assert(b1 + seq![byte] =~= bytes + more.push(byte));
        } else if bytes.len() + more.len() <= limit {
            assert((b1 + seq![byte]).take(limit) =~= (bytes + more.push(byte)).take(limit));
        } else {
            assert(b1 =~= (bytes + more.push(byte)).take(limit));
        }
    }
}

/// Stage one payload byte: append it below the limit, else mark overflow.
fn append(bytes: &mut Vec<u8>, byte: u8, limit: usize, overflow: &mut bool)
    requires
        old(bytes)@.len() <= limit,
    ensures
        (final(bytes)@, *final(overflow)) == stage(old(bytes)@, *old(overflow), seq![byte], limit as int),
        final(bytes)@.len() <= limit,
{
    if bytes.len() < limit && !*overflow {
        bytes.push(byte);
        assert(bytes@ =~= old(bytes)@ + seq![byte]);
    } else {
        *overflow = true;
        proof {
            if !*old(overflow) {
                assert((old(bytes)@ + seq![byte]).take(limit as int) =~= old(bytes)@);
            }
        }
    }
}

/// The key named by a complete escape sequence.
fn sequence(bytes: &Vec<u8>) -> (key: Key)
    ensures
        key@ == sequence_key(bytes@),
{
    let n = bytes.len();
    if n == 3 && bytes[0] == 27 {
        let (b1, b2) = (bytes[1], bytes[2]);
        proof {
            assert(bytes@ == seq![27u8, b1, b2]);
        }
        if b1 == 91 {
            if b2 == 65 {
                return Key::Up;
            } else if b2 == 66 {
                return Key::Down;
            } else if b2 == 67 {
                return Key::Right;
            } else if b2 == 68 {
                return Key::Left;
            } else if b2 == 72 {
                return Key::Home;
            } else if b2 == 70 {
                return Key::End;
            }
        } else if b1 == 79 {
            if b2 == 72 {
                return Key::Home;
            } else if b2 == 70 {
                return Key::End;
            }
        }
    } else if n == 4 && bytes[0] == 27 && bytes[1] == 91 && bytes[3] == 126 {
        let b2 = bytes[2];
        proof {
            assert(bytes@ == seq![27u8, 91u8, b2, 126u8]);
        }
        if b2 == 49 || b2 == 55 {
            return Key::Home;
        } else if b2 == 52 || b2 == 56 {
            return Key::End;
        } else if b2 == 51 {
            return Key::Delete;
        }
    }
    Key::Rejected(EditError::InvalidSequence)
}

/// Whether staged bytes are the opening marker of a bracketed paste.
fn is_paste_begin(bytes: &Vec<u8>) -> (b: bool)
    ensures
        b == (bytes@ == paste_begin()),
{
    if bytes.len() == 6 && bytes[0] == 27 && bytes[1] == 91 && bytes[2] == 50 && bytes[3] == 48
        && bytes[4] == 48 && bytes[5] == 126 {
        assert(bytes@ =~= paste_begin());
        true
    } else {
        false
    }
}

/// The `i`th byte of the closing paste marker.
fn paste_end_byte(i: usize) -> (b: u8)
    requires
        i < 6,
    ensures
        b == paste_end()[i as int],
{
    if i == 0 {
        27
    } else if i == 1 {
        91
    } else if i == 2 {
        50
    } else if i == 3 {
        48
    } else if i == 4 {
        49
    } else {
        126
    }
}

/// Whether staged escape bytes form a whole sequence.
fn finished(bytes: &Vec<u8>) -> (b: bool)
    requires
        bytes@.len() >= 2,
    ensures
        b == escape_finished(bytes@),
{
    let n = bytes.len();
    let last = bytes[n - 1];
    if bytes[1] == 93 {
        last == 7 || (bytes[n - 2] == 27 && last == 92)
    } else if bytes[1] == 91 {
        n >= 3 && 0x40 <= last && last <= 0x7e
    } else {
        bytes[1] != 79 || n >= 3
    }
}

/// Whether staged bytes are a proper, so far well-formed, prefix of one scalar.
fn incomplete(bytes: &Vec<u8>) -> (b: bool)
    requires
        1 <= bytes@.len() <= 4,
    ensures
        b == utf8_incomplete(bytes@),
{
    let lead = bytes[0];
    let width: usize = if 0xc2 <= lead && lead <= 0xdf {
        2
    } else if 0xe0 <= lead && lead <= 0xef {
        3
    } else if 0xf0 <= lead && lead <= 0xf4 {
        4
    } else {
        0
    };
    let n = bytes.len();
    if n >= width {
        return false;
    }
    if n >= 2 {
        let second = bytes[1];
        let ok = if lead == 0xe0 {
            0xa0 <= second && second <= 0xbf
        } else if lead == 0xed {
            0x80 <= second && second <= 0x9f
        } else if lead == 0xf0 {
            0x90 <= second && second <= 0xbf
        } else if lead == 0xf4 {
            0x80 <= second && second <= 0x8f
        } else {
            0x80 <= second && second <= 0xbf
        };
        if !ok {
            return false;
        }
    }
    if n >= 3 && !(0x80 <= bytes[2] && bytes[2] <= 0xbf) {
        return false;
    }
    true
}

/// Pasted newlines normalized: CRLF becomes one LF, a lone CR becomes LF.
fn normalized(text: &Vec<char>) -> (out: Vec<char>)
    ensures
        out@ == normalize_newlines(text@),
{
    let mut out: Vec<char> = Vec::new();
    let mut i: usize = 0;
    let n = text.len();
    assert(text@.skip(0) =~= text@);
    assert(out@ + normalize_newlines(text@) =~= normalize_newlines(text@));
    while i < n
        invariant
            n == text@.len(),
            0 <= i <= n,
            normalize_newlines(text@) == out@ + normalize_newlines(text@.skip(i as int)),
        decreases n - i,
    {
        let rest = Ghost(text@.skip(i as int));
        if text[i] == '\r' && i + 1 < n && text[i + 1] == '\n' {
            assert(rest@.skip(2) =~= text@.skip(i + 2));
            out.push('\n');
            i = i + 2;
        } else {
            assert(rest@.drop_first() =~= text@.skip(i + 1));
            if text[i] == '\r' {
                out.push('\n');
            } else {
                out.push(text[i]);
            }
            i = i + 1;
        }
        assert(normalize_newlines(text@) =~= out@ + normalize_newlines(text@.skip(i as int)));
    }
    assert(text@.skip(n as int).len() == 0);
    assert(out@ + normalize_newlines(text@.skip(n as int)) =~= out@);
    out
}

/// The key for a completed paste payload.
fn finish_paste(bytes: Vec<u8>, overflow: bool) -> (key: Key)
    ensures
        key@ == paste_result(bytes@, overflow),
{
    if overflow {
        return Key::Rejected(EditError::Capacity);
    }
    let ghost raw = bytes@;
    match string_from_utf8(bytes) {
        None => Key::Rejected(EditError::InvalidUtf8),
        Some(s) => {
            let chars = chars_of(s.as_str());
            let text = string_from_chars(normalized(&chars));
            if valid_text(text.as_str()) {
                Key::Text(text)
            } else {
                Key::Rejected(EditError::InvalidText)
            }
        },
    }
}

impl Decoder {
    /// The invariant: all staging stays within its bounds.
    pub open spec fn wf(&self) -> bool {
        decoder_wf(self@)
    }

    /// A decoder between keys whose paste payloads are bounded by `limit` bytes.
    pub fn new(limit: usize) -> (d: Self)
        ensures
            d.wf(),
            d@.phase == Phase::Ready,
            d@.limit == limit,
    {
        Decoder { state: State::Ready, limit }
    }

    /// Whether a sequence or paste is in progress.
    pub fn pending(&self) -> (p: bool)
        ensures
            p == !(self@.phase is Ready),
    {
        match self.state {
            State::Ready => false,
            _ => true,
        }
    }

    /// Abandon a pending sequence after an idle timeout and report it.
    pub fn expire(&mut self) -> (key: Option<Key>)
        requires
            old(self).wf(),
        ensures
            final(self).wf(),
            final(self)@.phase == Phase::Ready,
            final(self)@.limit == old(self)@.limit,
            key_view(key) == expire_key(old(self)@.phase),
    {
        let mut state = State::Ready;
        std::mem::swap(&mut state, &mut self.state);
        match state {
            State::Ready => None,
            State::Paste { .. } => Some(Key::IncompletePaste),
            State::Utf8(_) => Some(Key::Rejected(EditError::InvalidUtf8)),
            _ => Some(Key::Rejected(EditError::InvalidSequence)),
        }
    }

    /// Decode one input byte; a key is produced only when one is complete.
    pub fn feed(&mut self, byte: u8) -> (key: Option<Key>)
        requires
            old(self).wf(),
        ensures
            final(self).wf(),
            final(self)@.limit == old(self)@.limit,
            (final(self)@.phase, key_view(key)) == feed_step(
                old(self)@.phase,
                old(self)@.limit,
                byte,
            ),
    {
        let mut state = State::Ready;
        std::mem::swap(&mut state, &mut self.state);
        match state {
            State::Ready => self.ordinary(byte),
            State::Utf8(mut bytes) => {
                bytes.push(byte);
                let ghost staged = bytes@;
                match string_from_utf8(bytes.clone()) {
                    Some(s) => {
                        if valid_text(s.as_str()) {
                            Some(Key::Text(s))
                        } else {
                            Some(Key::Rejected(EditError::InvalidText))
                        }
                    },
                    None => {
                        if incomplete(&bytes) && bytes.len() < 4 {
                            self.state = State::Utf8(bytes);
                            None
                        } else {
                            Some(Key::Rejected(EditError::InvalidUtf8))
                        }
                    },
                }
            },
            State::Escape(mut bytes) => {
                bytes.push(byte);
                let osc = bytes[1] == 93;
                if finished(&bytes) {
                    if is_paste_begin(&bytes) {
                        self.state = State::Paste { bytes: Vec::new(), matched: 0, overflow: false };
                        None
                    } else {
                        Some(sequence(&bytes))
                    }
                } else if bytes.len() >= 64 {
                    self.state = State::Discard { osc, esc: byte == 27 };
                    Some(Key::Rejected(EditError::InvalidSequence))
                } else {
                    self.state = State::Escape(bytes);
                    None
                }
            },
            State::Discard { osc, esc } => {
                let ends = if osc {
                    byte == 7 || (esc && byte == 92)
                } else {
                    0x40 <= byte && byte <= 0x7e
                };
                if !ends {
                    self.state = State::Discard { osc, esc: byte == 27 };
                }
                None
            },
            State::Paste { mut bytes, mut matched, mut overflow } => {
                if byte == paste_end_byte(matched) {
                    matched = matched + 1;
                    if matched == 6 {
                        return Some(finish_paste(bytes, overflow));
                    }
                } else {
                    let ghost before = (bytes@, overflow);
                    let mut k: usize = 0;
                    while k < matched
                        invariant
                            0 <= k <= matched < 6,
                            before.0.len() <= self.limit,
                            (bytes@, overflow) == stage(
                                before.0,
                                before.1,
                                paste_end().take(k as int),
                                self.limit as int,
                            ),
                            bytes@.len() <= self.limit,
                        decreases matched - k,
                    {
                        proof {
                            lemma_stage_one_more(
                                before.0,
                                before.1,
                                paste_end().take(k as int),
                                paste_end()[k as int],
                                self.limit as int,
                            );
                            assert(paste_end().take(k as int).push(paste_end()[k as int])
                                =~= paste_end().take(k + 1));
                        }
                        append(&mut bytes, paste_end_byte(k), self.limit, &mut overflow);
                        k = k + 1;
                    }
                    if byte == 27 {
                        matched = 1;
                    } else {
                        proof {
                            lemma_stage_one_more(
                                before.0,
                                before.1,
                                paste_end().take(k as int),
                                byte,
                                self.limit as int,
                            );
                        }
                        append(&mut bytes, byte, self.limit, &mut overflow);
                        matched = 0;
                    }
                }
                self.state = State::Paste { bytes, matched, overflow };
                None
            },
        }
    }

    /// Decode a byte outside any sequence.
    fn ordinary(&mut self, byte: u8) -> (key: Option<Key>)
        requires
            old(self).wf(),
            old(self)@.phase is Ready,
        ensures
            final(self).wf(),
            final(self)@.limit == old(self)@.limit,
            (final(self)@.phase, key_view(key)) == ordinary_step(byte),
    {
        if byte == 27 {
            let staged = vec![27u8];
            assert(staged@ =~= seq![27u8]);
            self.state = State::Escape(staged);
            return None;
        }
        if 0xc2 <= byte && byte <= 0xf4 {
            let staged = vec![byte];
            assert(staged@ =~= seq![byte]);
            self.state = State::Utf8(staged);
            return None;
        }
        Some(
            if byte == 1 {
                Key::Home
            } else if byte == 3 {
                Key::Interrupt
            } else if byte == 4 {
                Key::Eof
            } else if byte == 5 {
                Key::End
            } else if byte == 8 || byte == 127 {
                Key::Backspace
            } else if byte == 9 {
                Key::Tab
            } else if byte == 10 || byte == 13 {
                Key::Enter
            } else if byte == 12 {
                Key::Clear
            } else if 32 <= byte && byte <= 126 {
                Key::Text(ascii_text(byte))
            } else if byte <= 31 {
                Key::Rejected(EditError::InvalidText)
            } else {
                Key::Rejected(EditError::InvalidUtf8)
            },
        )
    }
}

} // verus!
