use vstd::prelude::*;
use vstd::utf8::encode_utf8;
use crate::graphemes::{grapheme_starts, tiles};

use crate::editor::{
    law_delete_removes_cluster_after, edit_message, backspace_spec, delete_spec, history_down_spec, history_up_spec, left_spec, replace_outcome,
    right_spec, well_formed, EditError, Editor, EditorView,
};
use crate::input::{expire_key, feed_step, Decoder, DecoderView, Key, KeyView, Phase};
use crate::text::{
    allowed_char, byte_len, chars_of, lemma_without_absent, lemma_without_concat,
    lemma_without_prepend, string_from_chars, valid_chars, valid_text, without,
};

verus! {

#[verifier::external_type_specification]
#[verifier::external_body]
pub struct ExIoErrorKind(std::io::ErrorKind);

/// A terminal I/O failure as the library reports it: the kind of the failure
/// and its message, both carried as the host's I/O layer gave them.
#[derive(Debug, PartialEq, Eq)]
pub struct IoFailure {
    pub kind: std::io::ErrorKind,
    pub message: String,
}

/// A host-visible interaction event; input is never interpreted by the library.
#[derive(Debug, PartialEq)]
pub enum Event {
    /// Enter submitted the complete input, possibly containing newlines. Terminal restored.
    Submitted(String),
    /// Ctrl-C or explicit host interruption. Terminal restored; draft remains available.
    Interrupted,
    /// Read EOF or Ctrl-D on an empty buffer. Terminal restored.
    EndOfInput,
    /// Tab requests host completion.
    CompletionRequested,
    /// Invalid input or capacity rejection; the unchanged draft remains editable.
    Rejected(EditError),
}

/// An [`Event`] with its submitted text as characters.
pub enum EventView {
    Submitted(Seq<char>),
    Interrupted,
    EndOfInput,
    CompletionRequested,
    Rejected(EditError),
}

impl View for Event {
    type V = EventView;

    open spec fn view(&self) -> EventView {
        match self {
            Event::Submitted(s) => EventView::Submitted(s@),
            Event::Interrupted => EventView::Interrupted,
            Event::EndOfInput => EventView::EndOfInput,
            Event::CompletionRequested => EventView::CompletionRequested,
            Event::Rejected(e) => EventView::Rejected(*e),
        }
    }
}

/// Recoverable edit rejection or terminal I/O failure.
#[derive(Debug)]
pub enum Error {
    /// Operation requires a different open/closed interaction state.
    State,
    /// Another interaction already owns a terminal in this process.
    Busy,
    /// Input/output are not a matching, suitably sized terminal pair.
    UnsuitableTerminal,
    /// An invalid edit; the terminal remains active and the draft is unchanged.
    Edit(EditError),
    /// Terminal failure. Cleanup has been attempted; a cleanup failure is included in the message.
    Io(IoFailure),
}

/// The message of each error; an I/O failure gives its own message.
pub open spec fn error_message(e: &Error) -> Seq<char> {
    match e {
        Error::State => "invalid interaction state"@,
        Error::Busy => "another terminal interaction is active"@,
        Error::UnsuitableTerminal => "unsuitable terminal descriptors or dimensions"@,
        Error::Edit(x) => edit_message(*x),
        Error::Io(f) => f.message@,
    }
}

impl Error {
    /// The human-readable description of the error.
    pub fn message(&self) -> (m: String)
        ensures
            m@ == error_message(self),
    {
        match self {
            Error::State => "invalid interaction state".to_owned(),
            Error::Busy => "another terminal interaction is active".to_owned(),
            Error::UnsuitableTerminal => "unsuitable terminal descriptors or dimensions".to_owned(),
            Error::Edit(x) => x.message().to_owned(),
            Error::Io(f) => f.message.clone(),
        }
    }
}

impl From<EditError> for Error {
    fn from(e: EditError) -> (r: Self) {
        Error::Edit(e)
    }
}

impl vstd::std_specs::convert::FromSpecImpl<EditError> for Error {
    open spec fn obeys_from_spec() -> bool {
        true
    }

    open spec fn from_spec(e: EditError) -> Error {
        Error::Edit(e)
    }
}

impl From<IoFailure> for Error {
    fn from(e: IoFailure) -> (r: Self) {
        Error::Io(e)
    }
}

impl vstd::std_specs::convert::FromSpecImpl<IoFailure> for Error {
    open spec fn obeys_from_spec() -> bool {
        true
    }

    open spec fn from_spec(e: IoFailure) -> Error {
        Error::Io(e)
    }
}

/// What the terminal adapter does after one decoded key.
pub enum Response {
    /// Restore and release the terminal, then deliver the event.
    Finish(Event),
    /// Deliver the event; editing continues.
    Report(Event),
    /// Redraw the (possibly edited) draft.
    Redraw,
    /// Clear the visible screen, then redraw the draft.
    ClearScreen,
    /// A bracketed paste never completed: fail and close the interaction.
    IncompletePaste,
}

/// A [`Response`] with its event viewed.
pub enum ResponseView {
    Finish(EventView),
    Report(EventView),
    Redraw,
    ClearScreen,
    IncompletePaste,
}

impl View for Response {
    type V = ResponseView;

    open spec fn view(&self) -> ResponseView {
        match self {
            Response::Finish(e) => ResponseView::Finish(e@),
            Response::Report(e) => ResponseView::Report(e@),
            Response::Redraw => ResponseView::Redraw,
            Response::ClearScreen => ResponseView::ClearScreen,
            Response::IncompletePaste => ResponseView::IncompletePaste,
        }
    }
}

/// The Delete key edits exactly as `Editor::delete` does, and so does Ctrl-D
/// on a non-empty draft: the cluster at the cursor is removed, the text
/// before the cursor never changes, and at the end of the text nothing
/// changes at all.
pub proof fn law_delete_key_deletes_forward(v: EditorView)
    requires
        well_formed(v),
        tiles(v.text, grapheme_starts(v.text)),
    ensures
        respond_spec(v, KeyView::Delete) == (delete_spec(v), ResponseView::Redraw),
        v.text.len() > 0 ==> respond_spec(v, KeyView::Eof) == respond_spec(v, KeyView::Delete),
        ({
            let w = respond_spec(v, KeyView::Delete).0;
            let b = encode_utf8(v.text);
            &&& encode_utf8(w.text).subrange(0, v.cursor) == b.subrange(0, v.cursor)
            &&& v.cursor == byte_len(v.text) ==> w.text == v.text && w.cursor == v.cursor
            &&& v.cursor < byte_len(v.text) ==> byte_len(w.text) < byte_len(v.text)
        }),
{
    law_delete_removes_cluster_after(v);
}

/// The editor state and response after one key: Enter submits the whole
/// input, Ctrl-C interrupts, Ctrl-D ends input on an empty draft and deletes
/// forward otherwise, Tab requests completion, text is inserted at the cursor
/// (a rejection is reported and changes nothing), and editing keys edit.
pub open spec fn respond_spec(v: EditorView, key: KeyView) -> (EditorView, ResponseView) {
    match key {
        KeyView::Enter => (v, ResponseView::Finish(EventView::Submitted(v.text))),
        KeyView::Interrupt => (v, ResponseView::Finish(EventView::Interrupted)),
        KeyView::Eof => if v.text.len() == 0 {
            (v, ResponseView::Finish(EventView::EndOfInput))
        } else {
            (delete_spec(v), ResponseView::Redraw)
        },
        KeyView::Delete => (delete_spec(v), ResponseView::Redraw),
        KeyView::Text(t) => match replace_outcome(v, v.cursor, v.cursor, t) {
            Ok(w) => (w, ResponseView::Redraw),
            Err(e) => (v, ResponseView::Report(EventView::Rejected(e))),
        },
        KeyView::Backspace => (backspace_spec(v), ResponseView::Redraw),
        KeyView::Left => (left_spec(v), ResponseView::Redraw),
        KeyView::Right => (right_spec(v), ResponseView::Redraw),
        KeyView::Home => (EditorView { cursor: 0, ..v }, ResponseView::Redraw),
        KeyView::End => (EditorView { cursor: byte_len(v.text), ..v }, ResponseView::Redraw),
        KeyView::Up => (history_up_spec(v), ResponseView::Redraw),
        KeyView::Down => (history_down_spec(v), ResponseView::Redraw),
        KeyView::Tab => (v, ResponseView::Report(EventView::CompletionRequested)),
        KeyView::Rejected(e) => (v, ResponseView::Report(EventView::Rejected(e))),
        KeyView::IncompletePaste => (v, ResponseView::IncompletePaste),
        KeyView::Clear => (v, ResponseView::ClearScreen),
    }
}

/// Apply one decoded key to the editor and decide what the adapter does next.
pub fn respond(editor: &mut Editor, key: Key) -> (r: Response)
    requires
        old(editor).wf(),
    ensures
        final(editor).wf(),
        (final(editor)@, r@) == respond_spec(old(editor)@, key@),
        key is Delete ==> r is Redraw && encode_utf8(final(editor)@.text).subrange(
            0,
            old(editor)@.cursor,
        ) == encode_utf8(old(editor)@.text).subrange(0, old(editor)@.cursor),
        key is Delete && old(editor)@.cursor == byte_len(old(editor)@.text) ==> final(editor)@.text
            == old(editor)@.text,
{
    match key {
        Key::Enter => Response::Finish(Event::Submitted(editor.text().to_owned())),
        Key::Interrupt => Response::Finish(Event::Interrupted),
        Key::Eof => {
            if editor.text().is_empty() {
                Response::Finish(Event::EndOfInput)
            } else {
                editor.delete();
                Response::Redraw
            }
        },
        Key::Delete => {
            editor.delete();
            Response::Redraw
        },
        Key::Text(text) => match editor.insert(text.as_str()) {
            Ok(()) => Response::Redraw,
            Err(error) => Response::Report(Event::Rejected(error)),
        },
        Key::Backspace => {
            editor.backspace();
            Response::Redraw
        },
        Key::Left => {
            editor.left();
            Response::Redraw
        },
        Key::Right => {
            editor.right();
            Response::Redraw
        },
        Key::Home => {
            editor.home();
            Response::Redraw
        },
        Key::End => {
            editor.end();
            Response::Redraw
        },
        Key::Up => {
            editor.history_up();
            Response::Redraw
        },
        Key::Down => {
            editor.history_down();
            Response::Redraw
        },
        Key::Tab => Response::Report(Event::CompletionRequested),
        Key::Rejected(error) => Response::Report(Event::Rejected(error)),
        Key::IncompletePaste => Response::IncompletePaste,
        Key::Clear => Response::ClearScreen,
    }
}


/// What one wait on the terminal input observed.
pub enum Input {
    /// No byte arrived; `idle` tells whether the idle bound for a pending
    /// sequence has passed since the last byte.
    Quiet { idle: bool },
    /// Reading the terminal reported end of input.
    Closed,
    /// One byte was read.
    Byte(u8),
}

/// What the terminal adapter does after one wait.
pub enum Step {
    /// Nothing happened that needs an action; wait again.
    Wait,
    /// Act on a decoded key.
    Respond(Response),
    /// Input ended inside an incomplete sequence: fail and close the interaction.
    TruncatedSequence,
}

/// A [`Step`] with its response viewed.
pub enum StepView {
    Wait,
    Respond(ResponseView),
    TruncatedSequence,
}

impl View for Step {
    type V = StepView;

    open spec fn view(&self) -> StepView {
        match self {
            Step::Wait => StepView::Wait,
            Step::Respond(r) => StepView::Respond(r@),
            Step::TruncatedSequence => StepView::TruncatedSequence,
        }
    }
}

/// The result of a decoded key, if any, on the editor.
pub open spec fn key_outcome(v: EditorView, key: Option<KeyView>) -> (EditorView, StepView) {
    match key {
        None => (v, StepView::Wait),
        Some(k) => (respond_spec(v, k).0, StepView::Respond(respond_spec(v, k).1)),
    }
}

/// One poll of an interaction: a pending sequence expires when the idle bound
/// passes without bytes; end of input fails a pending sequence and otherwise
/// ends the interaction; a byte is decoded, and a completed key acts on the
/// editor.
pub open spec fn poll_spec(d: DecoderView, v: EditorView, input: Input) -> (
    DecoderView,
    EditorView,
    StepView,
) {
    match input {
        Input::Quiet { idle } => if !(d.phase is Ready) && idle {
            let (w, step) = key_outcome(v, expire_key(d.phase));
            (DecoderView { phase: Phase::Ready, ..d }, w, step)
        } else {
            (d, v, StepView::Wait)
        },
        Input::Closed => if !(d.phase is Ready) {
            (d, v, StepView::TruncatedSequence)
        } else {
            (d, v, StepView::Respond(ResponseView::Finish(EventView::EndOfInput)))
        },
        Input::Byte(byte) => {
            let (phase, key) = feed_step(d.phase, d.limit, byte);
            let (w, step) = key_outcome(v, key);
            (DecoderView { phase, ..d }, w, step)
        },
    }
}

/// Decide one poll of an interaction from what the wait observed.
pub fn poll_step(decoder: &mut Decoder, editor: &mut Editor, input: Input) -> (s: Step)
    requires
        old(decoder).wf(),
        old(editor).wf(),
    ensures
        final(decoder).wf(),
        final(editor).wf(),
        (final(decoder)@, final(editor)@, s@) == poll_spec(old(decoder)@, old(editor)@, input),
{
    let key = match input {
        Input::Quiet { idle } => {
            if decoder.pending() && idle {
                decoder.expire()
            } else {
                return Step::Wait;
            }
        },
        Input::Closed => {
            if decoder.pending() {
                return Step::TruncatedSequence;
            }
            return Step::Respond(Response::Finish(Event::EndOfInput));
        },
        Input::Byte(byte) => decoder.feed(byte),
    };
    match key {
        None => Step::Wait,
        Some(key) => Step::Respond(respond(editor, key)),
    }
}

/// A rejected key is reported and leaves the draft and its cursor exactly as
/// they were, so editing continues.
pub proof fn law_rejection_keeps_draft(v: EditorView, key: KeyView)
    ensures
        respond_spec(v, key).1 matches ResponseView::Report(EventView::Rejected(_)) ==> respond_spec(
            v,
            key,
        ).0 == v,
{
}

/// Enter submits exactly the whole current input, newlines included, and
/// leaves the editor as it was.
pub proof fn law_submission_is_the_whole_draft(v: EditorView)
    ensures
        respond_spec(v, KeyView::Enter) == (v, ResponseView::Finish(
            EventView::Submitted(v.text),
        )),
{
}

/// Input that ends inside a sequence never becomes text or a submission: end
/// of input then fails the interaction, an expired paste fails it as well,
/// and a wait before the idle bound changes nothing.
pub proof fn law_truncated_input_fails(d: DecoderView, v: EditorView)
    ensures
        !(d.phase is Ready) ==> poll_spec(d, v, Input::Closed).2 == StepView::TruncatedSequence,
        d.phase is Paste ==> poll_spec(d, v, Input::Quiet { idle: true }).2 == StepView::Respond(
            ResponseView::IncompletePaste,
        ),
        poll_spec(d, v, Input::Quiet { idle: false }) == (d, v, StepView::Wait),
{
}

/// Whether the text of `a` is a prefix of the text of `b`.
fn is_text_prefix(a: &str, b: &str) -> (r: bool)
    ensures
        r == a@.is_prefix_of(b@),
{
    let x = chars_of(a);
    let y = chars_of(b);
    if x.len() > y.len() {
        return false;
    }
    let mut i: usize = 0;
    while i < x.len()
        invariant
            x@ == a@,
            y@ == b@,
            x@.len() <= y@.len(),
            0 <= i <= x@.len(),
            forall|k: int| 0 <= k < i ==> x@[k] == y@[k],
        decreases x@.len() - i,
    {
        if x[i] != y[i] {
            assert(a@[i as int] != b@.subrange(0, a@.len() as int)[i as int]);
            return false;
        }
        i = i + 1;
    }
    assert(a@ =~= b@.subrange(0, a@.len() as int));
    true
}

/// The characters of `text` from position `from` on.
fn chars_from(text: &str, from: usize) -> (s: String)
    requires
        from <= text@.len(),
    ensures
        s@ == text@.skip(from as int),
{
    let x = chars_of(text);
    let mut out: Vec<char> = Vec::new();
    let mut i = from;
    while i < x.len()
        invariant
            x@ == text@,
            from <= i <= x@.len(),
            out@ == x@.subrange(from as int, i as int),
        decreases x@.len() - i,
    {
        out.push(x[i]);
        i = i + 1;
        assert(out@ =~= x@.subrange(from as int, i as int));
    }
    assert(out@ =~= text@.skip(from as int));
    string_from_chars(out)
}

/// The bytes to append when only the last row grew at the cursor; None means
/// erase and draw the whole frame. A redraw may append directly when both the
/// old and the new frame end at their cursor, they have the same number of
/// rows, agree on every row but the last, and the new last row extends the old.
pub fn append_only_suffix(
    old_rows: &Vec<String>,
    old_at_end: bool,
    new_rows: &Vec<String>,
    new_at_end: bool,
) -> (r: Option<String>)
    ensures
        r is Some <==> {
            &&& old_at_end && new_at_end
            &&& new_rows@.len() >= 1 && old_rows@.len() == new_rows@.len()
            &&& (forall|i: int|
                0 <= i < new_rows@.len() - 1 ==> #[trigger] old_rows@[i]@ == new_rows@[i]@)
            &&& old_rows@.last()@.is_prefix_of(new_rows@.last()@)
        },
        r matches Some(s) ==> s@ == new_rows@.last()@.skip(old_rows@.last()@.len() as int),
{
    if !(old_at_end && new_at_end) || new_rows.len() == 0 || old_rows.len() != new_rows.len() {
        return None;
    }
    let n = new_rows.len();
    let mut i: usize = 0;
    while i < n - 1
        invariant
            n == new_rows@.len(),
            n == old_rows@.len(),
            n >= 1,
            0 <= i <= n - 1,
            forall|k: int| 0 <= k < i ==> #[trigger] old_rows@[k]@ == new_rows@[k]@,
        decreases n - 1 - i,
    {
        if old_rows[i] != new_rows[i] {
            return None;
        }
        i = i + 1;
    }
    let old_last = old_rows[n - 1].as_str();
    let new_last = new_rows[n - 1].as_str();
    if !is_text_prefix(old_last, new_last) {
        return None;
    }
    let tail = chars_from(new_last, chars_of(old_last).len());
    Some(tail)
}

/// Where an interaction stands in its terminal lifecycle.
#[derive(Clone, Copy, Debug, PartialEq, Eq, Structural)]
pub enum Lifecycle {
    /// No terminal is held: the host may edit the draft and may open.
    Closed,
    /// A terminal is held in editing mode.
    Active,
    /// A terminal is still held but has been restored and its lease released;
    /// it is dropped when the interaction next reaps it.
    Restored,
}

/// Whether a terminal operation may run.
#[derive(Clone, Copy, Debug, PartialEq, Eq, Structural)]
pub enum Gate {
    /// The terminal is active: go ahead.
    Proceed,
    /// No terminal is held: the operation needs an open interaction.
    WrongState,
    /// The held terminal was already restored: it is no longer connected.
    NotConnected,
}

/// The state after a restoration attempt, and whether the lease is released.
pub open spec fn restore_outcome(state: Lifecycle, succeeded: bool) -> (Lifecycle, bool) {
    if state == Lifecycle::Active && succeeded {
        (Lifecycle::Restored, true)
    } else {
        (state, false)
    }
}

/// The state after closing, and whether cleanup must run.
pub open spec fn close_outcome(state: Lifecycle) -> (Lifecycle, bool) {
    (Lifecycle::Closed, state == Lifecycle::Active)
}

impl Lifecycle {
    /// Host edits of the draft are allowed only while closed.
    pub fn host_edit(self) -> (r: Result<(), Error>)
        ensures
            r is Ok <==> self == Lifecycle::Closed,
            r matches Err(e) ==> e is State,
    {
        match self {
            Lifecycle::Closed => Ok(()),
            _ => Err(Error::State),
        }
    }

    /// Opening is allowed only while closed.
    pub fn open(self) -> (r: Result<(), Error>)
        ensures
            r is Ok <==> self == Lifecycle::Closed,
            r matches Err(e) ==> e is State,
    {
        match self {
            Lifecycle::Closed => Ok(()),
            _ => Err(Error::State),
        }
    }

    /// Whether a poll, completion, output or interrupt may run.
    pub fn operate(self) -> (g: Gate)
        ensures
            g == match self {
                Lifecycle::Closed => Gate::WrongState,
                Lifecycle::Active => Gate::Proceed,
                Lifecycle::Restored => Gate::NotConnected,
            },
    {
        match self {
            Lifecycle::Closed => Gate::WrongState,
            Lifecycle::Active => Gate::Proceed,
            Lifecycle::Restored => Gate::NotConnected,
        }
    }

    /// The state after a restoration attempt, and whether the terminal lease
    /// is released: only a successful restore of an active terminal releases it.
    pub fn after_restore(self, succeeded: bool) -> (r: (Lifecycle, bool))
        ensures
            r == restore_outcome(self, succeeded),
    {
        match self {
            Lifecycle::Active => if succeeded {
                (Lifecycle::Restored, true)
            } else {
                (self, false)
            },
            _ => (self, false),
        }
    }

    /// After an operation, a restored terminal is dropped.
    pub fn reap(self) -> (r: Lifecycle)
        ensures
            r == (if self == Lifecycle::Restored {
                Lifecycle::Closed
            } else {
                self
            }),
    {
        match self {
            Lifecycle::Restored => Lifecycle::Closed,
            _ => self,
        }
    }

    /// Closing always ends closed; cleanup (leave the line, restore) is needed
    /// only when the terminal is still active.
    pub fn close(self) -> (r: (Lifecycle, bool))
        ensures
            r == close_outcome(self),
    {
        match self {
            Lifecycle::Active => (Lifecycle::Closed, true),
            _ => (Lifecycle::Closed, false),
        }
    }
}

/// Closing is idempotent: closing again stays closed and needs no cleanup.
pub proof fn law_close_is_idempotent(state: Lifecycle)
    ensures
        close_outcome(close_outcome(state).0) == (Lifecycle::Closed, false),
{
}

/// The lease is released only by a successful restore of an active terminal;
/// after a failed restore the terminal stays as it was, so cleanup is still owed.
pub proof fn law_release_only_after_restore(state: Lifecycle, succeeded: bool)
    ensures
        restore_outcome(state, succeeded).1 ==> state == Lifecycle::Active && succeeded,
        !succeeded ==> restore_outcome(state, succeeded).0 == state,
{
}

/// Host text with each CRLF collapsed to LF (a lone CR is kept).
pub open spec fn collapse_crlf(text: Seq<char>) -> Seq<char>
    decreases text.len(),
{
    if text.len() == 0 {
        text
    } else if text[0] == '\r' && text.len() > 1 && text[1] == '\n' {
        seq!['\n'] + collapse_crlf(text.skip(2))
    } else {
        seq![text[0]] + collapse_crlf(text.drop_first())
    }
}

/// Text with each LF written as CR LF, as a raw terminal needs.
pub open spec fn expand_lf(text: Seq<char>) -> Seq<char>
    decreases text.len(),
{
    if text.len() == 0 {
        text
    } else if text[0] == '\n' {
        seq!['\r', '\n'] + expand_lf(text.drop_first())
    } else {
        seq![text[0]] + expand_lf(text.drop_first())
    }
}

/// The characters written for host output: with line endings normalized it
/// must hold no control character but LF and TAB; it is written with CR LF
/// line endings and always finishes its line.
pub open spec fn output_outcome(text: Seq<char>) -> Result<Seq<char>, EditError> {
    let lines = collapse_crlf(text);
    if !valid_chars(lines) {
        Err(EditError::InvalidText)
    } else if lines.len() > 0 && lines.last() == '\n' {
        Ok(expand_lf(lines))
    } else {
        Ok(expand_lf(lines) + seq!['\r', '\n'])
    }
}

/// Every LF stands right after a CR and every CR right before an LF.
pub open spec fn line_ends_paired(s: Seq<char>) -> bool {
    forall|i: int|
        0 <= i < s.len() ==> (#[trigger] s[i] == '\n' ==> i > 0 && s[i - 1] == '\r') && (s[i]
            == '\r' ==> i + 1 < s.len() && s[i + 1] == '\n')
}

/// Paired line ends stay paired under concatenation.
proof fn lemma_paired_concat(a: Seq<char>, b: Seq<char>)
    requires
        line_ends_paired(a),
        line_ends_paired(b),
    ensures
        line_ends_paired(a + b),
{
    let s = a + b;
    assert forall|i: int| 0 <= i < s.len() implies (#[trigger] s[i] == '\n' ==> i > 0 && s[i - 1]
        == '\r') && (s[i] == '\r' ==> i + 1 < s.len() && s[i + 1] == '\n') by {
        if i < a.len() {
            assert(s[i] == a[i]);
            if a[i] == '\n' {
                assert(s[i - 1] == a[i - 1]);
            }
            if a[i] == '\r' {
                assert(s[i + 1] == a[i + 1]);
            }
        } else {
            let j = i - a.len();
            assert(s[i] == b[j]);
            if b[j] == '\n' {
                assert(s[i - 1] == b[j - 1]);
            }
            if b[j] == '\r' {
                assert(s[i + 1] == b[j + 1]);
            }
        }
    }
}

/// Collapsing CRLF only removes CRs, and leaves a text without CR as it is.
proof fn lemma_collapse_removes_only_cr(text: Seq<char>)
    ensures
        without(collapse_crlf(text), '\r') == without(text, '\r'),
        !text.contains('\r') ==> collapse_crlf(text) == text,
    decreases text.len(),
{
    if text.len() > 0 {
        let x = text[0];
        let tail = text.drop_first();
        assert(seq![x] + tail =~= text);
        lemma_without_prepend(x, tail, '\r');
        if x == '\r' && text.len() > 1 && text[1] == '\n' {
            let r = text.skip(2);
            lemma_collapse_removes_only_cr(r);
            assert(tail =~= seq!['\n'] + r);
            lemma_without_prepend('\n', r, '\r');
            lemma_without_prepend('\n', collapse_crlf(r), '\r');
            assert(text.contains('\r'));
        } else {
            lemma_collapse_removes_only_cr(tail);
            lemma_without_prepend(x, collapse_crlf(tail), '\r');
            if !text.contains('\r') {
                assert(!tail.contains('\r')) by {
                    if tail.contains('\r') {
                        let k = choose|k: int| 0 <= k < tail.len() && tail[k] == '\r';
                        assert(text[k + 1] == '\r');
                    }
                }
            }
        }
    }
}

/// Writing each LF of a text without CR as CR LF adds only CRs, each right
/// before an LF.
proof fn lemma_expand_adds_only_cr(text: Seq<char>)
    requires
        !text.contains('\r'),
    ensures
        without(expand_lf(text), '\r') == text,
        line_ends_paired(expand_lf(text)),
    decreases text.len(),
{
    if text.len() == 0 {
        assert(line_ends_paired(expand_lf(text)));
    } else {
        let x = text[0];
        let tail = text.drop_first();
        assert(x != '\r');
        assert(!tail.contains('\r')) by {
            if tail.contains('\r') {
                let k = choose|k: int| 0 <= k < tail.len() && tail[k] == '\r';
                assert(text[k + 1] == '\r');
            }
        }
        lemma_expand_adds_only_cr(tail);
        let rest = expand_lf(tail);
        if x == '\n' {
            let head = seq!['\r', '\n'];
            assert(expand_lf(text) == head + rest);
            assert(line_ends_paired(head)) by {
                assert(head[0] == '\r' && head[1] == '\n');
            }
            lemma_paired_concat(head, rest);
            lemma_without_concat(head, rest, '\r');
            assert(head =~= seq!['\r'] + seq!['\n']);
            lemma_without_prepend('\r', seq!['\n'], '\r');
            lemma_without_prepend('\n', Seq::<char>::empty(), '\r');
            assert(seq!['\n'] + Seq::<char>::empty() =~= seq!['\n']);
            assert(seq!['\n'] + tail =~= text);
        } else {
            let head = seq![x];
            assert(expand_lf(text) == head + rest);
            assert(line_ends_paired(head)) by {
                assert(head[0] == x);
            }
            lemma_paired_concat(head, rest);
            lemma_without_prepend(x, rest, '\r');
            assert(seq![x] + tail =~= text);
        }
    }
}

/// Laying out host output changes only line endings. A text without CR needs
/// no collapsing. Whenever the output is accepted, removing its CRs gives back
/// the host text without its CRs, plus one final LF when that text does not
/// already end with one; and in the output every LF follows a CR and every CR
/// precedes an LF, so each LF of the host text is written as one line end.
pub proof fn law_output_keeps_text(text: Seq<char>)
    ensures
        !text.contains('\r') ==> collapse_crlf(text) == text,
        output_outcome(text) matches Ok(out) ==> {
            let host = without(text, '\r');
            &&& without(out, '\r') == (if host.len() > 0 && host.last() == '\n' {
                host
            } else {
                host.push('\n')
            })
            &&& line_ends_paired(out)
        },
{
    lemma_collapse_removes_only_cr(text);
    let lines = collapse_crlf(text);
    if valid_chars(lines) {
        assert(!lines.contains('\r')) by {
            if lines.contains('\r') {
                let k = choose|k: int| 0 <= k < lines.len() && lines[k] == '\r';
                assert(allowed_char(lines[k]));
            }
        }
        lemma_without_absent(lines, '\r');
        lemma_expand_adds_only_cr(lines);
        let body = expand_lf(lines);
        if !(lines.len() > 0 && lines.last() == '\n') {
            let tail = seq!['\r', '\n'];
            assert(line_ends_paired(tail)) by {
                assert(tail[0] == '\r' && tail[1] == '\n');
            }
            lemma_paired_concat(body, tail);
            lemma_without_concat(body, tail, '\r');
            assert(tail =~= seq!['\r'] + seq!['\n']);
            lemma_without_prepend('\r', seq!['\n'], '\r');
            lemma_without_prepend('\n', Seq::<char>::empty(), '\r');
            assert(seq!['\n'] + Seq::<char>::empty() =~= seq!['\n']);
            assert(lines + seq!['\n'] =~= lines.push('\n'));
        }
    }
}

/// Validate host output text and lay it out for a raw terminal, before any
/// terminal mutation.
pub fn output_text(text: &str) -> (r: Result<String, EditError>)
    ensures
        match output_outcome(text@) {
            Ok(t) => r matches Ok(s) && s@ == t,
            Err(e) => r == Err::<String, EditError>(e),
        },
{
    let chars = chars_of(text);
    let n = chars.len();
    let mut lines: Vec<char> = Vec::new();
    let mut i: usize = 0;
    assert(chars@.skip(0) =~= chars@);
    assert(lines@ + collapse_crlf(chars@) =~= collapse_crlf(chars@));
    while i < n
        invariant
            n == chars@.len(),
            0 <= i <= n,
            collapse_crlf(chars@) == lines@ + collapse_crlf(chars@.skip(i as int)),
        decreases n - i,
    {
        let rest = Ghost(chars@.skip(i as int));
        if chars[i] == '\r' && i + 1 < n && chars[i + 1] == '\n' {
            assert(rest@.skip(2) =~= chars@.skip(i + 2));
            lines.push('\n');
            i = i + 2;
        } else {
            assert(rest@.drop_first() =~= chars@.skip(i + 1));
            lines.push(chars[i]);
            i = i + 1;
        }
        assert(collapse_crlf(chars@) =~= lines@ + collapse_crlf(chars@.skip(i as int)));
    }
    assert(lines@ + collapse_crlf(chars@.skip(n as int)) =~= lines@);
    let collapsed = string_from_chars(lines);
    if !valid_text(collapsed.as_str()) {
        return Err(EditError::InvalidText);
    }
    let lines = chars_of(collapsed.as_str());
    let m = lines.len();
    let mut out: Vec<char> = Vec::new();
    let mut j: usize = 0;
    assert(lines@.skip(0) =~= lines@);
    assert(out@ + expand_lf(lines@) =~= expand_lf(lines@));
    while j < m
        invariant
            m == lines@.len(),
            0 <= j <= m,
            expand_lf(lines@) == out@ + expand_lf(lines@.skip(j as int)),
        decreases m - j,
    {
        assert(lines@.skip(j as int).drop_first() =~= lines@.skip(j + 1));
        if lines[j] == '\n' {
            out.push('\r');
            out.push('\n');
        } else {
            out.push(lines[j]);
        }
        j = j + 1;
        assert(expand_lf(lines@) =~= out@ + expand_lf(lines@.skip(j as int)));
    }
    assert(out@ + expand_lf(lines@.skip(m as int)) =~= out@);
    if !(m > 0 && lines[m - 1] == '\n') {
        out.push('\r');
        out.push('\n');
    }
    Ok(string_from_chars(out))
}

/// Terminal dimensions as (columns, rows), when the terminal is large enough
/// to edit in: at least two columns and two rows.
pub fn usable_dimensions(columns: u16, rows: u16) -> (d: Option<(usize, usize)>)
    ensures
        d == (if columns >= 2 && rows >= 2 {
            Some((columns as usize, rows as usize))
        } else {
            None
        }),
{
    if columns < 2 || rows < 2 {
        None
    } else {
        Some((columns as usize, rows as usize))
    }
}

/// The message that reports a failure together with the failure of the
/// cleanup after it.
pub open spec fn cleanup_message(failure: Seq<char>, cleanup: Seq<char>) -> Seq<char> {
    failure + "; terminal cleanup also failed: "@ + cleanup
}

/// The characters of three texts, one after another.
fn concat3(a: &str, b: &str, c: &str) -> (s: String)
    ensures
        s@ == a@ + b@ + c@,
{
    let mut out = chars_of(a);
    let parts = [chars_of(b), chars_of(c)];
    let mut p: usize = 0;
    while p < 2
        invariant
            parts@.len() == 2,
            parts@[0]@ == b@,
            parts@[1]@ == c@,
            0 <= p <= 2,
            p == 0 ==> out@ == a@,
            p == 1 ==> out@ == a@ + b@,
            p == 2 ==> out@ == a@ + b@ + c@,
        decreases 2 - p,
    {
        let part = &parts[p];
        let ghost before = out@;
        let mut i: usize = 0;
        while i < part.len()
            invariant
                0 <= i <= part@.len(),
                out@ == before + part@.subrange(0, i as int),
            decreases part@.len() - i,
        {
            out.push(part[i]);
            i = i + 1;
            assert(out@ =~= before + part@.subrange(0, i as int));
        }
        assert(part@.subrange(0, part@.len() as int) =~= part@);
        p = p + 1;
    }
    string_from_chars(out)
}

/// The failure that reports `failure` together with the failure of its cleanup:
/// the first failure's kind, and both messages.
fn with_cleanup_failure(failure: IoFailure, cleanup: IoFailure) -> (r: IoFailure)
    ensures
        r.kind == failure.kind,
        r.message@ == cleanup_message(failure.message@, cleanup.message@),
{
    let message = concat3(
        failure.message.as_str(),
        "; terminal cleanup also failed: ",
        cleanup.message.as_str(),
    );
    IoFailure { kind: failure.kind, message }
}

/// Combine an operation's outcome with its cleanup's: success only when both
/// succeeded, otherwise the failure, with both reported when both failed.
pub fn combine(first: Result<(), IoFailure>, second: Result<(), IoFailure>) -> (r: Result<
    (),
    IoFailure,
>)
    ensures
        r is Ok <==> (first is Ok && second is Ok),
        first is Ok ==> r == second,
        first is Err && second is Ok ==> r == first,
        first is Err && second is Err ==> {
            &&& r->Err_0.kind == first->Err_0.kind
            &&& r->Err_0.message@ == cleanup_message(first->Err_0.message@, second->Err_0.message@)
        },
{
    match first {
        Ok(()) => second,
        Err(a) => match second {
            Ok(()) => Err(a),
            Err(b) => Err(with_cleanup_failure(a, b)),
        },
    }
}

/// The error reported for a failed terminal operation once restoration has
/// been attempted: the failure itself when restoration succeeded, otherwise
/// the failure with the restoration failure included in its message.
pub fn report_failure(failure: IoFailure, restored: Result<(), IoFailure>) -> (e: Error)
    ensures
        e is Io,
        restored is Ok ==> e == Error::Io(failure),
        restored is Err ==> {
            &&& e->Io_0.kind == failure.kind
            &&& e->Io_0.message@ == cleanup_message(failure.message@, restored->Err_0.message@)
        },
{
    match restored {
        Ok(()) => Error::Io(failure),
        Err(cleanup) => Error::Io(with_cleanup_failure(failure, cleanup)),
    }
}

/// Where the restoration of an active terminal stands. Restoration writes the
/// cleanup sequence (bracketed paste off, default colours) to the output
/// descriptor; if that write fails it writes the same bytes to the input
/// descriptor, which names the same terminal, ignoring the outcome; then it
/// always resets the captured terminal settings. The terminal is released
/// only when the settings were reset, and the reported outcome is
/// `combine(output, settings)`.
pub enum Restoration {
    /// Next: write the cleanup sequence to the output descriptor.
    WriteOutput,
    /// The output write failed with this failure. Next: write the cleanup
    /// sequence to the input descriptor.
    WriteInput(IoFailure),
    /// Next: reset the captured terminal settings. Holds the outcome of the
    /// output write.
    ResetSettings(Result<(), IoFailure>),
    /// Restoration is over, with the outcome of the output write and of the
    /// settings reset.
    Done { output: Result<(), IoFailure>, settings: Result<(), IoFailure> },
}

/// The state after one step of restoration, given the outcome of the action
/// that the state asked for.
pub open spec fn restoration_step(state: Restoration, outcome: Result<(), IoFailure>) -> Restoration {
    match state {
        Restoration::WriteOutput => match outcome {
            Ok(()) => Restoration::ResetSettings(Ok(())),
            Err(f) => Restoration::WriteInput(f),
        },
        Restoration::WriteInput(f) => Restoration::ResetSettings(Err(f)),
        Restoration::ResetSettings(output) => Restoration::Done { output, settings: outcome },
        Restoration::Done { output, settings } => Restoration::Done { output, settings },
    }
}

impl Restoration {
    /// Advance restoration by the outcome of the action the current state
    /// asked for; a finished restoration stays as it is.
    pub fn advance(self, outcome: Result<(), IoFailure>) -> (next: Restoration)
        ensures
            next == restoration_step(self, outcome),
    {
        match self {
            Restoration::WriteOutput => match outcome {
                Ok(()) => Restoration::ResetSettings(Ok(())),
                Err(f) => Restoration::WriteInput(f),
            },
            Restoration::WriteInput(f) => Restoration::ResetSettings(Err(f)),
            Restoration::ResetSettings(output) => Restoration::Done { output, settings: outcome },
            Restoration::Done { output, settings } => Restoration::Done { output, settings },
        }
    }

    /// Whether restoration released the terminal: it is over and the
    /// settings were reset.
    pub fn released(&self) -> (b: bool)
        ensures
            b <==> (self matches Restoration::Done { settings, .. } && settings is Ok),
    {
        match self {
            Restoration::Done { settings, .. } => settings.is_ok(),
            _ => false,
        }
    }
}

/// A failed output write does not stop restoration: the same cleanup is then
/// written to the input descriptor, and either way the terminal settings are
/// reset next, carrying the output write's outcome.
pub proof fn law_settings_reset_after_any_write(output: Result<(), IoFailure>, input: Result<(), IoFailure>)
    ensures
        output is Err ==> restoration_step(Restoration::WriteOutput, output) is WriteInput,
        ({
            let first = restoration_step(Restoration::WriteOutput, output);
            let next = if first is WriteInput {
                restoration_step(first, input)
            } else {
                first
            };
            next == Restoration::ResetSettings(output)
        }),
{
    match output {
        Ok(u) => {
            assert(u == ());
            assert(output == Ok::<(), IoFailure>(()));
        },
        Err(f) => {
            assert(restoration_step(Restoration::WriteOutput, output) == Restoration::WriteInput(f));
        },
    }
}

/// Restoration ends after the settings reset, whatever the writes gave, and
/// releases the terminal exactly when the reset succeeded; once over it
/// stays over.
pub proof fn law_release_only_when_settings_reset(
    output: Result<(), IoFailure>,
    settings: Result<(), IoFailure>,
    later: Result<(), IoFailure>,
)
    ensures
        ({
            let done = restoration_step(Restoration::ResetSettings(output), settings);
            &&& done == (Restoration::Done { output, settings })
            &&& (done matches Restoration::Done { settings: s, .. } && s is Ok) <==> settings is Ok
            &&& restoration_step(done, later) == done
        }),
{
}
} // verus!
