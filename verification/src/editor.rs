use std::collections::VecDeque;
use std::ops::Range;
use vstd::prelude::*;
use vstd::string::StringSliceAdditionalSpecFns;
use vstd::utf8::*;

use crate::graphemes::{grapheme_offsets, grapheme_starts, tiles};
use crate::text::{
    byte_len, byte_prefix, byte_suffix, char_boundary, lemma_cut, lemma_encode_concat,
    lemma_ends_are_boundaries, lemma_suffix_boundary, valid_chars,
    valid_text, byte_count,
};

verus! {

/// A rejected edit. Rejection leaves the text and cursor unchanged.
#[derive(Clone, Copy, Debug, PartialEq, Eq, Structural)]
pub enum EditError {
    /// The configured UTF-8 byte capacity would be exceeded.
    Capacity,
    /// Text contains a control character other than LF or TAB.
    InvalidText,
    /// A replacement range is reversed, outside the buffer, or splits a grapheme.
    InvalidRange,
    /// The host configured zero history entries.
    HistoryDisabled,
    /// Input was not valid, complete UTF-8.
    InvalidUtf8,
    /// An unknown or incomplete terminal sequence was rejected.
    InvalidSequence,
}

/// The human-readable description of each rejection.
pub open spec fn edit_message(e: EditError) -> Seq<char> {
    match e {
        EditError::Capacity => "input capacity exceeded"@,
        EditError::InvalidText => "unsupported control character"@,
        EditError::InvalidRange => "replacement must use ordered grapheme boundaries"@,
        EditError::HistoryDisabled => "history is disabled"@,
        EditError::InvalidUtf8 => "invalid or incomplete UTF-8"@,
        EditError::InvalidSequence => "unknown or incomplete terminal sequence"@,
    }
}

impl EditError {
    /// The human-readable description of the rejection.
    pub fn message(&self) -> (m: &'static str)
        ensures
            m@ == edit_message(*self),
    {
        match self {
            EditError::Capacity => "input capacity exceeded",
            EditError::InvalidText => "unsupported control character",
            EditError::InvalidRange => "replacement must use ordered grapheme boundaries",
            EditError::HistoryDisabled => "history is disabled",
            EditError::InvalidUtf8 => "invalid or incomplete UTF-8",
            EditError::InvalidSequence => "unknown or incomplete terminal sequence",
        }
    }
}

/// The abstract state of an [`Editor`]: text as characters, offsets in UTF-8 bytes.
pub struct EditorView {
    pub text: Seq<char>,
    pub cursor: int,
    pub limit: int,
    pub history: Seq<Seq<char>>,
    pub history_limit: int,
    /// The history entry being recalled, if any.
    pub selected: Option<int>,
    /// The draft (text and cursor) saved by the first recall.
    pub draft: Option<(Seq<char>, int)>,
}

/// `index` is `end` or one of the offsets in `starts`.
pub open spec fn listed(starts: Seq<usize>, index: int, end: int) -> bool {
    index == end || exists|k: int| 0 <= k < starts.len() && starts[k] == index
}

/// Byte offset `index` is an extended grapheme boundary of `text`: the end of
/// the text, or the start of one of its clusters.
pub open spec fn is_boundary(text: Seq<char>, index: int) -> bool {
    listed(grapheme_starts(text), index, byte_len(text))
}

/// The first offset in `starts`, in order, that is at least `wanted`;
/// `fallback` when there is none.
pub open spec fn first_at_or_after(starts: Seq<usize>, wanted: int, fallback: int) -> int
    decreases starts.len(),
{
    if starts.len() == 0 {
        fallback
    } else if starts[0] >= wanted {
        starts[0] as int
    } else {
        first_at_or_after(starts.drop_first(), wanted, fallback)
    }
}

/// The first cluster start of `text` at or after byte `wanted`, else its end.
pub open spec fn snap(text: Seq<char>, wanted: int) -> int {
    first_at_or_after(grapheme_starts(text), wanted, byte_len(text))
}

/// The last offset in `starts`, searching from the end, that lies before
/// `cursor`; 0 when there is none.
pub open spec fn last_before(starts: Seq<usize>, cursor: int) -> int
    decreases starts.len(),
{
    if starts.len() == 0 {
        0
    } else if starts.last() < cursor {
        starts.last() as int
    } else {
        last_before(starts.drop_last(), cursor)
    }
}

/// The start of the last cluster of the text that begins before the cursor, or 0.
pub open spec fn left_target(text: Seq<char>, cursor: int) -> int {
    last_before(grapheme_starts(text), cursor)
}

/// The start of the first cluster of the text after the cursor, or the end of
/// the text; the cursor itself when it is at the end.
pub open spec fn right_target(text: Seq<char>, cursor: int) -> int {
    if cursor >= byte_len(text) {
        cursor
    } else {
        snap(text, cursor + 1)
    }
}

/// `text` with bytes `start..end` replaced by `insert`.
pub open spec fn splice(text: Seq<char>, start: int, end: int, insert: Seq<char>) -> Seq<char> {
    byte_prefix(text, start) + insert + byte_suffix(text, end)
}

/// The invariant of every editor.
pub open spec fn well_formed(v: EditorView) -> bool {
    &&& 0 <= v.limit <= usize::MAX
    &&& 0 <= v.history_limit <= usize::MAX
    &&& byte_len(v.text) <= v.limit
    &&& valid_chars(v.text)
    &&& char_boundary(v.text, v.cursor)
    &&& is_boundary(v.text, v.cursor)
    &&& v.history.len() <= v.history_limit
    &&& forall|i: int|
        0 <= i < v.history.len() ==> byte_len(#[trigger] v.history[i]) <= v.limit && valid_chars(
            v.history[i],
        )
    &&& (v.selected is Some <==> v.draft is Some)
    &&& (v.selected matches Some(i) ==> 0 <= i < v.history.len())
    &&& (v.draft matches Some((t, c)) ==> byte_len(t) <= v.limit && valid_chars(t)
        && char_boundary(t, c) && is_boundary(t, c))
}

/// The result of replacing bytes `start..end` of the text with `insert`.
pub open spec fn replace_outcome(v: EditorView, start: int, end: int, insert: Seq<char>) -> Result<
    EditorView,
    EditError,
> {
    if start > end || end > byte_len(v.text) || !is_boundary(v.text, start) || !is_boundary(
        v.text,
        end,
    ) {
        Err(EditError::InvalidRange)
    } else if !valid_chars(insert) {
        Err(EditError::InvalidText)
    } else if byte_len(insert) > v.limit - (byte_len(v.text) - (end - start)) {
        Err(EditError::Capacity)
    } else {
        let text = splice(v.text, start, end, insert);
        Ok(EditorView { text, cursor: snap(text, start + byte_len(insert)), ..v })
    }
}

/// The state after moving left one cluster.
pub open spec fn left_spec(v: EditorView) -> EditorView {
    EditorView { cursor: left_target(v.text, v.cursor), ..v }
}

/// The state after moving right one cluster.
pub open spec fn right_spec(v: EditorView) -> EditorView {
    EditorView { cursor: right_target(v.text, v.cursor), ..v }
}

/// The state after removing the cluster before the cursor.
pub open spec fn backspace_spec(v: EditorView) -> EditorView {
    let start = left_target(v.text, v.cursor);
    let text = splice(v.text, start, v.cursor, Seq::empty());
    EditorView { text, cursor: snap(text, start), ..v }
}

/// The state after removing the cluster after the cursor.
pub open spec fn delete_spec(v: EditorView) -> EditorView {
    let end = right_target(v.text, v.cursor);
    let text = splice(v.text, v.cursor, end, Seq::empty());
    EditorView { text, cursor: snap(text, v.cursor), ..v }
}

/// The state after clearing the input and the navigation draft.
pub open spec fn clear_spec(v: EditorView) -> EditorView {
    EditorView { text: Seq::empty(), cursor: 0, selected: None, draft: None, ..v }
}

/// The result of admitting `entry` to the history.
pub open spec fn admit_outcome(v: EditorView, entry: Seq<char>) -> Result<EditorView, EditError> {
    if !valid_chars(entry) {
        Err(EditError::InvalidText)
    } else if byte_len(entry) > v.limit {
        Err(EditError::Capacity)
    } else if v.history_limit == 0 {
        Err(EditError::HistoryDisabled)
    } else {
        let kept = if v.history.len() == v.history_limit {
            v.history.drop_first()
        } else {
            v.history
        };
        Ok(EditorView { history: kept.push(entry), selected: None, draft: None, ..v })
    }
}

/// The state after recalling the previous history entry.
pub open spec fn history_up_spec(v: EditorView) -> EditorView {
    if v.history.len() == 0 || v.selected == Some(0int) {
        v
    } else {
        let index = match v.selected {
            None => v.history.len() - 1,
            Some(i) => i - 1,
        };
        let draft = match v.selected {
            None => Some((v.text, v.cursor)),
            Some(_) => v.draft,
        };
        let text = v.history[index];
        EditorView { text, cursor: byte_len(text), selected: Some(index), draft, ..v }
    }
}

/// The state after recalling the next entry, or returning to the draft.
pub open spec fn history_down_spec(v: EditorView) -> EditorView {
    match v.selected {
        None => v,
        Some(i) => if i + 1 < v.history.len() {
            let text = v.history[i + 1];
            EditorView { text, cursor: byte_len(text), selected: Some(i + 1), ..v }
        } else {
            match v.draft {
                Some((text, cursor)) => EditorView {
                    text,
                    cursor,
                    selected: None,
                    draft: None,
                    ..v
                },
                None => EditorView { selected: None, draft: None, ..v },
            }
        },
    }
}

/// Deterministic bounded text editing, with extended-grapheme cursor movement.
///
/// Offsets are UTF-8 byte offsets at extended grapheme boundaries. Home and End
/// refer to the entire input, including multiline input. History admission is
/// explicit; navigating an edited recalled entry never changes stored history.
#[derive(Debug)]
pub struct Editor {
    text: String,
    cursor: usize,
    limit: usize,
    history: VecDeque<String>,
    history_limit: usize,
    selected: Option<usize>,
    draft: Option<(String, usize)>,
}

impl View for Editor {
    type V = EditorView;

    closed spec fn view(&self) -> EditorView {
        EditorView {
            text: self.text@,
            cursor: self.cursor as int,
            limit: self.limit as int,
            history: self.history@.map_values(|s: String| s@),
            history_limit: self.history_limit as int,
            selected: match self.selected {
                Some(i) => Some(i as int),
                None => None,
            },
            draft: match self.draft {
                Some((t, c)) => Some((t@, c as int)),
                None => None,
            },
        }
    }
}

/// Every element produced by `first_at_or_after` is the fallback or one of the offsets.
proof fn lemma_first_is_member(starts: Seq<usize>, wanted: int, fallback: int)
    ensures
        first_at_or_after(starts, wanted, fallback) == fallback || exists|k: int|
            0 <= k < starts.len() && starts[k] == first_at_or_after(starts, wanted, fallback),
    decreases starts.len(),
{
    if starts.len() > 0 && starts[0] < wanted {
        lemma_first_is_member(starts.drop_first(), wanted, fallback);
        let r = first_at_or_after(starts, wanted, fallback);
        if r != fallback {
            let k = choose|k: int|
                0 <= k < starts.drop_first().len() && starts.drop_first()[k] == r;
            assert(starts[k + 1] == r);
        }
    }
}

/// The first offset at or after `wanted` is at least `wanted` when the
/// fallback is.
proof fn lemma_first_at_least(starts: Seq<usize>, wanted: int, fallback: int)
    requires
        fallback >= wanted,
    ensures
        first_at_or_after(starts, wanted, fallback) >= wanted,
    decreases starts.len(),
{
    if starts.len() > 0 && starts[0] < wanted {
        lemma_first_at_least(starts.drop_first(), wanted, fallback);
    }
}

/// The snapped offset is a grapheme and character boundary of the text.
proof fn lemma_snap_is_boundary(text: Seq<char>, wanted: int)
    requires
        tiles(text, grapheme_starts(text)),
    ensures
        is_boundary(text, snap(text, wanted)),
        char_boundary(text, snap(text, wanted)),
{
    let starts = grapheme_starts(text);
    lemma_first_is_member(starts, wanted, byte_len(text));
    lemma_ends_are_boundaries(text);
    if snap(text, wanted) != byte_len(text) {
        let k = choose|k: int| 0 <= k < starts.len() && starts[k] == snap(text, wanted);
        assert(char_boundary(text, starts[k] as int));
    }
}

/// Recalling the newest entry and then moving past it returns exactly the
/// draft text and cursor that were being edited, and leaves history alone.
pub proof fn law_recall_round_trip(v: EditorView)
    requires
        well_formed(v),
        v.selected is None,
    ensures
        history_down_spec(history_up_spec(v)).text == v.text,
        history_down_spec(history_up_spec(v)).cursor == v.cursor,
        history_down_spec(history_up_spec(v)).history == v.history,
        history_down_spec(history_up_spec(v)).selected is None,
        history_down_spec(history_up_spec(v)).draft is None,
{
}

/// History navigation never changes admitted history, the capacity or the limits.
pub proof fn law_navigation_keeps_history(v: EditorView)
    ensures
        history_up_spec(v).history == v.history,
        history_down_spec(v).history == v.history,
        history_up_spec(v).limit == v.limit,
        history_down_spec(v).limit == v.limit,
        history_up_spec(v).history_limit == v.history_limit,
        history_down_spec(v).history_limit == v.history_limit,
{
}

/// Editing the current input, including an edited recalled entry, never
/// changes admitted history or the navigation state.
pub proof fn law_edits_keep_history(v: EditorView, start: int, end: int, insert: Seq<char>)
    ensures
        replace_outcome(v, start, end, insert) matches Ok(w) ==> w.history == v.history
            && w.selected == v.selected && w.draft == v.draft,
        backspace_spec(v).history == v.history,
        delete_spec(v).history == v.history,
        clear_spec(v).history == v.history,
{
}

/// After a replacement, insertion, backspace or delete the cursor lies on an
/// extended grapheme boundary of the new text, even when the edit joined clusters.
pub proof fn law_edits_land_on_boundaries(v: EditorView, start: int, end: int, insert: Seq<char>)
    ensures
        replace_outcome(v, start, end, insert) matches Ok(w) ==> is_boundary(w.text, w.cursor),
        is_boundary(backspace_spec(v).text, backspace_spec(v).cursor),
        is_boundary(delete_spec(v).text, delete_spec(v).cursor),
{
    if let Ok(w) = replace_outcome(v, start, end, insert) {
        lemma_snap_lands(w.text, start + byte_len(insert));
    }
    let b = backspace_spec(v);
    lemma_snap_lands(b.text, left_target(v.text, v.cursor));
    let d = delete_spec(v);
    lemma_snap_lands(d.text, v.cursor);
}

/// In every editor the cursor lies on an extended grapheme boundary of the
/// text (a cluster start or the end), so an insertion at the cursor is never
/// rejected for its range.
pub proof fn law_cursor_on_grapheme_boundary(v: EditorView, insert: Seq<char>)
    requires
        well_formed(v),
    ensures
        is_boundary(v.text, v.cursor),
        replace_outcome(v, v.cursor, v.cursor, insert) != Err::<EditorView, EditError>(
            EditError::InvalidRange,
        ),
{
}

/// Removing bytes `start..end`, both character boundaries, leaves exactly the
/// bytes before `start` followed by the bytes from `end` on.
proof fn lemma_cut_out(text: Seq<char>, start: int, end: int)
    requires
        char_boundary(text, start),
        char_boundary(text, end),
        start <= end,
    ensures
        encode_utf8(splice(text, start, end, Seq::empty())) == encode_utf8(text).subrange(0, start)
            + encode_utf8(text).subrange(end, byte_len(text)),
        start == end ==> splice(text, start, end, Seq::empty()) == text,
{
    let empty = Seq::<char>::empty();
    lemma_cut(text, start);
    lemma_cut(text, end);
    assert(byte_prefix(text, start) + empty =~= byte_prefix(text, start));
    lemma_encode_concat(byte_prefix(text, start), byte_suffix(text, end));
}

/// When every offset lies before `wanted`, the fallback is taken.
proof fn lemma_first_none(starts: Seq<usize>, wanted: int, fallback: int)
    requires
        forall|k: int| 0 <= k < starts.len() ==> starts[k] < wanted,
    ensures
        first_at_or_after(starts, wanted, fallback) == fallback,
    decreases starts.len(),
{
    if starts.len() > 0 {
        assert(starts[0] < wanted);
        assert forall|k: int| 0 <= k < starts.drop_first().len() implies starts.drop_first()[k]
            < wanted by {
            assert(starts.drop_first()[k] == starts[k + 1]);
        }
        lemma_first_none(starts.drop_first(), wanted, fallback);
    }
}

/// Backspace on the bytes of the text, given that the cluster start before
/// the cursor is a character boundary.
proof fn lemma_backspace_bytes(v: EditorView)
    requires
        char_boundary(v.text, v.cursor),
        v.cursor > 0,
        char_boundary(v.text, left_target(v.text, v.cursor)),
    ensures
        ({
            let w = backspace_spec(v);
            let start = left_target(v.text, v.cursor);
            let b = encode_utf8(v.text);
            &&& 0 <= start < v.cursor
            &&& encode_utf8(w.text) == b.subrange(0, start) + b.subrange(v.cursor, b.len() as int)
            &&& byte_len(w.text) < byte_len(v.text)
            &&& start <= w.cursor
        }),
{
    let start = left_target(v.text, v.cursor);
    lemma_last_before_is_member(grapheme_starts(v.text), v.cursor);
    lemma_cut_out(v.text, start, v.cursor);
    let w = backspace_spec(v);
    assert(byte_len(w.text) == start + (byte_len(v.text) - v.cursor));
    lemma_first_at_least(grapheme_starts(w.text), start, byte_len(w.text));
}

/// Backspace away from the start removes exactly the grapheme cluster that
/// ends at the cursor: the new text's bytes are the old bytes without
/// `left_target..cursor`, so it gets strictly shorter, and the cursor lands
/// at or after where that cluster began.
pub proof fn law_backspace_removes_cluster_before(v: EditorView)
    requires
        well_formed(v),
        tiles(v.text, grapheme_starts(v.text)),
        v.cursor > 0,
    ensures
        ({
            let w = backspace_spec(v);
            let start = left_target(v.text, v.cursor);
            let b = encode_utf8(v.text);
            &&& 0 <= start < v.cursor
            &&& encode_utf8(w.text) == b.subrange(0, start) + b.subrange(v.cursor, b.len() as int)
            &&& byte_len(w.text) < byte_len(v.text)
            &&& start <= w.cursor
        }),
{
    let starts = grapheme_starts(v.text);
    let start = left_target(v.text, v.cursor);
    lemma_last_before_is_member(starts, v.cursor);
    lemma_ends_are_boundaries(v.text);
    if start != 0 {
        let k = choose|k: int| 0 <= k < starts.len() && starts[k] == start;
        assert(char_boundary(v.text, starts[k] as int));
    }
    lemma_backspace_bytes(v);
}

/// Delete on the bytes of the text, given that the end of the cluster after
/// the cursor is a character boundary.
proof fn lemma_delete_bytes(v: EditorView)
    requires
        char_boundary(v.text, v.cursor),
        char_boundary(v.text, right_target(v.text, v.cursor)),
        v.cursor <= right_target(v.text, v.cursor),
    ensures
        ({
            let w = delete_spec(v);
            let end = right_target(v.text, v.cursor);
            let b = encode_utf8(v.text);
            &&& encode_utf8(w.text) == b.subrange(0, v.cursor) + b.subrange(end, b.len() as int)
            &&& end == v.cursor ==> w.text == v.text
            &&& encode_utf8(w.text).subrange(0, v.cursor) == b.subrange(0, v.cursor)
        }),
{
    let end = right_target(v.text, v.cursor);
    lemma_cut_out(v.text, v.cursor, end);
    let b = encode_utf8(v.text);
    assert((b.subrange(0, v.cursor) + b.subrange(end, b.len() as int)).subrange(0, v.cursor)
        =~= b.subrange(0, v.cursor));
}

/// Delete removes exactly the grapheme cluster that starts at the cursor and
/// never touches the text before it: at the end of the text nothing changes;
/// elsewhere the new text's bytes are the old bytes without
/// `cursor..right_target`, so it gets strictly shorter.
pub proof fn law_delete_removes_cluster_after(v: EditorView)
    requires
        well_formed(v),
        tiles(v.text, grapheme_starts(v.text)),
    ensures
        ({
            let w = delete_spec(v);
            let end = right_target(v.text, v.cursor);
            let b = encode_utf8(v.text);
            &&& encode_utf8(w.text).subrange(0, v.cursor) == b.subrange(0, v.cursor)
            &&& v.cursor == byte_len(v.text) ==> w.text == v.text && w.cursor == v.cursor
            &&& v.cursor < byte_len(v.text) ==> {
                &&& v.cursor < end
                &&& encode_utf8(w.text) == b.subrange(0, v.cursor) + b.subrange(end, b.len() as int)
                &&& byte_len(w.text) < byte_len(v.text)
            }
        }),
{
    let starts = grapheme_starts(v.text);
    let len = byte_len(v.text);
    lemma_ends_are_boundaries(v.text);
    if v.cursor == len {
        lemma_delete_bytes(v);
        lemma_first_none(starts, len, len);
    } else {
        let end = snap(v.text, v.cursor + 1);
        lemma_first_at_least(starts, v.cursor + 1, len);
        lemma_first_is_member(starts, v.cursor + 1, len);
        if end != len {
            let k = choose|k: int| 0 <= k < starts.len() && starts[k] == end;
            assert(char_boundary(v.text, starts[k] as int));
        }
        lemma_delete_bytes(v);
    }
}

/// Every recall that shows a stored entry (up or down) shows it whole, with
/// the cursor at its end.
pub proof fn law_recall_puts_cursor_at_end(v: EditorView)
    requires
        well_formed(v),
    ensures
        history_up_spec(v).selected != v.selected ==> (history_up_spec(v).selected matches Some(i)
            && history_up_spec(v).text == v.history[i] && history_up_spec(v).cursor == byte_len(
            v.history[i],
        )),
        history_down_spec(v).selected matches Some(i) ==> history_down_spec(v).text
            == v.history[i] && history_down_spec(v).cursor == byte_len(v.history[i]),
{
}

/// One host operation on an editor, for stating laws over sequences of calls.
pub enum EditOp {
    Up,
    Down,
    Insert(Seq<char>),
    Replace(int, int, Seq<char>),
    Backspace,
    Delete,
    Left,
    Right,
    Home,
    End,
}

/// The state after one operation (a rejected edit changes nothing).
pub open spec fn apply_op(v: EditorView, op: EditOp) -> EditorView {
    match op {
        EditOp::Up => history_up_spec(v),
        EditOp::Down => history_down_spec(v),
        EditOp::Insert(t) => match replace_outcome(v, v.cursor, v.cursor, t) {
            Ok(w) => w,
            Err(_) => v,
        },
        EditOp::Replace(start, end, t) => match replace_outcome(v, start, end, t) {
            Ok(w) => w,
            Err(_) => v,
        },
        EditOp::Backspace => backspace_spec(v),
        EditOp::Delete => delete_spec(v),
        EditOp::Left => left_spec(v),
        EditOp::Right => right_spec(v),
        EditOp::Home => EditorView { cursor: 0, ..v },
        EditOp::End => EditorView { cursor: byte_len(v.text), ..v },
    }
}

/// The state after the operations, in order.
pub open spec fn run_ops(v: EditorView, ops: Seq<EditOp>) -> EditorView
    decreases ops.len(),
{
    if ops.len() == 0 {
        v
    } else {
        run_ops(apply_op(v, ops[0]), ops.drop_first())
    }
}

/// The number of recalls (`Up`) among the operations.
pub open spec fn count_ups(ops: Seq<EditOp>) -> nat
    decreases ops.len(),
{
    if ops.len() == 0 {
        0
    } else {
        (if ops[0] is Up {
            1nat
        } else {
            0nat
        }) + count_ups(ops.drop_first())
    }
}

/// The state after `k` moves down.
pub open spec fn downs(v: EditorView, k: nat) -> EditorView
    decreases k,
{
    if k == 0 {
        v
    } else {
        downs(history_down_spec(v), (k - 1) as nat)
    }
}

/// Recalling entry `i` of `history` with `draft` saved.
pub open spec fn recalling(
    v: EditorView,
    history: Seq<Seq<char>>,
    draft: (Seq<char>, int),
    i: int,
) -> bool {
    v.history == history && v.selected == Some(i) && v.draft == Some(draft) && 0 <= i
        < history.len()
}

/// While recalling, edits and recalls keep history and the saved draft, and
/// each recall moves one entry back, stopping at the oldest.
proof fn lemma_recalling_ops(
    v: EditorView,
    history: Seq<Seq<char>>,
    draft: (Seq<char>, int),
    i: int,
    ops: Seq<EditOp>,
)
    requires
        recalling(v, history, draft, i),
        forall|k: int| 0 <= k < ops.len() ==> !(#[trigger] ops[k] is Down),
    ensures
        recalling(
            run_ops(v, ops),
            history,
            draft,
            if count_ups(ops) >= i {
                0
            } else {
                i - count_ups(ops)
            },
        ),
    decreases ops.len(),
{
    if ops.len() > 0 {
        let w = apply_op(v, ops[0]);
        let j = if ops[0] is Up && i > 0 {
            i - 1
        } else {
            i
        };
        assert(recalling(w, history, draft, j));
        assert forall|k: int| 0 <= k < ops.drop_first().len() implies !(
        #[trigger] ops.drop_first()[k] is Down) by {
            assert(ops.drop_first()[k] == ops[k + 1]);
        }
        lemma_recalling_ops(w, history, draft, j, ops.drop_first());
    }
}

/// From recalling entry `i`, moving down `history.len() - i` times restores
/// the saved draft; moving down further changes nothing.
proof fn lemma_downs_restore(
    v: EditorView,
    history: Seq<Seq<char>>,
    draft: (Seq<char>, int),
    i: int,
    extra: nat,
)
    requires
        recalling(v, history, draft, i),
    ensures
        downs(v, (history.len() - i + extra) as nat).text == draft.0,
        downs(v, (history.len() - i + extra) as nat).cursor == draft.1,
        downs(v, (history.len() - i + extra) as nat).history == history,
        downs(v, (history.len() - i + extra) as nat).selected is None,
    decreases history.len() - i,
{
    let w = history_down_spec(v);
    if i + 1 < history.len() {
        assert(recalling(w, history, draft, i + 1));
        lemma_downs_restore(w, history, draft, i + 1, extra);
        assert(((history.len() - i + extra) as nat - 1) as nat == (history.len() - (i + 1)
            + extra) as nat);
    } else {
        lemma_downs_idle(w, extra);
    }
}

/// Moving down with nothing recalled changes nothing.
proof fn lemma_downs_idle(v: EditorView, k: nat)
    requires
        v.selected is None,
    ensures
        downs(v, k) == v,
    decreases k,
{
    if k > 0 {
        lemma_downs_idle(history_down_spec(v), (k - 1) as nat);
    }
}

/// Recalling history, editing in between, and then moving down as many times
/// as the recalls went back restores exactly the draft text and cursor of the
/// first recall, leaves history unchanged, and further moves down do nothing.
pub proof fn law_recall_with_edits_round_trip(v: EditorView, ops: Seq<EditOp>, extra: nat)
    requires
        v.selected is None,
        v.history.len() >= 1,
        ops.len() >= 1,
        ops[0] is Up,
        forall|k: int| 0 <= k < ops.len() ==> !(#[trigger] ops[k] is Down),
    ensures
        ({
            let n = v.history.len();
            let m = if count_ups(ops) <= n {
                count_ups(ops)
            } else {
                n
            };
            let back = downs(run_ops(v, ops), m + extra);
            &&& back.text == v.text
            &&& back.cursor == v.cursor
            &&& back.history == v.history
            &&& back.selected is None
        }),
{
    let n = v.history.len() as int;
    let draft = (v.text, v.cursor);
    let w = history_up_spec(v);
    assert(recalling(w, v.history, draft, n - 1));
    let rest = ops.drop_first();
    assert forall|k: int| 0 <= k < rest.len() implies !(#[trigger] rest[k] is Down) by {
        assert(rest[k] == ops[k + 1]);
    }
    lemma_recalling_ops(w, v.history, draft, n - 1, rest);
    assert(run_ops(v, ops) == run_ops(w, rest));
    let u = count_ups(rest);
    let j = if u >= n - 1 {
        0
    } else {
        n - 1 - u
    };
    lemma_downs_restore(run_ops(w, rest), v.history, draft, j, extra);
}

/// Admission appends the entry as the newest, evicting only the oldest and only
/// when the host-selected bound is full; the bound is never exceeded.
pub proof fn law_admission_is_bounded(v: EditorView, entry: Seq<char>)
    requires
        well_formed(v),
    ensures
        admit_outcome(v, entry) matches Ok(w) ==> {
            &&& w.history.last() == entry
            &&& w.history.len() <= w.history_limit
            &&& v.history.len() < v.history_limit ==> w.history.drop_last() == v.history
            &&& v.history.len() == v.history_limit ==> w.history.drop_last()
                == v.history.drop_first()
        },
{
    if let Ok(w) = admit_outcome(v, entry) {
        if v.history.len() < v.history_limit {
            assert(w.history.drop_last() =~= v.history);
        } else {
            assert(w.history.drop_last() =~= v.history.drop_first());
        }
    }
}

/// A snapped offset is a grapheme boundary: a cluster start or the end.
proof fn lemma_snap_lands(text: Seq<char>, wanted: int)
    ensures
        is_boundary(text, snap(text, wanted)),
{
    lemma_first_is_member(grapheme_starts(text), wanted, byte_len(text));
}

/// The byte length of a splice.
proof fn lemma_splice_len(text: Seq<char>, start: int, end: int, insert: Seq<char>)
    requires
        char_boundary(text, start),
        char_boundary(text, end),
        start <= end,
    ensures
        byte_len(splice(text, start, end, insert)) == start + byte_len(insert) + (byte_len(text)
            - end),
{
    lemma_cut(text, start);
    lemma_cut(text, end);
    lemma_encode_concat(byte_prefix(text, start), insert);
    lemma_encode_concat(byte_prefix(text, start) + insert, byte_suffix(text, end));
}

/// A splice of permitted characters holds only permitted characters.
proof fn lemma_splice_valid(text: Seq<char>, start: int, end: int, insert: Seq<char>)
    requires
        char_boundary(text, start),
        char_boundary(text, end),
        valid_chars(text),
        valid_chars(insert),
    ensures
        valid_chars(splice(text, start, end, insert)),
{
    lemma_cut(text, start);
    lemma_cut(text, end);
    let head = byte_prefix(text, start);
    let tail = byte_suffix(text, end);
    assert(forall|i: int| 0 <= i < head.len() ==> head[i] == text[i]) by {
        assert forall|i: int| 0 <= i < head.len() implies head[i] == text[i] by {
            assert((head + byte_suffix(text, start))[i] == head[i]);
        }
    }
    assert forall|i: int| 0 <= i < tail.len() implies tail[i] == text[byte_prefix(text, end).len()
        + i] by {
        assert((byte_prefix(text, end) + tail)[byte_prefix(text, end).len() + i] == tail[i]);
    }
    let r = splice(text, start, end, insert);
    assert forall|i: int| 0 <= i < r.len() implies crate::text::allowed_char(#[trigger] r[i]) by {
        if i < head.len() {
            assert(r[i] == head[i]);
        } else if i < head.len() + insert.len() {
            assert(r[i] == insert[i - head.len()]);
        } else {
            assert(r[i] == tail[i - head.len() - insert.len()]);
        }
    }
}

/// The first of the cluster starts, in order, at or after `wanted`; `end`
/// when there is none.
pub fn first_start_at_or_after(starts: &Vec<usize>, wanted: usize, end: usize) -> (at: usize)
    ensures
        at == first_at_or_after(starts@, wanted as int, end as int),
{
    let mut i: usize = 0;
    assert(starts@.skip(0) =~= starts@);
    while i < starts.len()
        invariant
            0 <= i <= starts@.len(),
            first_at_or_after(starts@, wanted as int, end as int) == first_at_or_after(
                starts@.skip(i as int),
                wanted as int,
                end as int,
            ),
        decreases starts@.len() - i,
    {
        if starts[i] >= wanted {
            assert(starts@.skip(i as int)[0] == starts@[i as int]);
            return starts[i];
        }
        assert(starts@.skip(i as int).drop_first() =~= starts@.skip(i + 1));
        i = i + 1;
    }
    end
}

/// Whether `index` is `end` or one of the cluster starts.
pub fn is_listed(starts: &Vec<usize>, index: usize, end: usize) -> (b: bool)
    ensures
        b == listed(starts@, index as int, end as int),
{
    if index == end {
        return true;
    }
    let mut i: usize = 0;
    while i < starts.len()
        invariant
            0 <= i <= starts@.len(),
            index != end,
            forall|k: int| 0 <= k < i ==> starts@[k] != index,
        decreases starts@.len() - i,
    {
        if starts[i] == index {
            return true;
        }
        i = i + 1;
    }
    false
}

/// The last of the cluster starts, searching from the end, that lies before
/// `cursor`; 0 when there is none.
pub fn last_start_before(starts: &Vec<usize>, cursor: usize) -> (at: usize)
    ensures
        at == last_before(starts@, cursor as int),
{
    let mut n = starts.len();
    assert(starts@.take(n as int) =~= starts@);
    while n > 0
        invariant
            n <= starts@.len(),
            last_before(starts@, cursor as int) == last_before(starts@.take(n as int), cursor as int),
        decreases n,
    {
        let s = starts[n - 1];
        if s < cursor {
            return s;
        }
        assert(starts@.take(n as int).drop_last() =~= starts@.take(n - 1));
        n = n - 1;
    }
    0
}

/// The first cluster start at or after `wanted`, else the end of the text.
fn snap_at(text: &str, wanted: usize) -> (at: usize)
    ensures
        at == snap(text@, wanted as int),
        is_boundary(text@, at as int),
        char_boundary(text@, at as int),
        tiles(text@, grapheme_starts(text@)),
{
    let offsets = grapheme_offsets(text);
    proof {
        lemma_snap_is_boundary(text@, wanted as int);
    }
    first_start_at_or_after(&offsets, wanted, byte_count(text))
}

/// Whether `index` is an extended grapheme boundary of `text`.
fn boundary_of(text: &str, index: usize) -> (b: bool)
    ensures
        b == is_boundary(text@, index as int),
        b ==> char_boundary(text@, index as int),
{
    let offsets = grapheme_offsets(text);
    let b = is_listed(&offsets, index, byte_count(text));
    proof {
        lemma_ends_are_boundaries(text@);
        if b && index != byte_len(text@) {
            let k = choose|k: int| 0 <= k < offsets@.len() && offsets@[k] == index;
            assert(char_boundary(text@, offsets@[k] as int));
        }
    }
    b
}

/// Every `last_before` result is 0 or one of the offsets.
proof fn lemma_last_before_is_member(starts: Seq<usize>, cursor: int)
    ensures
        last_before(starts, cursor) == 0 || exists|k: int|
            0 <= k < starts.len() && starts[k] == last_before(starts, cursor),
        last_before(starts, cursor) == 0 || last_before(starts, cursor) < cursor,
    decreases starts.len(),
{
    if starts.len() > 0 && starts.last() >= cursor {
        lemma_last_before_is_member(starts.drop_last(), cursor);
        let r = last_before(starts, cursor);
        if r != 0 {
            let k = choose|k: int|
                0 <= k < starts.drop_last().len() && starts.drop_last()[k] == r;
            assert(starts[k] == r);
        }
    }
}

/// The start of the last cluster before `cursor`, or 0.
fn left_of(text: &str, cursor: usize) -> (at: usize)
    requires
        char_boundary(text@, cursor as int),
    ensures
        at == left_target(text@, cursor as int),
        at <= cursor,
        char_boundary(text@, at as int),
        is_boundary(text@, at as int),
{
    let offsets = grapheme_offsets(text);
    let at = last_start_before(&offsets, cursor);
    proof {
        lemma_last_before_is_member(offsets@, cursor as int);
        lemma_ends_are_boundaries(text@);
        if at != 0 {
            let k = choose|k: int| 0 <= k < offsets@.len() && offsets@[k] == at;
            assert(char_boundary(text@, offsets@[k] as int));
        } else if offsets@.len() > 0 {
            assert(offsets@[0] == 0);
        } else {
            assert(text@.len() == 0);
            assert(byte_len(text@) == 0);
        }
    }
    at
}

/// The start of the first cluster after `cursor`, or the end of the text.
fn right_of(text: &str, cursor: usize) -> (at: usize)
    requires
        char_boundary(text@, cursor as int),
    ensures
        at == right_target(text@, cursor as int),
        cursor <= at,
        char_boundary(text@, at as int),
        is_boundary(text@, at as int) || at == cursor,
{
    let len = byte_count(text);
    if cursor == len {
        return cursor;
    }
    let offsets = grapheme_offsets(text);
    proof {
        lemma_snap_is_boundary(text@, cursor + 1);
        lemma_first_at_least(offsets@, cursor + 1, len as int);
    }
    first_start_at_or_after(&offsets, cursor + 1, len)
}

/// `text` with bytes `start..end` replaced by `insert`.
fn spliced(text: &str, start: usize, end: usize, insert: &str) -> (s: String)
    requires
        char_boundary(text@, start as int),
        char_boundary(text@, end as int),
        start <= end,
    ensures
        s@ == splice(text@, start as int, end as int, insert@),
{
    let (head, rest) = text.split_at(start);
    proof {
        lemma_cut(text@, start as int);
        encode_utf8_decode_utf8(head@);
        encode_utf8_decode_utf8(rest@);
        assert(rest@ == byte_suffix(text@, start as int));
        lemma_suffix_boundary(text@, start as int, end as int);
    }
    let (_, tail) = rest.split_at(end - start);
    proof {
        lemma_cut(text@, end as int);
        encode_utf8_decode_utf8(tail@);
        assert(tail.spec_bytes() =~= text.spec_bytes().subrange(end as int, byte_len(text@)));
        assert(tail@ == byte_suffix(text@, end as int));
    }
    let mut s = head.to_owned();
    s.append(insert);
    s.append(tail);
    s
}

impl Editor {
    /// The invariant: capacity respected, cursor on a character boundary,
    /// history bounded and every recalled index valid.
    pub open spec fn wf(&self) -> bool {
        well_formed(self@)
    }

    /// Create an empty editor with byte and history-entry limits. Zero is allowed.
    pub fn new(max_bytes: usize, history_entries: usize) -> (e: Self)
        ensures
            e.wf(),
            e@ == (EditorView {
                text: Seq::empty(),
                cursor: 0,
                limit: max_bytes as int,
                history: Seq::empty(),
                history_limit: history_entries as int,
                selected: None,
                draft: None,
            }),
    {
        let e = Editor {
            text: String::new(),
            cursor: 0,
            limit: max_bytes,
            history: VecDeque::new(),
            history_limit: history_entries,
            selected: None,
            draft: None,
        };
        proof {
            lemma_ends_are_boundaries(e.text@);
            assert(e@.history =~= Seq::<Seq<char>>::empty());
        }
        e
    }

    /// Current input, without application interpretation.
    pub fn text(&self) -> (t: &str)
        ensures
            t@ == self@.text,
    {
        self.text.as_str()
    }

    /// Cursor as a UTF-8 byte offset at an extended grapheme boundary.
    pub fn cursor(&self) -> (c: usize)
        ensures
            c == self@.cursor,
    {
        self.cursor
    }

    /// Configured maximum input size in UTF-8 bytes.
    pub fn capacity(&self) -> (c: usize)
        ensures
            c == self@.limit,
    {
        self.limit
    }

    /// Replace a grapheme-aligned byte range atomically. Cursor follows replacement.
    pub fn replace(&mut self, range: Range<usize>, text: &str) -> (r: Result<(), EditError>)
        requires
            old(self).wf(),
        ensures
            final(self).wf(),
            match replace_outcome(old(self)@, range.start as int, range.end as int, text@) {
                Ok(v) => r is Ok && final(self)@ == v,
                Err(e) => r == Err::<(), EditError>(e) && final(self)@ == old(self)@,
            },
    {
        let len = byte_count(self.text.as_str());
        let count = byte_count(text);
        if range.start > range.end || range.end > len || !boundary_of(
            self.text.as_str(),
            range.start,
        ) || !boundary_of(self.text.as_str(), range.end) {
            return Err(EditError::InvalidRange);
        }
        if !valid_text(text) {
            return Err(EditError::InvalidText);
        }
        let remaining = len - (range.end - range.start);
        if count > self.limit - remaining {
            return Err(EditError::Capacity);
        }
        let wanted = range.start + count;
        proof {
            lemma_splice_len(self@.text, range.start as int, range.end as int, text@);
            lemma_splice_valid(self@.text, range.start as int, range.end as int, text@);
        }
        let ghost old_view = self@;
        self.text = spliced(self.text.as_str(), range.start, range.end, text);
        self.cursor = snap_at(self.text.as_str(), wanted);
        proof {
            assert(self@.history == old_view.history);
        }
        Ok(())
    }

    /// Insert text at the cursor without interpreting commands or trimming it.
    pub fn insert(&mut self, text: &str) -> (r: Result<(), EditError>)
        requires
            old(self).wf(),
        ensures
            final(self).wf(),
            match replace_outcome(old(self)@, old(self)@.cursor, old(self)@.cursor, text@) {
                Ok(v) => r is Ok && final(self)@ == v,
                Err(e) => r == Err::<(), EditError>(e) && final(self)@ == old(self)@,
            },
    {
        let at = self.cursor;
        self.replace(at..at, text)
    }

    /// Clear the active input and navigation draft; retain admitted history.
    pub fn clear(&mut self)
        requires
            old(self).wf(),
        ensures
            final(self).wf(),
            final(self)@ == clear_spec(old(self)@),
    {
        self.text = String::new();
        self.cursor = 0;
        self.selected = None;
        self.draft = None;
        proof {
            lemma_ends_are_boundaries(self@.text);
        }
    }

    /// Move left one extended grapheme, stopping at the beginning.
    pub fn left(&mut self)
        requires
            old(self).wf(),
        ensures
            final(self).wf(),
            final(self)@ == left_spec(old(self)@),
    {
        self.cursor = left_of(self.text.as_str(), self.cursor);
    }

    /// Move right one extended grapheme, stopping at the end.
    pub fn right(&mut self)
        requires
            old(self).wf(),
        ensures
            final(self).wf(),
            final(self)@ == right_spec(old(self)@),
    {
        self.cursor = right_of(self.text.as_str(), self.cursor);
    }

    /// Move to the beginning of the entire input.
    pub fn home(&mut self)
        requires
            old(self).wf(),
        ensures
            final(self).wf(),
            final(self)@ == (EditorView { cursor: 0, ..old(self)@ }),
    {
        let start = snap_at(self.text.as_str(), 0);
        proof {
            let starts = grapheme_starts(self@.text);
            if starts.len() == 0 {
                assert(self@.text.len() == 0);
                assert(byte_len(self@.text) == 0);
            }
        }
        self.cursor = start;
    }

    /// Move to the end of the entire input.
    pub fn end(&mut self)
        requires
            old(self).wf(),
        ensures
            final(self).wf(),
            final(self)@ == (EditorView { cursor: byte_len(old(self)@.text), ..old(self)@ }),
    {
        proof {
            lemma_ends_are_boundaries(self@.text);
        }
        self.cursor = byte_count(self.text.as_str());
    }

    /// Remove the preceding extended grapheme, or do nothing at the beginning.
    pub fn backspace(&mut self)
        requires
            old(self).wf(),
        ensures
            final(self).wf(),
            final(self)@ == backspace_spec(old(self)@),
            old(self)@.cursor > 0 ==> byte_len(final(self)@.text) < byte_len(old(self)@.text),
            old(self)@.cursor > 0 ==> encode_utf8(final(self)@.text) == encode_utf8(
                old(self)@.text,
            ).subrange(0, left_target(old(self)@.text, old(self)@.cursor)) + encode_utf8(
                old(self)@.text,
            ).subrange(old(self)@.cursor, byte_len(old(self)@.text)),
    {
        let ghost before = self@;
        let end = self.cursor;
        let start = left_of(self.text.as_str(), end);
        let ghost empty = Seq::<char>::empty();
        proof {
            if before.cursor > 0 {
                lemma_backspace_bytes(before);
            }
        }
        let rest = String::new();
        proof {
            lemma_splice_len(self@.text, start as int, end as int, empty);
            lemma_splice_valid(self@.text, start as int, end as int, empty);
            lemma_ends_are_boundaries(self@.text);
        }
        self.text = spliced(self.text.as_str(), start, end, rest.as_str());
        self.cursor = snap_at(self.text.as_str(), start);
    }

    /// Remove the following extended grapheme, or do nothing at the end.
    pub fn delete(&mut self)
        requires
            old(self).wf(),
        ensures
            final(self).wf(),
            final(self)@ == delete_spec(old(self)@),
            encode_utf8(final(self)@.text).subrange(0, old(self)@.cursor) == encode_utf8(
                old(self)@.text,
            ).subrange(0, old(self)@.cursor),
            old(self)@.cursor == byte_len(old(self)@.text) ==> final(self)@.text == old(
                self,
            )@.text,
    {
        let ghost before = self@;
        let start = self.cursor;
        proof {
            lemma_ends_are_boundaries(self@.text);
        }
        let end = right_of(self.text.as_str(), start);
        proof {
            lemma_delete_bytes(before);
        }
        let ghost empty = Seq::<char>::empty();
        let rest = String::new();
        proof {
            lemma_splice_len(self@.text, start as int, end as int, empty);
            lemma_splice_valid(self@.text, start as int, end as int, empty);
        }
        self.text = spliced(self.text.as_str(), start, end, rest.as_str());
        self.cursor = snap_at(self.text.as_str(), start);
    }

    /// Admit one host-selected history entry; evict the oldest at capacity.
    ///
    /// No deduplication, trimming, persistence or automatic admission occurs.
    pub fn admit_history(&mut self, text: &str) -> (r: Result<(), EditError>)
        requires
            old(self).wf(),
        ensures
            final(self).wf(),
            match admit_outcome(old(self)@, text@) {
                Ok(v) => r is Ok && final(self)@ == v,
                Err(e) => r == Err::<(), EditError>(e) && final(self)@ == old(self)@,
            },
    {
        if !valid_text(text) {
            return Err(EditError::InvalidText);
        }
        if byte_count(text) > self.limit {
            return Err(EditError::Capacity);
        }
        if self.history_limit == 0 {
            return Err(EditError::HistoryDisabled);
        }
        let ghost before = self@;
        self.selected = None;
        self.draft = None;
        if self.history.len() == self.history_limit {
            self.history.pop_front();
        }
        self.history.push_back(text.to_owned());
        proof {
            let kept = if before.history.len() == before.history_limit {
                before.history.drop_first()
            } else {
                before.history
            };
            assert(self@.history =~= kept.push(text@));
            assert forall|i: int| 0 <= i < self@.history.len() implies byte_len(
                #[trigger] self@.history[i],
            ) <= self@.limit by {
                if i < kept.len() {
                    if before.history.len() == before.history_limit {
                        assert(kept[i] == before.history[i + 1]);
                    }
                } else {
                    assert(self@.history[i] == text@);
                }
            }
        }
        Ok(())
    }

    /// Recall the previous entry, preserving the current draft and its cursor.
    pub fn history_up(&mut self)
        requires
            old(self).wf(),
        ensures
            final(self).wf(),
            final(self)@ == history_up_spec(old(self)@),
            final(self)@.selected != old(self)@.selected ==> final(self)@.cursor == byte_len(
                final(self)@.text,
            ),
    {
        if self.history.len() == 0 {
            return;
        }
        let index = match self.selected {
            Some(0) => {
                return;
            },
            Some(i) => i - 1,
            None => {
                self.draft = Some((self.text.clone(), self.cursor));
                self.history.len() - 1
            },
        };
        self.selected = Some(index);
        self.text = self.history[index].clone();
        proof {
            assert(self@.text == self@.history[index as int]);
            lemma_ends_are_boundaries(self@.text);
        }
        self.cursor = byte_count(self.text.as_str());
    }

    /// Recall the next entry, or return to the saved draft and its cursor.
    pub fn history_down(&mut self)
        requires
            old(self).wf(),
        ensures
            final(self).wf(),
            final(self)@ == history_down_spec(old(self)@),
            final(self)@.selected is Some ==> final(self)@.cursor == byte_len(final(self)@.text),
    {
        let index = match self.selected {
            None => {
                return;
            },
            Some(i) => i,
        };
        if index + 1 < self.history.len() {
            self.selected = Some(index + 1);
            self.text = self.history[index + 1].clone();
            proof {
                assert(self@.text == self@.history[index + 1]);
                lemma_ends_are_boundaries(self@.text);
            }
            self.cursor = byte_count(self.text.as_str());
        } else {
            if let Some((text, cursor)) = self.draft.take() {
                self.text = text;
                self.cursor = cursor;
            }
            self.selected = None;
        }
    }
}

} // verus!
