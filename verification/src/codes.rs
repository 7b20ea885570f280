//! The numeric codes of the C interface: statuses, event kinds, the event
//! record's fields and the check of a configuration record.
use vstd::prelude::*;

use crate::editor::EditError;
use crate::interaction::Event;

verus! {

/// Operation completed.
pub const STATUS_OK: i32 = 0;
/// Detectable pointer, length, tag, reserved-field or descriptor misuse.
pub const STATUS_INVALID_ARGUMENT: i32 = 1;
/// Invalid UTF-8 span.
pub const STATUS_INVALID_UTF8: i32 = 2;
/// Unordered, out-of-bounds or grapheme-splitting replacement range.
pub const STATUS_INVALID_RANGE: i32 = 3;
/// Configured text or prompt bound exceeded.
pub const STATUS_CAPACITY: i32 = 4;
/// Operation unavailable in the current lifecycle state.
pub const STATUS_INVALID_STATE: i32 = 5;
/// Not a terminal, mismatched terminals or unsupported dimensions.
pub const STATUS_UNSUITABLE_TERMINAL: i32 = 6;
/// Terminal system call, read, write or cleanup failure.
pub const STATUS_IO: i32 = 7;
/// A query reported the required bytes; the destination is unchanged.
pub const STATUS_BUFFER_TOO_SMALL: i32 = 8;
/// Unsupported record size or version.
pub const STATUS_ABI_MISMATCH: i32 = 9;
/// Another active interaction owns the terminal lease.
pub const STATUS_BUSY: i32 = 10;
/// A panic was contained.
pub const STATUS_INTERNAL: i32 = 11;
/// Unsupported control text.
pub const STATUS_INVALID_TEXT: i32 = 12;
/// The host configured no history entries.
pub const STATUS_HISTORY_DISABLED: i32 = 13;
/// Rejected terminal input sequence.
pub const STATUS_INVALID_SEQUENCE: i32 = 14;

/// No event this poll.
pub const EVENT_NONE: u32 = 0;
/// The complete input was submitted.
pub const EVENT_SUBMITTED: u32 = 1;
/// The interaction was interrupted.
pub const EVENT_INTERRUPTED: u32 = 2;
/// Input ended.
pub const EVENT_END_OF_INPUT: u32 = 3;
/// The host is asked for a completion.
pub const EVENT_COMPLETION_REQUESTED: u32 = 4;
/// An edit was rejected; the record's status says why.
pub const EVENT_EDIT_REJECTED: u32 = 5;

/// The generic diagnostic of each status code; `None` for an unknown code.
pub open spec fn status_text(status: i32) -> Option<Seq<char>> {
    if status == 0 {
        Some("success"@)
    } else if status == 1 {
        Some("invalid argument"@)
    } else if status == 2 {
        Some("invalid UTF-8"@)
    } else if status == 3 {
        Some("invalid grapheme range"@)
    } else if status == 4 {
        Some("capacity exceeded"@)
    } else if status == 5 {
        Some("invalid lifecycle state"@)
    } else if status == 6 {
        Some("unsuitable terminal pair"@)
    } else if status == 7 {
        Some("terminal I/O or restoration failure"@)
    } else if status == 8 {
        Some("buffer too small"@)
    } else if status == 9 {
        Some("ABI size or version mismatch"@)
    } else if status == 10 {
        Some("terminal already owned"@)
    } else if status == 11 {
        Some("internal panic contained; close or destroy"@)
    } else if status == 12 {
        Some("unsupported control text"@)
    } else if status == 13 {
        Some("history disabled"@)
    } else if status == 14 {
        Some("invalid terminal sequence"@)
    } else {
        None
    }
}

/// The generic diagnostic of a status code, or `None` for an unknown code
/// (which the C interface answers with an invalid-argument status).
pub fn status_message(status: i32) -> (m: Option<&'static str>)
    ensures
        m is Some <==> status_text(status) is Some,
        m matches Some(s) ==> Some(s@) == status_text(status),
{
    match status {
        STATUS_OK => Some("success"),
        STATUS_INVALID_ARGUMENT => Some("invalid argument"),
        STATUS_INVALID_UTF8 => Some("invalid UTF-8"),
        STATUS_INVALID_RANGE => Some("invalid grapheme range"),
        STATUS_CAPACITY => Some("capacity exceeded"),
        STATUS_INVALID_STATE => Some("invalid lifecycle state"),
        STATUS_UNSUITABLE_TERMINAL => Some("unsuitable terminal pair"),
        STATUS_IO => Some("terminal I/O or restoration failure"),
        STATUS_BUFFER_TOO_SMALL => Some("buffer too small"),
        STATUS_ABI_MISMATCH => Some("ABI size or version mismatch"),
        STATUS_BUSY => Some("terminal already owned"),
        STATUS_INTERNAL => Some("internal panic contained; close or destroy"),
        STATUS_INVALID_TEXT => Some("unsupported control text"),
        STATUS_HISTORY_DISABLED => Some("history disabled"),
        STATUS_INVALID_SEQUENCE => Some("invalid terminal sequence"),
        _ => None,
    }
}

/// The status code of each edit rejection.
pub open spec fn edit_code(e: EditError) -> i32 {
    match e {
        EditError::Capacity => 4,
        EditError::InvalidText => 12,
        EditError::InvalidRange => 3,
        EditError::HistoryDisabled => 13,
        EditError::InvalidUtf8 => 2,
        EditError::InvalidSequence => 14,
    }
}

/// The status code that reports an edit rejection.
pub fn edit_status(e: EditError) -> (s: i32)
    ensures
        s == edit_code(e),
{
    match e {
        EditError::Capacity => STATUS_CAPACITY,
        EditError::InvalidText => STATUS_INVALID_TEXT,
        EditError::InvalidRange => STATUS_INVALID_RANGE,
        EditError::HistoryDisabled => STATUS_HISTORY_DISABLED,
        EditError::InvalidUtf8 => STATUS_INVALID_UTF8,
        EditError::InvalidSequence => STATUS_INVALID_SEQUENCE,
    }
}

/// The event kind code of a poll's outcome.
pub open spec fn event_kind(event: Option<Event>) -> u32 {
    match event {
        None => 0,
        Some(Event::Submitted(_)) => 1,
        Some(Event::Interrupted) => 2,
        Some(Event::EndOfInput) => 3,
        Some(Event::CompletionRequested) => 4,
        Some(Event::Rejected(_)) => 5,
    }
}

/// The event record's kind, status, draft length in bytes and cursor byte
/// offset for a poll's outcome: the status gives the reason of a rejection
/// and is success otherwise; the two counts describe the current draft.
pub fn event_record(event: &Option<Event>, text_bytes: usize, cursor: usize) -> (r: (
    u32,
    i32,
    u64,
    u64,
))
    ensures
        r.0 == event_kind(*event),
        r.1 == match *event {
            Some(Event::Rejected(e)) => edit_code(e),
            _ => 0,
        },
        r.2 == text_bytes,
        r.3 == cursor,
{
    let (kind, status) = match event {
        None => (EVENT_NONE, STATUS_OK),
        Some(Event::Submitted(_)) => (EVENT_SUBMITTED, STATUS_OK),
        Some(Event::Interrupted) => (EVENT_INTERRUPTED, STATUS_OK),
        Some(Event::EndOfInput) => (EVENT_END_OF_INPUT, STATUS_OK),
        Some(Event::CompletionRequested) => (EVENT_COMPLETION_REQUESTED, STATUS_OK),
        Some(Event::Rejected(e)) => (EVENT_EDIT_REJECTED, edit_status(*e)),
    };
    (kind, status, text_bytes as u64, cursor as u64)
}

/// Whether a configuration record is accepted: both reserved fields are
/// zero, the byte capacity fits in `isize`, and the history bound is at most
/// `isize::MAX` divided by the size of one stored entry.
pub open spec fn config_accepted(
    reserved0: u64,
    reserved1: u64,
    max_input_bytes: u64,
    history_entries: u64,
    entry_size: nat,
) -> bool {
    &&& reserved0 == 0 && reserved1 == 0
    &&& max_input_bytes <= isize::MAX
    &&& entry_size > 0
    &&& history_entries <= isize::MAX as nat / entry_size
}

/// Check a configuration record's fields: the byte capacity and history
/// bound as sizes on success, the invalid-argument status otherwise.
pub fn check_config(reserved0: u64, reserved1: u64, max_input_bytes: u64, history_entries: u64) -> (r:
    Result<(usize, usize), i32>)
    ensures
        r is Ok <==> config_accepted(
            reserved0,
            reserved1,
            max_input_bytes,
            history_entries,
            vstd::layout::size_of::<String>(),
        ),
        r matches Ok((bytes, entries)) ==> bytes == max_input_bytes && entries == history_entries,
        r matches Err(code) ==> code == STATUS_INVALID_ARGUMENT,
{
    if reserved0 != 0 || reserved1 != 0 {
        return Err(STATUS_INVALID_ARGUMENT);
    }
    let entry_size = std::mem::size_of::<String>();
    let max_size = isize::MAX as usize;
    if entry_size == 0 || max_input_bytes > max_size as u64 {
        return Err(STATUS_INVALID_ARGUMENT);
    }
    let bound = max_size / entry_size;
    assert(bound <= max_size) by (nonlinear_arith)
        requires
            entry_size >= 1,
            bound == max_size / entry_size,
    ;
    if history_entries > bound as u64 {
        return Err(STATUS_INVALID_ARGUMENT);
    }
    Ok((max_input_bytes as usize, history_entries as usize))
}

} // verus!
