//! Deterministic bounded line editing for terminal interaction.
//!
//! The library owns the editable text, its byte cursor and in-memory history
//! (`Editor`), and the incremental decoding of terminal input bytes into keys
//! (`Decoder`). Hosts keep the meaning of submitted input.
mod text;
mod graphemes;
mod editor;
mod input;
mod interaction;
mod codes;

pub use text::valid_text;
pub use codes::{
    check_config, config_accepted, edit_code, edit_status, event_kind, event_record, status_message,
    status_text, EVENT_COMPLETION_REQUESTED, EVENT_EDIT_REJECTED, EVENT_END_OF_INPUT,
    EVENT_INTERRUPTED, EVENT_NONE, EVENT_SUBMITTED, STATUS_ABI_MISMATCH, STATUS_BUFFER_TOO_SMALL,
    STATUS_BUSY, STATUS_CAPACITY, STATUS_HISTORY_DISABLED, STATUS_INTERNAL, STATUS_INVALID_ARGUMENT,
    STATUS_INVALID_RANGE, STATUS_INVALID_SEQUENCE, STATUS_INVALID_STATE, STATUS_INVALID_TEXT,
    STATUS_INVALID_UTF8, STATUS_IO, STATUS_OK, STATUS_UNSUITABLE_TERMINAL,
};
pub use editor::{
    edit_message, first_start_at_or_after, is_listed, last_start_before, EditError, Editor, EditorView,
};
pub use input::{Decoder, DecoderView, Key, KeyView, Phase};
pub use interaction::{
    append_only_suffix, cleanup_message, combine, error_message, report_failure, restoration_step, Gate, IoFailure, Lifecycle, output_text, poll_step, respond, usable_dimensions, Error, Event, EventView, Input, Restoration,
    Response, ResponseView, Step, StepView,
};
