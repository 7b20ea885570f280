//! The numeric codes of the C interface on concrete values.
use replai::{check_config, edit_status, event_record, status_message};
use replai::{EditError, Event, STATUS_INVALID_ARGUMENT};

#[test]
fn every_known_status_has_its_diagnostic() {
    let expected = [
        "success",
        "invalid argument",
        "invalid UTF-8",
        "invalid grapheme range",
        "capacity exceeded",
        "invalid lifecycle state",
        "unsuitable terminal pair",
        "terminal I/O or restoration failure",
        "buffer too small",
        "ABI size or version mismatch",
        "terminal already owned",
        "internal panic contained; close or destroy",
        "unsupported control text",
        "history disabled",
        "invalid terminal sequence",
    ];
    for (code, text) in expected.iter().enumerate() {
        assert_eq!(status_message(code as i32), Some(*text));
    }
    assert_eq!(status_message(15), None);
    assert_eq!(status_message(-1), None);
    assert_eq!(status_message(i32::MAX), None);
}

#[test]
fn edit_rejections_map_to_their_statuses() {
    assert_eq!(edit_status(EditError::InvalidUtf8), 2);
    assert_eq!(edit_status(EditError::InvalidRange), 3);
    assert_eq!(edit_status(EditError::Capacity), 4);
    assert_eq!(edit_status(EditError::InvalidText), 12);
    assert_eq!(edit_status(EditError::HistoryDisabled), 13);
    assert_eq!(edit_status(EditError::InvalidSequence), 14);
}

#[test]
fn event_records_carry_kind_status_and_draft_counts() {
    assert_eq!(event_record(&None, 3, 1), (0, 0, 3, 1));
    assert_eq!(event_record(&Some(Event::Submitted("ab\nc".into())), 4, 4), (1, 0, 4, 4));
    assert_eq!(event_record(&Some(Event::Interrupted), 0, 0), (2, 0, 0, 0));
    assert_eq!(event_record(&Some(Event::EndOfInput), 0, 0), (3, 0, 0, 0));
    assert_eq!(event_record(&Some(Event::CompletionRequested), 7, 2), (4, 0, 7, 2));
    assert_eq!(event_record(&Some(Event::Rejected(EditError::Capacity)), 5, 5), (5, 4, 5, 5));
}

#[test]
fn configurations_are_checked_field_by_field() {
    assert_eq!(check_config(0, 0, 4096, 100), Ok((4096, 100)));
    assert_eq!(check_config(0, 0, 0, 0), Ok((0, 0)));
    assert_eq!(check_config(1, 0, 4096, 100), Err(STATUS_INVALID_ARGUMENT));
    assert_eq!(check_config(0, 7, 4096, 100), Err(STATUS_INVALID_ARGUMENT));
    let max = isize::MAX as u64;
    assert_eq!(check_config(0, 0, max, 0), Ok((isize::MAX as usize, 0)));
    assert_eq!(check_config(0, 0, max + 1, 0), Err(STATUS_INVALID_ARGUMENT));
    let bound = (isize::MAX as usize / std::mem::size_of::<String>()) as u64;
    assert_eq!(check_config(0, 0, 16, bound), Ok((16, bound as usize)));
    assert_eq!(check_config(0, 0, 16, bound + 1), Err(STATUS_INVALID_ARGUMENT));
}
