//! The decisions of a terminal interaction, on concrete keys and texts.
use replai::{append_only_suffix, combine, output_text, poll_step, respond, usable_dimensions};
use replai::{report_failure, Decoder, EditError, Editor, Error, Event, Gate, Input, IoFailure, Key};
use replai::{Lifecycle, Response, Restoration, Step};
use std::io::ErrorKind;

fn is_redraw(r: &Response) -> bool {
    matches!(r, Response::Redraw)
}

#[test]
fn enter_submits_the_whole_multiline_input() {
    let mut e = Editor::new(32, 0);
    e.insert("one\ntwo").unwrap();
    e.home();
    match respond(&mut e, Key::Enter) {
        Response::Finish(event) => assert_eq!(event, Event::Submitted("one\ntwo".into())),
        _ => panic!("enter must finish"),
    }
    assert_eq!((e.text(), e.cursor()), ("one\ntwo", 0));
}

#[test]
fn ctrl_d_ends_empty_input_and_deletes_forward_otherwise() {
    let mut e = Editor::new(32, 0);
    assert!(matches!(respond(&mut e, Key::Eof), Response::Finish(Event::EndOfInput)));
    e.insert("abc").unwrap();
    assert!(is_redraw(&respond(&mut e, Key::Eof)));
    assert_eq!(e.text(), "abc");
    e.home();
    assert!(is_redraw(&respond(&mut e, Key::Eof)));
    assert_eq!((e.text(), e.cursor()), ("bc", 0));
}

#[test]
fn interrupt_completion_and_rejections_are_reported() {
    let mut e = Editor::new(2, 0);
    assert!(matches!(respond(&mut e, Key::Interrupt), Response::Finish(Event::Interrupted)));
    assert!(matches!(
        respond(&mut e, Key::Tab),
        Response::Report(Event::CompletionRequested)
    ));
    assert!(matches!(
        respond(&mut e, Key::Rejected(EditError::InvalidSequence)),
        Response::Report(Event::Rejected(EditError::InvalidSequence))
    ));
    assert!(matches!(
        respond(&mut e, Key::Text("abc".into())),
        Response::Report(Event::Rejected(EditError::Capacity))
    ));
    assert_eq!(e.text(), "");
    assert!(matches!(respond(&mut e, Key::Clear), Response::ClearScreen));
    assert!(matches!(respond(&mut e, Key::IncompletePaste), Response::IncompletePaste));
}

#[test]
fn editing_keys_edit_the_draft() {
    let mut e = Editor::new(32, 2);
    e.admit_history("old").unwrap();
    for key in [Key::Text("ab".into()), Key::Left, Key::Text("X".into()), Key::Right] {
        assert!(is_redraw(&respond(&mut e, key)));
    }
    assert_eq!((e.text(), e.cursor()), ("aXb", 3));
    respond(&mut e, Key::Home);
    respond(&mut e, Key::Delete);
    respond(&mut e, Key::End);
    respond(&mut e, Key::Backspace);
    assert_eq!((e.text(), e.cursor()), ("X", 1));
    respond(&mut e, Key::Up);
    assert_eq!(e.text(), "old");
    respond(&mut e, Key::Down);
    assert_eq!((e.text(), e.cursor()), ("X", 1));
}

#[test]
fn host_output_is_validated_and_laid_out_for_a_raw_terminal() {
    assert_eq!(output_text("notice"), Ok("notice\r\n".to_owned()));
    assert_eq!(output_text("a\r\nb\n"), Ok("a\r\nb\r\n".to_owned()));
    assert_eq!(output_text("\tx\ny"), Ok("\tx\r\ny\r\n".to_owned()));
    assert_eq!(output_text(""), Ok("\r\n".to_owned()));
    assert_eq!(output_text("lone\rcr"), Err(EditError::InvalidText));
    assert_eq!(output_text("\x1b[31mred"), Err(EditError::InvalidText));
}

#[test]
fn terminals_smaller_than_two_by_two_are_unusable() {
    assert_eq!(usable_dimensions(80, 24), Some((80, 24)));
    assert_eq!(usable_dimensions(2, 2), Some((2, 2)));
    assert_eq!(usable_dimensions(1, 24), None);
    assert_eq!(usable_dimensions(80, 1), None);
}

fn failure(kind: ErrorKind, message: &str) -> IoFailure {
    IoFailure { kind, message: message.to_string() }
}

#[test]
fn cleanup_failures_are_combined_with_the_original_error() {
    assert!(combine(Ok(()), Ok(())).is_ok());
    let first = combine(Err(failure(ErrorKind::Other, "write")), Ok(())).unwrap_err();
    assert_eq!(first, failure(ErrorKind::Other, "write"));
    let second = combine(Ok(()), Err(failure(ErrorKind::Other, "restore"))).unwrap_err();
    assert_eq!(second, failure(ErrorKind::Other, "restore"));
    let both = combine(
        Err(failure(ErrorKind::WriteZero, "write")),
        Err(failure(ErrorKind::Other, "restore")),
    )
    .unwrap_err();
    assert_eq!(both.kind, ErrorKind::WriteZero);
    assert_eq!(both.message, "write; terminal cleanup also failed: restore");
}

#[test]
fn a_failure_reports_a_failed_restoration_too() {
    match report_failure(failure(ErrorKind::BrokenPipe, "poll"), Ok(())) {
        Error::Io(f) => assert_eq!(f, failure(ErrorKind::BrokenPipe, "poll")),
        _ => panic!("an I/O failure stays one"),
    }
    let e = report_failure(
        failure(ErrorKind::BrokenPipe, "poll"),
        Err(failure(ErrorKind::Other, "tcsetattr")),
    );
    assert_eq!(e.message(), "poll; terminal cleanup also failed: tcsetattr");
    match e {
        Error::Io(f) => assert_eq!(f.kind, ErrorKind::BrokenPipe),
        _ => panic!("an I/O failure stays one"),
    }
}

#[test]
fn a_failed_output_write_still_tries_the_input_and_resets_settings() {
    let next = Restoration::WriteOutput.advance(Err(failure(ErrorKind::BrokenPipe, "out")));
    assert!(matches!(next, Restoration::WriteInput(_)));
    assert!(!next.released());
    let next = next.advance(Err(failure(ErrorKind::BrokenPipe, "in")));
    assert!(matches!(next, Restoration::ResetSettings(Err(_))));
    let done = next.advance(Ok(()));
    assert!(done.released());
    match done {
        Restoration::Done { output, settings } => {
            assert_eq!(output, Err(failure(ErrorKind::BrokenPipe, "out")));
            assert_eq!(settings, Ok(()));
        }
        _ => panic!("restoration ends after the settings reset"),
    }
}

#[test]
fn restoration_releases_only_when_settings_reset() {
    let next = Restoration::WriteOutput.advance(Ok(()));
    assert!(matches!(next, Restoration::ResetSettings(Ok(()))));
    let done = next.advance(Err(failure(ErrorKind::Other, "tcsetattr")));
    assert!(!done.released());
    let again = done.advance(Ok(()));
    match again {
        Restoration::Done { output, settings } => {
            assert_eq!(output, Ok(()));
            assert_eq!(settings, Err(failure(ErrorKind::Other, "tcsetattr")));
        }
        _ => panic!("a finished restoration stays finished"),
    }
}

#[test]
fn every_error_has_its_message() {
    assert_eq!(Error::State.message(), "invalid interaction state");
    assert_eq!(Error::Busy.message(), "another terminal interaction is active");
    assert_eq!(
        Error::UnsuitableTerminal.message(),
        "unsuitable terminal descriptors or dimensions"
    );
    assert_eq!(Error::Edit(EditError::Capacity).message(), "input capacity exceeded");
    assert_eq!(Error::Io(failure(ErrorKind::Other, "gone")).message(), "gone");
}

#[test]
fn edit_errors_convert_into_interaction_errors() {
    let e: replai::Error = EditError::InvalidRange.into();
    assert!(matches!(e, replai::Error::Edit(EditError::InvalidRange)));
}

#[test]
fn polling_decodes_bytes_and_acts_on_completed_keys() {
    let mut d = Decoder::new(32);
    let mut e = Editor::new(32, 0);
    assert!(matches!(poll_step(&mut d, &mut e, Input::Quiet { idle: true }), Step::Wait));
    assert!(matches!(poll_step(&mut d, &mut e, Input::Byte(b'h')), Step::Respond(Response::Redraw)));
    assert!(matches!(poll_step(&mut d, &mut e, Input::Byte(0x1b)), Step::Wait));
    assert!(matches!(poll_step(&mut d, &mut e, Input::Quiet { idle: false }), Step::Wait));
    assert!(matches!(
        poll_step(&mut d, &mut e, Input::Quiet { idle: true }),
        Step::Respond(Response::Report(Event::Rejected(EditError::InvalidSequence)))
    ));
    match poll_step(&mut d, &mut e, Input::Byte(b'\r')) {
        Step::Respond(Response::Finish(event)) => assert_eq!(event, Event::Submitted("h".into())),
        _ => panic!("carriage return must submit"),
    }
}

#[test]
fn end_of_input_inside_a_sequence_fails_the_interaction() {
    let mut d = Decoder::new(32);
    let mut e = Editor::new(32, 0);
    assert!(matches!(
        poll_step(&mut d, &mut e, Input::Closed),
        Step::Respond(Response::Finish(Event::EndOfInput))
    ));
    poll_step(&mut d, &mut e, Input::Byte(0xe2));
    assert!(matches!(poll_step(&mut d, &mut e, Input::Closed), Step::TruncatedSequence));
    let mut d = Decoder::new(32);
    for b in b"\x1b[200~ab" {
        poll_step(&mut d, &mut e, Input::Byte(*b));
    }
    assert!(matches!(
        poll_step(&mut d, &mut e, Input::Quiet { idle: true }),
        Step::Respond(Response::IncompletePaste)
    ));
    assert_eq!(e.text(), "");
}

fn rows(items: &[&str]) -> Vec<String> {
    items.iter().map(|r| r.to_string()).collect()
}

#[test]
fn short_end_insertion_appends_only_the_new_tail() {
    let old = rows(&["> one", "> tw"]);
    let new = rows(&["> one", "> two\u{e9}"]);
    assert_eq!(append_only_suffix(&old, true, &new, true), Some("o\u{e9}".to_string()));
    assert_eq!(append_only_suffix(&old, true, &old, true), Some(String::new()));
}

#[test]
fn anything_but_a_grown_last_row_redraws_the_whole_frame() {
    let old = rows(&["> one", "> tw"]);
    assert_eq!(append_only_suffix(&old, false, &rows(&["> one", "> two"]), true), None);
    assert_eq!(append_only_suffix(&old, true, &rows(&["> one", "> two"]), false), None);
    assert_eq!(append_only_suffix(&old, true, &rows(&["> on!", "> two"]), true), None);
    assert_eq!(append_only_suffix(&old, true, &rows(&["> one", "> x"]), true), None);
    assert_eq!(append_only_suffix(&old, true, &rows(&["> one", "> two", ""]), true), None);
    assert_eq!(append_only_suffix(&rows(&[]), true, &rows(&[]), true), None);
}

#[test]
fn host_edits_and_opening_are_allowed_only_while_closed() {
    assert!(Lifecycle::Closed.host_edit().is_ok());
    assert!(matches!(Lifecycle::Active.host_edit(), Err(replai::Error::State)));
    assert!(matches!(Lifecycle::Restored.host_edit(), Err(replai::Error::State)));
    assert!(Lifecycle::Closed.open().is_ok());
    assert!(matches!(Lifecycle::Active.open(), Err(replai::Error::State)));
    assert_eq!(Lifecycle::Closed.operate(), Gate::WrongState);
    assert_eq!(Lifecycle::Active.operate(), Gate::Proceed);
    assert_eq!(Lifecycle::Restored.operate(), Gate::NotConnected);
}

#[test]
fn only_a_successful_restore_releases_and_close_is_idempotent() {
    assert_eq!(Lifecycle::Active.after_restore(true), (Lifecycle::Restored, true));
    assert_eq!(Lifecycle::Active.after_restore(false), (Lifecycle::Active, false));
    assert_eq!(Lifecycle::Closed.after_restore(true), (Lifecycle::Closed, false));
    assert_eq!(Lifecycle::Restored.reap(), Lifecycle::Closed);
    assert_eq!(Lifecycle::Active.reap(), Lifecycle::Active);
    let (state, cleanup) = Lifecycle::Active.close();
    assert_eq!((state, cleanup), (Lifecycle::Closed, true));
    assert_eq!(state.close(), (Lifecycle::Closed, false));
    assert_eq!(Lifecycle::Restored.close(), (Lifecycle::Closed, false));
}
