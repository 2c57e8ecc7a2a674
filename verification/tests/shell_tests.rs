use my_os::shell::{
    cat_start, cat_step, parse_command, trim, uptime_seconds, CatAction, CatState, CommandKind,
    LineAction, LineEditor, OpenFailure, MAX_LINE_LENGTH,
};
use my_os::QemuExitCode;

#[test]
fn line_editor_echoes_and_erases() {
    let mut e = LineEditor::new();
    assert_eq!(e.feed(b'l'), LineAction::Echo(b'l'));
    assert_eq!(e.feed(b'x'), LineAction::Echo(b'x'));
    assert_eq!(e.feed(0x08), LineAction::Erase);
    assert_eq!(e.feed(b's'), LineAction::Echo(b's'));
    assert_eq!(e.feed(0x1B), LineAction::Ignore);
    assert_eq!(e.feed(b'\n'), LineAction::Submit);
    assert_eq!(e.take_line(), b"ls".to_vec());
    assert_eq!(e.feed(0x7F), LineAction::Ignore);
    assert_eq!(e.take_line(), Vec::<u8>::new());
}

#[test]
fn line_editor_keeps_at_most_255_characters() {
    let mut e = LineEditor::new();
    for _ in 0..MAX_LINE_LENGTH - 1 {
        assert_eq!(e.feed(b'a'), LineAction::Echo(b'a'));
    }
    assert_eq!(e.feed(b'b'), LineAction::Ignore);
    assert_eq!(e.feed(b'\n'), LineAction::Submit);
    assert_eq!(e.take_line().len(), MAX_LINE_LENGTH - 1);
}

#[test]
fn trimming() {
    assert_eq!(trim(b"  a b  "), b"a b".to_vec());
    assert_eq!(trim(b"    "), Vec::<u8>::new());
    assert_eq!(trim(b""), Vec::<u8>::new());
}

#[test]
fn commands_are_parsed_into_word_and_arguments() {
    let c = parse_command(b"  echo   hello world  ");
    assert_eq!(c.kind, CommandKind::Echo);
    assert_eq!(c.word, b"echo".to_vec());
    assert_eq!(c.args, b"hello world".to_vec());
    let c = parse_command(b"cat readme.txt");
    assert_eq!(c.kind, CommandKind::Cat);
    assert_eq!(c.args, b"readme.txt".to_vec());
    assert_eq!(parse_command(b"help me").kind, CommandKind::Help);
    assert_eq!(parse_command(b"ls").kind, CommandKind::Ls);
    assert_eq!(parse_command(b"pid").kind, CommandKind::Pid);
    assert_eq!(parse_command(b"uptime").kind, CommandKind::Uptime);
    assert_eq!(parse_command(b"clear").kind, CommandKind::Clear);
    assert_eq!(parse_command(b"exit").kind, CommandKind::Exit);
    assert_eq!(parse_command(b"   ").kind, CommandKind::Empty);
    let c = parse_command(b"reboot now");
    assert_eq!(c.kind, CommandKind::Unknown);
    assert_eq!(c.word, b"reboot".to_vec());
}

#[test]
fn cat_without_a_file_prints_usage() {
    assert_eq!(cat_start(b""), (CatState::Done, CatAction::PrintUsage));
    assert_eq!(cat_start(b"x"), (CatState::AwaitOpen, CatAction::Open));
}

#[test]
fn cat_reads_and_writes_until_end_of_file_then_closes() {
    let (s, a) = cat_step(CatState::AwaitOpen, 3);
    assert_eq!((s, a), (CatState::AwaitRead(3), CatAction::Read(3)));
    let (s, a) = cat_step(s, 35);
    assert_eq!((s, a), (CatState::AwaitWrite(3), CatAction::Write { len: 35 }));
    let (s, a) = cat_step(s, 35);
    assert_eq!((s, a), (CatState::AwaitRead(3), CatAction::Read(3)));
    let (s, a) = cat_step(s, 0);
    assert_eq!((s, a), (CatState::AwaitClose, CatAction::Close(3)));
    assert_eq!(cat_step(s, 0), (CatState::Done, CatAction::Finish));
}

#[test]
fn cat_reports_errors_and_still_closes() {
    assert_eq!(
        cat_step(CatState::AwaitOpen, -1),
        (CatState::Done, CatAction::ReportOpenFailure(OpenFailure::NoSuchFile))
    );
    assert_eq!(
        cat_step(CatState::AwaitOpen, -4),
        (CatState::Done, CatAction::ReportOpenFailure(OpenFailure::BadPointer))
    );
    assert_eq!(
        cat_step(CatState::AwaitOpen, -3),
        (CatState::Done, CatAction::ReportOpenFailure(OpenFailure::InvalidName))
    );
    assert_eq!(
        cat_step(CatState::AwaitOpen, -6),
        (CatState::Done, CatAction::ReportOpenFailure(OpenFailure::Other(-6)))
    );
    assert_eq!(
        cat_step(CatState::AwaitRead(4), -2),
        (CatState::AwaitClose, CatAction::ReportReadErrorThenClose { err: -2, fd: 4 })
    );
    assert_eq!(
        cat_step(CatState::AwaitWrite(4), -7),
        (CatState::AwaitClose, CatAction::ReportWriteErrorThenClose { err: -7, fd: 4 })
    );
    assert_eq!(cat_step(CatState::AwaitClose, -2), (CatState::Done, CatAction::WarnCloseFailed(-2)));
}

#[test]
fn uptime_formula() {
    assert_eq!(uptime_seconds(0), 0);
    assert_eq!(uptime_seconds(17), 0);
    assert_eq!(uptime_seconds(18), 1);
    assert_eq!(uptime_seconds(1000), 55);
}

#[test]
fn qemu_exit_codes() {
    assert_eq!(QemuExitCode::Success.code(), 0x10);
    assert_eq!(QemuExitCode::Failed.code(), 0x11);
}

#[test]
fn a_typed_line_is_edited_key_by_key() {
    let mut e = LineEditor::new();
    for &c in b"ab\x08c" {
        e.feed(c);
    }
    assert_eq!(e.feed(b'\n'), LineAction::Submit);
    assert_eq!(e.take_line(), b"ac".to_vec());
    // backspace on an empty line and control keys change nothing
    for &c in b"\x7f\x01hi there" {
        e.feed(c);
    }
    e.feed(b'\n');
    assert_eq!(e.take_line(), b"hi there".to_vec());
}

#[test]
fn trimming_removes_every_kind_of_whitespace() {
    assert_eq!(trim(b"\t echo\r\n"), b"echo".to_vec());
    assert_eq!(trim(b"\x0b\x0cx\x0c"), b"x".to_vec());
    // U+00A0 no-break space, U+3000 ideographic space, U+2003 em space
    assert_eq!(trim("\u{a0}x y\u{3000}".as_bytes()), b"x y".to_vec());
    assert_eq!(trim("\u{2003}\u{85}ab\u{1680}".as_bytes()), b"ab".to_vec());
    // other characters stay, also those that share a first byte
    assert_eq!(trim("\u{a9}x\u{2010}".as_bytes()), "\u{a9}x\u{2010}".as_bytes().to_vec());
    assert_eq!(trim(b"\x1fx"), b"\x1fx".to_vec());
    let c = parse_command(b"\techo hi\t");
    assert_eq!(c.kind, CommandKind::Echo);
    assert_eq!(c.args, b"hi".to_vec());
    // only a space separates the command from its arguments
    assert_eq!(parse_command(b"echo\thi").kind, CommandKind::Unknown);
}

#[test]
fn a_line_leaves_the_last_byte_of_its_buffer_free() {
    let mut e = LineEditor::with_buffer_len(3);
    for &c in b"abc" {
        e.feed(c);
    }
    assert_eq!(e.take_line(), b"ab".to_vec());
    let mut one = LineEditor::with_buffer_len(1);
    assert_eq!(one.feed(b'x'), LineAction::Ignore);
    assert_eq!(one.feed(0x08), LineAction::Ignore);
    assert_eq!(one.feed(b'\n'), LineAction::Submit);
    assert_eq!(one.take_line(), Vec::<u8>::new());
}
