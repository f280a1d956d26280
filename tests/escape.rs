use linetime::escape::{CursorMove, CursorPosition, Erase, Sequence, SequenceCommand, ESC};

fn esc(chars: &str) -> String {
    format!("{}{}", ESC, chars)
}

fn assert_esc(command: SequenceCommand, text: &str) {
    assert_eq!(
        Sequence {
            command,
            text: text.to_string()
        },
        Sequence::from(text).unwrap()
    );
}

fn assert_incomplete_esc(text: &str) {
    assert_eq!(None, Sequence::from(text));
}

#[test]
fn match_escape_returns_none_for_incomplete_escape_sequences() {
    assert_incomplete_esc(&esc(""));
    assert_incomplete_esc(&esc("["));
    assert_incomplete_esc(&esc("[1"));
    assert_incomplete_esc(&esc("[12"));
    assert_incomplete_esc(&esc("[12;1"));
    assert_incomplete_esc(&esc("[12;13"));
}

#[test]
fn match_escape_returns_correct_escape_sequences() {
    assert_esc(SequenceCommand::CursorMove(CursorMove::UpOne), &esc("M"));
    assert_esc(SequenceCommand::CursorPosition(CursorPosition::Save), &esc("7"));
    assert_esc(SequenceCommand::CursorPosition(CursorPosition::Restore), &esc("8"));
    assert_esc(SequenceCommand::CursorMove(CursorMove::Home), &esc("[H"));
    assert_esc(SequenceCommand::CursorPosition(CursorPosition::Save), &esc("[s"));
    assert_esc(SequenceCommand::CursorPosition(CursorPosition::Restore), &esc("[u"));

    assert_esc(SequenceCommand::CursorMove(CursorMove::LinesUp(17)), &esc("[17A"));
    assert_esc(SequenceCommand::CursorMove(CursorMove::LinesDown(18)), &esc("[18B"));
    assert_esc(SequenceCommand::CursorMove(CursorMove::ColumnsRight(19)), &esc("[19C"));
    assert_esc(SequenceCommand::CursorMove(CursorMove::ColumnsLeft(20)), &esc("[20D"));
    assert_esc(SequenceCommand::CursorMove(CursorMove::BeginningLinesUp(21)), &esc("[21E"));
    assert_esc(SequenceCommand::CursorMove(CursorMove::BeginningLinesDown(22)), &esc("[22F"));
    assert_esc(SequenceCommand::CursorMove(CursorMove::ToColumn(23)), &esc("[23G"));
    assert_esc(SequenceCommand::CursorPosition(CursorPosition::Request), &esc("[6n"));

    assert_esc(SequenceCommand::Erase(Erase::FromCursorToEndOfScreen), &esc("[J"));
    assert_esc(SequenceCommand::Erase(Erase::FromCursorToEndOfScreen), &esc("[0J"));
    assert_esc(SequenceCommand::Erase(Erase::FromBeginningOfScreenToCursor), &esc("[1J"));
    assert_esc(SequenceCommand::Erase(Erase::EntireScreen), &esc("[2J"));
    assert_esc(SequenceCommand::Erase(Erase::SavedLines), &esc("[3J"));
    assert_esc(SequenceCommand::Erase(Erase::FromCursorToEndOfLine), &esc("[K"));
    assert_esc(SequenceCommand::Erase(Erase::FromCursorToEndOfLine), &esc("[0K"));
    assert_esc(SequenceCommand::Erase(Erase::FromStartOfLineToCursor), &esc("[1K"));
    assert_esc(SequenceCommand::Erase(Erase::EntireLine), &esc("[2K"));

    assert_esc(
        SequenceCommand::CursorMove(CursorMove::ToLineAndColumn((17, 42))),
        &esc("[17;42H"),
    );
    assert_esc(
        SequenceCommand::CursorMove(CursorMove::ToLineAndColumn((17, 42))),
        &esc("[17;42f"),
    );
}

#[test]
fn match_escape_returns_unhandled_for_other_escape_sequences() {
    assert_esc(SequenceCommand::Unhandled, &esc("9"));
    assert_esc(SequenceCommand::Unhandled, &esc("Q"));
    assert_esc(SequenceCommand::Unhandled, &esc("[Q"));
    assert_esc(SequenceCommand::Unhandled, &esc("[17Q"));
    assert_esc(SequenceCommand::Unhandled, &esc("[17;18Q"));
}

#[test]
fn colour_sequence_is_unhandled() {
    assert_esc(SequenceCommand::Unhandled, "\x1b[31m");
    assert_esc(SequenceCommand::Unhandled, "\x1b[1;31;40m");
}

#[test]
fn number_too_large_for_u32_is_unhandled() {
    assert_esc(SequenceCommand::Unhandled, &esc("[4294967296A"));
    assert_esc(
        SequenceCommand::CursorMove(CursorMove::LinesUp(4294967295)),
        &esc("[4294967295A"),
    );
}

#[test]
fn malformed_parameters_are_no_sequence() {
    assert_incomplete_esc(&esc("[;1H"));
    assert_incomplete_esc(&esc("[1;H"));
    assert_incomplete_esc(&esc("[1;;2H"));
    assert_incomplete_esc(&esc("[1xH"));
    assert_incomplete_esc(&esc("(B"));
    assert_incomplete_esc(&esc("MM"));
    assert_incomplete_esc("[H");
}

#[test]
fn erase_with_other_number_is_unhandled() {
    assert_esc(SequenceCommand::Unhandled, &esc("[4J"));
    assert_esc(SequenceCommand::Unhandled, &esc("[3K"));
    assert_esc(SequenceCommand::Unhandled, &esc("[5n"));
    assert_esc(SequenceCommand::Unhandled, &esc("[1;2;3H"));
}
