use linetime::escape::{Erase, Sequence, SequenceCommand};
use linetime::output::{Options, Printer};
use linetime::timestamp::{Elapsed, Timestamp};
use linetime::token::Token;

fn esc_token(command: SequenceCommand, text: &str) -> Token {
    Token::EscapeSequence(Sequence {
        command,
        text: text.to_string(),
    })
}

fn options(show_delta: bool, prefix: &str, show_control: bool, show_escape: bool) -> Options {
    Options {
        show_delta,
        microseconds: false,
        prefix: prefix.to_string(),
        show_control,
        show_escape,
        dump_tokens: false,
        flush_all: false,
    }
}

fn printer_showing_control_and_escape() -> Printer {
    Printer::new(options(false, "", true, true))
}

/// Prints `token` to `stream`, reading `clock` where the printer asks for the time.
fn print(printer: &mut Printer, clock: &mut Timestamp, stream: &mut String, token: &Token) {
    stream.push_str(&printer.print_with_clock(token, clock));
}

fn secs(s: u64) -> Elapsed {
    Elapsed::from_secs(s)
}

#[test]
fn timestamp_is_added_at_beginning_of_lines() {
    let mut stream = String::new();
    let mut printer = printer_showing_control_and_escape();
    let mut clock = Timestamp::new();

    clock.expect_get(secs(3));
    print(&mut printer, &mut clock, &mut stream, &Token::Char('A'));

    assert!(clock.assert_all_used());
    assert_eq!("00:03.000: A", stream);
}

#[test]
fn timestamp_is_requested_for_first_token_on_line() {
    let mut stream = String::new();
    let mut printer = printer_showing_control_and_escape();
    let mut clock = Timestamp::new();

    clock.expect_get(secs(3));
    print(&mut printer, &mut clock, &mut stream, &Token::Char('A'));
    print(&mut printer, &mut clock, &mut stream, &Token::LineFeed);

    // The time is not read until the first token of the new line arrives.
    clock.expect_get(secs(4));
    print(&mut printer, &mut clock, &mut stream, &Token::Char('B'));

    assert!(clock.assert_all_used());
    assert_eq!("00:03.000: A\u{240a}\n00:04.000: B", stream);
}

#[test]
fn overwriting_line_with_cr_is_unfolded() {
    let mut stream = String::new();
    let mut printer = printer_showing_control_and_escape();
    let mut clock = Timestamp::new();

    clock.expect_get(secs(3));
    print(&mut printer, &mut clock, &mut stream, &Token::Char('A'));
    print(&mut printer, &mut clock, &mut stream, &Token::CarriageReturn);

    clock.expect_get(secs(4));
    print(&mut printer, &mut clock, &mut stream, &Token::Char('B'));

    assert!(clock.assert_all_used());
    assert_eq!("00:03.000: A\u{240d}\r\n00:04.000: B", stream);
}

#[test]
fn cr_lf_causes_only_one_newline_but_cr_is_forwarded() {
    let mut stream = String::new();
    let mut printer = printer_showing_control_and_escape();
    let mut clock = Timestamp::new();

    clock.expect_get(secs(3));
    print(&mut printer, &mut clock, &mut stream, &Token::Char('A'));
    print(&mut printer, &mut clock, &mut stream, &Token::CarriageReturn);
    print(&mut printer, &mut clock, &mut stream, &Token::LineFeed);

    clock.expect_get(secs(4));
    print(&mut printer, &mut clock, &mut stream, &Token::Char('B'));

    assert!(clock.assert_all_used());
    assert_eq!("00:03.000: A\u{240d}\u{240a}\r\n00:04.000: B", stream);
}

#[test]
fn multiples_new_lines_are_handled() {
    let mut stream = String::new();
    let mut printer = printer_showing_control_and_escape();
    let mut clock = Timestamp::new();

    clock.expect_get(secs(3));
    print(&mut printer, &mut clock, &mut stream, &Token::CarriageReturn);
    print(&mut printer, &mut clock, &mut stream, &Token::LineFeed);

    clock.expect_get(secs(4));
    print(&mut printer, &mut clock, &mut stream, &Token::CarriageReturn);
    print(&mut printer, &mut clock, &mut stream, &Token::LineFeed);

    clock.expect_get(secs(5));
    print(&mut printer, &mut clock, &mut stream, &Token::LineFeed);

    clock.expect_get(secs(6));
    print(&mut printer, &mut clock, &mut stream, &Token::LineFeed);

    assert!(clock.assert_all_used());
    assert_eq!(
        "00:03.000: \u{240d}\u{240a}\r\n00:04.000: \u{240d}\u{240a}\r\n00:05.000: \u{240a}\n00:06.000: \u{240a}\n",
        stream
    );
}

#[test]
fn cr_escape_erase_to_end_of_line_is_unfolded() {
    let mut stream = String::new();
    let mut printer = printer_showing_control_and_escape();
    let mut clock = Timestamp::new();

    clock.expect_get(secs(3));
    print(&mut printer, &mut clock, &mut stream, &Token::Char('A'));
    print(&mut printer, &mut clock, &mut stream, &Token::CarriageReturn);
    print(
        &mut printer,
        &mut clock,
        &mut stream,
        &esc_token(SequenceCommand::Erase(Erase::FromCursorToEndOfLine), "\x1b[K"),
    );

    clock.expect_get(secs(4));
    print(&mut printer, &mut clock, &mut stream, &Token::Char('B'));

    assert!(clock.assert_all_used());
    assert_eq!("00:03.000: A\u{240d}\u{241b}[K\r\n00:04.000: B", stream);
}

#[test]
fn escape_erase_entire_line_is_unfolded() {
    let mut stream = String::new();
    let mut printer = printer_showing_control_and_escape();
    let mut clock = Timestamp::new();

    clock.expect_get(secs(3));
    print(&mut printer, &mut clock, &mut stream, &Token::Char('A'));
    print(
        &mut printer,
        &mut clock,
        &mut stream,
        &esc_token(SequenceCommand::Erase(Erase::EntireLine), "\x1b[2K"),
    );

    clock.expect_get(secs(4));
    print(&mut printer, &mut clock, &mut stream, &Token::Char('B'));

    assert!(clock.assert_all_used());
    assert_eq!("00:03.000: A\u{241b}[2K\n00:04.000: B", stream);
}

#[test]
fn escape_coloring_is_unchanged() {
    let mut stream = String::new();
    let mut printer = printer_showing_control_and_escape();
    let mut clock = Timestamp::new();

    clock.expect_get(secs(3));
    print(&mut printer, &mut clock, &mut stream, &Token::Char('A'));
    print(
        &mut printer,
        &mut clock,
        &mut stream,
        &esc_token(SequenceCommand::Unhandled, "\x1b[31m"),
    );
    print(&mut printer, &mut clock, &mut stream, &Token::Char('B'));

    assert!(clock.assert_all_used());
    assert_eq!("00:03.000: A\x1b[31mB", stream);
}

#[test]
fn escape_coloring_is_unchanged_with_display_off() {
    let mut stream = String::new();
    let mut printer = Printer::new(options(false, "", false, false));
    let mut clock = Timestamp::new();

    clock.expect_get(secs(3));
    print(&mut printer, &mut clock, &mut stream, &Token::Char('A'));
    print(
        &mut printer,
        &mut clock,
        &mut stream,
        &esc_token(SequenceCommand::Unhandled, "\x1b[31m"),
    );
    print(&mut printer, &mut clock, &mut stream, &Token::Char('B'));

    assert!(clock.assert_all_used());
    assert_eq!("00:03.000: A\x1b[31mB", stream);
}

#[test]
fn end_of_file_with_newline_before() {
    let mut stream = String::new();
    let mut printer = printer_showing_control_and_escape();
    let mut clock = Timestamp::new();

    clock.expect_get(secs(3));
    print(&mut printer, &mut clock, &mut stream, &Token::Char('A'));
    print(&mut printer, &mut clock, &mut stream, &Token::LineFeed);
    clock.expect_get(secs(4));
    print(&mut printer, &mut clock, &mut stream, &Token::EndOfFile);

    assert!(clock.assert_all_used());
    assert_eq!("00:03.000: A\u{240a}\n00:04.000: \u{2404}\n", stream);
}

#[test]
fn end_of_file_with_empty_line_before() {
    let mut stream = String::new();
    let mut printer = printer_showing_control_and_escape();
    let mut clock = Timestamp::new();

    clock.expect_get(secs(3));
    print(&mut printer, &mut clock, &mut stream, &Token::LineFeed);
    clock.expect_get(secs(4));
    print(&mut printer, &mut clock, &mut stream, &Token::EndOfFile);

    assert!(clock.assert_all_used());
    assert_eq!("00:03.000: \u{240a}\n00:04.000: \u{2404}\n", stream);
}

#[test]
fn end_of_file_without_newline_before() {
    let mut stream = String::new();
    let mut printer = printer_showing_control_and_escape();
    let mut clock = Timestamp::new();

    clock.expect_get(secs(3));
    print(&mut printer, &mut clock, &mut stream, &Token::Char('A'));
    clock.expect_get(secs(4));
    print(&mut printer, &mut clock, &mut stream, &Token::EndOfFile);

    assert!(clock.assert_all_used());
    assert_eq!("00:03.000: A\n00:04.000: \u{2404}\n", stream);
}

#[test]
fn disabling_showing_control_characters_hides_symbol_for_linefeed() {
    let mut stream = String::new();
    let mut printer = Printer::new(options(false, "", false, true));
    let mut clock = Timestamp::new();

    clock.expect_get(secs(3));
    print(&mut printer, &mut clock, &mut stream, &Token::Char('A'));
    print(&mut printer, &mut clock, &mut stream, &Token::LineFeed);

    assert!(clock.assert_all_used());
    assert_eq!("00:03.000: A\n", stream);
}

#[test]
fn disabling_showing_escape_sequence_hides_handled_sequence() {
    let mut stream = String::new();
    let mut printer = Printer::new(options(false, "", true, false));
    let mut clock = Timestamp::new();

    clock.expect_get(secs(3));
    print(&mut printer, &mut clock, &mut stream, &Token::Char('A'));
    print(
        &mut printer,
        &mut clock,
        &mut stream,
        &esc_token(SequenceCommand::Erase(Erase::EntireLine), "\x1b[2K"),
    );

    assert!(clock.assert_all_used());
    assert_eq!("00:03.000: A", stream);
}

#[test]
fn prefix_should_be_added_with_timestamp() {
    let mut stream = String::new();
    let mut printer = Printer::new(options(false, "prefix", false, false));
    let mut clock = Timestamp::new();

    clock.expect_get(secs(3));
    print(&mut printer, &mut clock, &mut stream, &Token::Char('A'));

    assert!(clock.assert_all_used());
    assert_eq!("00:03.000 prefix: A", stream);
}

#[test]
fn delta_should_be_added_with_timestamp() {
    let mut stream = String::new();
    let mut printer = Printer::new(options(true, "prefix", false, false));
    let mut clock = Timestamp::new();

    clock.expect_get(Elapsed::from_millis(3000));
    clock.expect_get(Elapsed::from_millis(3100));
    print(&mut printer, &mut clock, &mut stream, &Token::Char('A'));
    print(&mut printer, &mut clock, &mut stream, &Token::LineFeed);
    print(&mut printer, &mut clock, &mut stream, &Token::Char('B'));

    assert_eq!(
        "00:03.000             prefix: A\n00:03.100 (00:00.100) prefix: B",
        stream
    );
}

#[test]
fn carriage_return_without_control_display_writes_no_return() {
    let mut stream = String::new();
    let mut printer = Printer::new(options(false, "", false, false));
    let mut clock = Timestamp::new();

    clock.expect_get(secs(3));
    print(&mut printer, &mut clock, &mut stream, &Token::Char('A'));
    print(&mut printer, &mut clock, &mut stream, &Token::CarriageReturn);
    clock.expect_get(secs(4));
    print(&mut printer, &mut clock, &mut stream, &Token::Char('B'));

    assert!(clock.assert_all_used());
    assert_eq!("00:03.000: A\n00:04.000: B", stream);
}

#[test]
fn several_soft_breaks_unfold_into_one_line_end() {
    let mut stream = String::new();
    let mut printer = printer_showing_control_and_escape();
    let mut clock = Timestamp::new();

    clock.expect_get(secs(3));
    print(&mut printer, &mut clock, &mut stream, &Token::Char('A'));
    print(&mut printer, &mut clock, &mut stream, &Token::CarriageReturn);
    print(&mut printer, &mut clock, &mut stream, &Token::CarriageReturn);
    clock.expect_get(secs(4));
    print(&mut printer, &mut clock, &mut stream, &Token::Char('B'));

    assert!(clock.assert_all_used());
    assert_eq!("00:03.000: A\u{240d}\u{240d}\r\r\n00:04.000: B", stream);
}

#[test]
fn unreadable_clock_gives_blank_stamp() {
    let mut printer = Printer::new(options(true, "out", false, false));
    assert!(printer.needs_timestamp(&Token::Char('A')));
    assert_eq!(
        format!("{} out: A", " ".repeat(21)),
        printer.print(&Token::Char('A'), None)
    );
}

#[test]
fn stamp_is_only_needed_at_line_start() {
    let mut printer = printer_showing_control_and_escape();
    assert!(printer.needs_timestamp(&Token::Char('A')));
    printer.print(&Token::Char('A'), Some(secs(1)));
    assert!(!printer.needs_timestamp(&Token::Char('B')));
    assert!(!printer.needs_timestamp(&Token::CarriageReturn));
    assert!(printer.needs_timestamp(&Token::EndOfFile));
    printer.print(&Token::CarriageReturn, None);
    assert!(printer.needs_timestamp(&Token::Char('B')));
    assert!(!printer.needs_timestamp(&Token::LineFeed));
}

#[test]
fn microsecond_stamps_have_six_digits() {
    let mut printer = Printer::new(Options {
        show_delta: false,
        microseconds: true,
        prefix: String::new(),
        show_control: false,
        show_escape: false,
        dump_tokens: false,
        flush_all: false,
    });
    assert_eq!(
        "01:02.003004: x",
        printer.print(&Token::Char('x'), Some(Elapsed::from_micros(62_003_004)))
    );
}

#[test]
fn clock_is_read_only_for_the_first_token_of_a_line() {
    let mut printer = printer_showing_control_and_escape();
    let mut clock = Timestamp::new();
    clock.expect_get(secs(1));
    clock.expect_get(secs(2));
    assert_eq!("00:01.000: A", printer.print_with_clock(&Token::Char('A'), &mut clock));
    assert_eq!("B", printer.print_with_clock(&Token::Char('B'), &mut clock));
    assert_eq!("\u{240a}\n", printer.print_with_clock(&Token::LineFeed, &mut clock));
    assert!(!clock.assert_all_used());
    assert_eq!("00:02.000: C", printer.print_with_clock(&Token::Char('C'), &mut clock));
    assert!(clock.assert_all_used());
}

#[test]
fn carriage_return_before_line_feed_is_kept_with_display_off() {
    let mut stream = String::new();
    let mut printer = Printer::new(options(false, "", false, false));
    let mut clock = Timestamp::new();

    clock.expect_get(secs(3));
    print(&mut printer, &mut clock, &mut stream, &Token::Char('A'));
    print(&mut printer, &mut clock, &mut stream, &Token::CarriageReturn);
    print(&mut printer, &mut clock, &mut stream, &Token::LineFeed);

    assert!(clock.assert_all_used());
    assert_eq!("00:03.000: A\r\n", stream);
}

#[test]
fn windows_line_endings_come_back_with_display_off() {
    let input = "a\r\nb\r\n";
    let tokens = linetime::token::tokenize_bytes(input.as_bytes()).unwrap();
    let mut printer = Printer::new(options(false, "", false, false));
    let mut clock = Timestamp::new();
    for s in 1..=3 {
        clock.expect_get(secs(s));
    }
    let mut stream = String::new();
    for token in &tokens {
        print(&mut printer, &mut clock, &mut stream, token);
    }
    assert!(clock.assert_all_used());
    assert_eq!(
        "00:01.000: a\r\n00:02.000: b\r\n00:03.000: \u{2404}\n",
        stream
    );
}
