use linetime::error::ErrorWithContext;
use linetime::main_loop::{MainLoop, StreamLoop};
use linetime::output::Options;
use linetime::timestamp::{Elapsed, Timestamp};

fn options() -> Options {
    Options {
        show_delta: false,
        microseconds: false,
        prefix: String::new(),
        show_control: false,
        show_escape: false,
        dump_tokens: false,
        flush_all: false,
    }
}

/// Runs `stream` over `input` and then its end, reading `clock` where a line starts.
fn run(stream: &mut StreamLoop, clock: &mut Timestamp, input: &[u8]) -> Result<String, ErrorWithContext> {
    let mut out = String::new();
    let mut bytes = input.iter().map(|b| Some(*b)).collect::<Vec<_>>();
    bytes.push(None);
    for byte in bytes {
        for token in stream.read(byte)? {
            out.push_str(&stream.print_with_clock(&token, clock));
        }
    }
    Ok(out)
}

#[test]
fn streams_carry_their_prefix() {
    let mut main_loop = MainLoop::new(options());
    main_loop.add_stream("stdout");
    main_loop.add_stream("stderr");
    let mut streams = main_loop.into_streams();
    assert_eq!(2, streams.len());

    let mut clock = Timestamp::new();
    clock.expect_get(Elapsed::from_secs(1));
    clock.expect_get(Elapsed::from_secs(2));
    clock.expect_get(Elapsed::from_secs(3));
    clock.expect_get(Elapsed::from_secs(4));
    assert_eq!(
        "00:01.000 stdout: hello\n00:02.000 stdout: \u{2404}\n",
        run(&mut streams[0], &mut clock, b"hello\n").unwrap()
    );
    assert_eq!(
        "00:03.000 stderr: oops\n00:04.000 stderr: \u{2404}\n",
        run(&mut streams[1], &mut clock, b"oops").unwrap()
    );
    assert!(clock.assert_all_used());
}

#[test]
fn cursor_escapes_unfold_lines() {
    let mut stream = StreamLoop::new(options());
    let mut clock = Timestamp::new();
    for s in 1..=3 {
        clock.expect_get(Elapsed::from_secs(s));
    }
    assert_eq!(
        "00:01.000: hello\n00:02.000: world\n00:03.000: \u{2404}\n",
        run(&mut stream, &mut clock, b"hello\x1b[2K\x1b[Hworld\n").unwrap()
    );
    assert!(stream.finished());
}

#[test]
fn read_errors_say_where_they_arose() {
    let mut stream = StreamLoop::new(options());
    let mut clock = Timestamp::new();
    clock.expect_get(Elapsed::from_secs(1));
    let error = run(&mut stream, &mut clock, &[b'a', 0xf0, 0x9f]).unwrap_err();
    assert_eq!("Error reading input", error.context());
    assert_eq!(
        "Error reading input: EOF reached in partial UTF-8 character",
        error.message()
    );
}

#[test]
fn wrapped_error_keeps_both_parts() {
    let error = ErrorWithContext::wrap("Error writing output", "broken pipe");
    assert_eq!("Error writing output", error.context());
    assert_eq!("broken pipe", error.cause());
    assert_eq!("Error writing output: broken pipe", error.message());
}
