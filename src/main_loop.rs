//! The streams of one run: each turns the bytes of one input into the text of one
//! output, and all of them share one clock.
use vstd::prelude::*;
use crate::error::ErrorWithContext;
use crate::output::{print_state, print_text, stamp_due, Options, Printer};
use crate::read_char::ReadError;
use crate::timestamp::{Elapsed, Timestamp};
use crate::token::{next_post, SerialTokenizer, Token};

verus! {

/// The same options, but for the prefix.
pub open spec fn same_but_prefix(a: Options, b: Options) -> bool {
    &&& a.show_delta == b.show_delta
    &&& a.microseconds == b.microseconds
    &&& a.show_control == b.show_control
    &&& a.show_escape == b.show_escape
    &&& a.dump_tokens == b.dump_tokens
    &&& a.flush_all == b.flush_all
}

/// One input and one output: a tokenizer and the printer of its tokens.
pub struct StreamLoop {
    tokenizer: SerialTokenizer,
    printer: Printer,
}

impl StreamLoop {
    pub closed spec fn tokenizer(&self) -> SerialTokenizer {
        self.tokenizer
    }

    pub closed spec fn printer(&self) -> Printer {
        self.printer
    }

    pub open spec fn wf(&self) -> bool {
        self.tokenizer().wf()
    }

    pub fn new(options: Options) -> (r: StreamLoop)
        ensures
            r.wf(),
            !r.tokenizer().ended(),
            r.tokenizer().consumed().len() == 0,
            r.tokenizer().emitted().len() == 0,
            r.tokenizer().pending_bytes().len() == 0,
            r.printer().options() == options,
            r.printer()@.start_of_line,
            r.printer()@.breaks.len() == 0,
            r.printer()@.previous_time is None,
    {
        StreamLoop { tokenizer: SerialTokenizer::new(), printer: Printer::new(options) }
    }

    /// Hands over the next byte of input, or `None` at its end, and returns the tokens
    /// it completes; an input that is no text is an error "Error reading input".
    pub fn read(&mut self, input: Option<u8>) -> (r: Result<Vec<Token>, ErrorWithContext>)
        requires
            old(self).wf(),
        ensures
            final(self).wf(),
            final(self).printer() == old(self).printer(),
            r matches Ok(ts) ==> next_post(
                old(self).tokenizer(),
                input,
                final(self).tokenizer(),
                Ok::<Vec<Token>, ReadError>(ts),
            ),
            r matches Err(e) ==> e.spec_context() == "Error reading input"@ && exists|cause: ReadError|
                next_post(
                    old(self).tokenizer(),
                    input,
                    final(self).tokenizer(),
                    Err::<Vec<Token>, ReadError>(cause),
                ) && e.spec_cause() == cause.spec_message(),
    {
        match self.tokenizer.next(input) {
            Ok(tokens) => Ok(tokens),
            Err(e) => Err(ErrorWithContext::wrap("Error reading input", e.message())),
        }
    }

    /// Whether the input has ended.
    pub fn finished(&self) -> (r: bool)
        requires
            self.wf(),
        ensures
            r == self.tokenizer().ended(),
    {
        self.tokenizer.is_ended()
    }

    /// Whether printing `token` starts a line, so that the clock is to be read.
    pub fn needs_timestamp(&self, token: &Token) -> (r: bool)
        ensures
            r == stamp_due(self.printer()@, token@),
    {
        self.printer.needs_timestamp(token)
    }

    /// The text to write for `token`, with `time` the clock's reading where
    /// `needs_timestamp` holds (`None`: the clock could not be read).
    pub fn print(&mut self, token: &Token, time: Option<Elapsed>) -> (r: String)
        ensures
            r@ == print_text(old(self).printer()@, old(self).printer().options(), token@, time),
            final(self).printer()@ == print_state(old(self).printer()@, token@, time),
            final(self).printer().options() == old(self).printer().options(),
            final(self).tokenizer() == old(self).tokenizer(),
    {
        self.printer.print(token, time)
    }

    /// The text to write for `token`, reading `clock` once where the token starts a
    /// line and not at all otherwise.
    pub fn print_with_clock(&mut self, token: &Token, clock: &mut Timestamp) -> (r: String)
        requires
            stamp_due(old(self).printer()@, token@) ==> old(clock).can_get(),
        ensures
            final(self).tokenizer() == old(self).tokenizer(),
            final(self).printer().options() == old(self).printer().options(),
            stamp_due(old(self).printer()@, token@) ==> (final(clock).spec_previous() matches Some(now) && {
                &&& r@ == print_text(
                    old(self).printer()@,
                    old(self).printer().options(),
                    token@,
                    Some(now),
                )
                &&& final(self).printer()@ == print_state(old(self).printer()@, token@, Some(now))
                &&& final(clock).is_wall_clock() == old(clock).is_wall_clock()
                &&& !old(clock).is_wall_clock() ==> now == old(clock).expected()[0]
                    && final(clock).expected() == old(clock).expected().drop_first()
                &&& old(clock).is_wall_clock() && old(clock).spec_previous() is Some
                    ==> now.total_nanos() >= old(clock).spec_previous()->0.total_nanos()
            }),
            !stamp_due(old(self).printer()@, token@) ==> {
                &&& *final(clock) == *old(clock)
                &&& r@ == print_text(old(self).printer()@, old(self).printer().options(), token@, None)
                &&& final(self).printer()@ == print_state(old(self).printer()@, token@, None)
            },
    {
        self.printer.print_with_clock(token, clock)
    }
}

/// The streams of a run and the options they share.
pub struct MainLoop {
    options: Options,
    loops: Vec<StreamLoop>,
}

impl MainLoop {
    pub closed spec fn options(&self) -> Options {
        self.options
    }

    pub closed spec fn streams(&self) -> Seq<StreamLoop> {
        self.loops@
    }

    pub fn new(options: Options) -> (r: MainLoop)
        ensures
            r.options() == options,
            r.streams().len() == 0,
    {
        MainLoop { options, loops: Vec::new() }
    }

    /// Adds a stream whose lines carry `prefix`.
    pub fn add_stream(&mut self, prefix: &str)
        ensures
            final(self).options() == old(self).options(),
            final(self).streams().len() == old(self).streams().len() + 1,
            final(self).streams().drop_last() == old(self).streams(),
            ({
                let l = final(self).streams().last();
                &&& l.wf()
                &&& !l.tokenizer().ended()
                &&& l.tokenizer().consumed().len() == 0
                &&& l.tokenizer().emitted().len() == 0
                &&& l.tokenizer().pending_bytes().len() == 0
                &&& l.printer().options().prefix@ == prefix@
                &&& same_but_prefix(l.printer().options(), old(self).options())
                &&& l.printer()@.start_of_line
                &&& l.printer()@.breaks.len() == 0
                &&& l.printer()@.previous_time is None
            }),
    {
        let options = Options {
            show_delta: self.options.show_delta,
            microseconds: self.options.microseconds,
            prefix: prefix.to_owned(),
            show_control: self.options.show_control,
            show_escape: self.options.show_escape,
            dump_tokens: self.options.dump_tokens,
            flush_all: self.options.flush_all,
        };
        self.loops.push(StreamLoop::new(options));
        assert(self.loops@.drop_last() =~= old(self).loops@);
    }

    /// The streams, in the order they were added, each to run on its own.
    pub fn into_streams(self) -> (r: Vec<StreamLoop>)
        ensures
            r@ == self.streams(),
    {
        self.loops
    }
}

} // verus!
