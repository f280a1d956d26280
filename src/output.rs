//! The printer: time stamps at the start of lines, and unfolding of lines that the
//! input tries to overwrite.
use vstd::prelude::*;
use crate::escape::SequenceCommand;
use crate::text::string_from_chars;
use crate::timestamp::{push_stamp, stamp_text, Elapsed, Timestamp};
use crate::token::{Token, TokenView};

verus! {

/// How a printer renders its stream.
#[derive(Clone, Debug)]
pub struct Options {
    /// Show the time since the previous line of the stream.
    pub show_delta: bool,
    /// Stamps with six digits of fraction rather than three.
    pub microseconds: bool,
    /// Text added to every stamp, after the time.
    pub prefix: String,
    /// Show control characters as Unicode symbols.
    pub show_control: bool,
    /// Show handled escape sequences, with a Unicode symbol for the escape character.
    pub show_escape: bool,
    /// Dump each token to the error stream.
    pub dump_tokens: bool,
    /// Flush the output after each token.
    pub flush_all: bool,
}

/// A token that may start the overwriting of the current line.
#[derive(Clone, Copy, Debug, PartialEq, Eq)]
pub enum SoftBreak {
    CarriageReturn,
    /// A handled escape sequence.
    Escape,
}

/// The state of a printer.
pub struct PrinterView {
    /// Whether the next token starts a line.
    pub start_of_line: bool,
    /// Soft breaks since the last text, in order.
    pub breaks: Seq<SoftBreak>,
    /// The time of the last stamp.
    pub previous_time: Option<Elapsed>,
}

/// The soft break a token is, if it is one.
pub open spec fn soft_break_of(t: TokenView) -> Option<SoftBreak> {
    match t {
        TokenView::CarriageReturn => Some(SoftBreak::CarriageReturn),
        TokenView::EscapeSequence(command, _) => if command != SequenceCommand::Unhandled {
            Some(SoftBreak::Escape)
        } else {
            None
        },
        _ => None,
    }
}

/// Whether `t` ends the line that soft breaks left open: it is the first token after
/// them that is neither a soft break nor a line feed.
pub open spec fn unfolds(s: PrinterView, t: TokenView) -> bool {
    soft_break_of(t) is None && s.breaks.len() > 0 && t != TokenView::LineFeed
}

/// Whether printing `t` writes a time stamp: it is the first token of a line.
pub open spec fn stamp_due(s: PrinterView, t: TokenView) -> bool {
    unfolds(s, t) || s.start_of_line || t == TokenView::EndOfFile
}

/// A carriage return for each carriage return among `breaks`.
pub open spec fn carriage_returns(breaks: Seq<SoftBreak>) -> Seq<char>
    decreases breaks.len(),
{
    if breaks.len() == 0 {
        Seq::empty()
    } else {
        carriage_returns(breaks.drop_last()) + if breaks.last() == SoftBreak::CarriageReturn {
            seq!['\r']
        } else {
            Seq::empty()
        }
    }
}

/// The end of a line: with `with_returns`, a carriage return for each pending one,
/// then the line feed.
pub open spec fn newline_text(breaks: Seq<SoftBreak>, with_returns: bool) -> Seq<char> {
    (if with_returns {
        carriage_returns(breaks)
    } else {
        Seq::empty()
    }).push('\n')
}

/// What starts a line: the stamp, the prefix and a colon.
pub open spec fn line_head(s: PrinterView, o: Options, time: Option<Elapsed>) -> Seq<char> {
    stamp_text(time, s.previous_time, o.show_delta, o.microseconds) + (if o.prefix@.len() > 0 {
        seq![' '] + o.prefix@
    } else {
        Seq::empty()
    }) + seq![':', ' ']
}

/// The text of a token itself.
pub open spec fn token_text(t: TokenView, o: Options) -> Seq<char> {
    match t {
        TokenView::Char(c) => seq![c],
        TokenView::CarriageReturn => if o.show_control {
            seq!['\u{240d}']
        } else {
            Seq::empty()
        },
        TokenView::LineFeed => if o.show_control {
            seq!['\u{240a}']
        } else {
            Seq::empty()
        },
        TokenView::EscapeSequence(command, text) => if command == SequenceCommand::Unhandled {
            text
        } else if o.show_escape {
            seq!['\u{241b}'] + if text.len() > 0 {
                text.drop_first()
            } else {
                Seq::empty()
            }
        } else {
            Seq::empty()
        },
        TokenView::EndOfFile => seq!['\u{2404}', '\n'],
    }
}

/// What printing `t` writes, with `time` the clock's reading where a stamp is due
/// (`None`: the clock could not be read).
pub open spec fn print_text(s: PrinterView, o: Options, t: TokenView, time: Option<Elapsed>) -> Seq<
    char,
> {
    (if unfolds(s, t) {
        newline_text(s.breaks, o.show_control)
    } else {
        Seq::empty()
    }) + (if unfolds(s, t) || s.start_of_line {
        line_head(s, o, time)
    } else if t == TokenView::EndOfFile {
        seq!['\n'] + line_head(s, o, time)
    } else {
        Seq::empty()
    }) + token_text(t, o) + (if t == TokenView::LineFeed {
        newline_text(s.breaks, true)
    } else {
        Seq::empty()
    })
}

/// The state after printing `t`.
pub open spec fn print_state(s: PrinterView, t: TokenView, time: Option<Elapsed>) -> PrinterView {
    PrinterView {
        start_of_line: t == TokenView::LineFeed,
        breaks: match soft_break_of(t) {
            Some(b) => s.breaks.push(b),
            None => Seq::empty(),
        },
        previous_time: if stamp_due(s, t) && time is Some {
            time
        } else {
            s.previous_time
        },
    }
}

/// What printing `t` writes before the head of its line: the end of the line that
/// soft breaks left open, or, for the end of the input in the middle of a line, a
/// line end of its own.
pub open spec fn lead_text(s: PrinterView, o: Options, t: TokenView) -> Seq<char> {
    if unfolds(s, t) {
        newline_text(s.breaks, o.show_control)
    } else if !s.start_of_line && t == TokenView::EndOfFile {
        seq!['\n']
    } else {
        Seq::empty()
    }
}

/// What printing `t` writes after its own text: the end of the line, with the
/// carriage returns that came before the line feed, for a line feed.
pub open spec fn trail_text(s: PrinterView, o: Options, t: TokenView) -> Seq<char> {
    if t == TokenView::LineFeed {
        newline_text(s.breaks, true)
    } else {
        Seq::empty()
    }
}

proof fn lemma_carriage_returns(breaks: Seq<SoftBreak>)
    ensures
        forall|i: int| 0 <= i < carriage_returns(breaks).len() ==> #[trigger] carriage_returns(
            breaks,
        )[i] == '\r',
        breaks.len() > 0 && breaks.last() == SoftBreak::CarriageReturn ==> carriage_returns(
            breaks,
        ).len() > 0,
    decreases breaks.len(),
{
    if breaks.len() > 0 {
        let b = breaks.drop_last();
        lemma_carriage_returns(b);
        let tail: Seq<char> = if breaks.last() == SoftBreak::CarriageReturn {
            seq!['\r']
        } else {
            Seq::empty()
        };
        assert(carriage_returns(breaks) == carriage_returns(b) + tail);
        assert forall|i: int| 0 <= i < carriage_returns(breaks).len() implies #[trigger] carriage_returns(
            breaks,
        )[i] == '\r' by {
            if i < carriage_returns(b).len() {
                assert(carriage_returns(breaks)[i] == carriage_returns(b)[i]);
            } else {
                assert(carriage_returns(breaks)[i] == tail[i - carriage_returns(b).len()]);
            }
        }
    }
}

/// A line end is one line feed, after nothing but carriage returns.
pub proof fn lemma_newline_text(breaks: Seq<SoftBreak>, with_returns: bool)
    ensures
        newline_text(breaks, with_returns).last() == '\n',
        forall|i: int| 0 <= i < newline_text(breaks, with_returns).len() - 1 ==> #[trigger] newline_text(
            breaks,
            with_returns,
        )[i] == '\r',
        with_returns && breaks.len() > 0 && breaks.last() == SoftBreak::CarriageReturn
            ==> newline_text(breaks, with_returns)[0] == '\r',
{
    lemma_carriage_returns(breaks);
}

/// A carriage return that no line feed follows is unfolded: the next token that is
/// no soft break is printed after exactly one line end, which starts its own stamped
/// line; where control characters are shown, the symbol of the carriage return is
/// the last thing before that line end, which then holds the carriage return itself.
pub proof fn lemma_carriage_return_unfolds(
    s: PrinterView,
    o: Options,
    t: TokenView,
    time1: Option<Elapsed>,
    time2: Option<Elapsed>,
)
    requires
        soft_break_of(t) is None,
        t != TokenView::LineFeed,
    ensures
        ({
            let s1 = print_state(s, TokenView::CarriageReturn, time1);
            &&& print_text(s1, o, t, time2) == newline_text(s1.breaks, o.show_control) + line_head(
                s1,
                o,
                time2,
            ) + token_text(t, o)
            &&& stamp_due(s1, t)
            &&& o.show_control ==> print_text(s, o, TokenView::CarriageReturn, time1).last()
                == '\u{240d}' && newline_text(s1.breaks, o.show_control)[0] == '\r'
        }),
{
    let s1 = print_state(s, TokenView::CarriageReturn, time1);
    lemma_newline_text(s1.breaks, o.show_control);
    let head: Seq<char> = if unfolds(s, TokenView::CarriageReturn) || s.start_of_line {
        line_head(s, o, time1)
    } else {
        Seq::empty()
    };
    assert(print_text(s, o, TokenView::CarriageReturn, time1) =~= head + token_text(
        TokenView::CarriageReturn,
        o,
    ));
    assert(print_text(s1, o, t, time2) =~= newline_text(s1.breaks, o.show_control) + line_head(s1, o, time2)
        + token_text(t, o));
}

proof fn lemma_carriage_returns_all(k: nat)
    ensures
        carriage_returns(Seq::new(k, |i: int| SoftBreak::CarriageReturn)) == Seq::new(
            k,
            |i: int| '\r',
        ),
    decreases k,
{
    let b = Seq::new(k, |i: int| SoftBreak::CarriageReturn);
    if k > 0 {
        lemma_carriage_returns_all((k - 1) as nat);
        assert(b.drop_last() =~= Seq::new((k - 1) as nat, |i: int| SoftBreak::CarriageReturn));
        assert(Seq::new((k - 1) as nat, |i: int| '\r') + seq!['\r'] =~= Seq::new(k, |i: int| '\r'));
    } else {
        assert(carriage_returns(b) =~= Seq::new(k, |i: int| '\r'));
    }
}

/// After `k` carriage returns that no line feed followed, the next token that is no
/// soft break is printed after exactly one line end, made of those `k` carriage
/// returns and one line feed, where control characters are shown; it starts its own
/// stamped line.
pub proof fn lemma_carriage_returns_unfold(
    s: PrinterView,
    o: Options,
    t: TokenView,
    time: Option<Elapsed>,
    k: nat,
)
    requires
        k >= 1,
        s.breaks == Seq::new(k, |i: int| SoftBreak::CarriageReturn),
        o.show_control,
        soft_break_of(t) is None,
        t != TokenView::LineFeed,
    ensures
        print_text(s, o, t, time) == Seq::new(k, |i: int| '\r').push('\n') + line_head(s, o, time)
            + token_text(t, o),
        stamp_due(s, t),
{
    lemma_carriage_returns_all(k);
    assert(print_text(s, o, t, time) =~= Seq::new(k, |i: int| '\r').push('\n') + line_head(
        s,
        o,
        time,
    ) + token_text(t, o));
}

/// A stamp is written for exactly the first token of each output line: where printing
/// writes one, it comes at the start of the output or right after a line end, and
/// where it writes none, the printer is in the middle of a line, which has its stamp
/// unless the end of the input came before. Only a line feed leaves the printer at the
/// start of a line. (The end of the input is the last token: it ends its line, and a
/// token printed after it would continue without a stamp.)
pub proof fn lemma_one_stamp_per_line(s: PrinterView, o: Options, t: TokenView, time: Option<Elapsed>)
    requires
        s.breaks.len() > 0 ==> !s.start_of_line,
    ensures
        stamp_due(s, t) ==> print_text(s, o, t, time) == lead_text(s, o, t) + line_head(s, o, time)
            + token_text(t, o) + trail_text(s, o, t),
        stamp_due(s, t) ==> (s.start_of_line && lead_text(s, o, t).len() == 0) || lead_text(
            s,
            o,
            t,
        ).last() == '\n',
        !stamp_due(s, t) ==> !s.start_of_line && print_text(s, o, t, time) == token_text(t, o)
            + trail_text(s, o, t),
        print_state(s, t, time).start_of_line == (t == TokenView::LineFeed),
        print_state(s, t, time).breaks.len() > 0 ==> !print_state(s, t, time).start_of_line,
        t == TokenView::LineFeed ==> trail_text(s, o, t).last() == '\n',
{
    lemma_newline_text(s.breaks, o.show_control);
    lemma_newline_text(s.breaks, true);
    if stamp_due(s, t) {
        assert(print_text(s, o, t, time) =~= lead_text(s, o, t) + line_head(s, o, time) + token_text(
            t,
            o,
        ) + trail_text(s, o, t));
    } else {
        assert(print_text(s, o, t, time) =~= token_text(t, o) + trail_text(s, o, t));
    }
}

/// Renders the tokens of one stream.
pub struct Printer {
    options: Options,
    previous_time: Option<Elapsed>,
    start_of_line: bool,
    break_tokens: Vec<SoftBreak>,
}

impl View for Printer {
    type V = PrinterView;

    closed spec fn view(&self) -> PrinterView {
        PrinterView {
            start_of_line: self.start_of_line,
            breaks: self.break_tokens@,
            previous_time: self.previous_time,
        }
    }
}

/// Appends the characters of `s` from the `from`-th on.
fn push_str_from(out: &mut Vec<char>, s: &str, from: usize)
    requires
        from <= s@.len(),
    ensures
        final(out)@ == old(out)@ + s@.skip(from as int),
{
    let n = s.unicode_len();
    let ghost start = out@;
    let mut i: usize = from;
    let ghost first: int = i as int;
    while i < n
        invariant
            n == s@.len(),
            first <= i <= n,
            first == from,
            out@ == start + s@.subrange(first, i as int),
        decreases n - i,
    {
        out.push(s.get_char(i));
        assert(out@ =~= start + s@.subrange(first, i + 1));
        i = i + 1;
    }
    assert(s@.subrange(first, n as int) =~= s@.skip(from as int));
}

impl Printer {
    pub closed spec fn options(&self) -> Options {
        self.options
    }

    pub fn new(options: Options) -> (r: Printer)
        ensures
            r.options() == options,
            r@.start_of_line,
            r@.breaks == Seq::<SoftBreak>::empty(),
            r@.previous_time is None,
    {
        Printer { options, previous_time: None, start_of_line: true, break_tokens: Vec::new() }
    }

    /// Whether printing `token` writes a time stamp, so that the clock is to be read.
    pub fn needs_timestamp(&self, token: &Token) -> (r: bool)
        ensures
            r == stamp_due(self@, token@),
    {
        let soft = Self::causes_soft_break(token);
        let is_line_feed = matches!(token, Token::LineFeed);
        let is_end = matches!(token, Token::EndOfFile);
        (soft.is_none() && self.break_tokens.len() > 0 && !is_line_feed) || self.start_of_line
            || is_end
    }

    /// Prints `token` and returns the text to write; `time` is the clock's reading where
    /// `needs_timestamp` holds (`None` where the clock could not be read), and is not
    /// looked at otherwise.
    pub fn print(&mut self, token: &Token, time: Option<Elapsed>) -> (r: String)
        ensures
            r@ == print_text(old(self)@, old(self).options(), token@, time),
            final(self)@ == print_state(old(self)@, token@, time),
            final(self).options() == old(self).options(),
    {
        let ghost s = self@;
        let mut out: Vec<char> = Vec::new();
        let is_line_feed = matches!(token, Token::LineFeed);
        let is_end = matches!(token, Token::EndOfFile);
        match Self::causes_soft_break(token) {
            Some(b) => self.break_tokens.push(b),
            None => {
                if self.break_tokens.len() > 0 && !is_line_feed {
                    // A soft break not followed by a line feed: end the line here rather
                    // than let it be overwritten. Carriage returns are kept where control
                    // characters are shown.
                    self.newline(&mut out, self.options.show_control);
                }
            },
        }
        let ghost unfolded = out@;
        if self.start_of_line {
            self.timestamp(&mut out, time);
        } else if is_end {
            // The end of the input always gets a line and a stamp of its own.
            out.push('\n');
            self.timestamp(&mut out, time);
        }
        let ghost headed = out@;
        self.print_token(&mut out, token);
        let ghost printed = out@;
        if is_line_feed {
            // The line ends as the input ended it: carriage returns before the line feed
            // are kept.
            self.newline(&mut out, true);
        }
        proof {
            assert(unfolded =~= if unfolds(s, token@) {
                newline_text(s.breaks, self.options.show_control)
            } else {
                Seq::empty()
            });
            assert(out@ =~= print_text(s, self.options, token@, time));
            assert(self@.breaks =~= print_state(s, token@, time).breaks);
        }
        string_from_chars(&out)
    }

    /// Prints `token` and returns the text to write, reading `clock` once where the
    /// token starts a line and not at all otherwise.
    pub fn print_with_clock(&mut self, token: &Token, clock: &mut Timestamp) -> (r: String)
        requires
            stamp_due(old(self)@, token@) ==> old(clock).can_get(),
        ensures
            final(self).options() == old(self).options(),
            stamp_due(old(self)@, token@) ==> (final(clock).spec_previous() matches Some(now) && {
                &&& r@ == print_text(old(self)@, old(self).options(), token@, Some(now))
                &&& final(self)@ == print_state(old(self)@, token@, Some(now))
                &&& final(clock).is_wall_clock() == old(clock).is_wall_clock()
                &&& !old(clock).is_wall_clock() ==> now == old(clock).expected()[0]
                    && final(clock).expected() == old(clock).expected().drop_first()
                &&& old(clock).is_wall_clock() && old(clock).spec_previous() is Some
                    ==> now.total_nanos() >= old(clock).spec_previous()->0.total_nanos()
            }),
            !stamp_due(old(self)@, token@) ==> {
                &&& *final(clock) == *old(clock)
                &&& r@ == print_text(old(self)@, old(self).options(), token@, None)
                &&& final(self)@ == print_state(old(self)@, token@, None)
            },
    {
        let time = if self.needs_timestamp(token) {
            Some(clock.get())
        } else {
            None
        };
        self.print(token, time)
    }

    fn causes_soft_break(token: &Token) -> (r: Option<SoftBreak>)
        ensures
            r == soft_break_of(token@),
    {
        match token {
            // A carriage return is how the same line is written over and over again; every
            // version of it is to be seen.
            Token::CarriageReturn => Some(SoftBreak::CarriageReturn),
            Token::EscapeSequence(sequence) => {
                // Unhandled escape sequences are only forwarded.
                if matches!(sequence.command, SequenceCommand::Unhandled) {
                    None
                } else {
                    Some(SoftBreak::Escape)
                }
            },
            _ => None,
        }
    }

    fn print_control(&self, out: &mut Vec<char>, symbol: char)
        ensures
            final(out)@ == old(out)@ + if self.options.show_control {
                seq![symbol]
            } else {
                Seq::empty()
            },
    {
        if self.options.show_control {
            out.push(symbol);
        } else {
            assert(out@ =~= out@ + Seq::<char>::empty());
        }
    }

    fn print_token(&self, out: &mut Vec<char>, token: &Token)
        ensures
            final(out)@ == old(out)@ + token_text(token@, self.options),
    {
        match token {
            Token::Char(c) => {
                out.push(*c);
            },
            Token::CarriageReturn => self.print_control(out, '\u{240d}'),
            Token::LineFeed => self.print_control(out, '\u{240a}'),
            Token::EscapeSequence(sequence) => {
                if matches!(sequence.command, SequenceCommand::Unhandled) {
                    push_str_from(out, sequence.text.as_str(), 0);
                    assert(sequence.text@.skip(0) =~= sequence.text@);
                } else if self.options.show_escape {
                    out.push('\u{241b}');
                    let text = sequence.text.as_str();
                    if text.unicode_len() > 0 {
                        push_str_from(out, text, 1);
                    }
                    assert(out@ =~= old(out)@ + token_text(token@, self.options));
                } else {
                    assert(out@ =~= out@ + Seq::<char>::empty());
                }
            },
            Token::EndOfFile => {
                out.push('\u{2404}');
                out.push('\n');
                assert(out@ =~= old(out)@ + token_text(token@, self.options));
            },
        }
    }

    /// Ends the line: with `with_returns`, a carriage return for each pending one, then
    /// the line feed.
    fn newline(&mut self, out: &mut Vec<char>, with_returns: bool)
        ensures
            final(out)@ == old(out)@ + newline_text(old(self).break_tokens@, with_returns),
            final(self).start_of_line,
            final(self).break_tokens@ == Seq::<SoftBreak>::empty(),
            final(self).previous_time == old(self).previous_time,
            final(self).options == old(self).options,
    {
        let ghost start = out@;
        let n = self.break_tokens.len();
        if with_returns {
            let mut i: usize = 0;
            while i < n
                invariant
                    n == self.break_tokens@.len(),
                    i <= n,
                    out@ == start + carriage_returns(self.break_tokens@.take(i as int)),
                decreases n - i,
            {
                if matches!(self.break_tokens[i], SoftBreak::CarriageReturn) {
                    out.push('\r');
                }
                proof {
                    let b = self.break_tokens@.take(i + 1);
                    assert(b.drop_last() =~= self.break_tokens@.take(i as int));
                    assert(out@ =~= start + carriage_returns(b));
                }
                i = i + 1;
            }
            assert(self.break_tokens@.take(n as int) =~= self.break_tokens@);
        }
        out.push('\n');
        self.break_tokens.clear();
        self.start_of_line = true;
    }

    /// Writes the head of a line: the stamp at `time`, the prefix and a colon.
    #[verifier::rlimit(80)]
    fn timestamp(&mut self, out: &mut Vec<char>, time: Option<Elapsed>)
        ensures
            final(out)@ == old(out)@ + line_head(old(self)@, old(self).options, time),
            !final(self).start_of_line,
            final(self).break_tokens == old(self).break_tokens,
            final(self).previous_time == if time is Some {
                time
            } else {
                old(self).previous_time
            },
            final(self).options == old(self).options,
    {
        let ghost start = out@;
        push_stamp(out, time, self.previous_time, self.options.show_delta, self.options.microseconds);
        let ghost stamped = out@;
        let prefix = self.options.prefix.as_str();
        if prefix.unicode_len() > 0 {
            out.push(' ');
            push_str_from(out, prefix, 0);
            assert(prefix@.skip(0) =~= prefix@);
        }
        out.push(':');
        out.push(' ');
        if time.is_some() {
            self.previous_time = time;
        }
        self.start_of_line = false;
        assert(out@ =~= start + line_head(old(self)@, self.options, time));
    }
}

} // verus!
