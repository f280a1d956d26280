//! Tokens and the tokenizer that cuts a byte stream into them.
use vstd::prelude::*;
use crate::escape::{classify, Sequence, SequenceCommand, ESC};
use crate::read_char::{char_encoded_by, read_char, read_step, CharRead, ReadError};
use crate::text::string_from_chars;
use vstd::utf8::{
    decode_first_scalar, decode_utf8, decode_utf8_encode_utf8, decode_utf8_first_scalar, encode_scalar,
    encode_utf8, encode_utf8_decode_utf8, encode_utf8_valid_utf8, length_of_first_scalar,
    partial_valid_partial_invalid_utf8, take_first_scalar, valid_utf8,
};

verus! {

/// One unit of input.
#[derive(Clone, Debug, PartialEq, Eq)]
pub enum Token {
    /// A single character that is no line break.
    Char(char),
    CarriageReturn,
    LineFeed,
    /// An ANSI escape sequence, starting with ESC.
    EscapeSequence(Sequence),
    /// The end of the input stream.
    EndOfFile,
}

/// A token as a mathematical value.
pub enum TokenView {
    Char(char),
    CarriageReturn,
    LineFeed,
    EscapeSequence(SequenceCommand, Seq<char>),
    EndOfFile,
}

impl View for Token {
    type V = TokenView;

    open spec fn view(&self) -> TokenView {
        match self {
            Token::Char(c) => TokenView::Char(*c),
            Token::CarriageReturn => TokenView::CarriageReturn,
            Token::LineFeed => TokenView::LineFeed,
            Token::EscapeSequence(s) => TokenView::EscapeSequence(s.command, s.text@),
            Token::EndOfFile => TokenView::EndOfFile,
        }
    }
}

pub open spec fn views(ts: Seq<Token>) -> Seq<TokenView> {
    ts.map_values(|t: Token| t@)
}

/// Control characters, Unicode's general category Cc.
pub open spec fn is_control(c: char) -> bool {
    c <= '\u{1f}' || ('\u{7f}' <= c <= '\u{9f}')
}

/// The token of one character, escape sequences aside.
pub open spec fn single(c: char) -> TokenView {
    if c == '\r' {
        TokenView::CarriageReturn
    } else if c == '\n' {
        TokenView::LineFeed
    } else {
        TokenView::Char(c)
    }
}

/// What becomes of the escape character that starts a stretch of input.
pub enum EscapeResolution {
    /// The input read so far does not decide it.
    Pending,
    /// It is a plain character: a control character came before any sequence was complete.
    Plain,
    /// It starts a sequence of this many characters.
    Sequence(nat),
}

/// How the escape character at the start of `s` resolves, given that no candidate
/// shorter than `k` characters decided it: the candidates grow one character at a
/// time, and the first that ends in a control character or is a sequence decides.
pub open spec fn resolve_escape(s: Seq<char>, k: int) -> EscapeResolution
    decreases s.len() + 1 - k,
{
    if k > s.len() {
        EscapeResolution::Pending
    } else if is_control(s[k - 1]) {
        EscapeResolution::Plain
    } else if classify(s.take(k)) is Some {
        EscapeResolution::Sequence(k as nat)
    } else {
        resolve_escape(s, k + 1)
    }
}

pub proof fn lemma_resolve_bounds(s: Seq<char>, k: int)
    requires
        k >= 2,
    ensures
        resolve_escape(s, k) matches EscapeResolution::Sequence(j) ==> k <= j <= s.len(),
    decreases s.len() + 1 - k,
{
    if k <= s.len() && !is_control(s[k - 1]) && classify(s.take(k)) is None {
        lemma_resolve_bounds(s, k + 1);
    }
}

/// The tokens of the characters `s`; with `at_end`, `s` is the whole input, and an
/// escape character still undecided at its end is a plain character.
pub open spec fn tokenize(s: Seq<char>, at_end: bool) -> Seq<TokenView>
    decreases s.len(),
{
    if s.len() == 0 {
        if at_end {
            seq![TokenView::EndOfFile]
        } else {
            Seq::empty()
        }
    } else if s[0] != ESC {
        seq![single(s[0])] + tokenize(s.drop_first(), at_end)
    } else {
        match resolve_escape(s, 2) {
            EscapeResolution::Sequence(k) => {
                proof {
                    lemma_resolve_bounds(s, 2);
                }
                seq![TokenView::EscapeSequence(classify(s.take(k as int))->0, s.take(k as int))]
                    + tokenize(s.skip(k as int), at_end)
            },
            EscapeResolution::Plain => seq![TokenView::Char(ESC)] + tokenize(s.drop_first(), at_end),
            EscapeResolution::Pending => if at_end {
                seq![TokenView::Char(ESC)] + tokenize(s.drop_first(), at_end)
            } else {
                Seq::empty()
            },
        }
    }
}

/// Characters held back while an escape sequence may still be arriving: an escape
/// character and what followed it, no control character among them, and no
/// complete sequence at any length.
pub open spec fn undecided(b: Seq<char>) -> bool {
    b.len() == 0 || {
        &&& b[0] == ESC
        &&& forall|i: int| 1 <= i < b.len() ==> !is_control(#[trigger] b[i])
        &&& forall|k: int| 2 <= k <= b.len() ==> #[trigger] classify(b.take(k)) is None
    }
}

proof fn lemma_resolve_skip(s: Seq<char>, k: int, j: int)
    requires
        2 <= k <= j <= s.len() + 1,
        forall|i: int| k <= i < j ==> !is_control(#[trigger] s[i - 1]),
        forall|i: int| k <= i < j ==> #[trigger] classify(s.take(i)) is None,
    ensures
        resolve_escape(s, k) == resolve_escape(s, j),
    decreases j - k,
{
    if k < j {
        assert(!is_control(s[k - 1]));
        assert(classify(s.take(k)) is None);
        lemma_resolve_skip(s, k + 1, j);
    }
}

proof fn lemma_tokenize_singles(m: Seq<char>, y: Seq<char>, e: bool)
    requires
        forall|i: int| 0 <= i < m.len() ==> #[trigger] m[i] != ESC,
    ensures
        tokenize(m + y, e) == m.map_values(|c: char| single(c)) + tokenize(y, e),
    decreases m.len(),
{
    if m.len() == 0 {
        assert(m + y =~= y);
        assert(m.map_values(|c: char| single(c)) + tokenize(y, e) =~= tokenize(y, e));
    } else {
        let s = m + y;
        assert(s[0] == m[0]);
        assert(s.drop_first() =~= m.drop_first() + y);
        lemma_tokenize_singles(m.drop_first(), y, e);
        assert(m.map_values(|c: char| single(c)) =~= seq![single(m[0])] + m.drop_first().map_values(
            |c: char| single(c),
        ));
    }
}

proof fn lemma_step_single(c: char, x: Seq<char>, e: bool)
    requires
        c != ESC,
    ensures
        tokenize(seq![c] + x, e) == seq![single(c)] + tokenize(x, e),
{
    assert((seq![c] + x).drop_first() =~= x);
}

/// An escape character, and characters after it that completed no sequence, come out
/// as plain characters one by one once a control character follows them, and that
/// character comes next: nothing is lost.
pub proof fn lemma_step_control(b: Seq<char>, c: char, x: Seq<char>, e: bool)
    requires
        undecided(b),
        b.len() >= 1,
        is_control(c),
    ensures
        tokenize(b.push(c) + x, e) == seq![TokenView::Char(ESC)] + b.drop_first().map_values(
            |c: char| single(c),
        ) + tokenize(seq![c] + x, e),
{
    let s = b.push(c) + x;
    let n = b.len() as int;
    assert forall|i: int| 2 <= i < n + 1 implies !is_control(#[trigger] s[i - 1]) by {
        assert(s[i - 1] == b[i - 1]);
    }
    assert forall|i: int| 2 <= i < n + 1 implies #[trigger] classify(s.take(i)) is None by {
        assert(s.take(i) =~= b.take(i));
    }
    lemma_resolve_skip(s, 2, n + 1);
    assert(s[n] == c);
    assert(s[0] == ESC);
    let m = b.drop_first();
    assert(s.drop_first() =~= m + (seq![c] + x));
    assert forall|i: int| 0 <= i < m.len() implies #[trigger] m[i] != ESC by {
        assert(m[i] == b[i + 1]);
        assert(is_control(ESC));
    }
    lemma_tokenize_singles(m, seq![c] + x, e);
    assert(seq![TokenView::Char(ESC)] + (m.map_values(|c: char| single(c)) + tokenize(seq![c] + x, e))
        =~= seq![TokenView::Char(ESC)] + m.map_values(|c: char| single(c)) + tokenize(seq![c] + x, e));
}

/// `b` followed by `c` is a complete sequence.
proof fn lemma_step_sequence(b: Seq<char>, c: char, x: Seq<char>, e: bool)
    requires
        undecided(b),
        b.len() >= 1,
        !is_control(c),
        classify(b.push(c)) is Some,
    ensures
        tokenize(b.push(c) + x, e) == seq![
            TokenView::EscapeSequence(classify(b.push(c))->0, b.push(c)),
        ] + tokenize(x, e),
{
    let s = b.push(c) + x;
    let n = b.len() as int;
    assert forall|i: int| 2 <= i < n + 1 implies !is_control(#[trigger] s[i - 1]) by {
        assert(s[i - 1] == b[i - 1]);
    }
    assert forall|i: int| 2 <= i < n + 1 implies #[trigger] classify(s.take(i)) is None by {
        assert(s.take(i) =~= b.take(i));
    }
    lemma_resolve_skip(s, 2, n + 1);
    assert(s[n] == c);
    assert(s[0] == ESC);
    assert(s.take(n + 1) =~= b.push(c));
    assert(s.skip(n + 1) =~= x);
}

/// Held-back characters decide nothing before the input ends, and are plain once it has.
proof fn lemma_undecided_tokens(b: Seq<char>)
    requires
        undecided(b),
    ensures
        tokenize(b, false) == Seq::<TokenView>::empty(),
        b.len() == 0 ==> tokenize(b, true) == seq![TokenView::EndOfFile],
        b.len() > 0 ==> tokenize(b, true) == seq![TokenView::Char(ESC)] + b.drop_first().map_values(
            |c: char| single(c),
        ) + seq![TokenView::EndOfFile],
{
    if b.len() > 0 {
        let n = b.len() as int;
        assert forall|i: int| 2 <= i < n + 1 implies !is_control(#[trigger] b[i - 1]) by {}
        assert forall|i: int| 2 <= i < n + 1 implies #[trigger] classify(b.take(i)) is None by {}
        lemma_resolve_skip(b, 2, n + 1);
        let m = b.drop_first();
        assert forall|i: int| 0 <= i < m.len() implies #[trigger] m[i] != ESC by {
            assert(m[i] == b[i + 1]);
            assert(is_control(ESC));
        }
        lemma_tokenize_singles(m, Seq::empty(), true);
        assert(m + Seq::<char>::empty() =~= m);
        assert(seq![TokenView::Char(ESC)] + (m.map_values(|c: char| single(c)) + seq![TokenView::EndOfFile])
            =~= seq![TokenView::Char(ESC)] + m.map_values(|c: char| single(c)) + seq![TokenView::EndOfFile]);
    }
}

/// The characters a token stands for in the input.
pub open spec fn token_chars(t: TokenView) -> Seq<char> {
    match t {
        TokenView::Char(c) => seq![c],
        TokenView::CarriageReturn => seq!['\r'],
        TokenView::LineFeed => seq!['\n'],
        TokenView::EscapeSequence(_, text) => text,
        TokenView::EndOfFile => Seq::empty(),
    }
}

/// The characters that tokens stand for, in order.
pub open spec fn text_of(ts: Seq<TokenView>) -> Seq<char>
    decreases ts.len(),
{
    if ts.len() == 0 {
        Seq::empty()
    } else {
        token_chars(ts[0]) + text_of(ts.drop_first())
    }
}

pub proof fn lemma_text_of_concat(a: Seq<TokenView>, b: Seq<TokenView>)
    ensures
        text_of(a + b) == text_of(a) + text_of(b),
    decreases a.len(),
{
    if a.len() == 0 {
        assert(a + b =~= b);
        assert(text_of(a) + text_of(b) =~= text_of(b));
    } else {
        assert((a + b).drop_first() =~= a.drop_first() + b);
        lemma_text_of_concat(a.drop_first(), b);
        assert(token_chars(a[0]) + (text_of(a.drop_first()) + text_of(b)) =~= text_of(a)
            + text_of(b));
    }
}

/// No character is lost: the tokens of a whole input stand for exactly its characters,
/// escape sequences or not.
pub proof fn lemma_tokens_keep_text(s: Seq<char>)
    ensures
        text_of(tokenize(s, true)) == s,
    decreases s.len(),
{
    reveal_with_fuel(text_of, 2);
    if s.len() == 0 {
    } else if s[0] != ESC {
        lemma_tokens_keep_text(s.drop_first());
        lemma_text_of_concat(seq![single(s[0])], tokenize(s.drop_first(), true));
        assert(seq![s[0]] + s.drop_first() =~= s);
    } else {
        lemma_resolve_bounds(s, 2);
        match resolve_escape(s, 2) {
            EscapeResolution::Sequence(k) => {
                let head = seq![TokenView::EscapeSequence(classify(s.take(k as int))->0, s.take(k as int))];
                lemma_tokens_keep_text(s.skip(k as int));
                lemma_text_of_concat(head, tokenize(s.skip(k as int), true));
                assert(text_of(head) =~= s.take(k as int));
                assert(s.take(k as int) + s.skip(k as int) =~= s);
            },
            _ => {
                lemma_tokens_keep_text(s.drop_first());
                lemma_text_of_concat(seq![TokenView::Char(ESC)], tokenize(s.drop_first(), true));
                assert(seq![s[0]] + s.drop_first() =~= s);
            },
        }
    }
}

/// Text without escape characters comes back unchanged: its tokens, those that
/// `tokenize_bytes` returns for it, are its characters one by one, and the characters
/// they stand for encode to exactly its bytes.
pub proof fn lemma_text_round_trip(bytes: Seq<u8>)
    requires
        valid_utf8(bytes),
        forall|i: int| 0 <= i < decode_utf8(bytes).len() ==> #[trigger] decode_utf8(bytes)[i] != ESC,
    ensures
        encode_utf8(text_of(tokenize(decode_utf8(bytes), true))) == bytes,
        forall|i: int| 0 <= i < tokenize(decode_utf8(bytes), true).len() - 1 ==>
            #[trigger] tokenize(decode_utf8(bytes), true)[i] == single(decode_utf8(bytes)[i]),
{
    let s = decode_utf8(bytes);
    lemma_tokens_keep_text(s);
    decode_utf8_encode_utf8(bytes);
    lemma_tokenize_singles(s, Seq::empty(), true);
    assert(s + Seq::<char>::empty() =~= s);
}

/// Before the end of the input no token is the end of the input.
pub proof fn lemma_no_end_before_end(s: Seq<char>)
    ensures
        forall|i: int| 0 <= i < tokenize(s, false).len() ==> #[trigger] tokenize(s, false)[i]
            != TokenView::EndOfFile,
    decreases s.len(),
{
    if s.len() > 0 {
        lemma_resolve_bounds(s, 2);
        if s[0] != ESC {
            lemma_no_end_before_end(s.drop_first());
        } else {
            match resolve_escape(s, 2) {
                EscapeResolution::Sequence(k) => lemma_no_end_before_end(s.skip(k as int)),
                EscapeResolution::Plain => lemma_no_end_before_end(s.drop_first()),
                EscapeResolution::Pending => {},
            }
        }
    }
}

/// A complete escape sequence is never cut: it comes out as one token, whatever
/// follows it.
pub proof fn lemma_sequence_not_split(e: Seq<char>, rest: Seq<char>, at_end: bool)
    requires
        classify(e) is Some,
    ensures
        tokenize(e + rest, at_end) == seq![TokenView::EscapeSequence(classify(e)->0, e)]
            + tokenize(rest, at_end),
{
    let n = e.len() as int;
    let b = e.drop_last();
    let c = e.last();
    assert(b.push(c) =~= e);
    assert(is_control(ESC));
    // The grammar has no control character after the escape character, and no
    // sequence is the start of a longer one.
    assert forall|i: int| 1 <= i < b.len() implies !is_control(#[trigger] b[i]) by {
        if i < n - 1 {
            assert(b[i] == e[i]);
            if n > 2 {
                let p = e.subrange(2, n - 1);
                if i >= 2 {
                    assert(p[i - 2] == e[i]);
                }
            }
        }
    }
    assert forall|k: int| 2 <= k <= b.len() implies #[trigger] classify(b.take(k)) is None by {
        let q = b.take(k);
        assert(q[1] == e[1]);
        if k >= 3 {
            let p = e.subrange(2, n - 1);
            assert(q.last() == p[k - 3]);
        }
    }
    assert(!is_control(c));
    lemma_step_sequence(b, c, rest, at_end);
}

impl Token {
    /// The token of a character, escape sequences aside.
    fn from_single_char(c: char) -> (r: Token)
        ensures
            r@ == single(c),
    {
        match c {
            '\r' => Token::CarriageReturn,
            '\n' => Token::LineFeed,
            _ => Token::Char(c),
        }
    }
}

fn is_control_char(c: char) -> (r: bool)
    ensures
        r == is_control(c),
{
    c <= '\u{1f}' || ('\u{7f}' <= c && c <= '\u{9f}')
}

/// How a call of `next` with `input` takes the tokenizer from `before` to `after`, returning
/// `r`: the input is decoded, and the tokens handed out are those that the characters
/// read so far settle.
pub open spec fn next_post(
    before: SerialTokenizer,
    input: Option<u8>,
    after: SerialTokenizer,
    r: Result<Vec<Token>, ReadError>,
) -> bool {
    &&& before.ended() ==> after == before && (r matches Ok(ts) && views(ts@) == seq![TokenView::EndOfFile])
    &&& !before.ended() ==> ({
        let (read, rest) = read_step(before.pending_bytes(), input);
        &&& after.pending_bytes() == rest
        &&& match read {
            Err(e) => {
                &&& r == Err::<Vec<Token>, ReadError>(e)
                &&& !after.ended()
                &&& after.consumed() == before.consumed()
                &&& after.emitted() == before.emitted()
            },
            Ok(CharRead::Incomplete) => {
                &&& (r matches Ok(ts) && ts@.len() == 0)
                &&& !after.ended()
                &&& after.consumed() == before.consumed()
                &&& after.emitted() == before.emitted()
            },
            Ok(CharRead::Char(c)) => {
                &&& (r matches Ok(ts) && after.emitted() == before.emitted()
                    + views(ts@))
                &&& !after.ended()
                &&& after.consumed() == before.consumed().push(c)
                &&& after.emitted() == tokenize(after.consumed(), false)
            },
            Ok(CharRead::End) => {
                &&& (r matches Ok(ts) && after.emitted() == before.emitted()
                    + views(ts@))
                &&& after.ended()
                &&& after.consumed() == before.consumed()
                &&& after.emitted() == tokenize(after.consumed(), true)
            },
        }
    })
}

/// A tokenizer fed one byte at a time.
///
/// It reads characters one by one, so that an escape sequence is recognised as soon as
/// its last character arrives rather than at the end of a line. A control character
/// ends the wait for a sequence: the characters held back then come out one by one.
pub struct SerialTokenizer {
    /// Bytes of a character not yet complete.
    pending: Vec<u8>,
    /// Characters held back while an escape sequence may be arriving.
    escape_buf: Vec<char>,
    /// Whether the end of the input was reached.
    ended: bool,
    consumed: Ghost<Seq<char>>,
    emitted: Ghost<Seq<TokenView>>,
}

impl SerialTokenizer {
    /// The characters read so far.
    pub closed spec fn consumed(&self) -> Seq<char> {
        self.consumed@
    }

    /// The tokens handed out so far.
    pub closed spec fn emitted(&self) -> Seq<TokenView> {
        self.emitted@
    }

    /// The bytes of a character not yet complete.
    pub closed spec fn pending_bytes(&self) -> Seq<u8> {
        self.pending@
    }

    pub closed spec fn ended(&self) -> bool {
        self.ended
    }

    pub closed spec fn wf(&self) -> bool {
        &&& undecided(self.escape_buf@)
        &&& !self.ended ==> forall|x: Seq<char>, e: bool|
            #[trigger] tokenize(self.consumed@ + x, e) == self.emitted@ + tokenize(
                self.escape_buf@ + x,
                e,
            )
        &&& self.ended ==> self.emitted@ == tokenize(self.consumed@, true)
    }

    /// Whether the input has ended.
    pub fn is_ended(&self) -> (r: bool)
        ensures
            r == self.ended(),
    {
        self.ended
    }

    pub fn new() -> (r: Self)
        ensures
            r.wf(),
            !r.ended(),
            r.consumed() == Seq::<char>::empty(),
            r.emitted() == Seq::<TokenView>::empty(),
            r.pending_bytes() == Seq::<u8>::empty(),
    {
        let r = SerialTokenizer {
            pending: Vec::new(),
            escape_buf: Vec::new(),
            ended: false,
            consumed: Ghost(Seq::empty()),
            emitted: Ghost(Seq::empty()),
        };
        assert forall|x: Seq<char>, e: bool| #[trigger]
            tokenize(r.consumed@ + x, e) == r.emitted@ + tokenize(r.escape_buf@ + x, e) by {
            assert(r.consumed@ + x =~= x);
            assert(r.escape_buf@ + x =~= x);
            assert(r.emitted@ + tokenize(x, e) =~= tokenize(x, e));
        }
        r
    }

    /// Hands the tokenizer the next byte of input, or `None` at the end of the input,
    /// and returns the tokens that this completes.
    pub fn next(&mut self, input: Option<u8>) -> (r: Result<Vec<Token>, ReadError>)
        requires
            old(self).wf(),
        ensures
            final(self).wf(),
            (r matches Ok(ts) && views(ts@).contains(TokenView::EndOfFile)) ==> final(self).ended(),
            next_post(*old(self), input, *final(self), r),
    {
        if self.ended {
            let r = vec![Token::EndOfFile];
            assert(views(r@) =~= seq![TokenView::EndOfFile]);
            return Ok(r);
        }
        match read_char(&mut self.pending, input) {
            Err(e) => Err(e),
            Ok(CharRead::Incomplete) => Ok(Vec::new()),
            Ok(CharRead::Char(c)) => {
                let ghost before = self.emitted@;
                let ts = self.push_char(c);
                proof {
                    lemma_no_end_before_end(self.consumed@);
                    assert forall|i: int| 0 <= i < views(ts@).len() implies #[trigger] views(ts@)[i]
                        != TokenView::EndOfFile by {
                        assert(views(ts@)[i] == self.emitted@[before.len() + i]);
                    }
                }
                Ok(ts)
            },
            Ok(CharRead::End) => {
                let mut out: Vec<Token> = Vec::new();
                let ghost b = self.escape_buf@;
                proof {
                    lemma_undecided_tokens(b);
                    assert(self.consumed@ + Seq::<char>::empty() =~= self.consumed@);
                    assert(b + Seq::<char>::empty() =~= b);
                    assert(tokenize(self.consumed@ + Seq::<char>::empty(), true) == self.emitted@
                        + tokenize(b + Seq::<char>::empty(), true));
                }
                if self.escape_buf.len() > 0 {
                    self.drain_buffer(&mut out);
                }
                let ghost before = out@;
                out.push(Token::EndOfFile);
                proof {
                    assert(views(out@) =~= views(before).push(TokenView::EndOfFile));
                    assert(views(out@) =~= tokenize(b, true));
                }
                self.escape_buf.clear();
                self.ended = true;
                proof {
                    self.emitted@ = self.emitted@ + views(out@);
                }
                Ok(out)
            },
        }
    }

    /// Appends the tokens of the held-back characters, each a plain character.
    fn drain_buffer(&self, out: &mut Vec<Token>)
        requires
            undecided(self.escape_buf@),
            self.escape_buf@.len() > 0,
        ensures
            views(final(out)@) == views(old(out)@) + seq![TokenView::Char(ESC)]
                + self.escape_buf@.drop_first().map_values(|c: char| single(c)),
    {
        let ghost b = self.escape_buf@;
        let ghost start = views(out@);
        out.push(Token::Char(ESC));
        let n = self.escape_buf.len();
        let mut i: usize = 1;
        while i < n
            invariant
                b == self.escape_buf@,
                n == b.len(),
                1 <= i <= n,
                views(out@) == start + seq![TokenView::Char(ESC)] + b.subrange(1, i as int).map_values(
                    |c: char| single(c),
                ),
            decreases n - i,
        {
            let t = Token::from_single_char(self.escape_buf[i]);
            let ghost before = out@;
            out.push(t);
            proof {
                assert(views(out@) =~= views(before).push(t@));
                assert(b.subrange(1, i + 1).map_values(|c: char| single(c)) =~= b.subrange(
                    1,
                    i as int,
                ).map_values(|c: char| single(c)).push(single(b[i as int])));
                assert(views(out@) =~= start + seq![TokenView::Char(ESC)] + b.subrange(1, i + 1).map_values(
                    |c: char| single(c),
                ));
            }
            i = i + 1;
        }
        assert(b.subrange(1, n as int) =~= b.drop_first());
    }

    /// Takes in the character `c` and returns the tokens it completes.
    fn push_char(&mut self, c: char) -> (r: Vec<Token>)
        requires
            old(self).wf(),
            !old(self).ended(),
        ensures
            final(self).wf(),
            !final(self).ended(),
            final(self).pending_bytes() == old(self).pending_bytes(),
            final(self).consumed() == old(self).consumed().push(c),
            final(self).emitted() == old(self).emitted() + views(r@),
            final(self).emitted() == tokenize(final(self).consumed(), false),
    {
        let ghost b = self.escape_buf@;
        let ghost consumed = self.consumed@;
        let ghost emitted = self.emitted@;
        let mut out: Vec<Token> = Vec::new();
        // What the held-back characters and `c` come to, for any input that follows.
        let ghost mut step: Seq<TokenView> = Seq::empty();
        if self.escape_buf.len() == 0 {
            if c == ESC {
                self.escape_buf.push(c);
                proof {
                    assert forall|x: Seq<char>, e: bool| #[trigger]
                        tokenize(b.push(c) + x, e) == step + tokenize(self.escape_buf@ + x, e) by {
                        assert(b.push(c) + x =~= self.escape_buf@ + x);
                        assert(step + tokenize(self.escape_buf@ + x, e) =~= tokenize(self.escape_buf@ + x, e));
                    }
                }
            } else {
                out.push(Token::from_single_char(c));
                proof {
                    step = seq![single(c)];
                    assert forall|x: Seq<char>, e: bool| #[trigger]
                        tokenize(b.push(c) + x, e) == step + tokenize(self.escape_buf@ + x, e) by {
                        assert(b.push(c) + x =~= seq![c] + x);
                        assert(self.escape_buf@ + x =~= x);
                        lemma_step_single(c, x, e);
                    }
                }
            }
        } else if is_control_char(c) {
            self.drain_buffer(&mut out);
            self.escape_buf.clear();
            let ghost singles = b.drop_first().map_values(|c: char| single(c));
            if c == ESC {
                self.escape_buf.push(c);
                proof {
                    step = seq![TokenView::Char(ESC)] + singles;
                    assert forall|x: Seq<char>, e: bool| #[trigger]
                        tokenize(b.push(c) + x, e) == step + tokenize(self.escape_buf@ + x, e) by {
                        lemma_step_control(b, c, x, e);
                        assert(self.escape_buf@ + x =~= seq![c] + x);
                    }
                }
            } else {
                out.push(Token::from_single_char(c));
                proof {
                    step = seq![TokenView::Char(ESC)] + singles + seq![single(c)];
                    assert forall|x: Seq<char>, e: bool| #[trigger]
                        tokenize(b.push(c) + x, e) == step + tokenize(self.escape_buf@ + x, e) by {
                        lemma_step_control(b, c, x, e);
                        lemma_step_single(c, x, e);
                        assert(self.escape_buf@ + x =~= x);
                        assert(seq![TokenView::Char(ESC)] + singles + (seq![single(c)] + tokenize(x, e))
                            =~= step + tokenize(x, e));
                    }
                }
            }
            assert(views(out@) =~= step);
        } else {
            self.escape_buf.push(c);
            match SequenceCommand::from(&self.escape_buf) {
                Some(command) => {
                    let text = string_from_chars(&self.escape_buf);
                    out.push(Token::EscapeSequence(Sequence { command, text }));
                    self.escape_buf.clear();
                    proof {
                        step = seq![TokenView::EscapeSequence(command, b.push(c))];
                        assert forall|x: Seq<char>, e: bool| #[trigger]
                            tokenize(b.push(c) + x, e) == step + tokenize(self.escape_buf@ + x, e) by {
                            lemma_step_sequence(b, c, x, e);
                            assert(self.escape_buf@ + x =~= x);
                        }
                    }
                },
                None => {
                    proof {
                        let nb = self.escape_buf@;
                        assert(nb =~= b.push(c));
                        assert forall|k: int| 2 <= k <= nb.len() implies #[trigger] classify(nb.take(k))
                            is None by {
                            if k < nb.len() {
                                assert(nb.take(k) =~= b.take(k));
                            } else {
                                assert(nb.take(k) =~= nb);
                            }
                        }
                        assert forall|x: Seq<char>, e: bool| #[trigger]
                            tokenize(b.push(c) + x, e) == step + tokenize(self.escape_buf@ + x, e) by {
                            assert(step + tokenize(self.escape_buf@ + x, e) =~= tokenize(self.escape_buf@ + x, e));
                        }
                    }
                },
            }
        }
        proof {
            assert(views(out@) =~= step);
            self.consumed@ = consumed.push(c);
            self.emitted@ = emitted + step;
            assert forall|x: Seq<char>, e: bool| #[trigger]
                tokenize(self.consumed@ + x, e) == self.emitted@ + tokenize(self.escape_buf@ + x, e) by {
                assert(self.consumed@ + x =~= consumed + (seq![c] + x));
                assert(b + (seq![c] + x) =~= b.push(c) + x);
                assert(tokenize(b.push(c) + x, e) == step + tokenize(self.escape_buf@ + x, e));
                assert(tokenize(consumed + (seq![c] + x), e) == emitted + tokenize(b + (seq![c] + x), e));
                assert(emitted + (step + tokenize(self.escape_buf@ + x, e)) =~= self.emitted@ + tokenize(
                    self.escape_buf@ + x,
                    e,
                ));
            }
            lemma_undecided_tokens(self.escape_buf@);
            assert(self.consumed@ + Seq::<char>::empty() =~= self.consumed@);
            assert(self.escape_buf@ + Seq::<char>::empty() =~= self.escape_buf@);
            assert(tokenize(self.consumed@ + Seq::<char>::empty(), false) == self.emitted@ + tokenize(
                self.escape_buf@ + Seq::<char>::empty(),
                false,
            ));
            assert(self.emitted@ + Seq::<TokenView>::empty() =~= self.emitted@);
        }
        out
    }
}


/// No start of `p` is the encoding of a character.
pub open spec fn undecoded(p: Seq<u8>) -> bool {
    forall|k: int| 1 <= k <= p.len() ==> #[trigger] char_encoded_by(p.take(k)) is None
}

proof fn lemma_encode_push(s: Seq<char>, c: char)
    ensures
        encode_utf8(s.push(c)) == encode_utf8(s) + encode_utf8(seq![c]),
    decreases s.len(),
{
    reveal_with_fuel(encode_utf8, 2);
    if s.len() == 0 {
        assert(s.push(c) =~= seq![c]);
        assert(encode_utf8(s) + encode_utf8(seq![c]) =~= encode_utf8(seq![c]));
    } else {
        assert(s.push(c).drop_first() =~= s.drop_first().push(c));
        lemma_encode_push(s.drop_first(), c);
        assert(encode_utf8(s.push(c)) =~= encode_utf8(s) + encode_utf8(seq![c]));
    }
}

/// Bytes that start no character cannot start valid text: valid text would start
/// with a whole character, of at most four bytes.
proof fn lemma_undecoded_invalid(p: Seq<u8>, y: Seq<u8>)
    requires
        undecoded(p),
        p.len() > 0,
        p.len() >= 4 || y.len() == 0,
    ensures
        !valid_utf8(p + y),
{
    let s = p + y;
    if valid_utf8(s) {
        decode_utf8_first_scalar(s);
        let l = length_of_first_scalar(s);
        assert(1 <= l <= 4 && l <= s.len());
        assert(take_first_scalar(s) =~= p.take(l));
        let c = decode_first_scalar(s) as char;
        assert(encode_utf8(seq![c]) == p.take(l)) by {
            reveal_with_fuel(encode_utf8, 2);
            assert(seq![c].drop_first() =~= Seq::<char>::empty());
            assert(encode_scalar(c as u32) + Seq::<u8>::empty() =~= encode_scalar(c as u32));
        }
        assert(char_encoded_by(p.take(l)) is Some);
    }
}

/// Valid text followed by bytes that cannot start valid text is not valid.
proof fn lemma_invalid_after_text(consumed: Seq<char>, rest: Seq<u8>)
    requires
        !valid_utf8(rest),
    ensures
        !valid_utf8(encode_utf8(consumed) + rest),
{
    let a = encode_utf8(consumed);
    let s = a + rest;
    encode_utf8_valid_utf8(consumed);
    assert(s.subrange(0, a.len() as int) =~= a);
    assert(s.subrange(a.len() as int, s.len() as int) =~= rest);
    partial_valid_partial_invalid_utf8(s, a.len() as int);
}

/// The tokens of the whole input `bytes`; an error where `bytes` is not UTF-8 text.
pub fn tokenize_bytes(bytes: &[u8]) -> (r: Result<Vec<Token>, ReadError>)
    ensures
        r is Ok <==> valid_utf8(bytes@),
        r matches Ok(ts) ==> views(ts@) == tokenize(decode_utf8(bytes@), true),
{
    let mut tokenizer = SerialTokenizer::new();
    let mut out: Vec<Token> = Vec::new();
    let n = bytes.len();
    let mut i: usize = 0;
    proof {
        assert(bytes@.take(0) =~= Seq::<u8>::empty());
        assert(encode_utf8(Seq::<char>::empty()) =~= Seq::<u8>::empty());
    }
    while i < n
        invariant
            n == bytes@.len(),
            i <= n,
            tokenizer.wf(),
            !tokenizer.ended(),
            encode_utf8(tokenizer.consumed()) + tokenizer.pending_bytes() == bytes@.take(i as int),
            undecoded(tokenizer.pending_bytes()),
            views(out@) == tokenizer.emitted(),
        decreases n - i,
    {
        let b = bytes[i];
        let ghost before = tokenizer;
        let ghost p = before.pending_bytes();
        match tokenizer.next(Some(b)) {
            Err(e) => {
                proof {
                    let rest = bytes@.skip(i + 1);
                    let q = p.push(b);
                    assert forall|k: int| 1 <= k <= q.len() implies #[trigger] char_encoded_by(
                        q.take(k),
                    ) is None by {
                        if k < q.len() {
                            assert(q.take(k) =~= p.take(k));
                        } else {
                            assert(q.take(k) =~= q);
                        }
                    }
                    lemma_undecoded_invalid(q, rest);
                    lemma_invalid_after_text(before.consumed(), q + rest);
                    assert(bytes@ =~= encode_utf8(before.consumed()) + (q + rest)) by {
                        assert(bytes@.take(i as int) + seq![b] + rest =~= bytes@);
                    }
                }
                return Err(e);
            },
            Ok(ts) => {
                let ghost emitted = views(out@);
                let ghost added = views(ts@);
                let mut ts = ts;
                out.append(&mut ts);
                proof {
                    assert(views(out@) =~= emitted + added);
                    let q = p.push(b);
                    assert(bytes@.take(i + 1) =~= bytes@.take(i as int).push(b));
                    match char_encoded_by(q) {
                        Some(c) => {
                            assert(encode_utf8(seq![c]) == q);
                            lemma_encode_push(before.consumed(), c);
                            assert(encode_utf8(tokenizer.consumed()) + tokenizer.pending_bytes()
                                =~= bytes@.take(i + 1));
                        },
                        None => {
                            assert(encode_utf8(tokenizer.consumed()) + tokenizer.pending_bytes()
                                =~= bytes@.take(i + 1));
                            assert forall|k: int| 1 <= k <= q.len() implies #[trigger] char_encoded_by(
                                q.take(k),
                            ) is None by {
                                if k < q.len() {
                                    assert(q.take(k) =~= p.take(k));
                                } else {
                                    assert(q.take(k) =~= q);
                                }
                            }
                        },
                    }
                }
            },
        }
        i = i + 1;
    }
    assert(bytes@.take(n as int) =~= bytes@);
    let ghost before = tokenizer;
    match tokenizer.next(None) {
        Err(e) => {
            proof {
                let p = before.pending_bytes();
                lemma_undecoded_invalid(p, Seq::empty());
                assert(p + Seq::<u8>::empty() =~= p);
                lemma_invalid_after_text(before.consumed(), p);
            }
            Err(e)
        },
        Ok(ts) => {
            let ghost emitted = views(out@);
            let ghost added = views(ts@);
            let mut ts = ts;
            out.append(&mut ts);
            proof {
                assert(views(out@) =~= emitted + added);
                let c = before.consumed();
                assert(encode_utf8(c) + Seq::<u8>::empty() =~= encode_utf8(c));
                encode_utf8_valid_utf8(c);
                encode_utf8_decode_utf8(c);
            }
            Ok(out)
        },
    }
}

} // verus!
