//! ANSI escape sequences: their grammar and the commands this tool recognises.
use vstd::prelude::*;

verus! {

/// The escape character that starts every sequence.
pub const ESC: char = '\x1b';

/// An escape sequence as read from the input: what it means and its literal text.
#[derive(Clone, Debug, PartialEq, Eq)]
pub struct Sequence {
    pub command: SequenceCommand,
    /// The sequence as it was read, escape character included.
    pub text: String,
}

/// The command an escape sequence stands for.
#[derive(Clone, Copy, Debug, PartialEq, Eq)]
pub enum SequenceCommand {
    CursorMove(CursorMove),
    CursorPosition(CursorPosition),
    Erase(Erase),
    /// A well-formed sequence outside the recognised set; it is forwarded as it is.
    Unhandled,
}

#[derive(Clone, Copy, Debug, PartialEq, Eq)]
pub enum CursorMove {
    /// ESC[H
    Home,
    /// ESC[#;#H or ESC[#;#f
    ToLineAndColumn((u32, u32)),
    /// ESC[#A
    LinesUp(u32),
    /// ESC[#B
    LinesDown(u32),
    /// ESC[#C
    ColumnsRight(u32),
    /// ESC[#D
    ColumnsLeft(u32),
    /// ESC[#F
    BeginningLinesDown(u32),
    /// ESC[#E
    BeginningLinesUp(u32),
    /// ESC[#G
    ToColumn(u32),
    /// ESC M
    UpOne,
}

#[derive(Clone, Copy, Debug, PartialEq, Eq)]
pub enum CursorPosition {
    /// ESC[6n
    Request,
    /// ESC 7 or ESC[s
    Save,
    /// ESC 8 or ESC[u
    Restore,
}

#[derive(Clone, Copy, Debug, PartialEq, Eq)]
pub enum Erase {
    /// ESC[J or ESC[0J
    FromCursorToEndOfScreen,
    /// ESC[1J
    FromBeginningOfScreenToCursor,
    /// ESC[2J
    EntireScreen,
    /// ESC[3J
    SavedLines,
    /// ESC[K or ESC[0K
    FromCursorToEndOfLine,
    /// ESC[1K
    FromStartOfLineToCursor,
    /// ESC[2K
    EntireLine,
}

pub open spec fn is_digit(c: char) -> bool {
    '0' <= c <= '9'
}

pub open spec fn is_letter(c: char) -> bool {
    ('A' <= c <= 'Z') || ('a' <= c <= 'z')
}

pub open spec fn is_alphanumeric(c: char) -> bool {
    is_letter(c) || is_digit(c)
}

/// The parameters of a bracketed sequence: empty, or groups of digits separated by `;`.
pub open spec fn valid_params(p: Seq<char>) -> bool {
    p.len() == 0 || {
        &&& forall|i: int| 0 <= i < p.len() ==> is_digit(#[trigger] p[i]) || p[i] == ';'
        &&& p[0] != ';'
        &&& p.last() != ';'
        &&& forall|i: int| 0 <= i < p.len() - 1 && #[trigger] p[i] == ';' ==> p[i + 1] != ';'
    }
}

/// The texts between the `;` separators of `p`.
pub open spec fn param_groups(p: Seq<char>) -> Seq<Seq<char>>
    decreases p.len(),
{
    if p.len() == 0 {
        seq![Seq::empty()]
    } else {
        let g = param_groups(p.drop_last());
        if p.last() == ';' {
            g.push(Seq::empty())
        } else {
            g.update(g.len() - 1, g.last().push(p.last()))
        }
    }
}

/// The number written in decimal by the digits `g`.
pub open spec fn digits_value(g: Seq<char>) -> nat
    decreases g.len(),
{
    if g.len() == 0 {
        0
    } else {
        digits_value(g.drop_last()) * 10 + (g.last() as nat - '0' as nat) as nat
    }
}

/// A number as a `u32`, or `None` where it does not fit.
pub open spec fn fit(v: nat) -> Option<u32> {
    if v <= u32::MAX {
        Some(v as u32)
    } else {
        None
    }
}

/// The numbers of the parameters `p`, `None` for one too large for a `u32`.
pub open spec fn param_values(p: Seq<char>) -> Seq<Option<u32>> {
    if p.len() == 0 {
        Seq::empty()
    } else {
        param_groups(p).map_values(|g: Seq<char>| fit(digits_value(g)))
    }
}

/// The command of a sequence without `[`, from its one character.
pub open spec fn plain_command(c: char) -> SequenceCommand {
    if c == 'M' {
        SequenceCommand::CursorMove(CursorMove::UpOne)
    } else if c == '7' {
        SequenceCommand::CursorPosition(CursorPosition::Save)
    } else if c == '8' {
        SequenceCommand::CursorPosition(CursorPosition::Restore)
    } else {
        SequenceCommand::Unhandled
    }
}

/// The command of a sequence with `[`, from its numbers and final letter.
pub open spec fn bracket_command(nums: Seq<Option<u32>>, c: char) -> SequenceCommand {
    if nums.len() == 0 {
        if c == 'H' {
            SequenceCommand::CursorMove(CursorMove::Home)
        } else if c == 'J' {
            SequenceCommand::Erase(Erase::FromCursorToEndOfScreen)
        } else if c == 'K' {
            SequenceCommand::Erase(Erase::FromCursorToEndOfLine)
        } else if c == 's' {
            SequenceCommand::CursorPosition(CursorPosition::Save)
        } else if c == 'u' {
            SequenceCommand::CursorPosition(CursorPosition::Restore)
        } else {
            SequenceCommand::Unhandled
        }
    } else if nums.len() == 1 && nums[0] is Some {
        let n = nums[0]->0;
        if c == 'A' {
            SequenceCommand::CursorMove(CursorMove::LinesUp(n))
        } else if c == 'B' {
            SequenceCommand::CursorMove(CursorMove::LinesDown(n))
        } else if c == 'C' {
            SequenceCommand::CursorMove(CursorMove::ColumnsRight(n))
        } else if c == 'D' {
            SequenceCommand::CursorMove(CursorMove::ColumnsLeft(n))
        } else if c == 'E' {
            SequenceCommand::CursorMove(CursorMove::BeginningLinesUp(n))
        } else if c == 'F' {
            SequenceCommand::CursorMove(CursorMove::BeginningLinesDown(n))
        } else if c == 'G' {
            SequenceCommand::CursorMove(CursorMove::ToColumn(n))
        } else if c == 'J' && n == 0 {
            SequenceCommand::Erase(Erase::FromCursorToEndOfScreen)
        } else if c == 'J' && n == 1 {
            SequenceCommand::Erase(Erase::FromBeginningOfScreenToCursor)
        } else if c == 'J' && n == 2 {
            SequenceCommand::Erase(Erase::EntireScreen)
        } else if c == 'J' && n == 3 {
            SequenceCommand::Erase(Erase::SavedLines)
        } else if c == 'K' && n == 0 {
            SequenceCommand::Erase(Erase::FromCursorToEndOfLine)
        } else if c == 'K' && n == 1 {
            SequenceCommand::Erase(Erase::FromStartOfLineToCursor)
        } else if c == 'K' && n == 2 {
            SequenceCommand::Erase(Erase::EntireLine)
        } else if c == 'n' && n == 6 {
            SequenceCommand::CursorPosition(CursorPosition::Request)
        } else {
            SequenceCommand::Unhandled
        }
    } else if nums.len() == 2 && nums[0] is Some && nums[1] is Some && (c == 'f' || c == 'H') {
        SequenceCommand::CursorMove(CursorMove::ToLineAndColumn((nums[0]->0, nums[1]->0)))
    } else {
        SequenceCommand::Unhandled
    }
}

/// What the whole of `s` is as an escape sequence: `None` where it is not one (yet).
///
/// The grammar: the escape character, then either one letter or digit, or `[`, the
/// parameters, and one letter.
pub open spec fn classify(s: Seq<char>) -> Option<SequenceCommand> {
    if s.len() == 2 && s[0] == ESC && is_alphanumeric(s[1]) {
        Some(plain_command(s[1]))
    } else if s.len() >= 3 && s[0] == ESC && s[1] == '[' && is_letter(s.last()) && valid_params(
        s.subrange(2, s.len() - 1),
    ) {
        Some(bracket_command(param_values(s.subrange(2, s.len() - 1)), s.last()))
    } else {
        None
    }
}

proof fn lemma_param_groups_nonempty(p: Seq<char>)
    ensures
        param_groups(p).len() >= 1,
    decreases p.len(),
{
    if p.len() > 0 {
        lemma_param_groups_nonempty(p.drop_last());
    }
}

fn is_digit_char(c: char) -> (r: bool)
    ensures
        r == is_digit(c),
{
    '0' <= c && c <= '9'
}

fn is_letter_char(c: char) -> (r: bool)
    ensures
        r == is_letter(c),
{
    ('A' <= c && c <= 'Z') || ('a' <= c && c <= 'z')
}

impl Sequence {
    /// Reads `buffer` as an escape sequence; `None` where it is not a complete one.
    pub fn from(buffer: &str) -> (r: Option<Sequence>)
        ensures
            r is Some <==> classify(buffer@) is Some,
            r matches Some(seq) ==> seq.command == classify(buffer@)->0 && seq.text@ == buffer@,
    {
        let n = buffer.unicode_len();
        let mut chars: Vec<char> = Vec::new();
        let mut i: usize = 0;
        while i < n
            invariant
                n == buffer@.len(),
                i <= n,
                chars@ == buffer@.subrange(0, i as int),
            decreases n - i,
        {
            chars.push(buffer.get_char(i));
            i = i + 1;
        }
        assert(chars@ == buffer@);
        match SequenceCommand::from(&chars) {
            Some(command) => Some(Sequence { command, text: buffer.to_owned() }),
            None => None,
        }
    }
}

impl SequenceCommand {
    /// The command of the complete escape sequence `buffer`, if it is one.
    pub fn from(buffer: &Vec<char>) -> (r: Option<SequenceCommand>)
        ensures
            r == classify(buffer@),
    {
        let n = buffer.len();
        if n == 2 && buffer[0] == ESC {
            let c = buffer[1];
            if is_letter_char(c) || is_digit_char(c) {
                return Some(Self::without_bracket(c));
            }
            return None;
        }
        if n < 3 || buffer[0] != ESC || buffer[1] != '[' || !is_letter_char(buffer[n - 1]) {
            return None;
        }
        let ghost s = buffer@;
        let mut values: Vec<Option<u32>> = Vec::new();
        let mut current: Option<u32> = Some(0);
        let mut current_len: usize = 0;
        let mut j: usize = 2;
        while j < n - 1
            invariant
                s == buffer@,
                n == s.len(),
                n >= 3,
                2 <= j <= n - 1,
                current_len <= j - 2,
                ({
                    let p = s.subrange(2, j as int);
                    let g = param_groups(p);
                    &&& g.len() == values@.len() + 1
                    &&& forall|k: int|
                        0 <= k < values@.len() ==> #[trigger] values@[k] == fit(
                            digits_value(g[k]),
                        )
                    &&& current == fit(digits_value(g.last()))
                    &&& current_len == g.last().len()
                    &&& (current_len == 0 <==> (j == 2 || s[j - 1] == ';'))
                    &&& forall|i: int| 0 <= i < p.len() ==> is_digit(#[trigger] p[i]) || p[i] == ';'
                    &&& forall|i: int|
                        0 <= i < p.len() - 1 && #[trigger] p[i] == ';' ==> p[i + 1] != ';'
                    &&& (p.len() > 0 ==> p[0] != ';')
                }),
            decreases n - 1 - j,
        {
            let c = buffer[j];
            let ghost p = s.subrange(2, j as int);
            let ghost grown = s.subrange(2, j + 1);
            assert(grown.drop_last() =~= p);
            assert(grown.last() == c);
            proof {
                lemma_param_groups_nonempty(p);
            }
            if c == ';' {
                if current_len == 0 {
                    proof {
                        let q = s.subrange(2, n - 1);
                        assert(q.len() > 0);
                        if j == 2 {
                            assert(q[0] == ';');
                        } else {
                            assert(q[j - 3] == ';' && q[j - 2] == ';');
                        }
                    }
                    return None;
                }
                values.push(current);
                current = Some(0);
                current_len = 0;
                proof {
                    let g = param_groups(p);
                    assert(param_groups(grown) == g.push(Seq::empty()));
                    assert forall|k: int| 0 <= k < values@.len() implies #[trigger] values@[k]
                        == fit(digits_value(param_groups(grown)[k])) by {
                        if k < values@.len() - 1 {
                            assert(values@[k] == fit(digits_value(g[k])));
                        }
                    }
                    assert(digits_value(Seq::<char>::empty()) == 0);
                    assert forall|i: int| 0 <= i < grown.len() - 1 && #[trigger] grown[i] == ';' implies grown[i
                        + 1] != ';' by {
                        if i < p.len() - 1 {
                            assert(p[i] == grown[i]);
                        }
                    }
                }
            } else if is_digit_char(c) {
                let d = (c as u32) - ('0' as u32);
                current =
                    match current {
                        Some(v) => match v.checked_mul(10) {
                            Some(m) => m.checked_add(d),
                            None => None,
                        },
                        None => None,
                    };
                current_len = current_len + 1;
                proof {
                    let g = param_groups(p);
                    let last = g.last().push(c);
                    assert(param_groups(grown) == g.update(g.len() - 1, last));
                    assert(last.drop_last() =~= g.last());
                    assert(digits_value(last) == digits_value(g.last()) * 10 + d);
                    assert forall|k: int| 0 <= k < values@.len() implies #[trigger] values@[k]
                        == fit(digits_value(param_groups(grown)[k])) by {
                        assert(values@[k] == fit(digits_value(g[k])));
                    }
                    assert forall|i: int| 0 <= i < grown.len() - 1 && #[trigger] grown[i] == ';' implies grown[i
                        + 1] != ';' by {
                        if i < p.len() - 1 {
                            assert(p[i] == grown[i]);
                        }
                    }
                }
            } else {
                proof {
                    let q = s.subrange(2, n - 1);
                    assert(q[j - 2] == c);
                }
                return None;
            }
            j = j + 1;
        }
        let ghost p = s.subrange(2, n - 1);
        proof {
            lemma_param_groups_nonempty(p);
        }
        if n > 3 {
            if current_len == 0 {
                assert(p.last() == ';');
                return None;
            }
            values.push(current);
            proof {
                let g = param_groups(p);
                assert(valid_params(p));
                assert(values@ =~= param_values(p)) by {
                    assert forall|k: int| 0 <= k < values@.len() implies #[trigger] values@[k]
                        == param_values(p)[k] by {
                        if k < values@.len() - 1 {
                            assert(values@[k] == fit(digits_value(g[k])));
                        }
                    }
                }
            }
        } else {
            assert(p.len() == 0);
            assert(values@ =~= param_values(p));
        }
        Some(Self::with_bracket(&values, buffer[n - 1]))
    }

    /// A sequence like "ESC M", without `[`.
    fn without_bracket(c: char) -> (r: SequenceCommand)
        ensures
            r == plain_command(c),
    {
        match c {
            'M' => SequenceCommand::CursorMove(CursorMove::UpOne),
            '7' => SequenceCommand::CursorPosition(CursorPosition::Save),
            '8' => SequenceCommand::CursorPosition(CursorPosition::Restore),
            _ => SequenceCommand::Unhandled,
        }
    }

    /// A sequence with `[`, like "ESC[17;42f", from its numbers and final letter.
    fn with_bracket(numbers: &Vec<Option<u32>>, c: char) -> (r: SequenceCommand)
        ensures
            r == bracket_command(numbers@, c),
    {
        if numbers.len() == 0 {
            match c {
                'H' => SequenceCommand::CursorMove(CursorMove::Home),
                'J' => SequenceCommand::Erase(Erase::FromCursorToEndOfScreen),
                'K' => SequenceCommand::Erase(Erase::FromCursorToEndOfLine),
                's' => SequenceCommand::CursorPosition(CursorPosition::Save),
                'u' => SequenceCommand::CursorPosition(CursorPosition::Restore),
                _ => SequenceCommand::Unhandled,
            }
        } else if numbers.len() == 1 {
            match numbers[0] {
                None => SequenceCommand::Unhandled,
                Some(number) => match c {
                    'A' => SequenceCommand::CursorMove(CursorMove::LinesUp(number)),
                    'B' => SequenceCommand::CursorMove(CursorMove::LinesDown(number)),
                    'C' => SequenceCommand::CursorMove(CursorMove::ColumnsRight(number)),
                    'D' => SequenceCommand::CursorMove(CursorMove::ColumnsLeft(number)),
                    'E' => SequenceCommand::CursorMove(CursorMove::BeginningLinesUp(number)),
                    'F' => SequenceCommand::CursorMove(CursorMove::BeginningLinesDown(number)),
                    'G' => SequenceCommand::CursorMove(CursorMove::ToColumn(number)),
                    'J' => match number {
                        0 => SequenceCommand::Erase(Erase::FromCursorToEndOfScreen),
                        1 => SequenceCommand::Erase(Erase::FromBeginningOfScreenToCursor),
                        2 => SequenceCommand::Erase(Erase::EntireScreen),
                        3 => SequenceCommand::Erase(Erase::SavedLines),
                        _ => SequenceCommand::Unhandled,
                    },
                    'K' => match number {
                        0 => SequenceCommand::Erase(Erase::FromCursorToEndOfLine),
                        1 => SequenceCommand::Erase(Erase::FromStartOfLineToCursor),
                        2 => SequenceCommand::Erase(Erase::EntireLine),
                        _ => SequenceCommand::Unhandled,
                    },
                    'n' => {
                        if number == 6 {
                            SequenceCommand::CursorPosition(CursorPosition::Request)
                        } else {
                            SequenceCommand::Unhandled
                        }
                    },
                    _ => SequenceCommand::Unhandled,
                },
            }
        } else if numbers.len() == 2 {
            match (numbers[0], numbers[1]) {
                (Some(line), Some(column)) => match c {
                    'f' | 'H' => SequenceCommand::CursorMove(
                        CursorMove::ToLineAndColumn((line, column)),
                    ),
                    _ => SequenceCommand::Unhandled,
                },
                _ => SequenceCommand::Unhandled,
            }
        } else {
            SequenceCommand::Unhandled
        }
    }
}

} // verus!
