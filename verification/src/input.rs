//! Reading an operator's commands: the yes-or-no answer, the line of
//! coordinates, and the small dialogue that ties the two together.
//!
//! Text is taken as bytes. A line is cut into tokens at ASCII whitespace,
//! and a token is a number if it is an optional sign followed by decimal
//! digits whose value fits an `i32`.

use crate::world::CellEdit;
use vstd::prelude::*;
use vstd::string::StringSliceAdditionalSpecFns;

verus! {

/// Why a line of coordinates was not understood.
#[derive(Debug, Clone, Copy, PartialEq, Eq, Structural)]
pub enum InputError {
    /// Some token of the line is not a number that fits an `i32`.
    MalformedNumber,
    /// The line holds fewer than two numbers.
    TooFewCoordinates,
}

/// Where the dialogue with the operator stands.
#[derive(Debug, Clone, Copy, PartialEq, Eq, Structural)]
pub enum InputState {
    /// The operator was asked whether to add a cell.
    AwaitingAnswer,
    /// The operator was asked for the coordinates of the new cell.
    AwaitingCoordinates,
}

/// What the front end does after a line was read.
#[derive(Debug, Clone, Copy, PartialEq, Eq, Structural)]
pub enum InputAction {
    /// Nothing is to be added: the dialogue is over.
    Done,
    /// Ask for the coordinates and read another line.
    AskCoordinates,
    /// Hand this edit to the world: the dialogue is over.
    Edit(CellEdit),
    /// Tell the operator what was wrong with the line: the dialogue is over.
    Report(InputError),
}

impl InputError {
    /// The text of `message`.
    pub open spec fn message_text(self) -> Seq<char> {
        match self {
            InputError::MalformedNumber => "failed to parse input to number"@,
            InputError::TooFewCoordinates => "At least 2 coordinates should be provided"@,
        }
    }

    /// A sentence that says what was wrong with the line.
    pub fn message(&self) -> (text: &'static str)
        ensures
            text@ == self.message_text(),
    {
        match self {
            InputError::MalformedNumber => "failed to parse input to number",
            InputError::TooFewCoordinates => "At least 2 coordinates should be provided",
        }
    }
}

/// ASCII whitespace: space, tab, line feed, form feed, carriage return.
pub open spec fn is_space(b: u8) -> bool {
    b == 0x20 || b == 0x09 || b == 0x0a || b == 0x0c || b == 0x0d
}

/// An ASCII decimal digit.
pub open spec fn is_digit(b: u8) -> bool {
    0x30 <= b <= 0x39
}

/// The first byte at or after `i` that is not whitespace, if there is one.
pub open spec fn first_visible(s: Seq<u8>, i: int) -> Option<u8>
    decreases s.len() - i,
{
    if i < 0 || i >= s.len() {
        None
    } else if is_space(s[i]) {
        first_visible(s, i + 1)
    } else {
        Some(s[i])
    }
}

/// An answer counts as yes if its first visible byte is `y` or `Y`, and
/// also if it is blank.
pub open spec fn affirmative(s: Seq<u8>) -> bool {
    match first_visible(s, 0) {
        None => true,
        Some(b) => b == 0x79 || b == 0x59,
    }
}

/// Where the run of bytes without whitespace that holds `i` ends: the first
/// index at or after `i` with whitespace, or the length.
pub open spec fn token_end(s: Seq<u8>, i: int) -> int
    decreases s.len() - i,
{
    if i < 0 || i >= s.len() {
        i
    } else if is_space(s[i]) {
        i
    } else {
        token_end(s, i + 1)
    }
}

/// Whether a token starts at `i`: a visible byte that follows whitespace
/// or the start of the text.
pub open spec fn token_starts(s: Seq<u8>, i: int) -> bool {
    0 <= i < s.len() && !is_space(s[i]) && (i == 0 || is_space(s[i - 1]))
}

/// The tokens that start at or after `i`, in order.
pub open spec fn tokens_from(s: Seq<u8>, i: int) -> Seq<Seq<u8>>
    decreases s.len() - i,
{
    if i < 0 || i >= s.len() {
        Seq::empty()
    } else if token_starts(s, i) {
        seq![s.subrange(i, token_end(s, i))] + tokens_from(s, i + 1)
    } else {
        tokens_from(s, i + 1)
    }
}

/// The tokens of a text: its maximal runs of bytes without whitespace.
pub open spec fn tokens(s: Seq<u8>) -> Seq<Seq<u8>> {
    tokens_from(s, 0)
}

/// Every byte of `d` is a digit.
pub open spec fn all_digits(d: Seq<u8>) -> bool {
    forall|i: int| 0 <= i < d.len() ==> is_digit(#[trigger] d[i])
}

/// The number that a run of digits writes in base ten.
pub open spec fn digits_value(d: Seq<u8>) -> nat
    decreases d.len(),
{
    if d.len() == 0 {
        0
    } else {
        digits_value(d.drop_last()) * 10 + (d.last() - 0x30) as nat
    }
}

/// The integer that a token writes: an optional `+` or `-`, then at least
/// one digit and nothing else.
pub open spec fn token_number(t: Seq<u8>) -> Option<int> {
    if t.len() > 0 && (t[0] == 0x2b || t[0] == 0x2d) {
        let d = t.subrange(1, t.len() as int);
        if d.len() > 0 && all_digits(d) {
            Some(
                if t[0] == 0x2d {
                    -(digits_value(d) as int)
                } else {
                    digits_value(d) as int
                },
            )
        } else {
            None
        }
    } else if t.len() > 0 && all_digits(t) {
        Some(digits_value(t) as int)
    } else {
        None
    }
}

/// The `i32` that a token writes, if it writes an integer in that range.
pub open spec fn token_i32(t: Seq<u8>) -> Option<i32> {
    match token_number(t) {
        Some(v) => if i32::MIN <= v <= i32::MAX {
            Some(v as i32)
        } else {
            None
        },
        None => None,
    }
}

/// Every token writes an `i32`.
pub open spec fn all_numbers(ts: Seq<Seq<u8>>) -> bool {
    forall|k: int| 0 <= k < ts.len() ==> token_i32(#[trigger] ts[k]) is Some
}

/// The numbers that the tokens write, in order.
pub open spec fn numbers(ts: Seq<Seq<u8>>) -> Seq<i32> {
    Seq::new(ts.len(), |k: int| token_i32(ts[k]).unwrap())
}

/// What a line of coordinates means: the first two numbers name the cell
/// to bring to life. Every token has to be a number, also those after the
/// second, which are otherwise ignored.
pub open spec fn edit_of(s: Seq<u8>) -> Result<CellEdit, InputError> {
    let ts = tokens(s);
    if !all_numbers(ts) {
        Err(InputError::MalformedNumber)
    } else if ts.len() < 2 {
        Err(InputError::TooFewCoordinates)
    } else {
        Ok(CellEdit { x: numbers(ts)[0], y: numbers(ts)[1], alive: true })
    }
}

/// One step of the dialogue: what follows from `line` in state `state`.
pub open spec fn dialogue(state: InputState, s: Seq<u8>) -> (InputState, InputAction) {
    match state {
        InputState::AwaitingAnswer => if affirmative(s) {
            (InputState::AwaitingCoordinates, InputAction::AskCoordinates)
        } else {
            (InputState::AwaitingAnswer, InputAction::Done)
        },
        InputState::AwaitingCoordinates => match edit_of(s) {
            Ok(edit) => (InputState::AwaitingAnswer, InputAction::Edit(edit)),
            Err(e) => (InputState::AwaitingAnswer, InputAction::Report(e)),
        },
    }
}

/// The largest magnitude that the digit loop tells apart; every value
/// above it is out of the range of an `i32` whatever the sign.
const CEILING: u64 = 4_000_000_000;

/// Whether `b` is ASCII whitespace.
fn space(b: u8) -> (r: bool)
    ensures
        r == is_space(b),
{
    b == 0x20 || b == 0x09 || b == 0x0a || b == 0x0c || b == 0x0d
}

/// Whether the operator's answer asks for a new cell.
pub fn wants_new_life(response: &str) -> (yes: bool)
    ensures
        yes == affirmative(response.spec_bytes()),
{
    let bytes = response.as_bytes();
    let mut i: usize = 0;
    while i < bytes.len()
        invariant
            i <= bytes.len(),
            bytes@ == response.spec_bytes(),
            first_visible(bytes@, 0) == first_visible(bytes@, i as int),
        decreases bytes.len() - i,
    {
        let b = bytes[i];
        if !space(b) {
            return b == 0x79 || b == 0x59;
        }
        i = i + 1;
    }
    true
}

/// The `i32` written by the token `bytes[start..end]`, if it writes one.
#[verifier::loop_isolation(false)]
fn parse_token(bytes: &[u8], start: usize, end: usize) -> (value: Option<i32>)
    requires
        start < end <= bytes@.len(),
    ensures
        value == token_i32(bytes@.subrange(start as int, end as int)),
{
    let ghost t = bytes@.subrange(start as int, end as int);
    let first = bytes[start];
    let negative = first == 0x2d;
    let signed = first == 0x2d || first == 0x2b;
    let from = if signed {
        start + 1
    } else {
        start
    };
    let ghost d = bytes@.subrange(from as int, end as int);
    proof {
        assert(t[0] == first);
        if signed {
            assert(d =~= t.subrange(1, t.len() as int));
        } else {
            assert(d =~= t);
        }
    }
    if from == end {
        return None;
    }
    let mut acc: u64 = 0;
    let mut i: usize = from;
    assert(bytes@.subrange(from as int, from as int).len() == 0);
    while i < end
        invariant
            from <= i <= end <= bytes@.len(),
            d == bytes@.subrange(from as int, end as int),
            all_digits(bytes@.subrange(from as int, i as int)),
            acc <= CEILING,
            acc == if digits_value(bytes@.subrange(from as int, i as int)) < CEILING {
                digits_value(bytes@.subrange(from as int, i as int))
            } else {
                CEILING as nat
            },
        decreases end - i,
    {
        let b = bytes[i];
        if b < 0x30 || b > 0x39 {
            assert(d[i - from] == b);
            return None;
        }
        proof {
            let next = bytes@.subrange(from as int, i + 1);
            assert(next.drop_last() =~= bytes@.subrange(from as int, i as int));
            assert(next.last() == b);
            assert forall|k: int| 0 <= k < next.len() implies is_digit(#[trigger] next[k]) by {
                if k < next.len() - 1 {
                    assert(next[k] == bytes@.subrange(from as int, i as int)[k]);
                }
            }
        }
        acc = acc * 10 + (b - 0x30) as u64;
        if acc > CEILING {
            acc = CEILING;
        }
        i = i + 1;
    }
    if negative {
        if acc > 2147483648 {
            None
        } else {
            Some((0 - acc as i64) as i32)
        }
    } else {
        if acc > 2147483647 {
            None
        } else {
            Some(acc as i32)
        }
    }
}

/// No token starts strictly inside a token.
proof fn lemma_tokens_skip(s: Seq<u8>, i: int, j: int)
    requires
        0 <= i < j <= s.len(),
        forall|k: int| i <= k < j ==> !is_space(#[trigger] s[k]),
    ensures
        tokens_from(s, i + 1) == tokens_from(s, j),
    decreases j - i,
{
    if i + 1 < j {
        assert(!is_space(s[i]));
        assert(!token_starts(s, i + 1));
        lemma_tokens_skip(s, i + 1, j);
    }
}

/// The numbers written on a line, in order.
///
/// Fails with `MalformedNumber` exactly when some token of the line does
/// not write an `i32`.
pub fn parse_coordinates(line: &str) -> (result: Result<Vec<i32>, InputError>)
    ensures
        match result {
            Ok(values) => all_numbers(tokens(line.spec_bytes())) && values@ == numbers(
                tokens(line.spec_bytes()),
            ),
            Err(e) => e == InputError::MalformedNumber && !all_numbers(tokens(line.spec_bytes())),
        },
{
    let bytes = line.as_bytes();
    let ghost s = bytes@;
    let mut values: Vec<i32> = Vec::new();
    let ghost mut done: Seq<Seq<u8>> = Seq::empty();
    let mut i: usize = 0;
    while i < bytes.len()
        invariant
            s == bytes@,
            s == line.spec_bytes(),
            i <= bytes.len(),
            i == 0 || i == s.len() || is_space(s[i - 1]) || is_space(s[i as int]),
            tokens(s) == done + tokens_from(s, i as int),
            all_numbers(done),
            values@ == numbers(done),
        decreases bytes.len() - i,
    {
        if space(bytes[i]) {
            i = i + 1;
        } else {
            let start = i;
            let mut end = i + 1;
            while end < bytes.len() && !space(bytes[end])
                invariant
                    s == bytes@,
                    start < end <= bytes.len(),
                    forall|k: int| start <= k < end ==> !is_space(#[trigger] s[k]),
                    token_end(s, start as int) == token_end(s, end as int),
                decreases bytes.len() - end,
            {
                end = end + 1;
            }
            let ghost token = s.subrange(start as int, end as int);
            proof {
                assert(token_starts(s, start as int));
                assert(token_end(s, end as int) == end);
                lemma_tokens_skip(s, start as int, end as int);
                assert(tokens(s) =~= done.push(token) + tokens_from(s, end as int));
            }
            match parse_token(bytes, start, end) {
                Some(value) => {
                    values.push(value);
                    proof {
                        let grown = done.push(token);
                        assert forall|k: int| 0 <= k < grown.len() implies token_i32(
                            #[trigger] grown[k],
                        ) is Some by {
                            if k < done.len() {
                                assert(grown[k] == done[k]);
                            }
                        }
                        assert(values@ =~= numbers(grown));
                        done = grown;
                    }
                },
                None => {
                    assert(tokens(s)[done.len() as int] == token);
                    return Err(InputError::MalformedNumber);
                },
            }
            i = end;
        }
    }
    proof {
        assert(tokens(s) =~= done);
    }
    Ok(values)
}

/// The edit that a line of coordinates asks for: a live cell at the first
/// two numbers of the line.
///
/// Fails with `MalformedNumber` where some token is not an `i32`, and with
/// `TooFewCoordinates` where all are but there are fewer than two.
pub fn parse_cell_edit(line: &str) -> (result: Result<CellEdit, InputError>)
    ensures
        result == edit_of(line.spec_bytes()),
{
    match parse_coordinates(line) {
        Ok(coordinates) => {
            if coordinates.len() < 2 {
                Err(InputError::TooFewCoordinates)
            } else {
                Ok(CellEdit { x: coordinates[0], y: coordinates[1], alive: true })
            }
        },
        Err(e) => Err(e),
    }
}

/// One step of the dialogue with the operator: given where the dialogue
/// stands and the line that was read, where it goes and what to do.
pub fn handle_input(state: InputState, line: &str) -> (next: (InputState, InputAction))
    ensures
        next == dialogue(state, line.spec_bytes()),
{
    match state {
        InputState::AwaitingAnswer => {
            if wants_new_life(line) {
                (InputState::AwaitingCoordinates, InputAction::AskCoordinates)
            } else {
                (InputState::AwaitingAnswer, InputAction::Done)
            }
        },
        InputState::AwaitingCoordinates => {
            match parse_cell_edit(line) {
                Ok(edit) => (InputState::AwaitingAnswer, InputAction::Edit(edit)),
                Err(e) => (InputState::AwaitingAnswer, InputAction::Report(e)),
            }
        },
    }
}

} // verus!
