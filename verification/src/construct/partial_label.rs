//! The label of a definition or a reference: text between square brackets.
//!
//! ```bnf
//! ; Restriction: at most 999 bytes between the brackets.
//! ; Restriction: no blank line.
//! ; Restriction: at least one byte that is neither a space, a tab nor a
//! ; line ending.
//! label ::= '[' *( label_text | label_escape ) ']'
//! label_text ::= byte - '[' - '\\' - ']'
//! label_escape ::= '\\' [ '[' | '\\' | ']' ]
//! ```
//!
//! A label may run over several lines.  The line endings in it, and the
//! indent of the lines after them, count neither toward the 999 bytes nor as
//! content.
//!
//! The construct fills the three token slots of the scratch register: the
//! first is the kind of the whole label, the second that of its brackets, the
//! third that of what stands between them.  The text itself becomes runs of
//! [`Token::Data`] that are read again as strings and linked to each other
//! across line endings.

use vstd::prelude::*;
use crate::constant::{
    BACKSLASH, LEFT_SQUARE_BRACKET, LINE_FEED, LINK_REFERENCE_SIZE_MAX, RIGHT_SQUARE_BRACKET,
    SPACE, TAB,
};
use crate::construct::partial_space_or_tab::{
    enter_linked, eol_end, eol_matches, fits, in_run, is_eol_or_eof, is_space_or_tab,
    lemma_enter_linked, lemma_enter_linked_since, lemma_exit_run, lemma_run_eol,
    lemma_space_or_tab_end_grows, lemma_unit_enter, lemma_unit_exit, space_or_tab_end,
    space_or_tab_eol_with_options, unit_open, unit_ready, EolOptions, SpaceOrTabEol,
};
use crate::event::{byte_at, ContentType};
use crate::subtokenize::{
    ends_in_run, lemma_linked_links_wf, lemma_unit_text_below, link, unit_text,
};
use crate::token::Token;
use crate::tokenizer::{
    attempt_spec, run_spec, Construct, State, StateName, TokenizeState, Tokenizer, TokenizerView,
};

verus! {

/// The label construct.
#[derive(Clone, Copy, Debug, PartialEq, Eq)]
pub struct Label;

/// `byte` can be escaped in a label: it is a bracket or a backslash.
pub open spec fn is_escapable(byte: Option<u8>) -> bool {
    ||| byte == Some(LEFT_SQUARE_BRACKET)
    ||| byte == Some(BACKSLASH)
    ||| byte == Some(RIGHT_SQUARE_BRACKET)
}

/// Where the text of a label that is read from `index` on ends: the place
/// after its closing bracket, or `None` where no label can be read.
///
/// `size` bytes of the text were read before `index`, and `seen` says
/// whether one of them was something other than a space or a tab.
///
/// A line ending with the whitespace around it always ends after the place
/// where it starts ([`lemma_eol_end_after`]); that this is asked for again
/// only shows that the scan comes to an end.
pub open spec fn label_scan(input: Seq<u8>, index: int, size: int, seen: bool) -> Option<int>
    decreases input.len() - index,
{
    if size > LINK_REFERENCE_SIZE_MAX || !(0 <= index < input.len()) {
        None
    } else if input[index] == LEFT_SQUARE_BRACKET {
        None
    } else if input[index] == RIGHT_SQUARE_BRACKET {
        if seen {
            Some(index + 1)
        } else {
            None
        }
    } else if input[index] == LINE_FEED {
        let end = eol_end(input, index);
        if eol_matches(input, index) && index < end {
            label_scan(input, end, size, seen)
        } else {
            None
        }
    } else if input[index] == BACKSLASH && is_escapable(byte_at(input, index + 1)) {
        label_scan(input, index + 2, size + 2, true)
    } else {
        label_scan(
            input,
            index + 1,
            size + 1,
            seen || !(input[index] == SPACE || input[index] == TAB),
        )
    }
}

/// Where the label that starts at `index` ends: the place after its closing
/// bracket, or `None` where no label starts at `index`.
pub open spec fn label_end(input: Seq<u8>, index: int) -> Option<int> {
    if byte_at(input, index) == Some(LEFT_SQUARE_BRACKET) {
        label_scan(input, index + 1, 0, false)
    } else {
        None
    }
}

/// The construct that a label tries at a line ending.
pub open spec fn eol_construct(connect: bool) -> SpaceOrTabEol {
    SpaceOrTabEol {
        options: EolOptions { content_type: Some(ContentType::String), connect },
    }
}

/// A run of data cannot go on here: the label is too long already, or the
/// input has ended, or a line ending or a bracket stands here.
pub open spec fn at_stop(tokenizer: TokenizerView) -> bool {
    ||| tokenizer.tokenize_state.size > LINK_REFERENCE_SIZE_MAX
    ||| tokenizer.current is None
    ||| tokenizer.current == Some(LINE_FEED)
    ||| tokenizer.current == Some(LEFT_SQUARE_BRACKET)
    ||| tokenizer.current == Some(RIGHT_SQUARE_BRACKET)
}

/// The two spans of a label are open: the label, and in it its text.
pub open spec fn in_label(tokenizer: TokenizerView) -> bool {
    let stack = tokenizer.stack;
    &&& stack.len() >= 2
    &&& stack[stack.len() - 1] == tokenizer.tokenize_state.token_3
    &&& stack[stack.len() - 2] == tokenizer.tokenize_state.token_1
}

/// A run of data is open in the text of a label, and nothing was recorded
/// since it was opened.
pub open spec fn in_label_data(tokenizer: TokenizerView) -> bool {
    let stack = tokenizer.stack;
    &&& stack.len() >= 3
    &&& stack[stack.len() - 2] == tokenizer.tokenize_state.token_3
    &&& stack[stack.len() - 3] == tokenizer.tokenize_state.token_1
    &&& in_run(tokenizer, Token::Data, Some(ContentType::String))
    &&& tokenizer.tokenize_state.connect
}

/// What must hold for the label to take a step in the state `name`.
pub open spec fn label_inv(name: StateName, tokenizer: TokenizerView) -> bool {
    match name {
        StateName::LabelStart => tokenizer.tokenize_state.at_rest(),
        StateName::LabelAtBreak => {
            &&& in_label(tokenizer)
            &&& tokenizer.tokenize_state.connect ==> ends_in_run(
                tokenizer.events,
                Some(ContentType::String),
            )
        },
        StateName::LabelInside => in_label_data(tokenizer),
        StateName::LabelEscape => {
            &&& in_label_data(tokenizer)
            &&& tokenizer.tokenize_state.size <= LINK_REFERENCE_SIZE_MAX + 1
        },
        _ => false,
    }
}

/// A step that goes on has taken a byte and left the tokenizer fit for the
/// state it names.
pub open spec fn advances(state: State, before: TokenizerView, after: TokenizerView) -> bool {
    match state {
        State::Next(next) => label_inv(next, after) && before.point.index < after.point.index,
        _ => true,
    }
}

/// What a step before a label comes to.
pub open spec fn start_spec(tokenizer: TokenizerView) -> (State, TokenizerView) {
    let state = tokenizer.tokenize_state;
    if tokenizer.current == Some(LEFT_SQUARE_BRACKET) {
        (
            State::Next(StateName::LabelAtBreak),
            tokenizer.enter(state.token_1).enter(state.token_2).consume().exit(state.token_2).enter(
                state.token_3,
            ),
        )
    } else {
        (State::Nok, tokenizer)
    }
}

/// What a step between two runs of data comes to.
pub open spec fn at_break_spec(tokenizer: TokenizerView) -> (State, TokenizerView)
    decreases tokenizer.remaining(), (if at_stop(tokenizer) {
            0int
        } else {
            2int
        }),
{
    let state = tokenizer.tokenize_state;
    if state.size > LINK_REFERENCE_SIZE_MAX || tokenizer.current is None || tokenizer.current
        == Some(LEFT_SQUARE_BRACKET) || (tokenizer.current == Some(RIGHT_SQUARE_BRACKET)
        && !state.seen) {
        (State::Nok, tokenizer.with_state(state.cleared()))
    } else if tokenizer.current == Some(LINE_FEED) {
        let (ok, after) = run_spec(
            &eol_construct(state.connect),
            StateName::SpaceOrTabEolStart,
            tokenizer,
        );
        if ok {
            if 0 <= after.remaining() < tokenizer.remaining() {
                after_eol_spec(after)
            } else {
                (State::Nok, after)
            }
        } else {
            at_blank_line_spec(tokenizer)
        }
    } else if tokenizer.current == Some(RIGHT_SQUARE_BRACKET) {
        (
            State::Okay,
            tokenizer.exit(state.token_3).enter(state.token_2).consume().exit(state.token_2).exit(
                state.token_1,
            ).with_state(state.cleared()),
        )
    } else {
        label_spec(
            enter_linked(
                tokenizer,
                Token::Data,
                Some(ContentType::String),
                state.connect,
            ).with_state(TokenizeState { connect: true, ..state }),
        )
    }
}

/// What the label comes to after a line ending that no blank line follows.
pub open spec fn after_eol_spec(tokenizer: TokenizerView) -> (State, TokenizerView)
    decreases tokenizer.remaining(), 3int,
{
    at_break_spec(
        tokenizer.with_state(TokenizeState { connect: true, ..tokenizer.tokenize_state }),
    )
}

/// What the label comes to at a line ending that a blank line follows.
pub open spec fn at_blank_line_spec(tokenizer: TokenizerView) -> (State, TokenizerView) {
    (
        State::Nok,
        tokenizer.with_state(TokenizeState { marker: 0, ..tokenizer.tokenize_state.cleared() }),
    )
}

/// What a step in a run of data comes to.
pub open spec fn label_spec(tokenizer: TokenizerView) -> (State, TokenizerView)
    decreases tokenizer.remaining(), 1int,
{
    let state = tokenizer.tokenize_state;
    if at_stop(tokenizer) {
        at_break_spec(tokenizer.exit(Token::Data))
    } else {
        (
            State::Next(
                if tokenizer.current == Some(BACKSLASH) {
                    StateName::LabelEscape
                } else {
                    StateName::LabelInside
                },
            ),
            tokenizer.consume().with_state(
                TokenizeState {
                    size: (state.size + 1) as usize,
                    seen: state.seen || !is_space_or_tab(tokenizer.current),
                    ..state
                },
            ),
        )
    }
}

/// What a step after a backslash comes to.
pub open spec fn escape_spec(tokenizer: TokenizerView) -> (State, TokenizerView)
    decreases tokenizer.remaining(), 2int,
{
    let state = tokenizer.tokenize_state;
    if is_escapable(tokenizer.current) {
        (
            State::Next(StateName::LabelInside),
            tokenizer.consume().with_state(
                TokenizeState { size: (state.size + 1) as usize, ..state },
            ),
        )
    } else {
        label_spec(tokenizer)
    }
}

/// Before a label.
///
/// At `[` the label opens: the label and its opening bracket are entered,
/// the bracket is taken and closed, the text is entered, and the label goes
/// on between two runs of data.  At any other byte, and at the end of the
/// input, there is no label, and nothing is recorded.
///
/// The scratch register must be at rest, with its three token slots bound.
///
/// ```markdown
/// > | [a]
///     ^
/// ```
pub fn start(tokenizer: &mut Tokenizer) -> (state: State)
    requires
        old(tokenizer).wf(),
        label_inv(StateName::LabelStart, old(tokenizer)@),
    ensures
        (state, final(tokenizer)@) == start_spec(old(tokenizer)@),
        final(tokenizer).wf(),
        final(tokenizer)@.extends(old(tokenizer)@),
        advances(state, old(tokenizer)@, final(tokenizer)@),
{
    if tokenizer.at(LEFT_SQUARE_BRACKET) {
        tokenizer.enter(tokenizer.tokenize_state.token_1);
        let ghost entered = tokenizer@;
        tokenizer.enter(tokenizer.tokenize_state.token_2);
        let ghost marked = tokenizer@;
        tokenizer.consume();
        let ghost consumed = tokenizer@;
        tokenizer.exit(tokenizer.tokenize_state.token_2);
        let ghost exited = tokenizer@;
        tokenizer.enter(tokenizer.tokenize_state.token_3);
        proof {
            marked.lemma_extends_trans(entered, old(tokenizer)@);
            consumed.lemma_extends_trans(marked, old(tokenizer)@);
            exited.lemma_extends_trans(consumed, old(tokenizer)@);
            tokenizer@.lemma_extends_trans(exited, old(tokenizer)@);
            assert(exited.stack =~= entered.stack);
        }
        State::Next(StateName::LabelAtBreak)
    } else {
        proof {
            tokenizer@.lemma_extends_self();
        }
        State::Nok
    }
}

/// In a label, between two runs of data.
///
/// The label fails here, and puts the scratch register to rest, where it has
/// grown over 999 bytes, where the input ends, at `[`, and at `]` as long as
/// nothing but spaces and tabs was met.
///
/// At a line ending it tries the line ending with the whitespace around it.
/// Where a blank line follows, the label fails.  Else it goes on behind the
/// whitespace, and what follows is linked to what came before.
///
/// At `]` after content the label is complete: the text is closed, the
/// bracket is entered, taken and closed, the label is closed, and the
/// scratch register is put to rest.
///
/// At any other byte a run of data opens, linked to the run before it where
/// there is one, and takes that byte.
///
/// ```markdown
/// > | [a]
///      ^
/// ```
pub fn at_break(tokenizer: &mut Tokenizer) -> (state: State)
    requires
        old(tokenizer).wf(),
        label_inv(StateName::LabelAtBreak, old(tokenizer)@),
    ensures
        (state, final(tokenizer)@) == at_break_spec(old(tokenizer)@),
        final(tokenizer).wf(),
        final(tokenizer)@.extends(old(tokenizer)@),
        advances(state, old(tokenizer)@, final(tokenizer)@),
    decreases old(tokenizer)@.remaining(), (if at_stop(old(tokenizer)@) {
            0int
        } else {
            2int
        }),
{
    if tokenizer.tokenize_state.size > LINK_REFERENCE_SIZE_MAX || tokenizer.current.is_none()
        || tokenizer.at(LEFT_SQUARE_BRACKET) || (tokenizer.at(RIGHT_SQUARE_BRACKET)
        && !tokenizer.tokenize_state.seen) {
        proof {
            tokenizer@.lemma_extends_self();
        }
        tokenizer.tokenize_state.connect = false;
        tokenizer.tokenize_state.seen = false;
        tokenizer.tokenize_state.size = 0;
        State::Nok
    } else if tokenizer.at(LINE_FEED) {
        let construct = space_or_tab_eol_with_options(
            EolOptions {
                content_type: Some(ContentType::String),
                connect: tokenizer.tokenize_state.connect,
            },
        );
        proof {
            tokenizer@.lemma_open_since_start();
            lemma_run_eol(construct, tokenizer@, 0, 0);
        }
        let ok = tokenizer.attempt(&construct, StateName::SpaceOrTabEolStart);
        if ok {
            let ghost matched = tokenizer@;
            let state = after_eol(tokenizer);
            proof {
                tokenizer@.lemma_extends_trans(matched, old(tokenizer)@);
            }
            state
        } else {
            at_blank_line(tokenizer)
        }
    } else if tokenizer.at(RIGHT_SQUARE_BRACKET) {
        tokenizer.exit(tokenizer.tokenize_state.token_3);
        let ghost closed = tokenizer@;
        tokenizer.enter(tokenizer.tokenize_state.token_2);
        let ghost marked = tokenizer@;
        tokenizer.consume();
        let ghost consumed = tokenizer@;
        tokenizer.exit(tokenizer.tokenize_state.token_2);
        let ghost exited = tokenizer@;
        proof {
            assert(exited.stack =~= closed.stack);
        }
        tokenizer.exit(tokenizer.tokenize_state.token_1);
        proof {
            marked.lemma_extends_trans(closed, old(tokenizer)@);
            consumed.lemma_extends_trans(marked, old(tokenizer)@);
            exited.lemma_extends_trans(consumed, old(tokenizer)@);
            tokenizer@.lemma_extends_trans(exited, old(tokenizer)@);
        }
        tokenizer.tokenize_state.connect = false;
        tokenizer.tokenize_state.seen = false;
        tokenizer.tokenize_state.size = 0;
        State::Okay
    } else {
        proof {
            lemma_enter_linked(
                tokenizer@,
                Token::Data,
                Some(ContentType::String),
                tokenizer@.tokenize_state.connect,
            );
        }
        tokenizer.enter_with_content(Token::Data, Some(ContentType::String));

        if tokenizer.tokenize_state.connect {
            let index = tokenizer.events.len() - 1;
            proof {
                lemma_linked_links_wf(tokenizer.events@, index - 2, index as int);
            }
            link(&mut tokenizer.events, index);
        } else {
            tokenizer.tokenize_state.connect = true;
        }

        let ghost entered = tokenizer@;
        let state = label(tokenizer);
        proof {
            tokenizer@.lemma_extends_trans(entered, old(tokenizer)@);
        }
        state
    }
}

/// In a label, after a line ending that no blank line follows.
///
/// Whatever opens next continues the line ending, or the whitespace after
/// it; the label goes on as between two runs of data.
///
/// ```markdown
///   | [a
/// > | b]
///     ^
/// ```
pub fn after_eol(tokenizer: &mut Tokenizer) -> (state: State)
    requires
        old(tokenizer).wf(),
        in_label(old(tokenizer)@),
        ends_in_run(old(tokenizer)@.events, Some(ContentType::String)),
    ensures
        (state, final(tokenizer)@) == after_eol_spec(old(tokenizer)@),
        final(tokenizer).wf(),
        final(tokenizer)@.extends(old(tokenizer)@),
        advances(state, old(tokenizer)@, final(tokenizer)@),
    decreases old(tokenizer)@.remaining(), 3int,
{
    tokenizer.tokenize_state.connect = true;
    at_break(tokenizer)
}

/// In a label, at a line ending that a blank line follows.
///
/// The label fails, and the scratch register is put to rest, its marker
/// with it.
///
/// ```markdown
/// > | [a
///       ^
///   |
/// ```
pub fn at_blank_line(tokenizer: &mut Tokenizer) -> (state: State)
    requires
        old(tokenizer).wf(),
    ensures
        (state, final(tokenizer)@) == at_blank_line_spec(old(tokenizer)@),
        final(tokenizer).wf(),
        state == State::Nok,
{
    tokenizer.tokenize_state.marker = 0;
    tokenizer.tokenize_state.connect = false;
    tokenizer.tokenize_state.seen = false;
    tokenizer.tokenize_state.size = 0;
    State::Nok
}

/// In a label, in a run of data.
///
/// At the end of the input, at a line ending and at a bracket the run is
/// closed, and so it is once the label has grown over 999 bytes; the label
/// goes on as between two runs of data.  Any other byte is taken and
/// counted, and it is content unless it is a space or a tab.  After a
/// backslash the label goes on in the escape, after anything else in the
/// run.
///
/// ```markdown
/// > | [a]
///      ^
/// ```
pub fn label(tokenizer: &mut Tokenizer) -> (state: State)
    requires
        old(tokenizer).wf(),
        label_inv(StateName::LabelInside, old(tokenizer)@),
    ensures
        (state, final(tokenizer)@) == label_spec(old(tokenizer)@),
        final(tokenizer).wf(),
        final(tokenizer)@.extends(old(tokenizer)@),
        advances(state, old(tokenizer)@, final(tokenizer)@),
    decreases old(tokenizer)@.remaining(), 1int,
{
    match tokenizer.current {
        Some(byte) if byte != LINE_FEED && byte != LEFT_SQUARE_BRACKET && byte
            != RIGHT_SQUARE_BRACKET && tokenizer.tokenize_state.size <= LINK_REFERENCE_SIZE_MAX => {
            tokenizer.consume();
            tokenizer.tokenize_state.size = tokenizer.tokenize_state.size + 1;
            if !tokenizer.tokenize_state.seen && byte != TAB && byte != SPACE {
                tokenizer.tokenize_state.seen = true;
            }
            if byte == BACKSLASH {
                State::Next(StateName::LabelEscape)
            } else {
                State::Next(StateName::LabelInside)
            }
        },
        _ => {
            proof {
                lemma_exit_run(tokenizer@, Token::Data, Some(ContentType::String));
                assert(tokenizer@.exit(Token::Data).stack =~= tokenizer@.stack.drop_last());
            }
            tokenizer.exit(Token::Data);
            let ghost exited = tokenizer@;
            let state = at_break(tokenizer);
            proof {
                tokenizer@.lemma_extends_trans(exited, old(tokenizer)@);
            }
            state
        },
    }
}

/// In a label, after `\`.
///
/// A bracket or a backslash is taken and counted as data, whatever it would
/// mean without the backslash before it.  Any other byte is left to the run
/// of data, as if no backslash had been there.
///
/// ```markdown
/// > | [a\*a]
///        ^
/// ```
pub fn escape(tokenizer: &mut Tokenizer) -> (state: State)
    requires
        old(tokenizer).wf(),
        label_inv(StateName::LabelEscape, old(tokenizer)@),
    ensures
        (state, final(tokenizer)@) == escape_spec(old(tokenizer)@),
        final(tokenizer).wf(),
        final(tokenizer)@.extends(old(tokenizer)@),
        advances(state, old(tokenizer)@, final(tokenizer)@),
    decreases old(tokenizer)@.remaining(), 2int,
{
    if tokenizer.at(LEFT_SQUARE_BRACKET) || tokenizer.at(BACKSLASH) || tokenizer.at(
        RIGHT_SQUARE_BRACKET,
    ) {
        tokenizer.consume();
        tokenizer.tokenize_state.size = tokenizer.tokenize_state.size + 1;
        State::Next(StateName::LabelInside)
    } else {
        label(tokenizer)
    }
}

/// Tries a label at the tokenizer's place.
///
/// A label is there exactly where [`label_end`] names its end.  Then the
/// tokenizer is moved to that end, with the events of the label added, every
/// span of it closed, and the scratch register at rest again; and the runs
/// that the label has linked are, one after the other, what stands between
/// its brackets.  Where no label is there, the tokenizer is left as it was.
pub fn attempt(tokenizer: &mut Tokenizer) -> (ok: bool)
    requires
        old(tokenizer).wf(),
        old(tokenizer)@.tokenize_state.at_rest(),
    ensures
        (ok, final(tokenizer)@) == attempt_spec(
            &Label,
            StateName::LabelStart,
            old(tokenizer)@,
        ),
        ok == (label_end(old(tokenizer)@.input, old(tokenizer)@.point.index as int) is Some),
        ok ==> label_post(
            old(tokenizer)@,
            label_end(old(tokenizer)@.input, old(tokenizer)@.point.index as int),
            true,
            final(tokenizer)@,
        ),
        ok ==> label_text(final(tokenizer)@) == old(tokenizer)@.input.subrange(
            old(tokenizer)@.point.index + 1,
            final(tokenizer)@.point.index - 1,
        ),
        !ok ==> final(tokenizer)@ == old(tokenizer)@,
        final(tokenizer).wf(),
{
    proof {
        lemma_label(tokenizer@);
    }
    let ok = tokenizer.attempt(&Label, StateName::LabelStart);
    assert(fits(tokenizer@)) by {
        assert(tokenizer.events@.len() == tokenizer.events.len());
    }
    ok
}

impl Construct for Label {
    open spec fn inv(&self, name: StateName, tokenizer: TokenizerView) -> bool {
        label_inv(name, tokenizer)
    }

    open spec fn step_spec(&self, name: StateName, tokenizer: TokenizerView) -> (
        State,
        TokenizerView,
    ) {
        match name {
            StateName::LabelStart => start_spec(tokenizer),
            StateName::LabelAtBreak => at_break_spec(tokenizer),
            StateName::LabelInside => label_spec(tokenizer),
            StateName::LabelEscape => escape_spec(tokenizer),
            _ => (State::Nok, tokenizer),
        }
    }

    fn step(&self, tokenizer: &mut Tokenizer, name: StateName) -> (state: State) {
        match name {
            StateName::LabelStart => start(tokenizer),
            StateName::LabelAtBreak => at_break(tokenizer),
            StateName::LabelInside => label(tokenizer),
            StateName::LabelEscape => escape(tokenizer),
            _ => State::Nok,
        }
    }
}

/// Where the label that the tokenizer is in, in the state `name`, ends.
pub open spec fn label_rest(name: StateName, tokenizer: TokenizerView) -> Option<int> {
    let state = tokenizer.tokenize_state;
    let index = tokenizer.point.index as int;
    if name == StateName::LabelEscape && is_escapable(tokenizer.current) {
        label_scan(tokenizer.input, index + 1, state.size + 1, state.seen)
    } else {
        label_scan(tokenizer.input, index, state.size as int, state.seen)
    }
}

/// The spans that a label has open in the state `name`.
pub open spec fn opened(name: StateName, state: TokenizeState) -> Seq<Token> {
    if name == StateName::LabelAtBreak {
        seq![state.token_1, state.token_3]
    } else {
        seq![state.token_1, state.token_3, Token::Data]
    }
}

/// The tokenizer is in the label that started at `base`, in the state
/// `name`, and that label ends where `goal` says.  What it has linked so far
/// is the text from the opening bracket on.
pub open spec fn label_rel(
    name: StateName,
    base: TokenizerView,
    goal: Option<int>,
    tokenizer: TokenizerView,
) -> bool {
    let state = tokenizer.tokenize_state;
    let start = base.events.len() as int;
    &&& name != StateName::LabelStart
    &&& tokenizer.wf()
    &&& tokenizer.extends(base)
    &&& label_inv(name, tokenizer)
    &&& base.tokenize_state.at_rest()
    &&& state.token_1 == base.tokenize_state.token_1
    &&& state.token_2 == base.tokenize_state.token_2
    &&& state.token_3 == base.tokenize_state.token_3
    &&& state.marker == 0
    &&& start < tokenizer.events.len()
    &&& tokenizer.events[start] == base.enter_event(state.token_1, None)
    &&& tokenizer.open_since(start) == Some(opened(name, state))
    &&& tokenizer.stack =~= base.stack + opened(name, state)
    &&& base.point.index < tokenizer.point.index
    &&& label_rest(name, tokenizer) == goal
    &&& state.seen ==> state.connect
    &&& fits(tokenizer) ==> if name == StateName::LabelAtBreak {
        unit_ready(tokenizer, state.connect, base.point.index + 1)
    } else {
        unit_open(tokenizer, base.point.index + 1)
    }
}

/// The text of the label that the events of the tokenizer end with: the
/// bytes of the unit that ends with its last run.
pub open spec fn label_text(tokenizer: TokenizerView) -> Seq<u8> {
    unit_text(tokenizer.input, tokenizer.events, tokenizer.events.len() - 6)
}

/// What a label that started at `base` leaves behind: a sound tokenizer
/// with every earlier event and the scratch register as they were.  It
/// matched exactly where `goal` names an end, and then the tokenizer stands
/// at that end, and has one more span, the label, from its first byte to
/// its last, with every span in it closed.  The runs in it that are linked
/// to each other make up what stands between its brackets.
pub open spec fn label_post(
    base: TokenizerView,
    goal: Option<int>,
    ok: bool,
    after: TokenizerView,
) -> bool {
    &&& after.wf()
    &&& after.extends(base)
    &&& after.tokenize_state == base.tokenize_state
    &&& ok == (goal is Some)
    &&& ok ==> {
        &&& after.point.index == goal.unwrap()
        &&& after.added_span(base, base.tokenize_state.token_1)
        &&& fits(after) ==> label_text(after) == after.input.subrange(
            base.point.index + 1,
            after.point.index - 1,
        )
    }
}

/// What a step of a label that started at `base` leaves behind: where it
/// goes on, a tokenizer further in that label; where it ends, what a label
/// leaves behind.
pub open spec fn step_post(
    base: TokenizerView,
    goal: Option<int>,
    before: TokenizerView,
    step: (State, TokenizerView),
) -> bool {
    match step.0 {
        State::Next(next) => label_rel(next, base, goal, step.1) && 0 <= step.1.remaining()
            < before.remaining(),
        State::Okay => label_post(base, goal, true, step.1),
        State::Nok => label_post(base, goal, false, step.1),
    }
}

/// A line ending with the whitespace around it ends after the place where
/// it starts.
pub proof fn lemma_eol_end_after(input: Seq<u8>, index: int)
    requires
        eol_matches(input, index),
    ensures
        index < eol_end(input, index),
{
    lemma_space_or_tab_end_grows(input, index);
    lemma_space_or_tab_end_grows(input, space_or_tab_end(input, index) + 1);
}

/// A step between two runs of data does what a label does there.
pub proof fn lemma_step_at_break(base: TokenizerView, goal: Option<int>, tokenizer: TokenizerView)
    requires
        label_rel(StateName::LabelAtBreak, base, goal, tokenizer),
    ensures
        step_post(base, goal, tokenizer, at_break_spec(tokenizer)),
    decreases tokenizer.remaining(), (if at_stop(tokenizer) {
            0int
        } else {
            2int
        }),
{
    let state = tokenizer.tokenize_state;
    let start = base.events.len() as int;
    if state.size > LINK_REFERENCE_SIZE_MAX || tokenizer.current is None || tokenizer.current
        == Some(LEFT_SQUARE_BRACKET) || (tokenizer.current == Some(RIGHT_SQUARE_BRACKET)
        && !state.seen) {
    } else if tokenizer.current == Some(LINE_FEED) {
        let construct = eol_construct(state.connect);
        lemma_run_eol(construct, tokenizer, start, base.point.index + 1);
        let (ok, after) = run_spec(&construct, StateName::SpaceOrTabEolStart, tokenizer);
        if ok {
            let next = after.with_state(TokenizeState { connect: true, ..after.tokenize_state });
            after.lemma_extends_trans(tokenizer, base);
            assert(after.events[start] == after.events.take(tokenizer.events.len() as int)[start]);
            lemma_step_at_break(base, goal, next);
        }
    } else if tokenizer.current == Some(RIGHT_SQUARE_BRACKET) {
        lemma_close(base, goal, tokenizer);
    } else {
        let entered = enter_linked(tokenizer, Token::Data, Some(ContentType::String), state.connect);
        let next = entered.with_state(TokenizeState { connect: true, ..state });
        lemma_enter_linked(tokenizer, Token::Data, Some(ContentType::String), state.connect);
        lemma_enter_linked_since(
            tokenizer,
            Token::Data,
            Some(ContentType::String),
            state.connect,
            start,
        );
        entered.lemma_extends_trans(tokenizer, base);
        assert(entered.events[start] == entered.events.take(tokenizer.events.len() as int)[start]);
        assert(next.open_since(start).unwrap() =~= opened(StateName::LabelInside, state));
        if fits(next) {
            lemma_unit_enter(
                tokenizer,
                Token::Data,
                Some(ContentType::String),
                state.connect,
                base.point.index + 1,
            );
        }
        lemma_step_label(base, goal, next);
    }
}

/// At the closing bracket, after content, the label closes every span it
/// opened and ends after the bracket.
pub proof fn lemma_close(base: TokenizerView, goal: Option<int>, tokenizer: TokenizerView)
    requires
        label_rel(StateName::LabelAtBreak, base, goal, tokenizer),
        tokenizer.current == Some(RIGHT_SQUARE_BRACKET),
        tokenizer.tokenize_state.seen,
        tokenizer.tokenize_state.size <= LINK_REFERENCE_SIZE_MAX,
    ensures
        label_post(base, goal, true, at_break_spec(tokenizer).1),
        at_break_spec(tokenizer).0 == State::Okay,
{
    let state = tokenizer.tokenize_state;
    let start = base.events.len() as int;
    let closed = tokenizer.exit(state.token_3);
    tokenizer.lemma_exit(state.token_3);
    tokenizer.lemma_exit_since(state.token_3, start);
    assert(closed.open_since(start).unwrap() =~= seq![state.token_1]);
    let marked = closed.enter(state.token_2);
    closed.lemma_enter(state.token_2, None);
    closed.lemma_enter_since(state.token_2, None, start);
    let consumed = marked.consume();
    marked.lemma_consume();
    let exited = consumed.exit(state.token_2);
    consumed.lemma_exit(state.token_2);
    consumed.lemma_exit_since(state.token_2, start);
    assert(exited.open_since(start).unwrap() =~= seq![state.token_1]);
    assert(exited.stack =~= closed.stack);
    let done = exited.exit(state.token_1);
    exited.lemma_exit(state.token_1);
    exited.lemma_exit_since(state.token_1, start);
    assert(done.open_since(start).unwrap() =~= Seq::<Token>::empty());
    assert(done.stack =~= base.stack);
    closed.lemma_extends_trans(tokenizer, base);
    marked.lemma_extends_trans(closed, base);
    consumed.lemma_extends_trans(marked, base);
    exited.lemma_extends_trans(consumed, base);
    done.lemma_extends_trans(exited, base);
    assert(done.events[start] == done.events.take(tokenizer.events.len() as int)[start]);
    if fits(done) {
        done.lemma_extends_trans(exited, tokenizer);
        lemma_unit_text_below(
            tokenizer.input,
            tokenizer.events,
            done.events,
            tokenizer.events.len() as int,
            tokenizer.events.len() - 2,
        );
    }
}

/// A step in a run of data does what a label does there.
pub proof fn lemma_step_label(base: TokenizerView, goal: Option<int>, tokenizer: TokenizerView)
    requires
        label_rel(StateName::LabelInside, base, goal, tokenizer),
    ensures
        step_post(base, goal, tokenizer, label_spec(tokenizer)),
    decreases tokenizer.remaining(), 1int,
{
    let state = tokenizer.tokenize_state;
    let start = base.events.len() as int;
    if at_stop(tokenizer) {
        let exited = tokenizer.exit(Token::Data);
        lemma_exit_run(tokenizer, Token::Data, Some(ContentType::String));
        tokenizer.lemma_exit_since(Token::Data, start);
        exited.lemma_extends_trans(tokenizer, base);
        assert(exited.events[start] == exited.events.take(tokenizer.events.len() as int)[start]);
        assert(exited.open_since(start).unwrap() =~= opened(StateName::LabelAtBreak, state));
        assert(exited.stack =~= base.stack + opened(StateName::LabelAtBreak, state));
        if fits(exited) {
            lemma_unit_exit(tokenizer, Token::Data, base.point.index + 1);
        }
        lemma_step_at_break(base, goal, exited);
    } else {
        tokenizer.lemma_consume();
        tokenizer.consume().lemma_extends_trans(tokenizer, base);
    }
}

/// A step after a backslash does what a label does there.
pub proof fn lemma_step_escape(base: TokenizerView, goal: Option<int>, tokenizer: TokenizerView)
    requires
        label_rel(StateName::LabelEscape, base, goal, tokenizer),
    ensures
        step_post(base, goal, tokenizer, escape_spec(tokenizer)),
{
    if is_escapable(tokenizer.current) {
        tokenizer.lemma_consume();
        tokenizer.consume().lemma_extends_trans(tokenizer, base);
    } else {
        lemma_step_label(base, goal, tokenizer);
    }
}

/// From any state inside it, driving a label leaves behind what a label
/// leaves behind.
pub proof fn lemma_run_label(
    name: StateName,
    base: TokenizerView,
    goal: Option<int>,
    tokenizer: TokenizerView,
)
    requires
        label_rel(name, base, goal, tokenizer),
    ensures
        ({
            let (ok, after) = run_spec(&Label, name, tokenizer);
            label_post(base, goal, ok, after)
        }),
    decreases tokenizer.remaining(),
{
    match name {
        StateName::LabelAtBreak => lemma_step_at_break(base, goal, tokenizer),
        StateName::LabelInside => lemma_step_label(base, goal, tokenizer),
        StateName::LabelEscape => lemma_step_escape(base, goal, tokenizer),
        _ => {},
    }
    let (state, after) = Label.step_spec(name, tokenizer);
    if let State::Next(next) = state {
        lemma_run_label(next, base, goal, after);
    }
}

/// Driving the label construct from its start matches exactly where
/// [`label_end`] names an end.  Either way it leaves a sound tokenizer with
/// every earlier event and the scratch register as they were.  Where it
/// matched, the tokenizer stands at that end and has open what was open
/// before, and the events it added are one span from the label's first byte
/// to its last, in which every enter has its exit.
pub proof fn lemma_label(tokenizer: TokenizerView)
    requires
        tokenizer.wf(),
        tokenizer.tokenize_state.at_rest(),
    ensures
        ({
            let (ok, after) = run_spec(&Label, StateName::LabelStart, tokenizer);
            label_post(
                tokenizer,
                label_end(tokenizer.input, tokenizer.point.index as int),
                ok,
                after,
            )
        }),
{
    let state = tokenizer.tokenize_state;
    let start = tokenizer.events.len() as int;
    let goal = label_end(tokenizer.input, tokenizer.point.index as int);
    if tokenizer.current == Some(LEFT_SQUARE_BRACKET) {
        tokenizer.lemma_open_since_start();
        let entered = tokenizer.enter(state.token_1);
        tokenizer.lemma_enter(state.token_1, None);
        tokenizer.lemma_enter_since(state.token_1, None, start);
        let marked = entered.enter(state.token_2);
        entered.lemma_enter(state.token_2, None);
        entered.lemma_enter_since(state.token_2, None, start);
        let consumed = marked.consume();
        marked.lemma_consume();
        let exited = consumed.exit(state.token_2);
        consumed.lemma_exit(state.token_2);
        consumed.lemma_exit_since(state.token_2, start);
        assert(exited.stack =~= entered.stack);
        assert(exited.open_since(start).unwrap() =~= seq![state.token_1]);
        let next = exited.enter(state.token_3);
        exited.lemma_enter(state.token_3, None);
        exited.lemma_enter_since(state.token_3, None, start);
        assert(next.open_since(start).unwrap() =~= opened(StateName::LabelAtBreak, state));
        assert(next.stack =~= tokenizer.stack + opened(StateName::LabelAtBreak, state));
        marked.lemma_extends_trans(entered, tokenizer);
        consumed.lemma_extends_trans(marked, tokenizer);
        exited.lemma_extends_trans(consumed, tokenizer);
        next.lemma_extends_trans(exited, tokenizer);
        lemma_run_label(StateName::LabelAtBreak, tokenizer, goal, next);
    } else {
        tokenizer.lemma_extends_self();
    }
}

/// `byte` is text of a label that stands for itself: no bracket, no
/// backslash and no line ending.
pub open spec fn is_plain(byte: u8) -> bool {
    &&& byte != LEFT_SQUARE_BRACKET
    &&& byte != RIGHT_SQUARE_BRACKET
    &&& byte != BACKSLASH
    &&& byte != LINE_FEED
}

/// The `len` bytes from `index` on are all plain.
pub open spec fn all_plain(input: Seq<u8>, index: int, len: nat) -> bool {
    forall|i: int| index <= i < index + len ==> is_plain(#[trigger] input[i])
}

/// One of the `len` bytes from `index` on is neither a space nor a tab.
pub open spec fn has_content(input: Seq<u8>, index: int, len: nat) -> bool
    decreases len,
{
    len > 0 && (!(input[index] == SPACE || input[index] == TAB) || has_content(
        input,
        index + 1,
        (len - 1) as nat,
    ))
}

/// Over plain bytes the scan only counts: it goes on behind them, unless
/// they take the label over 999 bytes, where it fails.
pub proof fn lemma_scan_plain(input: Seq<u8>, index: int, size: int, seen: bool, len: nat)
    requires
        0 <= index,
        index + len <= input.len(),
        all_plain(input, index, len),
    ensures
        label_scan(input, index, size, seen) == if len == 0 || size + len
            <= LINK_REFERENCE_SIZE_MAX + 1 {
            label_scan(input, index + len, size + len, seen || has_content(input, index, len))
        } else {
            None
        },
    decreases len,
{
    if len > 0 && size <= LINK_REFERENCE_SIZE_MAX {
        assert(is_plain(input[index]));
        let next = seen || !(input[index] == SPACE || input[index] == TAB);
        lemma_scan_plain(input, index + 1, size + 1, next, (len - 1) as nat);
    }
}

/// Size: between brackets, plain bytes of which one is neither a space nor
/// a tab make a label if they are 999 or fewer, and none if they are more.
pub proof fn lemma_label_size(input: Seq<u8>, start: int, len: nat)
    requires
        0 <= start,
        start + len + 1 < input.len(),
        input[start] == LEFT_SQUARE_BRACKET,
        all_plain(input, start + 1, len),
        has_content(input, start + 1, len),
        input[start + 1 + len] == RIGHT_SQUARE_BRACKET,
    ensures
        label_end(input, start) == if len <= LINK_REFERENCE_SIZE_MAX {
            Some(start + len + 2)
        } else {
            None
        },
{
    lemma_scan_plain(input, start + 1, 0, false, len);
}

/// Emptiness: between brackets, nothing, or nothing but spaces and tabs,
/// makes no label.
pub proof fn lemma_label_empty(input: Seq<u8>, start: int, len: nat)
    requires
        0 <= start,
        start + len + 1 < input.len(),
        input[start] == LEFT_SQUARE_BRACKET,
        all_plain(input, start + 1, len),
        !has_content(input, start + 1, len),
        input[start + 1 + len] == RIGHT_SQUARE_BRACKET,
    ensures
        label_end(input, start) is None,
{
    lemma_scan_plain(input, start + 1, 0, false, len);
}

/// Blank line: an opening bracket, plain bytes, and a line ending after
/// which the next line is empty or holds nothing but spaces and tabs, make
/// no label, whatever follows.
pub proof fn lemma_label_blank_line(input: Seq<u8>, start: int, len: nat)
    requires
        0 <= start,
        start + len + 1 < input.len(),
        input[start] == LEFT_SQUARE_BRACKET,
        all_plain(input, start + 1, len),
        input[start + 1 + len] == LINE_FEED,
        is_eol_or_eof(byte_at(input, space_or_tab_end(input, start + len + 2))),
    ensures
        label_end(input, start) is None,
{
    lemma_scan_plain(input, start + 1, 0, false, len);
}

/// Unterminated: an opening bracket and plain bytes up to the end of the
/// input make no label.
pub proof fn lemma_label_unterminated(input: Seq<u8>, start: int)
    requires
        0 <= start < input.len(),
        input[start] == LEFT_SQUARE_BRACKET,
        all_plain(input, start + 1, (input.len() - start - 1) as nat),
    ensures
        label_end(input, start) is None,
{
    lemma_scan_plain(input, start + 1, 0, false, (input.len() - start - 1) as nat);
}

/// Escape: a backslash before a bracket or a backslash takes that byte
/// into the text with it.  The scan goes on behind both, so an escaped `]`
/// closes nothing, and after an escaped backslash a `]` does.
pub proof fn lemma_scan_escape(input: Seq<u8>, index: int, size: int, seen: bool)
    requires
        0 <= index,
        index + 1 < input.len(),
        input[index] == BACKSLASH,
        is_escapable(Some(input[index + 1])),
        size <= LINK_REFERENCE_SIZE_MAX,
    ensures
        label_scan(input, index, size, seen) == label_scan(input, index + 2, size + 2, true),
{
}

} // verus!
