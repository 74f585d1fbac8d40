//! A character escape: a backslash before a byte of ASCII punctuation.
//!
//! ```bnf
//! character_escape ::= '\\' ascii_punctuation
//! ```
//!
//! The backslash takes from the byte after it whatever it would mean: an
//! escaped `]` closes nothing.  Before any other byte a backslash is data.

use vstd::prelude::*;
use crate::constant::BACKSLASH;
use crate::event::byte_at;
use crate::token::Token;
use crate::tokenizer::{run_spec, Construct, State, StateName, Tokenizer, TokenizerView};

verus! {

/// The character escape construct.
#[derive(Clone, Copy, Debug, PartialEq, Eq)]
pub struct CharacterEscape;

/// `byte` is a byte of ASCII punctuation:
/// one of ``!"#$%&'()*+,-./:;<=>?@[\]^_`{|}~``.
pub open spec fn is_ascii_punctuation(byte: Option<u8>) -> bool {
    match byte {
        Some(byte) => {
            ||| 33 <= byte <= 47
            ||| 58 <= byte <= 64
            ||| 91 <= byte <= 96
            ||| 123 <= byte <= 126
        },
        None => false,
    }
}

/// A character escape stands at `index`.
pub open spec fn escape_matches(input: Seq<u8>, index: int) -> bool {
    byte_at(input, index) == Some(BACKSLASH) && is_ascii_punctuation(byte_at(input, index + 1))
}

/// A character escape is the innermost open span.
pub open spec fn in_escape(tokenizer: TokenizerView) -> bool {
    tokenizer.stack.len() > 0 && tokenizer.stack.last() == Token::CharacterEscape
}

/// A step that goes on has taken a byte and left the escape open.
pub open spec fn advances(state: State, before: TokenizerView, after: TokenizerView) -> bool {
    state is Next ==> in_escape(after) && before.point.index < after.point.index
}

/// What a step before a character escape comes to.
pub open spec fn start_spec(tokenizer: TokenizerView) -> (State, TokenizerView) {
    if tokenizer.current == Some(BACKSLASH) {
        (
            State::Next(StateName::CharacterEscapeInside),
            tokenizer.enter(Token::CharacterEscape).enter(
                Token::CharacterEscapeMarker,
            ).consume().exit(Token::CharacterEscapeMarker),
        )
    } else {
        (State::Nok, tokenizer)
    }
}

/// What a step after the backslash comes to.
pub open spec fn inside_spec(tokenizer: TokenizerView) -> (State, TokenizerView) {
    if is_ascii_punctuation(tokenizer.current) {
        (
            State::Okay,
            tokenizer.enter(Token::CharacterEscapeValue).consume().exit(
                Token::CharacterEscapeValue,
            ).exit(Token::CharacterEscape),
        )
    } else {
        (State::Nok, tokenizer)
    }
}

/// Whether the tokenizer stands at a byte of ASCII punctuation.
pub fn at_ascii_punctuation(tokenizer: &Tokenizer) -> (yes: bool)
    ensures
        yes == is_ascii_punctuation(tokenizer@.current),
{
    match tokenizer.current {
        None => false,
        Some(byte) => (33 <= byte && byte <= 47) || (58 <= byte && byte <= 64) || (91 <= byte
            && byte <= 96) || (123 <= byte && byte <= 126),
    }
}

/// Before a character escape.
///
/// ```markdown
/// > | a\*b
///      ^
/// ```
pub fn start(tokenizer: &mut Tokenizer) -> (state: State)
    requires
        old(tokenizer).wf(),
    ensures
        (state, final(tokenizer)@) == start_spec(old(tokenizer)@),
        final(tokenizer).wf(),
        final(tokenizer)@.extends(old(tokenizer)@),
        advances(state, old(tokenizer)@, final(tokenizer)@),
{
    if tokenizer.at(BACKSLASH) {
        tokenizer.enter(Token::CharacterEscape);
        let ghost entered = tokenizer@;
        tokenizer.enter(Token::CharacterEscapeMarker);
        let ghost marked = tokenizer@;
        tokenizer.consume();
        let ghost consumed = tokenizer@;
        tokenizer.exit(Token::CharacterEscapeMarker);
        proof {
            marked.lemma_extends_trans(entered, old(tokenizer)@);
            consumed.lemma_extends_trans(marked, old(tokenizer)@);
            tokenizer@.lemma_extends_trans(consumed, old(tokenizer)@);
            assert(tokenizer@.stack =~= entered.stack);
        }
        State::Next(StateName::CharacterEscapeInside)
    } else {
        proof {
            tokenizer@.lemma_extends_self();
        }
        State::Nok
    }
}

/// In a character escape, after the backslash.
///
/// ```markdown
/// > | a\*b
///       ^
/// ```
pub fn inside(tokenizer: &mut Tokenizer) -> (state: State)
    requires
        old(tokenizer).wf(),
        in_escape(old(tokenizer)@),
    ensures
        (state, final(tokenizer)@) == inside_spec(old(tokenizer)@),
        final(tokenizer).wf(),
        final(tokenizer)@.extends(old(tokenizer)@),
        advances(state, old(tokenizer)@, final(tokenizer)@),
{
    if at_ascii_punctuation(tokenizer) {
        tokenizer.enter(Token::CharacterEscapeValue);
        let ghost entered = tokenizer@;
        tokenizer.consume();
        let ghost consumed = tokenizer@;
        tokenizer.exit(Token::CharacterEscapeValue);
        let ghost exited = tokenizer@;
        proof {
            assert(exited.stack =~= old(tokenizer)@.stack);
        }
        tokenizer.exit(Token::CharacterEscape);
        proof {
            consumed.lemma_extends_trans(entered, old(tokenizer)@);
            exited.lemma_extends_trans(consumed, old(tokenizer)@);
            tokenizer@.lemma_extends_trans(exited, old(tokenizer)@);
        }
        State::Okay
    } else {
        proof {
            tokenizer@.lemma_extends_self();
        }
        State::Nok
    }
}

impl Construct for CharacterEscape {
    open spec fn inv(&self, name: StateName, tokenizer: TokenizerView) -> bool {
        match name {
            StateName::CharacterEscapeStart => true,
            StateName::CharacterEscapeInside => in_escape(tokenizer),
            _ => false,
        }
    }

    open spec fn step_spec(&self, name: StateName, tokenizer: TokenizerView) -> (
        State,
        TokenizerView,
    ) {
        match name {
            StateName::CharacterEscapeStart => start_spec(tokenizer),
            StateName::CharacterEscapeInside => inside_spec(tokenizer),
            _ => (State::Nok, tokenizer),
        }
    }

    fn step(&self, tokenizer: &mut Tokenizer, name: StateName) -> (state: State) {
        match name {
            StateName::CharacterEscapeStart => start(tokenizer),
            StateName::CharacterEscapeInside => inside(tokenizer),
            _ => State::Nok,
        }
    }
}

/// Driving the character escape construct matches exactly where
/// [`escape_matches`] says, and never touches the scratch register.  Where
/// it matches it leaves a sound tokenizer two bytes further, with one more
/// span, the escape, in which every span is closed.
pub proof fn lemma_run_escape(tokenizer: TokenizerView)
    requires
        tokenizer.wf(),
    ensures
        ({
            let (ok, after) = run_spec(
                &CharacterEscape,
                StateName::CharacterEscapeStart,
                tokenizer,
            );
            &&& ok == escape_matches(tokenizer.input, tokenizer.point.index as int)
            &&& after.tokenize_state == tokenizer.tokenize_state
            &&& ok ==> {
                &&& after.added_span(tokenizer, Token::CharacterEscape)
                &&& after.point.index == tokenizer.point.index + 2
            }
        }),
{
    let start = tokenizer.events.len() as int;
    if tokenizer.current == Some(BACKSLASH) {
        tokenizer.lemma_open_since_start();
        let entered = tokenizer.enter(Token::CharacterEscape);
        tokenizer.lemma_enter(Token::CharacterEscape, None);
        tokenizer.lemma_enter_since(Token::CharacterEscape, None, start);
        let marked = entered.enter(Token::CharacterEscapeMarker);
        entered.lemma_enter(Token::CharacterEscapeMarker, None);
        entered.lemma_enter_since(Token::CharacterEscapeMarker, None, start);
        let consumed = marked.consume();
        marked.lemma_consume();
        let inside = consumed.exit(Token::CharacterEscapeMarker);
        consumed.lemma_exit(Token::CharacterEscapeMarker);
        consumed.lemma_exit_since(Token::CharacterEscapeMarker, start);
        assert(inside.stack =~= entered.stack);
        assert(inside.open_since(start).unwrap() =~= seq![Token::CharacterEscape]);
        marked.lemma_extends_trans(entered, tokenizer);
        consumed.lemma_extends_trans(marked, tokenizer);
        inside.lemma_extends_trans(consumed, tokenizer);
        assert(run_spec(&CharacterEscape, StateName::CharacterEscapeStart, tokenizer) == run_spec(
            &CharacterEscape,
            StateName::CharacterEscapeInside,
            inside,
        ));
        if is_ascii_punctuation(inside.current) {
            let valued = inside.enter(Token::CharacterEscapeValue);
            inside.lemma_enter(Token::CharacterEscapeValue, None);
            inside.lemma_enter_since(Token::CharacterEscapeValue, None, start);
            let taken = valued.consume();
            valued.lemma_consume();
            let closed = taken.exit(Token::CharacterEscapeValue);
            taken.lemma_exit(Token::CharacterEscapeValue);
            taken.lemma_exit_since(Token::CharacterEscapeValue, start);
            assert(closed.stack =~= inside.stack);
            assert(closed.open_since(start).unwrap() =~= seq![Token::CharacterEscape]);
            let done = closed.exit(Token::CharacterEscape);
            closed.lemma_exit(Token::CharacterEscape);
            closed.lemma_exit_since(Token::CharacterEscape, start);
            assert(done.stack =~= tokenizer.stack);
            assert(done.open_since(start).unwrap() =~= Seq::<Token>::empty());
            valued.lemma_extends_trans(inside, tokenizer);
            taken.lemma_extends_trans(valued, tokenizer);
            closed.lemma_extends_trans(taken, tokenizer);
            done.lemma_extends_trans(closed, tokenizer);
            assert(done.events[start] == done.events.take(entered.events.len() as int)[start]);
        }
    }
}

/// Tries a character escape at the tokenizer's place.
///
/// An escape is there exactly where [`escape_matches`] says.  Then the
/// tokenizer is moved over its two bytes, with the events of the escape
/// added.  Where no escape is there, the tokenizer is left as it was.
pub fn attempt(tokenizer: &mut Tokenizer) -> (ok: bool)
    requires
        old(tokenizer).wf(),
    ensures
        (ok, final(tokenizer)@) == crate::tokenizer::attempt_spec(
            &CharacterEscape,
            StateName::CharacterEscapeStart,
            old(tokenizer)@,
        ),
        ok == escape_matches(old(tokenizer)@.input, old(tokenizer)@.point.index as int),
        ok ==> final(tokenizer)@.added_span(old(tokenizer)@, Token::CharacterEscape),
        ok ==> final(tokenizer)@.point.index == old(tokenizer)@.point.index + 2,
        !ok ==> final(tokenizer)@ == old(tokenizer)@,
        final(tokenizer).wf(),
{
    proof {
        lemma_run_escape(tokenizer@);
    }
    tokenizer.attempt(&CharacterEscape, StateName::CharacterEscapeStart)
}

} // verus!
