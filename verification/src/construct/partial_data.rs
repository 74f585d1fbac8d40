//! A run of data: bytes that mean nothing by themselves.
//!
//! ```bnf
//! data ::= byte *( byte - marker )
//! ```
//!
//! Which bytes are markers depends on the grammar that is read: in text it
//! is `[`, which may open a label; in a string it is `\`, which may open a
//! character escape.
//!
//! A run takes the byte it starts at, whatever that is, and goes on to the
//! next marker or to the end of the input.  So a marker that opens nothing
//! is data, and what follows it up to the next marker with it.

use vstd::prelude::*;
use crate::constant::{BACKSLASH, LEFT_SQUARE_BRACKET};
use crate::event::ContentType;
use crate::token::Token;
use crate::tokenizer::{run_spec, Construct, State, StateName, Tokenizer, TokenizerView};

verus! {

/// The data construct of one grammar.
#[derive(Clone, Copy, Debug, PartialEq, Eq)]
pub struct Data {
    /// The grammar whose markers end a run.
    pub content_type: ContentType,
}

/// `byte` may open something in the grammar `content_type`.
pub open spec fn is_marker(content_type: ContentType, byte: u8) -> bool {
    match content_type {
        ContentType::Text => byte == LEFT_SQUARE_BRACKET,
        ContentType::String => byte == BACKSLASH,
        _ => false,
    }
}

/// A run of data goes on over `byte`: there is a byte, and it is no marker.
pub open spec fn is_data(content_type: ContentType, byte: Option<u8>) -> bool {
    match byte {
        Some(byte) => !is_marker(content_type, byte),
        None => false,
    }
}

/// Where the run of data ends that has taken every byte before `index`.
pub open spec fn data_inside_end(content_type: ContentType, input: Seq<u8>, index: int) -> int
    decreases input.len() - index,
{
    if 0 <= index < input.len() && !is_marker(content_type, input[index]) {
        data_inside_end(content_type, input, index + 1)
    } else {
        index
    }
}

/// Where the run of data that starts at `index` ends.
pub open spec fn data_end(content_type: ContentType, input: Seq<u8>, index: int) -> int {
    data_inside_end(content_type, input, index + 1)
}

/// A run of data is the innermost open span.
pub open spec fn in_data(tokenizer: TokenizerView) -> bool {
    tokenizer.stack.len() > 0 && tokenizer.stack.last() == Token::Data
}

/// A step that goes on has taken a byte and left the run open.
pub open spec fn advances(state: State, before: TokenizerView, after: TokenizerView) -> bool {
    state is Next ==> in_data(after) && before.point.index < after.point.index
}

impl Data {
    /// What a step before a run of data comes to.
    pub open spec fn start_spec(self, tokenizer: TokenizerView) -> (State, TokenizerView) {
        if tokenizer.current is Some {
            (State::Next(StateName::DataInside), tokenizer.enter(Token::Data).consume())
        } else {
            (State::Nok, tokenizer)
        }
    }

    /// What a step in a run of data comes to.
    pub open spec fn inside_spec(self, tokenizer: TokenizerView) -> (State, TokenizerView) {
        if is_data(self.content_type, tokenizer.current) {
            (State::Next(StateName::DataInside), tokenizer.consume())
        } else {
            (State::Okay, tokenizer.exit(Token::Data))
        }
    }

    /// Whether a run of data goes on over the byte at the tokenizer's place.
    pub fn at_data(&self, tokenizer: &Tokenizer) -> (yes: bool)
        ensures
            yes == is_data(self.content_type, tokenizer@.current),
    {
        match tokenizer.current {
            None => false,
            Some(byte) => match self.content_type {
                ContentType::Text => byte != LEFT_SQUARE_BRACKET,
                ContentType::String => byte != BACKSLASH,
                _ => true,
            },
        }
    }

    /// Before a run of data.
    ///
    /// ```markdown
    /// > | abc
    ///     ^
    /// ```
    pub fn start(&self, tokenizer: &mut Tokenizer) -> (state: State)
        requires
            old(tokenizer).wf(),
        ensures
            (state, final(tokenizer)@) == self.start_spec(old(tokenizer)@),
            final(tokenizer).wf(),
            final(tokenizer)@.extends(old(tokenizer)@),
            advances(state, old(tokenizer)@, final(tokenizer)@),
    {
        if tokenizer.current.is_some() {
            tokenizer.enter(Token::Data);
            let ghost entered = tokenizer@;
            tokenizer.consume();
            proof {
                tokenizer@.lemma_extends_trans(entered, old(tokenizer)@);
            }
            State::Next(StateName::DataInside)
        } else {
            proof {
                tokenizer@.lemma_extends_self();
            }
            State::Nok
        }
    }

    /// In a run of data.
    ///
    /// ```markdown
    /// > | abc
    ///      ^
    /// ```
    pub fn inside(&self, tokenizer: &mut Tokenizer) -> (state: State)
        requires
            old(tokenizer).wf(),
            in_data(old(tokenizer)@),
        ensures
            (state, final(tokenizer)@) == self.inside_spec(old(tokenizer)@),
            final(tokenizer).wf(),
            final(tokenizer)@.extends(old(tokenizer)@),
            advances(state, old(tokenizer)@, final(tokenizer)@),
    {
        if self.at_data(tokenizer) {
            tokenizer.consume();
            State::Next(StateName::DataInside)
        } else {
            tokenizer.exit(Token::Data);
            State::Okay
        }
    }
}

impl Construct for Data {
    open spec fn inv(&self, name: StateName, tokenizer: TokenizerView) -> bool {
        match name {
            StateName::DataStart => true,
            StateName::DataInside => in_data(tokenizer),
            _ => false,
        }
    }

    open spec fn step_spec(&self, name: StateName, tokenizer: TokenizerView) -> (
        State,
        TokenizerView,
    ) {
        match name {
            StateName::DataStart => self.start_spec(tokenizer),
            StateName::DataInside => self.inside_spec(tokenizer),
            _ => (State::Nok, tokenizer),
        }
    }

    fn step(&self, tokenizer: &mut Tokenizer, name: StateName) -> (state: State) {
        match name {
            StateName::DataStart => self.start(tokenizer),
            StateName::DataInside => self.inside(tokenizer),
            _ => State::Nok,
        }
    }
}

/// The tokenizer `after` is `before` moved on to `end`, with nothing else
/// changed.
pub open spec fn moved(before: TokenizerView, after: TokenizerView, end: int) -> bool {
    &&& after.wf()
    &&& after.input == before.input
    &&& after.events == before.events
    &&& after.stack == before.stack
    &&& after.tokenize_state == before.tokenize_state
    &&& before.point.index <= end
    &&& after.point.index == end
}

/// In a run of data, the construct takes what is left of the run, closes
/// the run there and matches.
pub proof fn lemma_run_inside(construct: Data, tokenizer: TokenizerView)
    requires
        tokenizer.wf(),
        in_data(tokenizer),
    ensures
        ({
            let (ok, after) = run_spec(&construct, StateName::DataInside, tokenizer);
            let end = data_inside_end(
                construct.content_type,
                tokenizer.input,
                tokenizer.point.index as int,
            );
            exists|at: TokenizerView|
                {
                    &&& ok
                    &&& moved(tokenizer, at, end)
                    &&& after == #[trigger] at.exit(Token::Data)
                }
        }),
    decreases tokenizer.remaining(),
{
    let end = data_inside_end(
        construct.content_type,
        tokenizer.input,
        tokenizer.point.index as int,
    );
    if is_data(construct.content_type, tokenizer.current) {
        let next = tokenizer.consume();
        tokenizer.lemma_consume();
        lemma_run_inside(construct, next);
        let (ok, after) = run_spec(&construct, StateName::DataInside, next);
        let at = choose|at: TokenizerView|
            {
                &&& moved(next, at, end)
                &&& after == #[trigger] at.exit(Token::Data)
            };
        assert(moved(tokenizer, at, end) && after == at.exit(Token::Data));
    } else {
        assert(moved(tokenizer, tokenizer, end) && tokenizer.exit(Token::Data) == tokenizer.exit(
            Token::Data,
        ));
    }
}

/// The construct matches wherever a byte is left.  It then leaves a sound
/// tokenizer that stands at [`data_end`], with one more span, the run,
/// whose two sides are all its events.
pub proof fn lemma_run_data(construct: Data, tokenizer: TokenizerView)
    requires
        tokenizer.wf(),
    ensures
        ({
            let (ok, after) = run_spec(&construct, StateName::DataStart, tokenizer);
            let end = data_end(
                construct.content_type,
                tokenizer.input,
                tokenizer.point.index as int,
            );
            &&& ok == (tokenizer.current is Some)
            &&& ok ==> {
                &&& after.added_span(tokenizer, Token::Data)
                &&& after.point.index == end
                &&& after.events == tokenizer.events.push(
                    tokenizer.enter_event(Token::Data, None),
                ).push(after.exit_event(Token::Data))
            }
            &&& !ok ==> after == tokenizer
        }),
{
    if tokenizer.current is Some {
        let start = tokenizer.events.len() as int;
        let entered = tokenizer.enter(Token::Data);
        tokenizer.lemma_enter(Token::Data, None);
        tokenizer.lemma_open_since_start();
        tokenizer.lemma_enter_since(Token::Data, None, start);
        let next = entered.consume();
        entered.lemma_consume();
        lemma_run_inside(construct, next);
        let (ok, after) = run_spec(&construct, StateName::DataInside, next);
        let end = data_end(construct.content_type, tokenizer.input, tokenizer.point.index as int);
        let at = choose|at: TokenizerView|
            {
                &&& moved(next, at, end)
                &&& after == #[trigger] at.exit(Token::Data)
            };
        at.lemma_exit(Token::Data);
        at.lemma_exit_since(Token::Data, start);
        assert(after.stack =~= tokenizer.stack);
        assert(after.events.take(tokenizer.events.len() as int) =~= tokenizer.events);
        assert(after.open_since(start).unwrap() =~= Seq::<Token>::empty());
    }
}

} // verus!
