//! Bytes to events.
//!
//! Input is read from the tokenizer's place to the end.  Wherever a
//! construct of the grammar stands, its events are recorded; everything else
//! is data.  So the events are a row of spans that lie side by side and
//! cover what was read.
//!
//! In text the construct is the label.  In a string, which is what stands
//! in a label, it is the character escape.

use vstd::prelude::*;
use crate::construct::character_escape;
use crate::construct::character_escape::CharacterEscape;
use crate::construct::partial_data::{lemma_run_data, Data};
use crate::construct::partial_label;
use crate::construct::partial_label::Label;
use crate::event::{
    anchored, balanced, joined, lemma_top_level_extend, ordered, top_level_offsets, within,
    ContentType, Event,
};
use crate::subtokenize::links_wf;
use crate::token::Token;
use crate::tokenizer::{
    attempt_spec, run_spec, StateName, TokenizeState, Tokenizer, TokenizerView,
};

verus! {

/// The scratch register with which text is read: at rest, with the slots
/// bound to the kinds of a label.
pub open spec fn text_state() -> TokenizeState {
    TokenizeState {
        token_1: Token::Label,
        token_2: Token::LabelMarker,
        token_3: Token::LabelText,
        ..TokenizeState::initial()
    }
}

/// What trying the construct of the grammar `content_type` comes to.
pub open spec fn construct_spec(content_type: ContentType, tokenizer: TokenizerView) -> (
    bool,
    TokenizerView,
) {
    match content_type {
        ContentType::Text => attempt_spec(&Label, StateName::LabelStart, tokenizer),
        ContentType::String => attempt_spec(
            &CharacterEscape,
            StateName::CharacterEscapeStart,
            tokenizer,
        ),
        _ => (false, tokenizer),
    }
}

/// The tokenizer after the span at its place: the construct of the grammar
/// where it stands there, a run of data where it does not.
pub open spec fn tokenize_step(content_type: ContentType, tokenizer: TokenizerView) -> TokenizerView {
    let (ok, after) = construct_spec(content_type, tokenizer);
    if ok {
        after
    } else {
        run_spec(&Data { content_type }, StateName::DataStart, tokenizer).1
    }
}

/// The tokenizer after every span from its place to the end of the input.
pub open spec fn tokenize_spec(content_type: ContentType, tokenizer: TokenizerView) -> TokenizerView
    decreases tokenizer.remaining(),
{
    if tokenizer.current is None {
        tokenizer
    } else {
        let next = tokenize_step(content_type, tokenizer);
        if 0 <= next.remaining() < tokenizer.remaining() {
            tokenize_spec(content_type, next)
        } else {
            next
        }
    }
}

/// The events of `input`, read as text.
pub open spec fn parse_spec(input: Seq<u8>) -> Seq<Event> {
    tokenize_spec(
        ContentType::Text,
        TokenizerView::initial(input).with_state(text_state()),
    ).events
}

/// The events are a row of outermost spans that lie side by side from
/// `start` to `end`: every span is closed, and the first outermost side
/// lies at `start` and the last at `end`.  Without events, `start` is
/// `end`.
pub open spec fn tiles(events: Seq<Event>, start: int, end: int) -> bool {
    let offsets = top_level_offsets(events);
    &&& balanced(events)
    &&& if events.len() == 0 {
        start == end
    } else {
        &&& offsets.len() > 0
        &&& offsets.first() == start
        &&& offsets.last() == end
    }
}

/// Where the events of a tokenizer lie between `start` and its place, and
/// the tokenizer goes on from there, they lie between `start` and its new
/// place.
pub proof fn lemma_within_extend(before: TokenizerView, after: TokenizerView, start: int)
    requires
        before.wf(),
        after.wf(),
        after.extends(before),
        start <= before.point.index,
        within(before.events, start, before.point.index as int),
        before.events.len() < after.events.len(),
        after.events[before.events.len() as int].offset == before.point,
    ensures
        within(after.events, start, after.point.index as int),
{
    reveal(ordered);
    reveal(anchored);
    assert forall|i: int| 0 <= i < after.events.len() implies start <= (
    #[trigger] after.events[i]).offset.index <= after.point.index by {
        if i < before.events.len() {
            assert(after.events[i] == after.events.take(before.events.len() as int)[i]);
        } else {
            assert(after.events[before.events.len() as int].offset.index
                <= after.events[i].offset.index);
        }
    }
}

/// Reads what is left of the input as the grammar `content_type` has it,
/// into the events of a tokenizer that has none yet.
///
/// The tokenizer ends at the end of its input, with nothing open and the
/// scratch register as it was.  Its events are a row of spans, side by
/// side, from the place where it started to the end.
pub fn tokenize(tokenizer: &mut Tokenizer, content_type: ContentType)
    requires
        old(tokenizer).wf(),
        old(tokenizer)@.events.len() == 0,
        content_type == ContentType::Text ==> old(tokenizer)@.tokenize_state.at_rest(),
    ensures
        final(tokenizer)@ == tokenize_spec(content_type, old(tokenizer)@),
        final(tokenizer).wf(),
        final(tokenizer)@.input == old(tokenizer)@.input,
        final(tokenizer)@.current is None,
        final(tokenizer)@.point.index == final(tokenizer)@.input.len(),
        final(tokenizer)@.stack == old(tokenizer)@.stack,
        final(tokenizer)@.tokenize_state == old(tokenizer)@.tokenize_state,
        tiles(
            final(tokenizer)@.events,
            old(tokenizer)@.point.index as int,
            final(tokenizer)@.input.len() as int,
        ),
        within(
            final(tokenizer)@.events,
            old(tokenizer)@.point.index as int,
            final(tokenizer)@.input.len() as int,
        ),
{
    proof {
        tokenizer@.lemma_open_since_start();
    }
    while tokenizer.current.is_some()
        invariant
            tokenizer.wf(),
            tokenizer@.input == old(tokenizer)@.input,
            tokenizer@.stack == old(tokenizer)@.stack,
            tokenizer@.stack == Seq::<Token>::empty(),
            tokenizer@.tokenize_state == old(tokenizer)@.tokenize_state,
            content_type == ContentType::Text ==> tokenizer@.tokenize_state.at_rest(),
            tiles(
                tokenizer@.events,
                old(tokenizer)@.point.index as int,
                tokenizer@.point.index as int,
            ),
            within(
                tokenizer@.events,
                old(tokenizer)@.point.index as int,
                tokenizer@.point.index as int,
            ),
            tokenize_spec(content_type, tokenizer@) == tokenize_spec(content_type, old(tokenizer)@),
        decreases tokenizer@.remaining(),
    {
        let ghost before = tokenizer@;
        let ok = match content_type {
            ContentType::Text => partial_label::attempt(tokenizer),
            ContentType::String => character_escape::attempt(tokenizer),
            _ => false,
        };
        if !ok {
            let data = Data { content_type };
            proof {
                lemma_run_data(data, before);
            }
            tokenizer.drive(&data, StateName::DataStart);
        }
        proof {
            lemma_top_level_extend(before.events, tokenizer@.events);
            lemma_within_extend(before, tokenizer@, old(tokenizer)@.point.index as int);
        }
    }
}

/// Reads `input` into events.
///
/// The events are those of the labels in the input and, between them, of
/// runs of data.  Every enter among them has its exit, they lie in the order
/// of the input at places of the input, every link among them leads back to
/// an earlier run, and the pieces of the input between the sides of the
/// outermost spans, one after the other, are the input again.
pub fn parse(input: &[u8]) -> (events: Vec<Event>)
    requires
        input.len() < usize::MAX,
    ensures
        events@ == parse_spec(input@),
        balanced(events@),
        ordered(events@),
        anchored(events@, input@, input@.len() as int),
        links_wf(events@),
        joined(input@, top_level_offsets(events@)) == input@,
{
    let mut tokenizer = Tokenizer::new(input);
    tokenizer.tokenize_state.token_1 = Token::Label;
    tokenizer.tokenize_state.token_2 = Token::LabelMarker;
    tokenizer.tokenize_state.token_3 = Token::LabelText;
    assert(tokenizer@ == TokenizerView::initial(input@).with_state(text_state()));
    tokenize(&mut tokenizer, ContentType::Text);
    proof {
        tokenizer@.lemma_round_trip();
        let offsets = top_level_offsets(tokenizer@.events);
        if tokenizer@.events.len() == 0 {
            assert(joined(input@, offsets) =~= input@);
        } else {
            assert(input@.subrange(0, input@.len() as int) =~= input@);
        }
    }
    tokenizer.events
}

} // verus!
