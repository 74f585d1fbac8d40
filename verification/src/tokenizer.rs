//! The tokenizer engine.
//!
//! A [`Tokenizer`] walks the input byte by byte and records what it finds as
//! enter and exit events.  What to look for is a [`Construct`]: a state
//! machine whose states are named by [`StateName`] and whose every step says,
//! with a [`State`], whether it matched, failed, or wants the next byte.
//! The engine drives a construct with [`Tokenizer::drive`], and tries one
//! without commitment with [`Tokenizer::attempt`].

use vstd::prelude::*;
use crate::constant::LINE_FEED;
use crate::event::{
    advance, anchored, balanced, byte_at, joined, lemma_joined, lemma_open_stack_push,
    lemma_open_stack_relink, lemma_top_level_ascending, top_level_offsets,
    lemma_position_at, lemma_position_at_prefix, open_stack, ordered, origin, position_at, step_stack, ContentType, Edge,
    Event,
    Position,
};
use crate::subtokenize::{lemma_push_links_wf, linked, links_wf, void_run};
use crate::token::Token;

verus! {

/// The scratch register that the engine lends to the construct at work.
///
/// The counter and the flags read as zero and `false` whenever no construct
/// is at work.  The three token slots are bound by whoever starts a
/// construct, so that one state machine serves every span of its shape.
#[derive(Clone, Copy, Debug, PartialEq, Eq)]
pub struct TokenizeState {
    /// Bytes counted so far.
    pub size: usize,
    /// Whether a byte other than a space or a tab was met.
    pub seen: bool,
    /// Whether the next run of data continues an earlier one.
    pub connect: bool,
    /// The delimiter that opened the construct, where it has one.
    pub marker: u8,
    /// The kind of the whole span.
    pub token_1: Token,
    /// The kind of its delimiters.
    pub token_2: Token,
    /// The kind of what stands between the delimiters.
    pub token_3: Token,
}

impl TokenizeState {
    /// The register as a new tokenizer holds it.
    pub open spec fn initial() -> TokenizeState {
        TokenizeState {
            size: 0,
            seen: false,
            connect: false,
            marker: 0,
            token_1: Token::Data,
            token_2: Token::Data,
            token_3: Token::Data,
        }
    }

    /// The counter, the flags and the marker read as zero and `false`.
    pub open spec fn at_rest(self) -> bool {
        self.size == 0 && !self.seen && !self.connect && self.marker == 0
    }

    /// The same register with the counter and the flags back at zero and
    /// `false`.
    pub open spec fn cleared(self) -> TokenizeState {
        TokenizeState { size: 0, seen: false, connect: false, ..self }
    }

    /// A register at rest, with every slot bound to [`Token::Data`].
    pub fn new() -> (state: TokenizeState)
        ensures
            state == TokenizeState::initial(),
    {
        TokenizeState {
            size: 0,
            seen: false,
            connect: false,
            marker: 0,
            token_1: Token::Data,
            token_2: Token::Data,
            token_3: Token::Data,
        }
    }
}

/// The states of the constructs, by name.
#[derive(Clone, Copy, Debug, PartialEq, Eq)]
pub enum StateName {
    /// Before a character escape, at `\`.
    CharacterEscapeStart,
    /// In a character escape, after `\`.
    CharacterEscapeInside,
    /// Before a run of data.
    DataStart,
    /// In a run of data.
    DataInside,
    /// Before a label, at `[`.
    LabelStart,
    /// In a label, between two runs of data.
    LabelAtBreak,
    /// In a label, in a run of data.
    LabelInside,
    /// In a label, after `\`.
    LabelEscape,
    /// Before a line ending and the whitespace around it.
    SpaceOrTabEolStart,
    /// In the whitespace before a line ending.
    SpaceOrTabEolBefore,
    /// After a line ending.
    SpaceOrTabEolAfterEol,
    /// In the whitespace after a line ending.
    SpaceOrTabEolAfter,
}

/// What a step of a construct comes to.
#[derive(Clone, Copy, Debug, PartialEq, Eq)]
pub enum State {
    /// The construct matched.
    Okay,
    /// The construct does not match.
    Nok,
    /// The construct took a byte and goes on, in the named state, with the
    /// next one.
    Next(StateName),
}

/// A tokenizer as contracts see it.
pub struct TokenizerView {
    /// The whole input.
    pub input: Seq<u8>,
    /// The byte at the tokenizer's place, if the input has not ended.
    pub current: Option<u8>,
    /// The tokenizer's place.
    pub point: Position,
    /// The events so far.
    pub events: Seq<Event>,
    /// The kinds of the spans that are open, outermost first.
    pub stack: Seq<Token>,
    /// The scratch register.
    pub tokenize_state: TokenizeState,
}

impl TokenizerView {
    /// A tokenizer that has read nothing of `input` yet.
    pub open spec fn initial(input: Seq<u8>) -> TokenizerView {
        TokenizerView {
            input,
            current: byte_at(input, 0),
            point: origin(),
            events: Seq::empty(),
            stack: Seq::empty(),
            tokenize_state: TokenizeState::initial(),
        }
    }

    /// How many bytes are still to be read.
    pub open spec fn remaining(self) -> int {
        self.input.len() - self.point.index
    }

    /// The tokenizer is sound: its place lies in the input and carries the
    /// line and column of that place, `current` is the byte there, the
    /// events lie in input order at or before it, and every exit among them
    /// closes the innermost open span, leaving open what `stack` lists.
    pub open spec fn wf(self) -> bool {
        &&& self.input.len() < usize::MAX
        &&& self.point.index <= self.input.len()
        &&& self.point == position_at(self.input, self.point.index as int)
        &&& self.current == byte_at(self.input, self.point.index as int)
        &&& open_stack(self.events) == Some(self.stack)
        &&& ordered(self.events)
        &&& anchored(self.events, self.input, self.point.index as int)
    }

    /// The tokenizer reads the same input as `before`, is at least as far in
    /// it, and has kept every event of `before` as it was.
    pub open spec fn extends(self, before: TokenizerView) -> bool {
        &&& self.input == before.input
        &&& before.point.index <= self.point.index
        &&& before.events.len() <= self.events.len()
        &&& self.events.take(before.events.len() as int) =~= before.events
    }

    /// The event that opens a span of kind `token` here.
    pub open spec fn enter_event(self, token: Token, content_type: Option<ContentType>) -> Event {
        Event { kind: token, offset: self.point, edge: Edge::Enter, content_type, previous: None }
    }

    /// The event that closes a span of kind `token` here.
    pub open spec fn exit_event(self, token: Token) -> Event {
        Event {
            kind: token,
            offset: self.point,
            edge: Edge::Exit,
            content_type: None,
            previous: None,
        }
    }

    /// The tokenizer after it opened a span whose inside is read again as
    /// `content_type` says.
    pub open spec fn enter_with_content(
        self,
        token: Token,
        content_type: Option<ContentType>,
    ) -> TokenizerView {
        TokenizerView {
            events: self.events.push(self.enter_event(token, content_type)),
            stack: self.stack.push(token),
            ..self
        }
    }

    /// The tokenizer after it opened a span.
    pub open spec fn enter(self, token: Token) -> TokenizerView {
        self.enter_with_content(token, None)
    }

    /// The tokenizer after it closed its innermost span.
    pub open spec fn exit(self, token: Token) -> TokenizerView {
        TokenizerView {
            events: self.events.push(self.exit_event(token)),
            stack: self.stack.drop_last(),
            ..self
        }
    }

    /// The tokenizer after it took the byte at its place.
    pub open spec fn consume(self) -> TokenizerView {
        TokenizerView {
            point: advance(self.point, self.input[self.point.index as int]),
            current: byte_at(self.input, self.point.index + 1),
            ..self
        }
    }

    /// The tokenizer is `base` after one more span of kind `token`, from
    /// the place of `base` to its own, with every span in it closed: it is
    /// sound, further in the input, has kept every earlier event, and has
    /// open, and in the scratch register, what `base` has.
    pub open spec fn added_span(self, base: TokenizerView, token: Token) -> bool {
        let start = base.events.len() as int;
        &&& self.wf()
        &&& self.extends(base)
        &&& self.tokenize_state == base.tokenize_state
        &&& self.stack == base.stack
        &&& base.point.index < self.point.index
        &&& start < self.events.len()
        &&& self.events[start] == base.enter_event(token, None)
        &&& self.events.last() == self.exit_event(token)
        &&& balanced(self.events.skip(start))
    }

    /// The tokenizer at another place of its input.
    pub open spec fn moved_to(self, point: Position) -> TokenizerView {
        TokenizerView { point, current: byte_at(self.input, point.index as int), ..self }
    }

    /// The tokenizer with another scratch register.
    pub open spec fn with_state(self, tokenize_state: TokenizeState) -> TokenizerView {
        TokenizerView { tokenize_state, ..self }
    }

    /// The tokenizer with other events.
    pub open spec fn with_events(self, events: Seq<Event>) -> TokenizerView {
        TokenizerView { events, ..self }
    }

    /// Opening a span keeps a sound tokenizer sound and all its events.
    pub proof fn lemma_enter(self, token: Token, content_type: Option<ContentType>)
        requires
            self.wf(),
        ensures
            self.enter_with_content(token, content_type).wf(),
            self.enter_with_content(token, content_type).extends(self),
    {
        reveal(ordered);
        reveal(anchored);
        lemma_open_stack_push(self.events, self.enter_event(token, content_type));
    }

    /// Closing the innermost span keeps a sound tokenizer sound and all its
    /// events.
    pub proof fn lemma_exit(self, token: Token)
        requires
            self.wf(),
            self.stack.len() > 0,
            self.stack.last() == token,
        ensures
            self.exit(token).wf(),
            self.exit(token).extends(self),
    {
        reveal(ordered);
        reveal(anchored);
        lemma_open_stack_push(self.events, self.exit_event(token));
    }

    /// Taking a byte keeps a sound tokenizer sound and all its events.
    pub proof fn lemma_consume(self)
        requires
            self.wf(),
            self.current is Some,
        ensures
            self.consume().wf(),
            self.consume().extends(self),
            self.consume().point.index == self.point.index + 1,
    {
        reveal(anchored);
        lemma_position_at(self.input, self.point.index as int);
        assert(self.consume().events.take(self.events.len() as int) =~= self.events);
    }

    /// Linking the last event to the run before it keeps a sound tokenizer
    /// sound.
    pub proof fn lemma_relink(self)
        requires
            self.wf(),
            self.events.len() >= 3,
            self.events.last().edge == Edge::Enter,
            void_run(self.events, self.events.len() - 3, self.events.last().content_type),
        ensures
            self.with_events(
                linked(self.events, self.events.len() - 3, self.events.len() - 1),
            ).wf(),
    {
        reveal(ordered);
        reveal(anchored);
        let index = self.events.len() - 1;
        let after = linked(self.events, index - 2, index);
        lemma_open_stack_relink(self.events, index, after[index]);
    }

    /// The spans that the events from `start` on leave open, outermost
    /// first, or `None` where one of them closes a span that none of them
    /// opened.
    pub open spec fn open_since(self, start: int) -> Option<Seq<Token>> {
        open_stack(self.events.skip(start))
    }

    /// All the events leave open what the tokenizer holds as open.
    pub proof fn lemma_open_since_start(self)
        requires
            self.wf(),
        ensures
            self.open_since(0) == Some(self.stack),
            self.open_since(self.events.len() as int) == Some(Seq::<Token>::empty()),
    {
        assert(self.events.skip(0) =~= self.events);
    }

    /// Opening a span opens it among the events from `start` on.
    pub proof fn lemma_enter_since(
        self,
        token: Token,
        content_type: Option<ContentType>,
        start: int,
    )
        requires
            0 <= start <= self.events.len(),
        ensures
            self.enter_with_content(token, content_type).open_since(start) == match self.open_since(
                start,
            ) {
                Some(stack) => Some(stack.push(token)),
                None => None,
            },
    {
        let event = self.enter_event(token, content_type);
        assert(self.events.push(event).skip(start) =~= self.events.skip(start).push(event));
        lemma_open_stack_push(self.events.skip(start), event);
    }

    /// Closing a span closes it among the events from `start` on.
    pub proof fn lemma_exit_since(self, token: Token, start: int)
        requires
            0 <= start <= self.events.len(),
        ensures
            self.exit(token).open_since(start) == match self.open_since(start) {
                Some(stack) => step_stack(stack, self.exit_event(token)),
                None => None,
            },
    {
        let event = self.exit_event(token);
        assert(self.events.push(event).skip(start) =~= self.events.skip(start).push(event));
        lemma_open_stack_push(self.events.skip(start), event);
    }

    /// Linking an event leaves open what was open.
    pub proof fn lemma_relink_since(self, index: int, event: Event, start: int)
        requires
            0 <= start <= index < self.events.len(),
            event.kind == self.events[index].kind,
            event.edge == self.events[index].edge,
        ensures
            self.with_events(self.events.update(index, event)).open_since(start)
                == self.open_since(start),
    {
        assert(self.events.update(index, event).skip(start) =~= self.events.skip(start).update(
            index - start,
            event,
        ));
        lemma_open_stack_relink(self.events.skip(start), index - start, event);
    }

    /// Round trip: the pieces of the input between the outermost sides of
    /// the events, one after the other, are the input from the first of
    /// those sides to the last.
    pub proof fn lemma_round_trip(self)
        requires
            self.wf(),
        ensures
            top_level_offsets(self.events).len() > 0 ==> joined(
                self.input,
                top_level_offsets(self.events),
            ) == self.input.subrange(
                top_level_offsets(self.events).first(),
                top_level_offsets(self.events).last(),
            ),
    {
        let offsets = top_level_offsets(self.events);
        lemma_top_level_ascending(self.events, self.input, self.point.index as int);
        if offsets.len() > 0 {
            lemma_joined(self.input, offsets);
        }
    }

    /// A tokenizer keeps every event of itself.
    pub proof fn lemma_extends_self(self)
        ensures
            self.extends(self),
    {
    }

    /// What keeps the events of a tokenizer keeps the events of every
    /// tokenizer before that one.
    pub proof fn lemma_extends_trans(self, middle: TokenizerView, before: TokenizerView)
        requires
            self.extends(middle),
            middle.extends(before),
        ensures
            self.extends(before),
    {
        assert(self.events.take(before.events.len() as int) =~= middle.events.take(
            before.events.len() as int,
        ));
    }
}

/// A grammar rule as a state machine that the engine can drive.
///
/// A construct owns some of the state names.  Each step looks at the byte
/// at the tokenizer's place and either ends the construct or takes at least
/// that byte and names the state to go on with.
///
/// A construct says with `step_spec` what each of its steps does, and with
/// `inv` what it needs to take it.  Its `step` has to do exactly that, keep
/// the tokenizer sound, and leave every event that was there as it was:
/// it may only add events.  That is what lets the engine take back a
/// construct that failed.
pub trait Construct {
    /// What must hold of a tokenizer for the construct to take a step in the
    /// state `name`.
    spec fn inv(&self, name: StateName, tokenizer: TokenizerView) -> bool;

    /// What one step in the state `name` comes to and leaves behind.
    spec fn step_spec(&self, name: StateName, tokenizer: TokenizerView) -> (State, TokenizerView);

    /// Takes one step in the state `name`.
    fn step(&self, tokenizer: &mut Tokenizer, name: StateName) -> (state: State)
        requires
            old(tokenizer).wf(),
            self.inv(name, old(tokenizer)@),
        ensures
            (state, final(tokenizer)@) == self.step_spec(name, old(tokenizer)@),
            final(tokenizer).wf(),
            final(tokenizer)@.extends(old(tokenizer)@),
            state matches State::Next(next) ==> self.inv(next, final(tokenizer)@),
            state is Next ==> old(tokenizer)@.point.index < final(tokenizer)@.point.index,
    ;
}

/// What driving `construct` from the state `name` comes to: whether it
/// matched, and the tokenizer it leaves behind.
pub open spec fn run_spec<C: Construct>(construct: &C, name: StateName, tokenizer: TokenizerView) -> (
    bool,
    TokenizerView,
)
    decreases tokenizer.remaining(),
{
    let (state, after) = construct.step_spec(name, tokenizer);
    match state {
        State::Okay => (true, after),
        State::Nok => (false, after),
        State::Next(next) => if 0 <= after.remaining() < tokenizer.remaining() {
            run_spec(construct, next, after)
        } else {
            (false, after)
        },
    }
}

/// What an attempt at `construct` comes to: what driving it comes to where
/// it matches, and the tokenizer as it was where it does not.
pub open spec fn attempt_spec<C: Construct>(
    construct: &C,
    name: StateName,
    tokenizer: TokenizerView,
) -> (bool, TokenizerView) {
    let (ok, after) = run_spec(construct, name, tokenizer);
    if ok {
        (true, after)
    } else {
        (false, tokenizer)
    }
}

/// A tokenizer: the input, a place in it, and what was found before that
/// place.
pub struct Tokenizer<'a> {
    /// The bytes that the tokenizer reads from.
    pub input: &'a [u8],
    /// Where the tokenizer's input ends: it reads the first `end` bytes and
    /// sees nothing of the rest.
    pub end: usize,
    /// The byte at the tokenizer's place, if the input has not ended.
    pub current: Option<u8>,
    /// The tokenizer's place.
    pub point: Position,
    /// The events so far.
    pub events: Vec<Event>,
    /// The kinds of the spans that are open, outermost first.
    pub stack: Vec<Token>,
    /// The scratch register.
    pub tokenize_state: TokenizeState,
}

impl<'a> View for Tokenizer<'a> {
    type V = TokenizerView;

    open spec fn view(&self) -> TokenizerView {
        TokenizerView {
            input: self.input@.take(self.end as int),
            current: self.current,
            point: self.point,
            events: self.events@,
            stack: self.stack@,
            tokenize_state: self.tokenize_state,
        }
    }
}

impl<'a> Tokenizer<'a> {
    /// The tokenizer is sound, and every link among its events leads back to
    /// an earlier run.
    pub open spec fn wf(&self) -> bool {
        self.end <= self.input.len() && self@.wf() && links_wf(self.events@)
    }

    /// A tokenizer at the start of `input`, with no events.
    pub fn new(input: &'a [u8]) -> (tokenizer: Tokenizer<'a>)
        requires
            input.len() < usize::MAX,
        ensures
            tokenizer@ == TokenizerView::initial(input@),
            tokenizer.wf(),
    {
        proof {
            reveal(ordered);
            reveal(anchored);
            assert(input@.take(input.len() as int) =~= input@);
        }
        let current = if input.len() > 0 {
            Some(input[0])
        } else {
            None
        };
        let end = input.len();
        Tokenizer {
            input,
            end,
            current,
            point: Position { index: 0, line: 1, column: 1 },
            events: Vec::new(),
            stack: Vec::new(),
            tokenize_state: TokenizeState::new(),
        }
    }

    /// A tokenizer that stands at `point` and reads the bytes of `input`
    /// from there up to `end`, with no events.
    pub fn window(input: &'a [u8], point: Position, end: usize) -> (tokenizer: Tokenizer<'a>)
        requires
            point.index <= end <= input.len() < usize::MAX,
            point == position_at(input@, point.index as int),
        ensures
            tokenizer@ == TokenizerView::initial(input@.take(end as int)).moved_to(point),
            tokenizer.wf(),
    {
        proof {
            reveal(ordered);
            reveal(anchored);
            lemma_position_at_prefix(input@, end as int, point.index as int);
        }
        let current = if point.index < end {
            Some(input[point.index])
        } else {
            None
        };
        Tokenizer {
            input,
            end,
            current,
            point,
            events: Vec::new(),
            stack: Vec::new(),
            tokenize_state: TokenizeState::new(),
        }
    }

    /// Whether the tokenizer stands at the byte `byte`.
    pub fn at(&self, byte: u8) -> (yes: bool)
        ensures
            yes == (self@.current == Some(byte)),
    {
        match self.current {
            None => false,
            Some(current) => current == byte,
        }
    }

    /// Takes the byte at the tokenizer's place into the open span and moves
    /// on to the next.
    pub fn consume(&mut self)
        requires
            old(self).wf(),
            old(self).current is Some,
        ensures
            final(self)@ == old(self)@.consume(),
            final(self).wf(),
            final(self)@.extends(old(self)@),
            final(self)@.point.index == old(self)@.point.index + 1,
    {
        proof {
            lemma_position_at(self@.input, self.point.index as int);
            self@.lemma_consume();
        }
        let byte = self.input[self.point.index];
        self.point.index = self.point.index + 1;
        if byte == LINE_FEED {
            self.point.line = self.point.line + 1;
            self.point.column = 1;
        } else {
            self.point.column = self.point.column + 1;
        }
        self.current = if self.point.index < self.end {
            Some(self.input[self.point.index])
        } else {
            None
        };
    }

    /// Opens a span of kind `token` at the tokenizer's place.
    pub fn enter(&mut self, token: Token)
        requires
            old(self).wf(),
        ensures
            final(self)@ == old(self)@.enter(token),
            final(self).wf(),
            final(self)@.extends(old(self)@),
    {
        self.enter_with_content(token, None)
    }

    /// Opens a span of kind `token` at the tokenizer's place, whose inside
    /// is to be read again as `content_type` says.
    pub fn enter_with_content(&mut self, token: Token, content_type: Option<ContentType>)
        requires
            old(self).wf(),
        ensures
            final(self)@ == old(self)@.enter_with_content(token, content_type),
            final(self).wf(),
            final(self)@.extends(old(self)@),
    {
        proof {
            self@.lemma_enter(token, content_type);
            lemma_push_links_wf(self.events@, self@.enter_event(token, content_type));
        }
        self.events.push(
            Event { kind: token, offset: self.point, edge: Edge::Enter, content_type, previous: None },
        );
        self.stack.push(token);
    }

    /// Closes the innermost open span, which must be of kind `token`, at the
    /// tokenizer's place.
    pub fn exit(&mut self, token: Token)
        requires
            old(self).wf(),
            old(self)@.stack.len() > 0,
            old(self)@.stack.last() == token,
        ensures
            final(self)@ == old(self)@.exit(token),
            final(self).wf(),
            final(self)@.extends(old(self)@),
    {
        proof {
            self@.lemma_exit(token);
            lemma_push_links_wf(self.events@, self@.exit_event(token));
        }
        self.events.push(
            Event {
                kind: token,
                offset: self.point,
                edge: Edge::Exit,
                content_type: None,
                previous: None,
            },
        );
        self.stack.pop();
        assert(self.stack@ =~= old(self)@.stack.drop_last());
    }

    /// Drives `construct` from the state `start` until it matches or fails:
    /// each step gets the byte at the tokenizer's place, and the state it
    /// names takes the next step.  Says whether the construct matched.
    pub fn drive<C: Construct>(&mut self, construct: &C, start: StateName) -> (ok: bool)
        requires
            old(self).wf(),
            construct.inv(start, old(self)@),
        ensures
            (ok, final(self)@) == run_spec(construct, start, old(self)@),
            final(self).wf(),
            final(self)@.extends(old(self)@),
    {
        let mut name = start;
        proof {
            self@.lemma_extends_self();
        }
        loop
            invariant
                self.wf(),
                self@.extends(old(self)@),
                construct.inv(name, self@),
                run_spec(construct, name, self@) == run_spec(construct, start, old(self)@),
            decreases self@.remaining(),
        {
            let ghost before = self@;
            let state = construct.step(self, name);
            proof {
                self@.lemma_extends_trans(before, old(self)@);
            }
            match state {
                State::Okay => {
                    return true;
                },
                State::Nok => {
                    return false;
                },
                State::Next(next) => {
                    name = next;
                },
            }
        }
    }

    /// Tries `construct` from the state `start`.  Where it matches,
    /// everything it did stays.  Where it does not, the tokenizer is put back
    /// as it was: its events, its open spans, its place and its scratch
    /// register.  Says whether the construct matched.
    pub fn attempt<C: Construct>(&mut self, construct: &C, start: StateName) -> (ok: bool)
        requires
            old(self).wf(),
            construct.inv(start, old(self)@),
        ensures
            (ok, final(self)@) == attempt_spec(construct, start, old(self)@),
            !ok ==> final(self)@ == old(self)@,
            final(self).wf(),
            final(self)@.extends(old(self)@),
    {
        let current = self.current;
        let point = self.point;
        let len = self.events.len();
        let stack = self.copy_stack();
        let tokenize_state = self.tokenize_state;
        let ok = self.drive(construct, start);
        if !ok {
            self.current = current;
            self.point = point;
            self.events.truncate(len);
            self.stack = stack;
            self.tokenize_state = tokenize_state;
            assert(self.events@ =~= old(self)@.events);
        }
        ok
    }

    /// A copy of the kinds of the open spans.
    fn copy_stack(&self) -> (stack: Vec<Token>)
        ensures
            stack@ == self.stack@,
    {
        let mut stack: Vec<Token> = Vec::new();
        let mut i: usize = 0;
        while i < self.stack.len()
            invariant
                i <= self.stack.len(),
                stack@ =~= self.stack@.take(i as int),
            decreases self.stack.len() - i,
        {
            stack.push(self.stack[i]);
            i = i + 1;
        }
        assert(self.stack@.take(i as int) =~= self.stack@);
        stack
    }
}

} // verus!
