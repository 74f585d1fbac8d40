//! A line ending with the spaces and tabs around it.
//!
//! ```bnf
//! space_or_tab_eol ::= *space_or_tab eol *space_or_tab
//! ```
//!
//! What follows must be something other than a line ending or the end of
//! the input: a blank line does not match.
//!
//! The whitespace and the line ending become events of their own.  Where a
//! content type is given they carry it, and each is linked to the run before
//! it, so that the text around a line ending can be read again as one.

use vstd::prelude::*;
use crate::constant::{LINE_FEED, SPACE, TAB};
use crate::event::{byte_at, open_stack, ContentType, Edge, Event};
use crate::subtokenize::{
    ends_in_run, lemma_linked_links_wf, lemma_unit_text_below, lemma_unit_text_unfold, link,
    linked, run_bytes, unit_text,
};
use crate::token::Token;
use crate::tokenizer::{run_spec, Construct, State, StateName, Tokenizer, TokenizerView};

verus! {

/// How the events of a line ending are marked.
#[derive(Clone, Copy, Debug, PartialEq, Eq)]
pub struct EolOptions {
    /// How the whitespace and the line ending are read again, if they are.
    pub content_type: Option<ContentType>,
    /// Whether the first event continues the run just before it.
    pub connect: bool,
}

/// The construct for a line ending with the whitespace around it.
#[derive(Clone, Copy, Debug, PartialEq, Eq)]
pub struct SpaceOrTabEol {
    /// How its events are marked.
    pub options: EolOptions,
}

/// The construct for a line ending with the whitespace around it, whose
/// events are marked as `options` say.
pub fn space_or_tab_eol_with_options(options: EolOptions) -> (construct: SpaceOrTabEol)
    ensures
        construct.options == options,
{
    SpaceOrTabEol { options }
}

/// `byte` is a space or a tab.
pub open spec fn is_space_or_tab(byte: Option<u8>) -> bool {
    byte == Some(SPACE) || byte == Some(TAB)
}

/// `byte` is a line ending, or the input has ended.
pub open spec fn is_eol_or_eof(byte: Option<u8>) -> bool {
    byte is None || byte == Some(LINE_FEED)
}

/// The first place at or after `index` where no space or tab stands.
pub open spec fn space_or_tab_end(input: Seq<u8>, index: int) -> int
    decreases input.len() - index,
{
    if 0 <= index < input.len() && (input[index] == SPACE || input[index] == TAB) {
        space_or_tab_end(input, index + 1)
    } else {
        index
    }
}

/// At `index` stand, in this order: spaces and tabs, or none; a line ending;
/// spaces and tabs, or none; and a byte that is not a line ending.
pub open spec fn eol_matches(input: Seq<u8>, index: int) -> bool {
    let eol = space_or_tab_end(input, index);
    let end = space_or_tab_end(input, eol + 1);
    &&& 0 <= eol < input.len()
    &&& input[eol] == LINE_FEED
    &&& end < input.len()
    &&& input[end] != LINE_FEED
}

/// Where the line ending at `index`, with the whitespace around it, ends.
pub open spec fn eol_end(input: Seq<u8>, index: int) -> int {
    space_or_tab_end(input, space_or_tab_end(input, index) + 1)
}

/// The tokenizer after it opened a span that is read again as `content_type`
/// says and, where `connect` is set, linked it to the run before.
pub open spec fn enter_linked(
    tokenizer: TokenizerView,
    token: Token,
    content_type: Option<ContentType>,
    connect: bool,
) -> TokenizerView {
    let entered = tokenizer.enter_with_content(token, content_type);
    if connect {
        entered.with_events(
            linked(entered.events, entered.events.len() - 3, entered.events.len() - 1),
        )
    } else {
        entered
    }
}

/// The tokenizer is in a span of kind `token`, opened by its last event and
/// read again as `content_type` says.
pub open spec fn in_run(
    tokenizer: TokenizerView,
    token: Token,
    content_type: Option<ContentType>,
) -> bool {
    &&& tokenizer.events.len() > 0
    &&& tokenizer.events.last().edge == Edge::Enter
    &&& tokenizer.events.last().kind == token
    &&& tokenizer.events.last().content_type == content_type
    &&& tokenizer.stack.len() > 0
    &&& tokenizer.stack.last() == token
}

/// Opening a span, linked or not, keeps a sound tokenizer sound and all its
/// events, and leaves it in that span.
pub proof fn lemma_enter_linked(
    tokenizer: TokenizerView,
    token: Token,
    content_type: Option<ContentType>,
    connect: bool,
)
    requires
        tokenizer.wf(),
        connect ==> ends_in_run(tokenizer.events, content_type),
    ensures
        enter_linked(tokenizer, token, content_type, connect).wf(),
        enter_linked(tokenizer, token, content_type, connect).extends(tokenizer),
        in_run(enter_linked(tokenizer, token, content_type, connect), token, content_type),
        enter_linked(tokenizer, token, content_type, connect).stack == tokenizer.stack.push(token),
        enter_linked(tokenizer, token, content_type, connect).events.len() == tokenizer.events.len()
            + 1,
{
    tokenizer.lemma_enter(token, content_type);
    if connect {
        let entered = tokenizer.enter_with_content(token, content_type);
        let index = entered.events.len() - 1;
        entered.lemma_relink();
        assert(linked(entered.events, index - 2, index).take(tokenizer.events.len() as int)
            =~= tokenizer.events);
    }
}

/// Closing the span that the tokenizer is in leaves events that end in a
/// run, where the span is read again at all.
pub proof fn lemma_exit_run(
    tokenizer: TokenizerView,
    token: Token,
    content_type: Option<ContentType>,
)
    requires
        tokenizer.wf(),
        in_run(tokenizer, token, content_type),
    ensures
        tokenizer.exit(token).wf(),
        tokenizer.exit(token).extends(tokenizer),
        content_type is Some ==> ends_in_run(tokenizer.exit(token).events, content_type),
{
    tokenizer.lemma_exit(token);
}

/// Opens a span of kind `token` that is read again as `content_type` says
/// and, where `connect` is set, links it to the run just before it.
pub fn enter_and_link(
    tokenizer: &mut Tokenizer,
    token: Token,
    content_type: Option<ContentType>,
    connect: bool,
)
    requires
        old(tokenizer).wf(),
        connect ==> ends_in_run(old(tokenizer)@.events, content_type),
    ensures
        final(tokenizer)@ == enter_linked(old(tokenizer)@, token, content_type, connect),
        final(tokenizer).wf(),
        final(tokenizer)@.extends(old(tokenizer)@),
{
    proof {
        lemma_enter_linked(tokenizer@, token, content_type, connect);
    }
    tokenizer.enter_with_content(token, content_type);
    if connect {
        let index = tokenizer.events.len() - 1;
        proof {
            lemma_linked_links_wf(tokenizer.events@, index - 2, index as int);
        }
        link(&mut tokenizer.events, index);
    }
}

/// Whether the tokenizer stands at a space or a tab.
pub fn at_space_or_tab(tokenizer: &Tokenizer) -> (yes: bool)
    ensures
        yes == is_space_or_tab(tokenizer@.current),
{
    match tokenizer.current {
        None => false,
        Some(byte) => byte == SPACE || byte == TAB,
    }
}

impl SpaceOrTabEol {
    /// What a step before the whitespace and the line ending comes to.
    pub open spec fn start_spec(self, tokenizer: TokenizerView) -> (State, TokenizerView) {
        if is_space_or_tab(tokenizer.current) {
            (
                State::Next(StateName::SpaceOrTabEolBefore),
                enter_linked(
                    tokenizer,
                    Token::SpaceOrTab,
                    self.options.content_type,
                    self.options.connect,
                ).consume(),
            )
        } else {
            self.at_eol_spec(tokenizer, self.options.connect)
        }
    }

    /// What a step in the whitespace before the line ending comes to.
    pub open spec fn before_spec(self, tokenizer: TokenizerView) -> (State, TokenizerView) {
        if is_space_or_tab(tokenizer.current) {
            (State::Next(StateName::SpaceOrTabEolBefore), tokenizer.consume())
        } else {
            self.at_eol_spec(
                tokenizer.exit(Token::SpaceOrTab),
                self.options.content_type is Some,
            )
        }
    }

    /// What a step at the place where the line ending must stand comes to.
    pub open spec fn at_eol_spec(self, tokenizer: TokenizerView, connect: bool) -> (
        State,
        TokenizerView,
    ) {
        if tokenizer.current == Some(LINE_FEED) {
            (
                State::Next(StateName::SpaceOrTabEolAfterEol),
                enter_linked(
                    tokenizer,
                    Token::LineEnding,
                    self.options.content_type,
                    connect,
                ).consume().exit(Token::LineEnding),
            )
        } else {
            (State::Nok, tokenizer)
        }
    }

    /// What a step after the line ending comes to.
    pub open spec fn after_eol_spec(self, tokenizer: TokenizerView) -> (State, TokenizerView) {
        if is_space_or_tab(tokenizer.current) {
            (
                State::Next(StateName::SpaceOrTabEolAfter),
                enter_linked(
                    tokenizer,
                    Token::SpaceOrTab,
                    self.options.content_type,
                    self.options.content_type is Some,
                ).consume(),
            )
        } else {
            self.end_spec(tokenizer)
        }
    }

    /// What a step in the whitespace after the line ending comes to.
    pub open spec fn after_spec(self, tokenizer: TokenizerView) -> (State, TokenizerView) {
        if is_space_or_tab(tokenizer.current) {
            (State::Next(StateName::SpaceOrTabEolAfter), tokenizer.consume())
        } else {
            self.end_spec(tokenizer.exit(Token::SpaceOrTab))
        }
    }

    /// What the construct comes to after the whitespace that follows the
    /// line ending: a blank line does not match.
    pub open spec fn end_spec(self, tokenizer: TokenizerView) -> (State, TokenizerView) {
        if is_eol_or_eof(tokenizer.current) {
            (State::Nok, tokenizer)
        } else {
            (State::Okay, tokenizer)
        }
    }

    /// Before the whitespace and the line ending.
    ///
    /// ```markdown
    /// > | a␠␠␊
    ///      ^
    ///   | ␠␠b
    /// ```
    pub fn start(&self, tokenizer: &mut Tokenizer) -> (state: State)
        requires
            old(tokenizer).wf(),
            self.inv(StateName::SpaceOrTabEolStart, old(tokenizer)@),
        ensures
            (state, final(tokenizer)@) == self.start_spec(old(tokenizer)@),
            final(tokenizer).wf(),
            final(tokenizer)@.extends(old(tokenizer)@),
            self.advances(state, old(tokenizer)@, final(tokenizer)@),
    {
        if at_space_or_tab(tokenizer) {
            proof {
                lemma_enter_linked(
                    tokenizer@,
                    Token::SpaceOrTab,
                    self.options.content_type,
                    self.options.connect,
                );
            }
            enter_and_link(
                tokenizer,
                Token::SpaceOrTab,
                self.options.content_type,
                self.options.connect,
            );
            let ghost entered = tokenizer@;
            tokenizer.consume();
            proof {
                tokenizer@.lemma_extends_trans(entered, old(tokenizer)@);
            }
            State::Next(StateName::SpaceOrTabEolBefore)
        } else {
            self.at_eol(tokenizer, self.options.connect)
        }
    }

    /// In the whitespace before the line ending.
    ///
    /// ```markdown
    /// > | a␠␠␊
    ///       ^
    ///   | ␠␠b
    /// ```
    pub fn before(&self, tokenizer: &mut Tokenizer) -> (state: State)
        requires
            old(tokenizer).wf(),
            self.inv(StateName::SpaceOrTabEolBefore, old(tokenizer)@),
        ensures
            (state, final(tokenizer)@) == self.before_spec(old(tokenizer)@),
            final(tokenizer).wf(),
            final(tokenizer)@.extends(old(tokenizer)@),
            self.advances(state, old(tokenizer)@, final(tokenizer)@),
    {
        if at_space_or_tab(tokenizer) {
            tokenizer.consume();
            State::Next(StateName::SpaceOrTabEolBefore)
        } else {
            proof {
                lemma_exit_run(tokenizer@, Token::SpaceOrTab, self.options.content_type);
            }
            tokenizer.exit(Token::SpaceOrTab);
            let ghost exited = tokenizer@;
            let connect = self.options.content_type.is_some();
            let state = self.at_eol(tokenizer, connect);
            proof {
                tokenizer@.lemma_extends_trans(exited, old(tokenizer)@);
            }
            state
        }
    }

    /// Where the line ending must stand.
    ///
    /// ```markdown
    /// > | a␠␠␊
    ///        ^
    ///   | ␠␠b
    /// ```
    pub fn at_eol(&self, tokenizer: &mut Tokenizer, connect: bool) -> (state: State)
        requires
            old(tokenizer).wf(),
            connect ==> ends_in_run(old(tokenizer)@.events, self.options.content_type),
        ensures
            (state, final(tokenizer)@) == self.at_eol_spec(old(tokenizer)@, connect),
            final(tokenizer).wf(),
            final(tokenizer)@.extends(old(tokenizer)@),
            self.advances(state, old(tokenizer)@, final(tokenizer)@),
    {
        if tokenizer.at(LINE_FEED) {
            proof {
                lemma_enter_linked(
                    tokenizer@,
                    Token::LineEnding,
                    self.options.content_type,
                    connect,
                );
            }
            enter_and_link(tokenizer, Token::LineEnding, self.options.content_type, connect);
            let ghost entered = tokenizer@;
            tokenizer.consume();
            let ghost consumed = tokenizer@;
            proof {
                lemma_exit_run(consumed, Token::LineEnding, self.options.content_type);
            }
            tokenizer.exit(Token::LineEnding);
            proof {
                consumed.lemma_extends_trans(entered, old(tokenizer)@);
                tokenizer@.lemma_extends_trans(consumed, old(tokenizer)@);
            }
            State::Next(StateName::SpaceOrTabEolAfterEol)
        } else {
            proof {
                tokenizer@.lemma_extends_self();
            }
            State::Nok
        }
    }

    /// After the line ending.
    ///
    /// ```markdown
    ///   | a␠␠␊
    /// > | ␠␠b
    ///     ^
    /// ```
    pub fn after_eol(&self, tokenizer: &mut Tokenizer) -> (state: State)
        requires
            old(tokenizer).wf(),
            self.inv(StateName::SpaceOrTabEolAfterEol, old(tokenizer)@),
        ensures
            (state, final(tokenizer)@) == self.after_eol_spec(old(tokenizer)@),
            final(tokenizer).wf(),
            final(tokenizer)@.extends(old(tokenizer)@),
            self.advances(state, old(tokenizer)@, final(tokenizer)@),
    {
        if at_space_or_tab(tokenizer) {
            let connect = self.options.content_type.is_some();
            proof {
                lemma_enter_linked(
                    tokenizer@,
                    Token::SpaceOrTab,
                    self.options.content_type,
                    connect,
                );
            }
            enter_and_link(tokenizer, Token::SpaceOrTab, self.options.content_type, connect);
            let ghost entered = tokenizer@;
            tokenizer.consume();
            proof {
                tokenizer@.lemma_extends_trans(entered, old(tokenizer)@);
            }
            State::Next(StateName::SpaceOrTabEolAfter)
        } else {
            proof {
                tokenizer@.lemma_extends_self();
            }
            self.end(tokenizer)
        }
    }

    /// In the whitespace after the line ending.
    ///
    /// ```markdown
    ///   | a␠␠␊
    /// > | ␠␠b
    ///      ^
    /// ```
    pub fn after(&self, tokenizer: &mut Tokenizer) -> (state: State)
        requires
            old(tokenizer).wf(),
            self.inv(StateName::SpaceOrTabEolAfter, old(tokenizer)@),
        ensures
            (state, final(tokenizer)@) == self.after_spec(old(tokenizer)@),
            final(tokenizer).wf(),
            final(tokenizer)@.extends(old(tokenizer)@),
            self.advances(state, old(tokenizer)@, final(tokenizer)@),
    {
        if at_space_or_tab(tokenizer) {
            tokenizer.consume();
            State::Next(StateName::SpaceOrTabEolAfter)
        } else {
            tokenizer.exit(Token::SpaceOrTab);
            self.end(tokenizer)
        }
    }

    /// After everything: what follows decides.
    ///
    /// ```markdown
    ///   | a␠␠␊
    /// > | ␠␠b
    ///       ^
    /// ```
    pub fn end(&self, tokenizer: &Tokenizer) -> (state: State)
        ensures
            (state, tokenizer@) == self.end_spec(tokenizer@),
            !(state is Next),
    {
        match tokenizer.current {
            None => State::Nok,
            Some(byte) => if byte == LINE_FEED {
                State::Nok
            } else {
                State::Okay
            },
        }
    }

    /// A step that goes on has taken a byte and left the tokenizer fit for
    /// the state it names.
    pub open spec fn advances(self, state: State, before: TokenizerView, after: TokenizerView) -> bool {
        match state {
            State::Next(next) => self.inv(next, after) && before.point.index < after.point.index,
            _ => true,
        }
    }
}

impl Construct for SpaceOrTabEol {
    open spec fn inv(&self, name: StateName, tokenizer: TokenizerView) -> bool {
        match name {
            StateName::SpaceOrTabEolStart => self.options.connect ==> ends_in_run(
                tokenizer.events,
                self.options.content_type,
            ),
            StateName::SpaceOrTabEolBefore => in_run(
                tokenizer,
                Token::SpaceOrTab,
                self.options.content_type,
            ),
            StateName::SpaceOrTabEolAfterEol => self.options.content_type is Some ==> ends_in_run(
                tokenizer.events,
                self.options.content_type,
            ),
            StateName::SpaceOrTabEolAfter => in_run(
                tokenizer,
                Token::SpaceOrTab,
                self.options.content_type,
            ),
            _ => false,
        }
    }

    open spec fn step_spec(&self, name: StateName, tokenizer: TokenizerView) -> (
        State,
        TokenizerView,
    ) {
        match name {
            StateName::SpaceOrTabEolStart => self.start_spec(tokenizer),
            StateName::SpaceOrTabEolBefore => self.before_spec(tokenizer),
            StateName::SpaceOrTabEolAfterEol => self.after_eol_spec(tokenizer),
            StateName::SpaceOrTabEolAfter => self.after_spec(tokenizer),
            _ => (State::Nok, tokenizer),
        }
    }

    fn step(&self, tokenizer: &mut Tokenizer, name: StateName) -> (state: State) {
        match name {
            StateName::SpaceOrTabEolStart => self.start(tokenizer),
            StateName::SpaceOrTabEolBefore => self.before(tokenizer),
            StateName::SpaceOrTabEolAfterEol => self.after_eol(tokenizer),
            StateName::SpaceOrTabEolAfter => self.after(tokenizer),
            _ => State::Nok,
        }
    }
}

/// The tokenizer `after` is what a matched line ending, with the whitespace
/// around it, makes of `before`: it is sound, has kept every event, stands
/// at `end` before something that is not a line ending, and has changed
/// nothing in the scratch register.
pub open spec fn eol_done(
    construct: SpaceOrTabEol,
    before: TokenizerView,
    after: TokenizerView,
    end: int,
) -> bool {
    &&& after.wf()
    &&& after.extends(before)
    &&& after.tokenize_state == before.tokenize_state
    &&& after.point.index == end
    &&& !is_eol_or_eof(after.current)
    &&& construct.options.content_type is Some ==> ends_in_run(
        after.events,
        construct.options.content_type,
    )
}

/// The events of the tokenizer can be counted in a `usize`.  For what a
/// tokenizer holds in memory that is always so.
pub open spec fn fits(tokenizer: TokenizerView) -> bool {
    tokenizer.events.len() <= usize::MAX
}

/// The events end in a run, and the unit that ends with that run is the
/// input from `origin` to the tokenizer's place.
pub open spec fn unit_closed(tokenizer: TokenizerView, origin: int) -> bool {
    &&& tokenizer.events.len() >= 2
    &&& 0 <= origin <= tokenizer.point.index
    &&& unit_text(tokenizer.input, tokenizer.events, tokenizer.events.len() - 2)
        == tokenizer.input.subrange(origin, tokenizer.point.index as int)
}

/// The last event opens a run.  Either it is linked to the run just before
/// it, and the unit that ends with that run is the input from `origin` to
/// the start of this one; or it is linked to nothing and starts at `origin`.
pub open spec fn unit_open(tokenizer: TokenizerView, origin: int) -> bool {
    let at = tokenizer.events.len() - 1;
    let start = tokenizer.events[at].offset.index as int;
    &&& tokenizer.events.len() >= 1
    &&& 0 <= origin <= start <= tokenizer.point.index
    &&& match tokenizer.events[at].previous {
        Some(previous) => {
            &&& previous == at - 2
            &&& unit_text(tokenizer.input, tokenizer.events, at - 2) == tokenizer.input.subrange(
                origin,
                start,
            )
        },
        None => start == origin,
    }
}

/// What the next run can continue: with `connect`, the events end in a run
/// whose unit is the input from `origin` on; without, the tokenizer stands
/// at `origin`.
pub open spec fn unit_ready(tokenizer: TokenizerView, connect: bool, origin: int) -> bool {
    if connect {
        unit_closed(tokenizer, origin)
    } else {
        tokenizer.point.index == origin
    }
}

/// A run that opens continues the unit before it, where it is linked, and
/// starts one where it is not.
pub proof fn lemma_unit_enter(
    tokenizer: TokenizerView,
    token: Token,
    content_type: Option<ContentType>,
    connect: bool,
    origin: int,
)
    requires
        tokenizer.wf(),
        connect ==> ends_in_run(tokenizer.events, content_type),
        unit_ready(tokenizer, connect, origin),
        fits(enter_linked(tokenizer, token, content_type, connect)),
    ensures
        unit_open(enter_linked(tokenizer, token, content_type, connect), origin),
{
    let after = enter_linked(tokenizer, token, content_type, connect);
    let at = tokenizer.events.len() as int;
    if connect {
        lemma_unit_text_below(tokenizer.input, tokenizer.events, after.events, at, at - 2);
    }
}

/// A run that closes ends a unit that is the input from `origin` to the
/// place where it closes.
pub proof fn lemma_unit_exit(tokenizer: TokenizerView, token: Token, origin: int)
    requires
        tokenizer.wf(),
        unit_open(tokenizer, origin),
    ensures
        unit_closed(tokenizer.exit(token), origin),
{
    let after = tokenizer.exit(token);
    let at = tokenizer.events.len() - 1;
    let start = tokenizer.events[at].offset.index as int;
    let end = tokenizer.point.index as int;
    lemma_unit_text_unfold(tokenizer.input, after.events, at);
    assert(run_bytes(tokenizer.input, after.events, at) == tokenizer.input.subrange(start, end));
    match tokenizer.events[at].previous {
        Some(previous) => {
            lemma_unit_text_below(
                tokenizer.input,
                tokenizer.events,
                after.events,
                tokenizer.events.len() as int,
                at - 2,
            );
            assert(tokenizer.input.subrange(origin, start) + tokenizer.input.subrange(start, end)
                =~= tokenizer.input.subrange(origin, end));
        },
        None => {},
    }
}

/// Opening a span, linked or not, opens it among the events from `start` on.
pub proof fn lemma_enter_linked_since(
    tokenizer: TokenizerView,
    token: Token,
    content_type: Option<ContentType>,
    connect: bool,
    start: int,
)
    requires
        0 <= start <= tokenizer.events.len(),
    ensures
        enter_linked(tokenizer, token, content_type, connect).open_since(start)
            == match tokenizer.open_since(start) {
            Some(stack) => Some(stack.push(token)),
            None => None,
        },
{
    tokenizer.lemma_enter_since(token, content_type, start);
    if connect {
        let entered = tokenizer.enter_with_content(token, content_type);
        let index = entered.events.len() - 1;
        entered.lemma_relink_since(index, linked(entered.events, index - 2, index)[index], start);
    }
}

/// Where the last event opens a span, that span is the innermost open one.
pub proof fn lemma_open_last_enter(events: Seq<Event>)
    requires
        events.len() > 0,
        events.last().edge == Edge::Enter,
        open_stack(events) is Some,
    ensures
        open_stack(events).unwrap().len() > 0,
        open_stack(events).unwrap().last() == events.last().kind,
{
}

/// In the whitespace after the line ending, the construct matches exactly
/// where the whitespace is followed by something other than a line ending,
/// and then stops there with the whitespace closed.
pub proof fn lemma_run_after(
    construct: SpaceOrTabEol,
    tokenizer: TokenizerView,
    start: int,
    origin: int,
)
    requires
        tokenizer.wf(),
        construct.inv(StateName::SpaceOrTabEolAfter, tokenizer),
        0 <= start < tokenizer.events.len(),
        tokenizer.open_since(start) is Some,
    ensures
        ({
            let (ok, after) = run_spec(&construct, StateName::SpaceOrTabEolAfter, tokenizer);
            let end = space_or_tab_end(tokenizer.input, tokenizer.point.index as int);
            &&& ok == !is_eol_or_eof(byte_at(tokenizer.input, end))
            &&& after.tokenize_state == tokenizer.tokenize_state
            &&& ok ==> {
                &&& eol_done(construct, tokenizer, after, end)
                &&& after.stack == tokenizer.stack.drop_last()
                &&& after.open_since(start) == Some(
                    tokenizer.open_since(start).unwrap().drop_last(),
                )
                &&& fits(after) && unit_open(tokenizer, origin) ==> unit_closed(after, origin)
            }
        }),
    decreases tokenizer.remaining(),
{
    if is_space_or_tab(tokenizer.current) {
        let next = tokenizer.consume();
        tokenizer.lemma_consume();
        lemma_run_after(construct, next, start, origin);
        let (ok, after) = run_spec(&construct, StateName::SpaceOrTabEolAfter, next);
        if ok {
            after.lemma_extends_trans(next, tokenizer);
        }
    } else {
        lemma_exit_run(tokenizer, Token::SpaceOrTab, construct.options.content_type);
        tokenizer.lemma_exit_since(Token::SpaceOrTab, start);
        lemma_open_last_enter(tokenizer.events.skip(start));
        if unit_open(tokenizer, origin) {
            lemma_unit_exit(tokenizer, Token::SpaceOrTab, origin);
        }
    }
}

/// After the line ending, the construct matches exactly where the
/// whitespace that may follow is followed by something other than a line
/// ending, and then stops there with nothing more open than before.
pub proof fn lemma_run_after_eol(
    construct: SpaceOrTabEol,
    tokenizer: TokenizerView,
    start: int,
    origin: int,
)
    requires
        tokenizer.wf(),
        construct.inv(StateName::SpaceOrTabEolAfterEol, tokenizer),
        0 <= start <= tokenizer.events.len(),
        tokenizer.open_since(start) is Some,
    ensures
        ({
            let (ok, after) = run_spec(&construct, StateName::SpaceOrTabEolAfterEol, tokenizer);
            let end = space_or_tab_end(tokenizer.input, tokenizer.point.index as int);
            &&& ok == !is_eol_or_eof(byte_at(tokenizer.input, end))
            &&& after.tokenize_state == tokenizer.tokenize_state
            &&& ok ==> {
                &&& eol_done(construct, tokenizer, after, end)
                &&& after.stack == tokenizer.stack
                &&& after.open_since(start) == tokenizer.open_since(start)
                &&& fits(after) && construct.options.content_type is Some && unit_closed(
                    tokenizer,
                    origin,
                ) ==> unit_closed(after, origin)
            }
        }),
{
    if is_space_or_tab(tokenizer.current) {
        let content_type = construct.options.content_type;
        let connect = content_type is Some;
        let entered = enter_linked(tokenizer, Token::SpaceOrTab, content_type, connect);
        lemma_enter_linked(tokenizer, Token::SpaceOrTab, content_type, connect);
        lemma_enter_linked_since(tokenizer, Token::SpaceOrTab, content_type, connect, start);
        let next = entered.consume();
        entered.lemma_consume();
        next.lemma_extends_trans(entered, tokenizer);
        lemma_run_after(construct, next, start, origin);
        let (ok, after) = run_spec(&construct, StateName::SpaceOrTabEolAfter, next);
        if ok {
            after.lemma_extends_trans(next, tokenizer);
            assert(after.stack =~= tokenizer.stack);
            assert(after.open_since(start).unwrap() =~= tokenizer.open_since(start).unwrap());
            if fits(after) && connect && unit_closed(tokenizer, origin) {
                lemma_unit_enter(tokenizer, Token::SpaceOrTab, content_type, connect, origin);
            }
        }
    } else {
        tokenizer.lemma_extends_self();
    }
}

/// Where the line ending must stand, the construct matches exactly where
/// it stands there and no blank line follows.
pub proof fn lemma_run_at_eol(
    construct: SpaceOrTabEol,
    tokenizer: TokenizerView,
    connect: bool,
    start: int,
    origin: int,
)
    requires
        tokenizer.wf(),
        connect ==> ends_in_run(tokenizer.events, construct.options.content_type),
        0 <= start <= tokenizer.events.len(),
        tokenizer.open_since(start) is Some,
    ensures
        ({
            let (state, next) = construct.at_eol_spec(tokenizer, connect);
            let end = space_or_tab_end(tokenizer.input, tokenizer.point.index + 1);
            let follows = tokenizer.current == Some(LINE_FEED) && !is_eol_or_eof(
                byte_at(tokenizer.input, end),
            );
            match state {
                State::Next(name) => {
                    let (ok, after) = run_spec(&construct, name, next);
                    &&& 0 <= next.remaining() < tokenizer.remaining()
                    &&& ok == follows
                    &&& after.tokenize_state == tokenizer.tokenize_state
                    &&& ok ==> {
                        &&& eol_done(construct, tokenizer, after, end)
                        &&& after.stack == tokenizer.stack
                        &&& after.open_since(start) == tokenizer.open_since(start)
                        &&& fits(after) && construct.options.content_type is Some && unit_ready(
                            tokenizer,
                            connect,
                            origin,
                        ) ==> unit_closed(after, origin)
                    }
                },
                _ => !follows,
            }
        }),
{
    if tokenizer.current == Some(LINE_FEED) {
        let content_type = construct.options.content_type;
        let entered = enter_linked(tokenizer, Token::LineEnding, content_type, connect);
        lemma_enter_linked(tokenizer, Token::LineEnding, content_type, connect);
        lemma_enter_linked_since(tokenizer, Token::LineEnding, content_type, connect, start);
        let consumed = entered.consume();
        entered.lemma_consume();
        let next = consumed.exit(Token::LineEnding);
        lemma_exit_run(consumed, Token::LineEnding, content_type);
        consumed.lemma_exit_since(Token::LineEnding, start);
        consumed.lemma_extends_trans(entered, tokenizer);
        next.lemma_extends_trans(consumed, tokenizer);
        assert(next.stack =~= tokenizer.stack);
        assert(next.open_since(start).unwrap() =~= tokenizer.open_since(start).unwrap());
        lemma_run_after_eol(construct, next, start, origin);
        let (ok, after) = run_spec(&construct, StateName::SpaceOrTabEolAfterEol, next);
        if ok {
            after.lemma_extends_trans(next, tokenizer);
            if fits(after) && content_type is Some && unit_ready(tokenizer, connect, origin) {
                lemma_unit_enter(tokenizer, Token::LineEnding, content_type, connect, origin);
                lemma_unit_exit(consumed, Token::LineEnding, origin);
            }
        }
    }
}

/// In the whitespace before the line ending, the construct matches exactly
/// where the whitespace is followed by a line ending and no blank line
/// follows that.
pub proof fn lemma_run_before(
    construct: SpaceOrTabEol,
    tokenizer: TokenizerView,
    start: int,
    origin: int,
)
    requires
        tokenizer.wf(),
        construct.inv(StateName::SpaceOrTabEolBefore, tokenizer),
        0 <= start < tokenizer.events.len(),
        tokenizer.open_since(start) is Some,
    ensures
        ({
            let (ok, after) = run_spec(&construct, StateName::SpaceOrTabEolBefore, tokenizer);
            &&& ok == eol_matches(tokenizer.input, tokenizer.point.index as int)
            &&& after.tokenize_state == tokenizer.tokenize_state
            &&& ok ==> {
                &&& eol_done(
                    construct,
                    tokenizer,
                    after,
                    eol_end(tokenizer.input, tokenizer.point.index as int),
                )
                &&& after.stack == tokenizer.stack.drop_last()
                &&& after.open_since(start) == Some(
                    tokenizer.open_since(start).unwrap().drop_last(),
                )
                &&& fits(after) && construct.options.content_type is Some && unit_open(
                    tokenizer,
                    origin,
                ) ==> unit_closed(after, origin)
            }
        }),
    decreases tokenizer.remaining(),
{
    if is_space_or_tab(tokenizer.current) {
        let next = tokenizer.consume();
        tokenizer.lemma_consume();
        lemma_run_before(construct, next, start, origin);
        let (ok, after) = run_spec(&construct, StateName::SpaceOrTabEolBefore, next);
        if ok {
            after.lemma_extends_trans(next, tokenizer);
        }
    } else {
        let content_type = construct.options.content_type;
        let exited = tokenizer.exit(Token::SpaceOrTab);
        lemma_exit_run(tokenizer, Token::SpaceOrTab, content_type);
        tokenizer.lemma_exit_since(Token::SpaceOrTab, start);
        lemma_open_last_enter(tokenizer.events.skip(start));
        lemma_run_at_eol(construct, exited, content_type is Some, start, origin);
        lemma_space_or_tab_end_grows(tokenizer.input, tokenizer.point.index + 1);
        if unit_open(tokenizer, origin) {
            lemma_unit_exit(tokenizer, Token::SpaceOrTab, origin);
        }
        let (state, next) = construct.at_eol_spec(exited, content_type is Some);
        if let State::Next(name) = state {
            let (ok, after) = run_spec(&construct, name, next);
            if ok {
                after.lemma_extends_trans(exited, tokenizer);
            }
        }
    }
}

/// The construct matches exactly where [`eol_matches`] says, and never
/// touches the scratch register.  Where it matches it leaves a sound
/// tokenizer that stands at [`eol_end`], before something that is not a line
/// ending, with every earlier event kept and every span closed that it
/// opened: what the events from `start` on leave open is what they left open
/// before.
///
/// Where its events are read again, they go on with the unit before them:
/// if that unit was the input from `origin` on, or if nothing is to be
/// continued and `origin` is where the tokenizer stood, then the unit of the
/// last event is the input from `origin` up to the new place.
pub proof fn lemma_run_eol(
    construct: SpaceOrTabEol,
    tokenizer: TokenizerView,
    start: int,
    origin: int,
)
    requires
        tokenizer.wf(),
        construct.inv(StateName::SpaceOrTabEolStart, tokenizer),
        0 <= start <= tokenizer.events.len(),
        tokenizer.open_since(start) is Some,
    ensures
        ({
            let (ok, after) = run_spec(&construct, StateName::SpaceOrTabEolStart, tokenizer);
            &&& ok == eol_matches(tokenizer.input, tokenizer.point.index as int)
            &&& after.tokenize_state == tokenizer.tokenize_state
            &&& ok ==> {
                &&& eol_done(
                    construct,
                    tokenizer,
                    after,
                    eol_end(tokenizer.input, tokenizer.point.index as int),
                )
                &&& after.stack == tokenizer.stack
                &&& after.open_since(start) == tokenizer.open_since(start)
                &&& tokenizer.point.index < after.point.index
                &&& fits(after) && construct.options.content_type is Some && unit_ready(
                    tokenizer,
                    construct.options.connect,
                    origin,
                ) ==> unit_closed(after, origin)
            }
        }),
{
    let content_type = construct.options.content_type;
    if is_space_or_tab(tokenizer.current) {
        let connect = construct.options.connect;
        let entered = enter_linked(tokenizer, Token::SpaceOrTab, content_type, connect);
        lemma_enter_linked(tokenizer, Token::SpaceOrTab, content_type, connect);
        lemma_enter_linked_since(tokenizer, Token::SpaceOrTab, content_type, connect, start);
        let next = entered.consume();
        entered.lemma_consume();
        next.lemma_extends_trans(entered, tokenizer);
        lemma_run_before(construct, next, start, origin);
        let (ok, after) = run_spec(&construct, StateName::SpaceOrTabEolBefore, next);
        if ok {
            after.lemma_extends_trans(next, tokenizer);
            assert(after.stack =~= tokenizer.stack);
            assert(after.open_since(start).unwrap() =~= tokenizer.open_since(start).unwrap());
            if fits(after) && content_type is Some && unit_ready(tokenizer, connect, origin) {
                lemma_unit_enter(tokenizer, Token::SpaceOrTab, content_type, connect, origin);
            }
        }
    } else {
        lemma_run_at_eol(construct, tokenizer, construct.options.connect, start, origin);
        lemma_space_or_tab_end_grows(tokenizer.input, tokenizer.point.index + 1);
    }
}

/// Spaces and tabs end at or after the place where they start.
pub proof fn lemma_space_or_tab_end_grows(input: Seq<u8>, index: int)
    ensures
        index <= space_or_tab_end(input, index),
        0 <= index <= input.len() ==> space_or_tab_end(input, index) <= input.len(),
    decreases input.len() - index,
{
    if 0 <= index < input.len() && (input[index] == SPACE || input[index] == TAB) {
        lemma_space_or_tab_end_grows(input, index + 1);
    }
}

} // verus!
