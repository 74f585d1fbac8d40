//! The event model: places in the input, and the enter and exit records that
//! mark spans of it.

use vstd::prelude::*;
use crate::constant::LINE_FEED;
use crate::token::Token;

verus! {

/// The grammar by which the inside of a span is read again.
#[derive(Clone, Copy, Debug, PartialEq, Eq, Hash)]
pub enum ContentType {
    /// Blocks that stand at the top of a document or in a container.
    Flow,
    /// Definitions and paragraphs.
    Content,
    /// Plain text in which only escapes and character references count.
    String,
    /// Everything that can stand in a paragraph.
    Text,
}

/// Which side of a span an event marks.
#[derive(Clone, Copy, Debug, PartialEq, Eq, Hash)]
pub enum Edge {
    /// The span opens here.
    Enter,
    /// The span closes here.
    Exit,
}

/// A place between two bytes of the input.
#[derive(Clone, Copy, Debug, PartialEq, Eq, Hash)]
pub struct Position {
    /// Number of bytes before this place.
    pub index: usize,
    /// Line of this place, counted from 1.
    pub line: usize,
    /// Column of this place in its line, counted from 1 in bytes.
    pub column: usize,
}

/// One side of a span.
#[derive(Clone, Copy, Debug, PartialEq, Eq, Hash)]
pub struct Event {
    /// What the span is.
    pub kind: Token,
    /// Where this side of the span lies.
    pub offset: Position,
    /// Whether the span opens or closes here.
    pub edge: Edge,
    /// How the inside of the span is to be read again, if it is.
    pub content_type: Option<ContentType>,
    /// The enter event of the run that this one continues, if it continues one.
    pub previous: Option<usize>,
}

/// The place before the first byte.
pub open spec fn origin() -> Position {
    Position { index: 0, line: 1, column: 1 }
}

/// The place one byte after `position`, when `byte` is the byte between them.
pub open spec fn advance(position: Position, byte: u8) -> Position {
    Position {
        index: (position.index + 1) as usize,
        line: if byte == LINE_FEED {
            (position.line + 1) as usize
        } else {
            position.line
        },
        column: if byte == LINE_FEED {
            1
        } else {
            (position.column + 1) as usize
        },
    }
}

/// The place after the first `index` bytes of `input`.
pub open spec fn position_at(input: Seq<u8>, index: int) -> Position
    decreases index,
{
    if index <= 0 {
        origin()
    } else {
        advance(position_at(input, index - 1), input[index - 1])
    }
}

/// The byte after the first `index` bytes of `input`, if there is one.
pub open spec fn byte_at(input: Seq<u8>, index: int) -> Option<u8> {
    if 0 <= index < input.len() {
        Some(input[index])
    } else {
        None
    }
}

/// A place in an input that is short enough has the index it was asked for,
/// and neither its line nor its column can exceed that index by more than one.
pub proof fn lemma_position_at(input: Seq<u8>, index: int)
    requires
        0 <= index <= input.len() < usize::MAX,
    ensures
        position_at(input, index).index == index,
        1 <= position_at(input, index).line <= index + 1,
        1 <= position_at(input, index).column <= index + 1,
    decreases index,
{
    if index > 0 {
        lemma_position_at(input, index - 1);
    }
}

/// A place depends only on the bytes before it.
pub proof fn lemma_position_at_prefix(input: Seq<u8>, len: int, index: int)
    requires
        0 <= index <= len <= input.len(),
    ensures
        position_at(input.take(len), index) == position_at(input, index),
    decreases index,
{
    if index > 0 {
        lemma_position_at_prefix(input, len, index - 1);
    }
}

/// The spans that are still open after `events`, outermost first, or `None`
/// where some exit does not close the innermost open span.
pub open spec fn open_stack(events: Seq<Event>) -> Option<Seq<Token>>
    decreases events.len(),
{
    if events.len() == 0 {
        Some(Seq::empty())
    } else {
        match open_stack(events.drop_last()) {
            None => None,
            Some(stack) => step_stack(stack, events.last()),
        }
    }
}

/// The open spans after one more event.
pub open spec fn step_stack(stack: Seq<Token>, event: Event) -> Option<Seq<Token>> {
    match event.edge {
        Edge::Enter => Some(stack.push(event.kind)),
        Edge::Exit => if stack.len() > 0 && stack.last() == event.kind {
            Some(stack.drop_last())
        } else {
            None
        },
    }
}

/// Every enter in `events` has its exit, of the same kind and at the same
/// depth, and nothing else.
pub open spec fn balanced(events: Seq<Event>) -> bool {
    open_stack(events) == Some(Seq::<Token>::empty())
}

/// The events lie in the order of the input: no event lies before an
/// earlier one.
#[verifier::opaque]
pub open spec fn ordered(events: Seq<Event>) -> bool {
    forall|i: int, j: int|
        0 <= i <= j < events.len() ==> (#[trigger] events[i]).offset.index <= (
        #[trigger] events[j]).offset.index
}

/// Every event lies at a place of `input`, at or before `index`.
#[verifier::opaque]
pub open spec fn anchored(events: Seq<Event>, input: Seq<u8>, index: int) -> bool {
    forall|i: int|
        0 <= i < events.len() ==> {
            &&& (#[trigger] events[i]).offset.index <= index
            &&& events[i].offset == position_at(input, events[i].offset.index as int)
        }
}

/// What is open after one more event follows from what was open before it.
pub proof fn lemma_open_stack_push(events: Seq<Event>, event: Event)
    ensures
        open_stack(events.push(event)) == match open_stack(events) {
            None => None,
            Some(stack) => step_stack(stack, event),
        },
{
    assert(events.push(event).drop_last() =~= events);
}

/// What is open does not depend on how the events are linked or read again.
pub proof fn lemma_open_stack_relink(events: Seq<Event>, index: int, event: Event)
    requires
        0 <= index < events.len(),
        event.kind == events[index].kind,
        event.edge == events[index].edge,
    ensures
        open_stack(events.update(index, event)) == open_stack(events),
    decreases events.len(),
{
    let updated = events.update(index, event);
    if index == events.len() - 1 {
        assert(updated.drop_last() =~= events.drop_last());
    } else {
        lemma_open_stack_relink(events.drop_last(), index, event);
        assert(updated.drop_last() =~= events.drop_last().update(index, event));
    }
}

/// A list that leaves something open stays well nested when cut short.
pub proof fn lemma_open_stack_take(events: Seq<Event>, len: int)
    requires
        0 <= len <= events.len(),
        open_stack(events) is Some,
    ensures
        open_stack(events.take(len)) is Some,
    decreases events.len(),
{
    if len == events.len() {
        assert(events.take(len) =~= events);
    } else {
        lemma_open_stack_take(events.drop_last(), len);
        assert(events.drop_last().take(len) =~= events.take(len));
    }
}

/// The event at `index` is a side of a span that lies in no other span.
pub open spec fn is_top_level(events: Seq<Event>, index: int) -> bool {
    match events[index].edge {
        Edge::Enter => open_stack(events.take(index)) == Some(Seq::<Token>::empty()),
        Edge::Exit => open_stack(events.take(index + 1)) == Some(Seq::<Token>::empty()),
    }
}

/// The places of the events that are sides of spans that lie in no other
/// span, in the order of the events.
pub open spec fn top_level_offsets(events: Seq<Event>) -> Seq<int>
    decreases events.len(),
{
    if events.len() == 0 {
        Seq::empty()
    } else {
        let rest = top_level_offsets(events.drop_last());
        if is_top_level(events, events.len() - 1) {
            rest.push(events.last().offset.index as int)
        } else {
            rest
        }
    }
}

/// The pieces of `input` between each of `offsets` and the next, one after
/// the other.
pub open spec fn joined(input: Seq<u8>, offsets: Seq<int>) -> Seq<u8>
    decreases offsets.len(),
{
    if offsets.len() < 2 {
        Seq::empty()
    } else {
        joined(input, offsets.drop_last()) + input.subrange(
            offsets[offsets.len() - 2],
            offsets.last(),
        )
    }
}

/// The offsets lie between 0 and `end`, none before an earlier one.
pub open spec fn ascending(offsets: Seq<int>, end: int) -> bool {
    &&& forall|i: int| 0 <= i < offsets.len() ==> 0 <= #[trigger] offsets[i] <= end
    &&& forall|i: int, j: int|
        0 <= i <= j < offsets.len() ==> #[trigger] offsets[i] <= #[trigger] offsets[j]
}

/// The pieces between offsets that ascend make up the input from the first
/// offset to the last.
pub proof fn lemma_joined(input: Seq<u8>, offsets: Seq<int>)
    requires
        offsets.len() > 0,
        ascending(offsets, input.len() as int),
    ensures
        joined(input, offsets) == input.subrange(offsets.first(), offsets.last()),
    decreases offsets.len(),
{
    if offsets.len() < 2 {
        assert(joined(input, offsets) =~= input.subrange(offsets.first(), offsets.last()));
    } else {
        let shorter = offsets.drop_last();
        assert(ascending(shorter, input.len() as int)) by {
            assert forall|i: int| 0 <= i < shorter.len() implies 0 <= #[trigger] shorter[i]
                <= input.len() by {
                assert(shorter[i] == offsets[i]);
            }
            assert forall|i: int, j: int| 0 <= i <= j < shorter.len() implies #[trigger] shorter[i]
                <= #[trigger] shorter[j] by {
                assert(shorter[i] == offsets[i] && shorter[j] == offsets[j]);
            }
        }
        lemma_joined(input, shorter);
        assert(shorter.last() == offsets[offsets.len() - 2]);
        assert(shorter.first() == offsets[0]);
        assert(offsets[0] <= offsets[offsets.len() - 2] <= offsets[offsets.len() - 1]);
        assert(joined(input, offsets) =~= input.subrange(offsets.first(), offsets.last()));
    }
}

/// The places of the outermost sides of events that lie in input order
/// ascend, and none lies after the last event.
pub proof fn lemma_top_level_ascending(events: Seq<Event>, input: Seq<u8>, index: int)
    requires
        ordered(events),
        anchored(events, input, index),
    ensures
        ascending(top_level_offsets(events), index),
        top_level_offsets(events).len() > 0 ==> events.len() > 0 && top_level_offsets(
            events,
        ).last() <= events.last().offset.index,
    decreases events.len(),
{
    reveal(ordered);
    reveal(anchored);
    if events.len() > 0 {
        let shorter = events.drop_last();
        assert(ordered(shorter) && anchored(shorter, input, index)) by {
            assert forall|i: int| 0 <= i < shorter.len() implies shorter[i] == events[i] by {}
        }
        lemma_top_level_ascending(shorter, input, index);
        let rest = top_level_offsets(shorter);
        let all = top_level_offsets(events);
        if rest.len() > 0 {
            assert(shorter.last() == events[events.len() - 2]);
        }
        assert forall|i: int, j: int| 0 <= i <= j < all.len() implies #[trigger] all[i]
            <= #[trigger] all[j] by {
            if j < rest.len() {
                assert(all[i] == rest[i] && all[j] == rest[j]);
            } else if i < rest.len() {
                assert(all[i] == rest[i]);
                assert(rest[i] <= rest[rest.len() - 1]);
            }
        }
        assert forall|i: int| 0 <= i < all.len() implies 0 <= #[trigger] all[i] <= index by {
            if i < rest.len() {
                assert(all[i] == rest[i]);
            }
        }
    }
}

/// The outermost sides among the first events stay the first outermost
/// sides when more events follow.
pub proof fn lemma_top_level_prefix(events: Seq<Event>, len: int)
    requires
        0 <= len <= events.len(),
    ensures
        top_level_offsets(events.take(len)).len() <= top_level_offsets(events).len(),
        top_level_offsets(events).take(top_level_offsets(events.take(len)).len() as int)
            == top_level_offsets(events.take(len)),
    decreases events.len(),
{
    let first = top_level_offsets(events.take(len));
    let all = top_level_offsets(events);
    if len == events.len() {
        assert(events.take(len) =~= events);
        assert(all.take(all.len() as int) =~= all);
    } else {
        let shorter = events.drop_last();
        lemma_top_level_prefix(shorter, len);
        assert(shorter.take(len) =~= events.take(len));
        let rest = top_level_offsets(shorter);
        assert(all.take(first.len() as int) =~= rest.take(first.len() as int));
    }
}

/// After a list of events in which every span is closed, one more span,
/// with whatever is in it, adds its two sides to the outermost ones: the
/// last outermost place is that of the span's exit, and the first is what it
/// was, or that of the span's enter where there was none.
pub proof fn lemma_top_level_extend(before: Seq<Event>, after: Seq<Event>)
    requires
        before.len() < after.len(),
        after.take(before.len() as int) == before,
        balanced(before),
        balanced(after),
        after[before.len() as int].edge == Edge::Enter,
        after.last().edge == Edge::Exit,
    ensures
        top_level_offsets(after).len() > 0,
        top_level_offsets(after).last() == after.last().offset.index,
        top_level_offsets(after).first() == if top_level_offsets(before).len() > 0 {
            top_level_offsets(before).first()
        } else {
            after[before.len() as int].offset.index as int
        },
{
    let start = before.len() as int;
    let all = top_level_offsets(after);
    assert(after.take(after.len() as int) =~= after);
    lemma_top_level_prefix(after, start);
    lemma_top_level_prefix(after, start + 1);
    let opened = after.take(start + 1);
    assert(opened.drop_last() =~= before);
    assert(opened.take(start) =~= before);
    assert(opened.last() == after[start]);
    assert(is_top_level(opened, start));
    let first = top_level_offsets(opened);
    assert(first == top_level_offsets(before).push(after[start].offset.index as int));
    assert(all.take(first.len() as int)[0] == first[0]);
    if top_level_offsets(before).len() > 0 {
        assert(first[0] == top_level_offsets(before)[0]);
    }
}

/// Every event lies between `start` and `end`.
pub open spec fn within(events: Seq<Event>, start: int, end: int) -> bool {
    forall|i: int| 0 <= i < events.len() ==> start <= (#[trigger] events[i]).offset.index <= end
}

/// After events that leave something open, events in which every span is
/// closed leave open the same.
pub proof fn lemma_open_stack_append(first: Seq<Event>, second: Seq<Event>)
    requires
        open_stack(first) is Some,
        open_stack(second) is Some,
    ensures
        open_stack(first + second) == Some(open_stack(first).unwrap() + open_stack(second).unwrap()),
    decreases second.len(),
{
    if second.len() == 0 {
        assert(first + second =~= first);
        assert(open_stack(first).unwrap() + open_stack(second).unwrap() =~= open_stack(
            first,
        ).unwrap());
    } else {
        let shorter = second.drop_last();
        lemma_open_stack_append(first, shorter);
        assert((first + second).drop_last() =~= first + shorter);
        let base = open_stack(first).unwrap();
        let inner = open_stack(shorter).unwrap();
        match second.last().edge {
            Edge::Enter => {
                assert((base + inner).push(second.last().kind) =~= base + inner.push(
                    second.last().kind,
                ));
            },
            Edge::Exit => {
                assert((base + inner).drop_last() =~= base + inner.drop_last());
            },
        }
    }
}

/// Events in input order, followed by events in input order that lie at or
/// after all of them, lie in input order.
pub proof fn lemma_ordered_append(first: Seq<Event>, second: Seq<Event>, pivot: int)
    requires
        ordered(first),
        ordered(second),
        within(first, 0, pivot),
        within(second, pivot, usize::MAX as int),
    ensures
        ordered(first + second),
{
    reveal(ordered);
    let all = first + second;
    assert forall|i: int, j: int| 0 <= i <= j < all.len() implies (#[trigger] all[i]).offset.index
        <= (#[trigger] all[j]).offset.index by {
        if j < first.len() {
            assert(all[i] == first[i] && all[j] == first[j]);
        } else if i < first.len() {
            assert(all[i] == first[i] && all[j] == second[j - first.len()]);
        } else {
            assert(all[i] == second[i - first.len()] && all[j] == second[j - first.len()]);
        }
    }
}

/// Events that are anchored in the first bytes of an input are anchored in
/// the input.
pub proof fn lemma_anchored_prefix(events: Seq<Event>, input: Seq<u8>, len: int)
    requires
        0 <= len <= input.len(),
        anchored(events, input.take(len), len),
    ensures
        anchored(events, input, input.len() as int),
{
    reveal(anchored);
    assert forall|i: int| 0 <= i < events.len() implies {
        &&& (#[trigger] events[i]).offset.index <= input.len()
        &&& events[i].offset == position_at(input, events[i].offset.index as int)
    } by {
        lemma_position_at_prefix(input, len, events[i].offset.index as int);
    }
}

/// Events that are anchored, one list after the other, are anchored.
pub proof fn lemma_anchored_append(first: Seq<Event>, second: Seq<Event>, input: Seq<u8>, index: int)
    requires
        anchored(first, input, index),
        anchored(second, input, index),
    ensures
        anchored(first + second, input, index),
{
    reveal(anchored);
    let all = first + second;
    assert forall|i: int| 0 <= i < all.len() implies {
        &&& (#[trigger] all[i]).offset.index <= index
        &&& all[i].offset == position_at(input, all[i].offset.index as int)
    } by {
        if i < first.len() {
            assert(all[i] == first[i]);
        } else {
            assert(all[i] == second[i - first.len()]);
        }
    }
}

} // verus!
