//! Linking the runs of one span, and reading them again.
//!
//! What stands in a span that is read again under another grammar may be
//! split over several runs: a line ending, and the indent after it, cut the
//! text of a label into pieces.  Each piece after the first is linked to the
//! one before it, with [`link`], so that the pieces can be read again as
//! one.  The runs that are linked to each other are a unit: [`unit`] lists
//! them in the order of the input, and [`gather`] puts their bytes together.
//!
//! [`subtokenize`] reads again what is marked as a string, and puts the
//! events it finds in a run between the two sides of that run.  A string
//! holds nothing that reaches over a line ending, so the runs of a unit are
//! read one by one, in the order of the input.

use vstd::prelude::*;
use crate::event::{
    anchored, balanced, lemma_anchored_append, lemma_anchored_prefix, lemma_open_stack_append,
    lemma_open_stack_push, lemma_open_stack_take, lemma_ordered_append, open_stack, ordered,
    position_at, within, ContentType, Edge, Event,
};
use crate::parser::{tokenize, tokenize_spec};
use crate::token::Token;
use crate::tokenizer::{Tokenizer, TokenizerView};

verus! {

/// The events at `at` and after it are the two sides of one run, with
/// nothing inside, that is read again as `content_type` says.
pub open spec fn void_run(events: Seq<Event>, at: int, content_type: Option<ContentType>) -> bool {
    &&& 0 <= at
    &&& at + 1 < events.len()
    &&& events[at].edge == Edge::Enter
    &&& events[at + 1].edge == Edge::Exit
    &&& events[at + 1].kind == events[at].kind
    &&& events[at].content_type is Some
    &&& events[at].content_type == content_type
}

/// The events end in a run that a run of `content_type` can continue.
pub open spec fn ends_in_run(events: Seq<Event>, content_type: Option<ContentType>) -> bool {
    void_run(events, events.len() - 2, content_type)
}

/// The events after the event at `next` was linked to the one at `previous`.
pub open spec fn linked(events: Seq<Event>, previous: int, next: int) -> Seq<Event> {
    events.update(next, Event { previous: Some(previous as usize), ..events[next] })
}

/// The runs of the unit that ends with the run at `index`, last to first:
/// that run, the run it continues, the run which that one continues, and so
/// on.  Each is named by the index of its enter event.
pub open spec fn chain_back(events: Seq<Event>, index: int) -> Seq<int>
    decreases index,
{
    if 0 <= index < events.len() {
        match events[index].previous {
            Some(previous) => if previous < index {
                seq![index] + chain_back(events, previous as int)
            } else {
                seq![index]
            },
            None => seq![index],
        }
    } else {
        Seq::empty()
    }
}

/// The runs of the unit that ends with the run at `index`, in the order of
/// the input.
pub open spec fn chain(events: Seq<Event>, index: int) -> Seq<int> {
    chain_back(events, index).reverse()
}

/// The bytes of the run that opens at `index`.
pub open spec fn run_bytes(input: Seq<u8>, events: Seq<Event>, index: int) -> Seq<u8> {
    input.subrange(events[index].offset.index as int, events[index + 1].offset.index as int)
}

/// The bytes of the runs in `runs`, one run after the other.
pub open spec fn unit_bytes(input: Seq<u8>, events: Seq<Event>, runs: Seq<int>) -> Seq<u8>
    decreases runs.len(),
{
    if runs.len() == 0 {
        Seq::empty()
    } else {
        unit_bytes(input, events, runs.drop_last()) + run_bytes(input, events, runs.last())
    }
}

/// The event at `index` is linked to nothing, or it opens a run and is
/// linked to the enter event of an earlier run of the same content type.
pub open spec fn link_ok(events: Seq<Event>, index: int) -> bool {
    match events[index].previous {
        Some(previous) => {
            &&& previous + 1 < index
            &&& events[index].edge == Edge::Enter
            &&& void_run(events, previous as int, events[index].content_type)
        },
        None => true,
    }
}

/// Every link among the events leads back to the enter event of an earlier
/// run of the same content type.
pub open spec fn links_wf(events: Seq<Event>) -> bool {
    forall|i: int| 0 <= i < events.len() ==> #[trigger] link_ok(events, i)
}

/// Links the event at `index`, which opens a run, to the run just
/// before it: the one whose two sides are the two events before `index`.
/// The unit of the run at `index` is then the unit of that run, with this
/// run after it.
pub fn link(events: &mut Vec<Event>, index: usize)
    requires
        2 <= index < old(events).len(),
        old(events)[index as int].edge == Edge::Enter,
        void_run(old(events)@, index - 2, old(events)[index as int].content_type),
    ensures
        final(events)@ == linked(old(events)@, index - 2, index as int),
        chain(final(events)@, index as int) == chain(old(events)@, index - 2).push(index as int),
{
    link_to(events, index - 2, index);
}

/// Links the event at `next`, which opens a run, to the earlier run that
/// opens at `previous`.  The unit of the run at `next` is then the unit of
/// that run, with this run after it.
pub fn link_to(events: &mut Vec<Event>, previous: usize, next: usize)
    requires
        previous + 1 < next < old(events).len(),
        old(events)[next as int].edge == Edge::Enter,
        void_run(old(events)@, previous as int, old(events)[next as int].content_type),
    ensures
        final(events)@ == linked(old(events)@, previous as int, next as int),
        chain(final(events)@, next as int) == chain(old(events)@, previous as int).push(
            next as int,
        ),
{
    proof {
        lemma_linked_chain(events@, previous as int, next as int, previous as int);
    }
    let event = events[next];
    events.set(
        next,
        Event {
            kind: event.kind,
            offset: event.offset,
            edge: event.edge,
            content_type: event.content_type,
            previous: Some(previous),
        },
    );
}

/// Linking keeps the order of the runs: where every link led back before,
/// every link leads back after.
pub proof fn lemma_linked_links_wf(events: Seq<Event>, previous: int, next: int)
    requires
        links_wf(events),
        0 <= previous,
        previous + 1 < next < events.len(),
        previous <= usize::MAX,
        events[next].edge == Edge::Enter,
        void_run(events, previous, events[next].content_type),
    ensures
        links_wf(linked(events, previous, next)),
{
    let after = linked(events, previous, next);
    assert forall|i: int| 0 <= i < after.len() implies #[trigger] link_ok(after, i) by {
        assert(link_ok(events, i));
    }
}

/// Appending an event that is not linked keeps every link leading back.
pub proof fn lemma_push_links_wf(events: Seq<Event>, event: Event)
    requires
        links_wf(events),
        event.previous is None,
    ensures
        links_wf(events.push(event)),
{
    let after = events.push(event);
    assert forall|i: int| 0 <= i < after.len() implies #[trigger] link_ok(after, i) by {
        if i < events.len() {
            assert(link_ok(events, i));
        }
    }
}

/// A unit holds its last run, and before it nothing but the unit of the
/// run that this one continues.
pub proof fn lemma_chain_unfold(events: Seq<Event>, index: int)
    requires
        0 <= index < events.len(),
    ensures
        chain(events, index) == match events[index].previous {
            Some(previous) => if previous < index {
                chain(events, previous as int).push(index)
            } else {
                seq![index]
            },
            None => seq![index],
        },
{
    match events[index].previous {
        Some(previous) => {
            if previous < index {
                let rest = chain_back(events, previous as int);
                assert((seq![index] + rest).reverse() =~= rest.reverse().push(index));
            } else {
                assert(seq![index].reverse() =~= seq![index]);
            }
        },
        None => {
            assert(seq![index].reverse() =~= seq![index]);
        },
    }
}

/// In `runs`, the run after the one at `k` lies after it and is linked to
/// it, and the one at `k` is a run of `content_type`.
pub open spec fn unit_step(
    events: Seq<Event>,
    runs: Seq<int>,
    k: int,
    content_type: Option<ContentType>,
) -> bool {
    &&& 0 <= runs[k] < runs[k + 1] - 1 < events.len()
    &&& events[runs[k + 1]].previous == Some(runs[k] as usize)
    &&& void_run(events, runs[k], content_type)
}

/// The runs of a unit stand in the order of the events: each is the enter
/// event of a run of the content type of the last, each but the first is
/// linked to the one before it, and the last is the run asked for.
pub proof fn lemma_chain_ordered(events: Seq<Event>, index: int)
    requires
        links_wf(events),
        0 <= index < events.len(),
    ensures
        chain(events, index).len() >= 1,
        chain(events, index).last() == index,
        forall|k: int|
            0 <= k < chain(events, index).len() - 1 ==> #[trigger] unit_step(
                events,
                chain(events, index),
                k,
                events[index].content_type,
            ),
    decreases index,
{
    let runs = chain(events, index);
    let content_type = events[index].content_type;
    assert(link_ok(events, index));
    lemma_chain_unfold(events, index);
    if events[index].previous is Some {
        let previous = events[index].previous.unwrap() as int;
        let rest = chain(events, previous);
        lemma_chain_ordered(events, previous);
        assert forall|k: int| 0 <= k < runs.len() - 1 implies #[trigger] unit_step(
            events,
            runs,
            k,
            content_type,
        ) by {
            if k < rest.len() - 1 {
                assert(unit_step(events, rest, k, events[previous].content_type));
                assert(runs[k] == rest[k] && runs[k + 1] == rest[k + 1]);
            } else {
                assert(runs[k] == rest.last());
                assert(runs[k + 1] == index);
            }
        }
    }
}

/// Linking a run makes its unit the unit of the earlier run with this run
/// after it, and changes the unit of no run before it.
pub proof fn lemma_linked_chain(events: Seq<Event>, previous: int, next: int, other: int)
    requires
        0 <= previous < next < events.len(),
        previous <= usize::MAX,
        0 <= other < next,
    ensures
        chain(linked(events, previous, next), next) == chain(events, previous).push(next),
        chain(linked(events, previous, next), other) == chain(events, other),
{
    let after = linked(events, previous, next);
    lemma_chain_back_below(events, after, next, previous);
    lemma_chain_back_below(events, after, next, other);
    lemma_chain_unfold(after, next);
}

/// The unit of a run depends only on the events up to that run.
pub proof fn lemma_chain_back_below(events: Seq<Event>, other: Seq<Event>, bound: int, index: int)
    requires
        bound <= events.len(),
        bound <= other.len(),
        index < bound,
        forall|i: int| 0 <= i < bound ==> events[i] == other[i],
    ensures
        chain_back(events, index) == chain_back(other, index),
    decreases index,
{
    if 0 <= index < events.len() {
        match events[index].previous {
            Some(previous) => {
                if previous < index {
                    lemma_chain_back_below(events, other, bound, previous as int);
                }
            },
            None => {},
        }
    }
}

/// The bytes of the unit that ends with the run at `index`.
pub open spec fn unit_text(input: Seq<u8>, events: Seq<Event>, index: int) -> Seq<u8> {
    unit_bytes(input, events, chain(events, index))
}

/// The bytes of a unit are the bytes of its last run, after the bytes of
/// the unit of the run that this one continues.
pub proof fn lemma_unit_text_unfold(input: Seq<u8>, events: Seq<Event>, index: int)
    requires
        0 <= index < events.len(),
    ensures
        unit_text(input, events, index) == match events[index].previous {
            Some(previous) => if previous < index {
                unit_text(input, events, previous as int) + run_bytes(input, events, index)
            } else {
                run_bytes(input, events, index)
            },
            None => run_bytes(input, events, index),
        },
{
    lemma_chain_unfold(events, index);
    let runs = chain(events, index);
    let alone = seq![index];
    assert(alone.drop_last() =~= Seq::<int>::empty());
    assert(unit_bytes(input, events, Seq::<int>::empty()) =~= Seq::<u8>::empty());
    assert(unit_bytes(input, events, alone) =~= run_bytes(input, events, index));
    match events[index].previous {
        Some(previous) => {
            if previous < index {
                assert(runs.drop_last() =~= chain(events, previous as int));
            }
        },
        None => {},
    }
}

/// The bytes of a unit depend only on the events up to the end of its last
/// run.
pub proof fn lemma_unit_text_below(
    input: Seq<u8>,
    events: Seq<Event>,
    other: Seq<Event>,
    bound: int,
    index: int,
)
    requires
        bound <= events.len(),
        bound <= other.len(),
        0 <= index,
        index + 1 < bound,
        forall|i: int| 0 <= i < bound ==> events[i] == other[i],
    ensures
        unit_text(input, events, index) == unit_text(input, other, index),
    decreases index,
{
    lemma_unit_text_unfold(input, events, index);
    lemma_unit_text_unfold(input, other, index);
    assert(events[index] == other[index]);
    assert(events[index + 1] == other[index + 1]);
    match events[index].previous {
        Some(previous) => {
            if previous < index {
                lemma_unit_text_below(input, events, other, bound, previous as int);
            }
        },
        None => {},
    }
}

/// The runs of the unit that ends with the run at `index`, in the order of
/// the input, each named by the index of its enter event.
pub fn unit(events: &Vec<Event>, index: usize) -> (runs: Vec<usize>)
    requires
        index < events.len(),
    ensures
        runs@.map_values(|run: usize| run as int) == chain(events@, index as int),
{
    let mut back: Vec<usize> = Vec::new();
    let mut at = index;
    let mut done = false;
    back.push(at);
    while !done
        invariant
            at <= index < events.len(),
            back@.len() > 0,
            back@.last() == at,
            back@.map_values(|run: usize| run as int).drop_last() + chain_back(events@, at as int)
                == chain_back(events@, index as int),
            done ==> chain_back(events@, at as int) == seq![at as int],
        decreases at + (if done { 0int } else { 1int }),
    {
        let ghost before = back@.map_values(|run: usize| run as int);
        match events[at].previous {
            Some(previous) => {
                if previous < at {
                    at = previous;
                    back.push(at);
                    proof {
                        let now = back@.map_values(|run: usize| run as int);
                        assert(now.drop_last() =~= before);
                        assert(before =~= before.drop_last() + seq![before.last()]);
                        assert(now.drop_last() + chain_back(events@, at as int) =~= before.drop_last()
                            + (seq![before.last()] + chain_back(events@, at as int)));
                    }
                } else {
                    done = true;
                }
            },
            None => {
                done = true;
            },
        }
    }
    proof {
        let all = back@.map_values(|run: usize| run as int);
        assert(all =~= all.drop_last() + seq![at as int]);
    }
    let mut runs: Vec<usize> = Vec::new();
    let mut i = back.len();
    while i > 0
        invariant
            i <= back.len(),
            runs@ =~= back@.subrange(i as int, back.len() as int).reverse(),
        decreases i,
    {
        i = i - 1;
        runs.push(back[i]);
        proof {
            let tail = back@.subrange(i + 1, back.len() as int);
            let more = back@.subrange(i as int, back.len() as int);
            assert(more =~= seq![back@[i as int]] + tail);
            assert(more.reverse() =~= tail.reverse().push(back@[i as int]));
        }
    }
    proof {
        assert(back@.subrange(0, back.len() as int) =~= back@);
        assert(runs@.map_values(|run: usize| run as int) =~= back@.map_values(
            |run: usize| run as int,
        ).reverse());
    }
    runs
}

/// The bytes of the runs in `runs`, one run after the other: what is read
/// again as one.
pub fn gather(input: &[u8], events: &Vec<Event>, runs: &Vec<usize>) -> (bytes: Vec<u8>)
    requires
        forall|k: int|
            0 <= k < runs.len() ==> {
                &&& (#[trigger] runs[k]) + 1 < events.len()
                &&& events[runs[k] as int].offset.index <= events[runs[k] + 1].offset.index
                    <= input.len()
            },
    ensures
        bytes@ == unit_bytes(input@, events@, runs@.map_values(|run: usize| run as int)),
{
    let ghost all = runs@.map_values(|run: usize| run as int);
    let mut bytes: Vec<u8> = Vec::new();
    let mut k: usize = 0;
    while k < runs.len()
        invariant
            k <= runs.len(),
            all == runs@.map_values(|run: usize| run as int),
            bytes@ == unit_bytes(input@, events@, all.take(k as int)),
            forall|k: int|
                0 <= k < runs.len() ==> {
                    &&& (#[trigger] runs[k]) + 1 < events.len()
                    &&& events[runs[k] as int].offset.index <= events[runs[k] + 1].offset.index
                        <= input.len()
                },
        decreases runs.len() - k,
    {
        let run = runs[k];
        let start = events[run].offset.index;
        let end = events[run + 1].offset.index;
        let ghost before = bytes@;
        let mut at = start;
        while at < end
            invariant
                start <= at <= end <= input.len(),
                bytes@ == before + input@.subrange(start as int, at as int),
            decreases end - at,
        {
            bytes.push(input[at]);
            at = at + 1;
            proof {
                assert(input@.subrange(start as int, at as int) =~= input@.subrange(
                    start as int,
                    at - 1,
                ).push(input@[at - 1]));
                assert(bytes@ =~= before + input@.subrange(start as int, at as int));
            }
        }
        proof {
            assert(all.take(k + 1).drop_last() =~= all.take(k as int));
            assert(all.take(k + 1).last() == run as int);
        }
        k = k + 1;
    }
    proof {
        assert(all.take(k as int) =~= all);
    }
    bytes
}

/// The event at `index` opens a run that is read again as a string.
pub open spec fn reads_again(events: Seq<Event>, index: int) -> bool {
    void_run(events, index, Some(ContentType::String))
}

/// The tokenizer that reads the run at `index` again: it stands at the
/// start of the run, and its input ends where the run ends.
pub open spec fn run_tokenizer(input: Seq<u8>, events: Seq<Event>, index: int) -> TokenizerView {
    TokenizerView::initial(input.take(events[index + 1].offset.index as int)).moved_to(
        events[index].offset,
    )
}

/// The events within the run at `index`, read again as a string.
pub open spec fn run_events(input: Seq<u8>, events: Seq<Event>, index: int) -> Seq<Event> {
    tokenize_spec(ContentType::String, run_tokenizer(input, events, index)).events
}

/// The event as it stands among the events that were read again: one that
/// opens a run which was read again is marked and linked no more, and any
/// other is linked to the new place of the run it continues.
pub open spec fn settled(event: Event, read: bool, previous: Option<usize>) -> Event {
    if read {
        Event { content_type: None, previous: None, ..event }
    } else {
        Event { previous, ..event }
    }
}

/// The first `len` of the events with every run among them that is to be
/// read again as a string read again: the events within each such run stand
/// between its two sides.
pub open spec fn expand(input: Seq<u8>, events: Seq<Event>, len: int) -> Seq<Event>
    decreases len,
{
    if len <= 0 {
        Seq::empty()
    } else {
        let index = len - 1;
        let before = expand(input, events, index);
        if reads_again(events, index) {
            before.push(settled(events[index], true, None)) + run_events(input, events, index)
        } else {
            let previous = match events[index].previous {
                Some(previous) => if previous < index {
                    Some(expand(input, events, previous as int).len() as usize)
                } else {
                    None
                },
                None => None,
            };
            before.push(settled(events[index], false, previous))
        }
    }
}

/// The event at `index` stands among `result` at its new place, before
/// the new place of the event after it, with its kind, its side and its
/// place in the input as they were.
pub open spec fn kept(input: Seq<u8>, events: Seq<Event>, result: Seq<Event>, index: int) -> bool {
    let at = expand(input, events, index).len() as int;
    &&& at < result.len()
    &&& at < expand(input, events, index + 1).len()
    &&& result[at].kind == events[index].kind
    &&& result[at].edge == events[index].edge
    &&& result[at].offset == events[index].offset
}

/// Where the event at `index` opens a run that is read again, the events
/// within the run stand after it and before the event that closes the run,
/// every span among them is closed, and they lie in the bytes of the run.
pub open spec fn contained(input: Seq<u8>, events: Seq<Event>, index: int) -> bool {
    reads_again(events, index) ==> {
        let inner = run_events(input, events, index);
        &&& expand(input, events, index + 1).len() == expand(input, events, index).len()
            + inner.len() + 1
        &&& balanced(inner)
        &&& within(
            inner,
            events[index].offset.index as int,
            events[index + 1].offset.index as int,
        )
    }
}

/// Whether the event at `index` opens a run that is read again as a string.
pub fn is_read_again(events: &Vec<Event>, index: usize) -> (yes: bool)
    requires
        index < events.len(),
    ensures
        yes == reads_again(events@, index as int),
{
    if index + 1 >= events.len() {
        return false;
    }
    let enter = events[index];
    let exit = events[index + 1];
    let string = match enter.content_type {
        Some(ContentType::String) => true,
        _ => false,
    };
    let opens = match enter.edge {
        Edge::Enter => true,
        Edge::Exit => false,
    };
    let closes = match exit.edge {
        Edge::Enter => false,
        Edge::Exit => true,
    };
    string && opens && closes && exit.kind == enter.kind
}

/// Reads every run among `events` that is marked as a string again, and
/// puts the events found in it between its two sides.
///
/// Nothing else changes: every event of `events` is in the result, in the
/// same order, with its kind, its side and its place in the input.  What was
/// open stays open, the events lie in the order of the input as before, and
/// the events within a run lie in the bytes of that run, with every span
/// among them closed.
pub fn subtokenize(input: &[u8], events: &Vec<Event>) -> (result: Vec<Event>)
    requires
        input.len() < usize::MAX,
        ordered(events@),
        anchored(events@, input@, input.len() as int),
        open_stack(events@) is Some,
    ensures
        result@ == expand(input@, events@, events.len() as int),
        open_stack(result@) == open_stack(events@),
        ordered(result@),
        anchored(result@, input@, input.len() as int),
        forall|i: int| 0 <= i < events.len() ==> #[trigger] kept(input@, events@, result@, i),
        forall|i: int| 0 <= i < events.len() ==> #[trigger] contained(input@, events@, i),
{
    let mut result: Vec<Event> = Vec::new();
    let mut places: Vec<usize> = Vec::new();
    let mut index: usize = 0;
    proof {
        reveal(ordered);
        reveal(anchored);
        assert(events@.take(0) =~= Seq::<Event>::empty());
    }
    while index < events.len()
        invariant
            index <= events.len(),
            input.len() < usize::MAX,
            ordered(events@),
            anchored(events@, input@, input.len() as int),
            open_stack(events@) is Some,
            result@ == expand(input@, events@, index as int),
            places@.len() == index,
            forall|i: int|
                0 <= i < index ==> #[trigger] places@[i] == expand(input@, events@, i).len(),
            open_stack(result@) == open_stack(events@.take(index as int)),
            ordered(result@),
            anchored(result@, input@, input.len() as int),
            within(result@, 0, upper(events@, input@, index as int)),
            forall|i: int| 0 <= i < index ==> #[trigger] kept(input@, events@, result@, i),
            forall|i: int| 0 <= i < index ==> #[trigger] contained(input@, events@, i),
        decreases events.len() - index,
    {
        let event = events[index];
        let read = is_read_again(events, index);
        let ghost before = result@;
        places.push(result.len());
        let previous = if read {
            None
        } else {
            match event.previous {
                Some(previous) => if previous < index {
                    Some(places[previous])
                } else {
                    None
                },
                None => None,
            }
        };
        let settled = Event {
            kind: event.kind,
            offset: event.offset,
            edge: event.edge,
            content_type: if read {
                None
            } else {
                event.content_type
            },
            previous,
        };
        proof {
            lemma_push_settled(input@, events@, before, index as int, settled);
        }
        result.push(settled);
        if read {
            let ghost pushed = result@;
            proof {
                lemma_run_bounds(input@, events@, index as int);
            }
            let mut tokenizer = Tokenizer::window(input, event.offset, events[index + 1].offset.index);
            tokenize(&mut tokenizer, ContentType::String);
            let ghost read_again = tokenizer@;
            let mut inner = tokenizer.events;
            proof {
                lemma_append_inner(input@, events@, pushed, index as int, read_again);
            }
            result.append(&mut inner);
        }
        proof {
            assert forall|i: int| 0 <= i <= index implies #[trigger] kept(
                input@,
                events@,
                result@,
                i,
            ) by {
                if i < index {
                    assert(kept(input@, events@, before, i));
                }
            }
        }
        index = index + 1;
    }
    proof {
        assert(events@.take(index as int) =~= events@);
    }
    result
}

/// The place before which every event that was read so far lies: that of
/// the event at `index`, or the end of the input where no event is left.
pub open spec fn upper(events: Seq<Event>, input: Seq<u8>, index: int) -> int {
    if 0 <= index < events.len() {
        events[index].offset.index as int
    } else {
        input.len() as int
    }
}

/// A run lies in the input, its end at or after its start, and its start
/// carries the line and column of its place.
pub proof fn lemma_run_bounds(input: Seq<u8>, events: Seq<Event>, index: int)
    requires
        0 <= index,
        index + 1 < events.len(),
        ordered(events),
        anchored(events, input, input.len() as int),
    ensures
        events[index].offset.index <= events[index + 1].offset.index <= input.len(),
        events[index].offset == position_at(input, events[index].offset.index as int),
{
    reveal(ordered);
    reveal(anchored);
}

/// One more event, settled, keeps in step with the events it stands for:
/// what is open, the order, the places.
pub proof fn lemma_push_settled(
    input: Seq<u8>,
    events: Seq<Event>,
    before: Seq<Event>,
    index: int,
    event: Event,
)
    requires
        0 <= index < events.len(),
        ordered(events),
        anchored(events, input, input.len() as int),
        open_stack(events) is Some,
        before == expand(input, events, index),
        open_stack(before) == open_stack(events.take(index)),
        ordered(before),
        anchored(before, input, input.len() as int),
        within(before, 0, upper(events, input, index)),
        event.kind == events[index].kind,
        event.edge == events[index].edge,
        event.offset == events[index].offset,
        !reads_again(events, index) ==> before.push(event) == expand(input, events, index + 1),
    ensures
        open_stack(before.push(event)) == open_stack(events.take(index + 1)),
        open_stack(events.take(index + 1)) is Some,
        ordered(before.push(event)),
        anchored(before.push(event), input, input.len() as int),
        within(before.push(event), 0, events[index].offset.index as int),
        !reads_again(events, index) ==> within(
            before.push(event),
            0,
            upper(events, input, index + 1),
        ),
        kept(input, events, before.push(event), index),
        !reads_again(events, index) ==> contained(input, events, index),
{
    let after = before.push(event);
    let one = seq![event];
    assert(after =~= before + one);
    lemma_open_stack_take(events, index);
    lemma_open_stack_take(events, index + 1);
    lemma_open_stack_push(before, event);
    assert(events.take(index + 1).drop_last() =~= events.take(index));
    assert(events.take(index + 1).last() == events[index]);
    assert(ordered(one) && anchored(one, input, input.len() as int) && within(
        one,
        events[index].offset.index as int,
        usize::MAX as int,
    )) by {
        reveal(ordered);
        reveal(anchored);
    }
    lemma_ordered_append(before, one, events[index].offset.index as int);
    lemma_anchored_append(before, one, input, input.len() as int);
    assert(within(after, 0, events[index].offset.index as int)) by {
        assert forall|i: int| 0 <= i < after.len() implies 0 <= (#[trigger] after[i]).offset.index
            <= events[index].offset.index by {
            if i < before.len() {
                assert(after[i] == before[i]);
            }
        }
    }
    assert(events[index].offset.index <= upper(events, input, index + 1)) by {
        reveal(ordered);
        reveal(anchored);
    }
}

/// The events within a run, put after the event that opens it, keep in
/// step with the events they stand among: what is open, the order, the
/// places.
pub proof fn lemma_append_inner(
    input: Seq<u8>,
    events: Seq<Event>,
    pushed: Seq<Event>,
    index: int,
    tokenizer: TokenizerView,
)
    requires
        0 <= index < events.len(),
        reads_again(events, index),
        ordered(events),
        anchored(events, input, input.len() as int),
        pushed == expand(input, events, index).push(settled(events[index], true, None)),
        open_stack(pushed) == open_stack(events.take(index + 1)),
        open_stack(pushed) is Some,
        ordered(pushed),
        anchored(pushed, input, input.len() as int),
        within(pushed, 0, events[index].offset.index as int),
        tokenizer == tokenize_spec(ContentType::String, run_tokenizer(input, events, index)),
        tokenizer.wf(),
        tokenizer.input == input.take(events[index + 1].offset.index as int),
        tokenizer.point.index == tokenizer.input.len(),
        balanced(tokenizer.events),
        within(
            tokenizer.events,
            events[index].offset.index as int,
            events[index + 1].offset.index as int,
        ),
    ensures
        pushed + tokenizer.events == expand(input, events, index + 1),
        open_stack(pushed + tokenizer.events) == open_stack(events.take(index + 1)),
        ordered(pushed + tokenizer.events),
        anchored(pushed + tokenizer.events, input, input.len() as int),
        within(pushed + tokenizer.events, 0, upper(events, input, index + 1)),
        contained(input, events, index),
{
    let inner = tokenizer.events;
    let end = events[index + 1].offset.index as int;
    lemma_run_bounds(input, events, index);
    lemma_open_stack_append(pushed, inner);
    assert(open_stack(pushed).unwrap() + Seq::<Token>::empty() =~= open_stack(pushed).unwrap());
    lemma_ordered_append(pushed, inner, events[index].offset.index as int);
    assert(tokenizer.input.len() == end);
    lemma_anchored_prefix(inner, input, end);
    lemma_anchored_append(pushed, inner, input, input.len() as int);
    let all = pushed + inner;
    assert forall|i: int| 0 <= i < all.len() implies 0 <= (#[trigger] all[i]).offset.index
        <= end by {
        if i < pushed.len() {
            assert(all[i] == pushed[i]);
        } else {
            assert(all[i] == inner[i - pushed.len()]);
        }
    }
}

} // verus!
