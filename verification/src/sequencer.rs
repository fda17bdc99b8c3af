//! Puts events in the order in which the ledger replays them.
use crate::event::Event;
use vstd::prelude::*;

verus! {

/// Whether the events stand in non-decreasing order of their blocks.
pub open spec fn in_block_order(events: Seq<Event>) -> bool {
    forall|i: int, j: int|
        0 <= i < j < events.len() ==> (#[trigger] events[i]).block() <= (
        #[trigger] events[j]).block()
}

/// The events of `events` that took place in `block`, in the order in which
/// they stand there.
pub open spec fn events_in(events: Seq<Event>, block: u64) -> Seq<Event>
    decreases events.len(),
{
    if events.len() == 0 {
        Seq::empty()
    } else if events.last().block() == block {
        events_in(events.drop_last(), block).push(events.last())
    } else {
        events_in(events.drop_last(), block)
    }
}

/// The events of a block in two sequences joined are those in the first
/// followed by those in the second.
pub proof fn lemma_events_in_joined(a: Seq<Event>, b: Seq<Event>, block: u64)
    ensures
        events_in(a + b, block) == events_in(a, block) + events_in(b, block),
    decreases b.len(),
{
    if b.len() == 0 {
        assert(a + b =~= a);
        assert(events_in(a, block) + events_in(b, block) =~= events_in(a, block));
    } else {
        lemma_events_in_joined(a, b.drop_last(), block);
        assert((a + b).drop_last() =~= a + b.drop_last());
        assert((a + b).last() == b.last());
        if b.last().block() == block {
            assert((events_in(a, block) + events_in(b.drop_last(), block)).push(b.last())
                =~= events_in(a, block) + events_in(b.drop_last(), block).push(b.last()));
        }
    }
}

/// A sequence without an event of a block holds no events of that block.
pub proof fn lemma_events_in_absent(a: Seq<Event>, block: u64)
    requires
        forall|j: int| 0 <= j < a.len() ==> (#[trigger] a[j]).block() != block,
    ensures
        events_in(a, block) == Seq::<Event>::empty(),
    decreases a.len(),
{
    if a.len() > 0 {
        assert(a.last() == a[a.len() - 1]);
        assert forall|j: int| 0 <= j < a.drop_last().len() implies (#[trigger] a.drop_last()[j]).block()
            != block by {
            assert(a.drop_last()[j] == a[j]);
        }
        lemma_events_in_absent(a.drop_last(), block);
    }
}

/// Putting an event in front of the events of later blocks appends it to the
/// events of its own block and leaves those of every other block alone.
pub proof fn lemma_events_in_inserted(a: Seq<Event>, p: int, e: Event, block: u64)
    requires
        0 <= p <= a.len(),
        forall|j: int| p <= j < a.len() ==> (#[trigger] a[j]).block() != e.block(),
    ensures
        events_in(a.insert(p, e), block) == if e.block() == block {
            events_in(a, block).push(e)
        } else {
            events_in(a, block)
        },
{
    let head = a.take(p);
    let tail = a.skip(p);
    let one = Seq::<Event>::empty().push(e);
    assert(a =~= head + tail);
    assert(a.insert(p, e) =~= (head + one) + tail);
    lemma_events_in_joined(head, tail, block);
    lemma_events_in_joined(head + one, tail, block);
    lemma_events_in_joined(head, one, block);
    assert(one.drop_last() =~= Seq::<Event>::empty());
    assert(one.last() == e);
    assert(events_in(one.drop_last(), block) =~= Seq::<Event>::empty());
    if e.block() == block {
        assert forall|j: int| 0 <= j < tail.len() implies (#[trigger] tail[j]).block()
            != block by {
            assert(tail[j] == a[p + j]);
        }
        lemma_events_in_absent(tail, block);
        assert(events_in(one, block) =~= one);
        assert(events_in(head, block) + one + Seq::<Event>::empty() =~= (events_in(head, block)
            + Seq::<Event>::empty()).push(e));
    } else {
        assert(events_in(one, block) =~= Seq::<Event>::empty());
        assert(events_in(head, block) + Seq::<Event>::empty() + events_in(tail, block)
            =~= events_in(head, block) + events_in(tail, block));
    }
}

/// The events in non-decreasing order of their blocks; events of one block
/// keep the order in which they were given.
pub fn sort_events(events: Vec<Event>) -> (r: Vec<Event>)
    ensures
        in_block_order(r@),
        r@.len() == events@.len(),
        forall|block: u64| events_in(r@, block) == events_in(events@, block),
{
    let mut sorted: Vec<Event> = Vec::new();
    let mut i: usize = 0;
    while i < events.len()
        invariant
            i <= events@.len(),
            sorted@.len() == i,
            in_block_order(sorted@),
            forall|block: u64| events_in(sorted@, block) == events_in(events@.take(i as int), block),
        decreases events@.len() - i,
    {
        let event = events[i];
        let at = event.block_number();
        let mut p: usize = sorted.len();
        while p > 0 && sorted[p - 1].block_number() > at
            invariant
                p <= sorted@.len(),
                at == event.block(),
                forall|j: int| p <= j < sorted@.len() ==> (#[trigger] sorted@[j]).block() > at,
            decreases p,
        {
            p -= 1;
        }
        let ghost before = sorted@;
        sorted.insert(p, event);
        proof {
            assert forall|j: int, k: int| 0 <= j < k < sorted@.len() implies (
            #[trigger] sorted@[j]).block() <= (#[trigger] sorted@[k]).block() by {
                if p > 0 {
                    assert(before[p - 1].block() <= at);
                }
                if k < p {
                    assert(before[j].block() <= before[k].block());
                } else if k == p {
                    if j < p - 1 {
                        assert(before[j].block() <= before[p - 1].block());
                    }
                } else if j < p {
                    assert(before[j].block() <= before[k - 1].block());
                } else if j == p {
                    assert(before[k - 1].block() > at);
                } else {
                    assert(before[j - 1].block() <= before[k - 1].block());
                }
            }
            let seen = events@.take(i as int);
            assert(events@.take(i + 1).drop_last() =~= seen);
            assert(events@.take(i + 1).last() == event);
            assert forall|block: u64| events_in(sorted@, block) == events_in(
                events@.take(i + 1),
                block,
            ) by {
                lemma_events_in_inserted(before, p as int, event, block);
            }
        }
        i += 1;
    }
    assert(events@.take(i as int) =~= events@);
    sorted
}

} // verus!
