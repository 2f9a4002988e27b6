//! What holds of the registry over the lifetime of requests.
//!
//! The registry is shared by all requests and changed under one lock, so its
//! history is a sequence of events, each the start or the end of one request.
//! The laws below are stated over such sequences.

use crate::registry::{assigned, ended, started};
use crate::request_id::{resolved, LookupError};
use vstd::prelude::*;

verus! {

/// One change of the registry: a request starts or ends.
pub enum Event {
    /// The request `handle` starts and is given `id`.
    Start { handle: usize, id: u64 },
    /// The request `handle` ends.
    End { handle: usize },
}

impl Event {
    /// The request that the event belongs to.
    pub open spec fn handle(self) -> usize {
        match self {
            Event::Start { handle, .. } => handle,
            Event::End { handle } => handle,
        }
    }

    /// The table after the event.
    pub open spec fn apply(self, table: Map<usize, u64>) -> Map<usize, u64> {
        match self {
            Event::Start { handle, id } => started(table, handle, id),
            Event::End { handle } => ended(table, handle),
        }
    }
}

/// The table after all of `events`, first to last.
pub open spec fn replay(table: Map<usize, u64>, events: Seq<Event>) -> Map<usize, u64>
    decreases events.len(),
{
    if events.len() == 0 {
        table
    } else {
        events.last().apply(replay(table, events.drop_last()))
    }
}

/// No event of `events` belongs to the request `handle`.
pub open spec fn untouched(events: Seq<Event>, handle: usize) -> bool {
    forall|i: int| 0 <= i < events.len() ==> (#[trigger] events[i]).handle() != handle
}

/// The starts of the requests `handles`, in order, the `i`-th with `ids[i]`.
pub open spec fn starts(handles: Seq<usize>, ids: Seq<u64>) -> Seq<Event> {
    Seq::new(handles.len(), |i: int| Event::Start { handle: handles[i], id: ids[i] })
}

/// The ends of the requests `handles`, in order.
pub open spec fn ends(handles: Seq<usize>) -> Seq<Event> {
    Seq::new(handles.len(), |i: int| Event::End { handle: handles[i] })
}

/// Once a request has started, looking it up gives the identifier it started
/// with.
pub proof fn lemma_started_request_resolves(table: Map<usize, u64>, handle: usize, id: u64)
    ensures
        resolved(started(table, handle, id), handle) == Ok::<u64, LookupError>(id),
{
}

/// A request that has not started, or has ended, cannot be looked up: the
/// lookup fails with `NotAttached`, and it fails only then.
pub proof fn lemma_unknown_request_fails(table: Map<usize, u64>, handle: usize)
    ensures
        resolved(Map::<usize, u64>::empty(), handle) == Err::<u64, LookupError>(
            LookupError::NotAttached,
        ),
        resolved(ended(table, handle), handle) == Err::<u64, LookupError>(
            LookupError::NotAttached,
        ),
        resolved(table, handle) is Err <==> !table.contains_key(handle),
{
}

/// The starts and ends of other requests change nothing for `handle`: it has
/// the same entry after them as before, or none as before.
pub proof fn lemma_others_do_not_interfere(
    table: Map<usize, u64>,
    events: Seq<Event>,
    handle: usize,
)
    requires
        untouched(events, handle),
    ensures
        assigned(replay(table, events), handle) == assigned(table, handle),
        resolved(replay(table, events), handle) == resolved(table, handle),
    decreases events.len(),
{
    if events.len() > 0 {
        lemma_untouched_earlier(events, handle);
        lemma_others_do_not_interfere(table, events.drop_last(), handle);
    }
}

/// From its start on, and whatever other requests start or end meanwhile,
/// every lookup of a request gives the one identifier it started with.
pub proof fn lemma_identifier_is_stable(
    table: Map<usize, u64>,
    handle: usize,
    id: u64,
    events: Seq<Event>,
)
    requires
        untouched(events, handle),
    ensures
        resolved(replay(started(table, handle, id), events), handle) == Ok::<u64, LookupError>(
            id,
        ),
{
    lemma_others_do_not_interfere(started(table, handle, id), events, handle);
}

/// A request leaves no trace: when it has ended, the registry is what it
/// would be had the request never run, so it holds no entry for the request
/// and as many entries as without it.
pub proof fn lemma_request_leaves_no_trace(
    table: Map<usize, u64>,
    handle: usize,
    id: u64,
    events: Seq<Event>,
)
    requires
        !table.contains_key(handle),
        untouched(events, handle),
    ensures
        ended(replay(started(table, handle, id), events), handle) == replay(table, events),
        ended(replay(started(table, handle, id), events), handle).len() == replay(
            table,
            events,
        ).len(),
        !replay(table, events).contains_key(handle),
    decreases events.len(),
{
    if events.len() > 0 {
        lemma_untouched_earlier(events, handle);
        lemma_request_leaves_no_trace(table, handle, id, events.drop_last());
        let with = replay(started(table, handle, id), events.drop_last());
        assert(ended(events.last().apply(with), handle) =~= events.last().apply(
            ended(with, handle),
        ));
    }
}

/// Events that leave a request alone do so up to the last of them.
proof fn lemma_untouched_earlier(events: Seq<Event>, handle: usize)
    requires
        events.len() > 0,
        untouched(events, handle),
    ensures
        untouched(events.drop_last(), handle),
        events.last().handle() != handle,
{
    let earlier = events.drop_last();
    assert forall|i: int| 0 <= i < earlier.len() implies (#[trigger] earlier[i]).handle()
        != handle by {
        assert(earlier[i] == events[i]);
    }
}

/// A handle occurs in a sequence exactly when it is the last one or occurs
/// before the last.
proof fn lemma_contains_with_last(handles: Seq<usize>, k: usize)
    requires
        handles.len() > 0,
    ensures
        handles.contains(k) <==> handles.drop_last().contains(k) || handles.last() == k,
{
    let earlier = handles.drop_last();
    if earlier.contains(k) {
        let j = choose|j: int| 0 <= j < earlier.len() && earlier[j] == k;
        assert(handles[j] == k);
    }
    if handles.contains(k) {
        let j = choose|j: int| 0 <= j < handles.len() && handles[j] == k;
        if j < earlier.len() {
            assert(earlier[j] == k);
        }
    }
}

/// After the starts of `handles`, the table holds an entry for each of the
/// handles and, unchanged, the entries that it had for other requests.
proof fn lemma_starts_fill(table: Map<usize, u64>, handles: Seq<usize>, ids: Seq<u64>)
    requires
        handles.len() == ids.len(),
    ensures
        forall|k: usize| #[trigger]
            replay(table, starts(handles, ids)).contains_key(k) <==> table.contains_key(k)
                || handles.contains(k),
        forall|k: usize|
            table.contains_key(k) && !handles.contains(k) ==> #[trigger] replay(
                table,
                starts(handles, ids),
            )[k] == table[k],
    decreases handles.len(),
{
    if handles.len() > 0 {
        assert(starts(handles, ids).drop_last() =~= starts(handles.drop_last(), ids.drop_last()));
        lemma_starts_fill(table, handles.drop_last(), ids.drop_last());
        let before = replay(table, starts(handles.drop_last(), ids.drop_last()));
        let after = replay(table, starts(handles, ids));
        assert(after == started(before, handles.last(), ids.last()));
        assert forall|k: usize| #[trigger]
            after.contains_key(k) <==> table.contains_key(k) || handles.contains(k) by {
            lemma_contains_with_last(handles, k);
        }
        assert forall|k: usize| table.contains_key(k) && !handles.contains(k) implies #[trigger]
            after[k] == table[k] by {
            lemma_contains_with_last(handles, k);
        }
    }
}

/// After the starts of distinct `handles`, none of them in the table before,
/// the table has grown by one entry for each, and each holds its own
/// identifier.
proof fn lemma_starts_count(table: Map<usize, u64>, handles: Seq<usize>, ids: Seq<u64>)
    requires
        handles.len() == ids.len(),
        handles.no_duplicates(),
        table.dom().finite(),
        forall|i: int| 0 <= i < handles.len() ==> !table.contains_key(#[trigger] handles[i]),
    ensures
        replay(table, starts(handles, ids)).dom().finite(),
        replay(table, starts(handles, ids)).len() == table.len() + handles.len(),
        forall|i: int|
            0 <= i < handles.len() ==> replay(table, starts(handles, ids))[#[trigger] handles[i]]
                == ids[i],
    decreases handles.len(),
{
    if handles.len() > 0 {
        let earlier = handles.drop_last();
        assert(starts(handles, ids).drop_last() =~= starts(earlier, ids.drop_last()));
        lemma_starts_count(table, earlier, ids.drop_last());
        lemma_starts_fill(table, earlier, ids.drop_last());
        assert(!earlier.contains(handles.last())) by {
            if earlier.contains(handles.last()) {
                let j = choose|j: int| 0 <= j < earlier.len() && earlier[j] == handles.last();
                assert(handles[j] == handles[handles.len() - 1]);
            }
        }
        assert forall|i: int| 0 <= i < handles.len() implies replay(
            table,
            starts(handles, ids),
        )[#[trigger] handles[i]] == ids[i] by {
            if i < earlier.len() {
                assert(earlier[i] == handles[i]);
            }
        }
    }
}

/// After the ends of `handles`, the table holds the entries it had, but for
/// those of the handles.
proof fn lemma_ends_drain(table: Map<usize, u64>, handles: Seq<usize>)
    ensures
        forall|k: usize| #[trigger]
            replay(table, ends(handles)).contains_key(k) <==> table.contains_key(k)
                && !handles.contains(k),
        forall|k: usize|
            replay(table, ends(handles)).contains_key(k) ==> #[trigger] replay(
                table,
                ends(handles),
            )[k] == table[k],
    decreases handles.len(),
{
    if handles.len() > 0 {
        assert(ends(handles).drop_last() =~= ends(handles.drop_last()));
        lemma_ends_drain(table, handles.drop_last());
        let before = replay(table, ends(handles.drop_last()));
        let after = replay(table, ends(handles));
        assert(after == ended(before, handles.last()));
        assert forall|k: usize| #[trigger]
            after.contains_key(k) <==> table.contains_key(k) && !handles.contains(k) by {
            lemma_contains_with_last(handles, k);
        }
    }
}

/// Requests that run side by side do not touch one another. When requests
/// with distinct handles, none of them in the table yet, have all started,
/// the table holds one entry more for each of them, each request is looked up
/// with its own identifier, and the requests that were there before keep
/// theirs.
pub proof fn lemma_concurrent_requests_are_apart(
    table: Map<usize, u64>,
    handles: Seq<usize>,
    ids: Seq<u64>,
)
    requires
        handles.len() == ids.len(),
        handles.no_duplicates(),
        table.dom().finite(),
        forall|i: int| 0 <= i < handles.len() ==> !table.contains_key(#[trigger] handles[i]),
    ensures
        replay(table, starts(handles, ids)).len() == table.len() + handles.len(),
        forall|i: int|
            0 <= i < handles.len() ==> resolved(
                replay(table, starts(handles, ids)),
                #[trigger] handles[i],
            ) == Ok::<u64, LookupError>(ids[i]),
        forall|k: usize|
            table.contains_key(k) ==> #[trigger] assigned(replay(table, starts(handles, ids)), k)
                == assigned(table, k),
{
    lemma_starts_count(table, handles, ids);
    lemma_starts_fill(table, handles, ids);
    let busy = replay(table, starts(handles, ids));
    assert forall|i: int| 0 <= i < handles.len() implies resolved(busy, #[trigger] handles[i])
        == Ok::<u64, LookupError>(ids[i]) by {
        assert(handles.contains(handles[i]));
    }
    assert forall|k: usize| table.contains_key(k) implies #[trigger] assigned(busy, k)
        == assigned(table, k) by {
        if handles.contains(k) {
            let i = choose|i: int| 0 <= i < handles.len() && handles[i] == k;
            assert(!table.contains_key(handles[i]));
        }
    }
}

/// When requests that ran side by side have all ended, in whatever order
/// (`completions` names each of them at least once and no other request), the
/// table is what it was before the first of them started.
pub proof fn lemma_concurrent_requests_drain(
    table: Map<usize, u64>,
    handles: Seq<usize>,
    ids: Seq<u64>,
    completions: Seq<usize>,
)
    requires
        handles.len() == ids.len(),
        forall|i: int| 0 <= i < handles.len() ==> !table.contains_key(#[trigger] handles[i]),
        forall|i: int| 0 <= i < handles.len() ==> completions.contains(#[trigger] handles[i]),
        forall|i: int|
            0 <= i < completions.len() ==> handles.contains(#[trigger] completions[i]),
    ensures
        replay(replay(table, starts(handles, ids)), ends(completions)) == table,
{
    let busy = replay(table, starts(handles, ids));
    let idle = replay(busy, ends(completions));
    lemma_starts_fill(table, handles, ids);
    lemma_ends_drain(busy, completions);
    assert forall|k: usize| idle.contains_key(k) <==> table.contains_key(k) by {
        if handles.contains(k) {
            let i = choose|i: int| 0 <= i < handles.len() && handles[i] == k;
            assert(completions.contains(handles[i]));
            assert(!table.contains_key(handles[i]));
        }
        if completions.contains(k) {
            let j = choose|j: int| 0 <= j < completions.len() && completions[j] == k;
            assert(handles.contains(completions[j]));
        }
    }
    assert(idle =~= table);
}

} // verus!
