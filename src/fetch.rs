//! Batched fetching: each request carries the index of its slot, so completions that
//! arrive in any order land where they belong, and one failure stays in its slot.
use vstd::prelude::*;

verus! {

/// Why one request of a batch gave no payload.
#[derive(Clone, Copy, Debug, PartialEq, Eq, Structural)]
pub enum FetchError {
    /// The URL is malformed.
    Url,
    /// Connecting, TLS or a timeout failed.
    Transport,
    /// The response did not match the expected schema.
    Decode,
}

/// The slots of a batch in flight: one per request, filled as completions arrive.
pub struct Batch<T> {
    pub slots: Vec<Option<Result<T, FetchError>>>,
}

/// The slots after applying `events` in order, each `(token, outcome)` filling slot `token`.
pub open spec fn apply_all<T>(
    slots: Seq<Option<Result<T, FetchError>>>,
    events: Seq<(usize, Result<T, FetchError>)>,
) -> Seq<Option<Result<T, FetchError>>>
    decreases events.len(),
{
    if events.len() == 0 {
        slots
    } else {
        apply_all(slots, events.drop_last()).update(events.last().0 as int, Some(events.last().1))
    }
}

pub open spec fn empty_slots<T>(n: nat) -> Seq<Option<Result<T, FetchError>>> {
    Seq::new(n, |_i: int| None)
}

impl<T> Batch<T> {
    /// A batch of `n` requests, none answered yet.
    pub fn new(n: usize) -> (r: Batch<T>)
        ensures
            r.slots@ == empty_slots::<T>(n as nat),
    {
        let mut slots: Vec<Option<Result<T, FetchError>>> = Vec::new();
        let mut i: usize = 0;
        while i < n
            invariant
                i <= n,
                slots@ == empty_slots::<T>(i as nat),
            decreases n - i,
        {
            slots.push(None);
            assert(slots@ =~= empty_slots::<T>((i + 1) as nat));
            i = i + 1;
        }
        Batch { slots }
    }

    /// Records the outcome of the request with index `token`.
    pub fn complete(&mut self, token: usize, outcome: Result<T, FetchError>)
        requires
            token < old(self).slots@.len(),
        ensures
            final(self).slots@ == old(self).slots@.update(token as int, Some(outcome)),
    {
        self.slots.set(token, Some(outcome));
    }

    /// Whether every request has its outcome.
    pub fn is_complete(&self) -> (r: bool)
        ensures
            r == forall|i: int| 0 <= i < self.slots@.len() ==> (#[trigger] self.slots@[i]) is Some,
    {
        let mut i: usize = 0;
        while i < self.slots.len()
            invariant
                i <= self.slots@.len(),
                forall|k: int| 0 <= k < i ==> (#[trigger] self.slots@[k]) is Some,
            decreases self.slots@.len() - i,
        {
            if self.slots[i].is_none() {
                return false;
            }
            i = i + 1;
        }
        true
    }

    /// The outcomes, one per request, in request order.
    pub fn into_results(self) -> (r: Vec<Result<T, FetchError>>)
        requires
            forall|i: int| 0 <= i < self.slots@.len() ==> (#[trigger] self.slots@[i]) is Some,
        ensures
            r@.len() == self.slots@.len(),
            forall|i: int| 0 <= i < r@.len() ==> Some(#[trigger] r@[i]) == self.slots@[i],
    {
        let ghost all = self.slots@;
        let mut slots = self.slots;
        let mut out: Vec<Result<T, FetchError>> = Vec::new();
        while slots.len() > 0
            invariant
                out@.len() + slots@.len() == all.len(),
                slots@ == all.skip(out@.len() as int),
                forall|i: int| 0 <= i < all.len() ==> (#[trigger] all[i]) is Some,
                forall|i: int| 0 <= i < out@.len() ==> Some(#[trigger] out@[i]) == all[i],
            decreases slots@.len(),
        {
            let ghost k = out@.len() as int;
            assert(slots@[0] == all[k]);
            let slot = slots.remove(0);
            assert(slots@ =~= all.skip(k + 1));
            if let Some(x) = slot {
                out.push(x);
            }
        }
        out
    }
}

/// Whatever order the completions of a batch arrive in, each distinct token's outcome ends
/// up in its own slot, and a slot that no completion names stays empty.
pub proof fn lemma_slots_follow_tokens<T>(n: nat, events: Seq<(usize, Result<T, FetchError>)>)
    requires
        forall|j: int| 0 <= j < events.len() ==> (#[trigger] events[j]).0 < n,
        forall|i: int, j: int| 0 <= i < j < events.len() ==> (#[trigger] events[i]).0 != (#[trigger] events[j]).0,
    ensures
        apply_all(empty_slots::<T>(n), events).len() == n,
        forall|j: int|
            0 <= j < events.len() ==> apply_all(empty_slots::<T>(n), events)[(#[trigger] events[j]).0 as int]
                == Some(events[j].1),
        forall|k: int|
            0 <= k < n && (forall|j: int| 0 <= j < events.len() ==> (#[trigger] events[j]).0 != k) ==> (
            #[trigger] apply_all(empty_slots::<T>(n), events)[k]) is None,
    decreases events.len(),
{
    if events.len() > 0 {
        let e = events.drop_last();
        assert forall|j: int| 0 <= j < e.len() implies #[trigger] e[j] == events[j] by {}
        lemma_slots_follow_tokens(n, e);
        let prev = apply_all(empty_slots::<T>(n), e);
        let last = events.last();
        assert forall|j: int|
            0 <= j < events.len() implies apply_all(empty_slots::<T>(n), events)[(#[trigger] events[j]).0 as int]
                == Some(events[j].1) by {
            if j < events.len() - 1 {
                assert(e[j] == events[j]);
                assert(events[j].0 != events[events.len() - 1].0);
            }
        }
        assert forall|k: int|
            0 <= k < n && (forall|j: int| 0 <= j < events.len() ==> (#[trigger] events[j]).0 != k) implies (
            #[trigger] apply_all(empty_slots::<T>(n), events)[k]) is None by {
            assert(events[events.len() - 1].0 != k);
            assert forall|j: int| 0 <= j < e.len() implies (#[trigger] e[j]).0 != k by {
                assert(e[j] == events[j]);
            }
        }
    }
}

/// Each outcome, with a failure read as no data.
pub open spec fn ok_of<T>(r: Result<T, FetchError>) -> Option<T> {
    match r {
        Ok(x) => Some(x),
        Err(_) => None,
    }
}

/// The payloads of a batch, a failed slot giving `None` in its place.
pub fn payloads<T>(results: Vec<Result<T, FetchError>>) -> (r: Vec<Option<T>>)
    ensures
        r@.len() == results@.len(),
        forall|i: int| 0 <= i < r@.len() ==> #[trigger] r@[i] == ok_of(results@[i]),
{
    let ghost all = results@;
    let mut rest = results;
    let mut out: Vec<Option<T>> = Vec::new();
    while rest.len() > 0
        invariant
            out@.len() + rest@.len() == all.len(),
            rest@ == all.skip(out@.len() as int),
            forall|i: int| 0 <= i < out@.len() ==> #[trigger] out@[i] == ok_of(all[i]),
        decreases rest@.len(),
    {
        let ghost k = out@.len() as int;
        assert(rest@[0] == all[k]);
        let x = rest.remove(0);
        assert(rest@ =~= all.skip(k + 1));
        out.push(
            match x {
                Ok(v) => Some(v),
                Err(_) => None,
            },
        );
    }
    out
}

} // verus!
