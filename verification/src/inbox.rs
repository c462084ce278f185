//! Puts payloads that arrive out of order back into order.

use std::collections::BTreeMap;

use vstd::prelude::*;

use crate::envelope::{open_message, received, refused};
use crate::error::TransferError;
use crate::protocol::{Payload, PayloadView};

verus! {

/// The payloads that have arrived and are not delivered yet.
///
/// The network reorders messages. Every message is opened at once, under the
/// counter that it carries, and held under that counter. Payloads are then
/// delivered in the order of their counters, from zero and without a gap.
pub struct Inbox {
    key: [u8; 32],
    held: BTreeMap<u64, Payload>,
    next: u64,
}

/// An inbox as a mathematical value: the key that opens messages, the payloads
/// held under their counters, and the counter of the next delivery.
#[verifier::ext_equal]
pub struct InboxView {
    pub key: Seq<u8>,
    pub held: Map<u64, PayloadView>,
    pub next: u64,
}

/// What happened while a payload was awaited.
#[derive(Debug)]
pub enum Arrival {
    /// Nothing yet: this starts the wait.
    Begin,
    /// A message came in.
    Message(Vec<u8>),
    /// No message came in for as long as the wait may last.
    Silence,
    /// The connection is gone.
    Closed,
}

/// What to do after an arrival.
#[derive(Debug)]
pub enum Next {
    /// The next payload in order.
    Deliver(Payload),
    /// The next payload is not there. Wait for another arrival.
    Wait,
    /// The wait was too long.
    Stalled,
}

/// What comes of an arrival, as a mathematical value.
pub enum Outcome {
    Deliver(PayloadView),
    Wait,
    Stalled,
    Failed,
}

impl View for Inbox {
    type V = InboxView;

    closed spec fn view(&self) -> InboxView {
        InboxView {
            key: self.key@,
            held: self.held@.map_values(|p: Payload| p@),
            next: self.next,
        }
    }
}

impl InboxView {
    /// The inbox with one more payload held.
    pub open spec fn hold(self, counter: u64, payload: PayloadView) -> InboxView {
        InboxView { held: self.held.insert(counter, payload), ..self }
    }

    /// The inbox after the delivery of the next payload.
    pub open spec fn delivered(self) -> InboxView {
        InboxView {
            held: self.held.remove(self.next),
            next: (self.next + 1) as u64,
            ..self
        }
    }

    /// Whether no payload is held.
    pub open spec fn nothing_held(self) -> bool {
        forall|k: u64| !self.held.contains_key(k)
    }

    /// Whether nothing is held whose turn is still to come. What is held below
    /// the next counter was delivered before, and has only come again.
    pub open spec fn nothing_ahead(self) -> bool {
        forall|k: u64| self.held.contains_key(k) ==> k < self.next
    }

    /// The lowest held counter whose turn is still to come.
    pub open spec fn is_first_ahead(self, first: u64) -> bool {
        &&& self.held.contains_key(first)
        &&& self.next <= first
        &&& forall|k: u64| self.held.contains_key(k) && self.next <= k ==> first <= k
    }

    /// Whether the next payload in order is there.
    pub open spec fn is_ready(self) -> bool {
        self.held.contains_key(self.next)
    }

    /// The inbox with what arrived taken in. A message that cannot be opened
    /// leaves nothing behind.
    pub open spec fn take_in(self, arrival: Arrival) -> InboxView {
        match arrival {
            Arrival::Message(raw) => match received(self.key, raw@) {
                Some((counter, payload)) => self.hold(counter, payload),
                None => self,
            },
            _ => self,
        }
    }

    /// What comes of an arrival.
    pub open spec fn outcome(self, arrival: Arrival) -> Outcome {
        let held = self.take_in(arrival);
        if arrival is Silence {
            Outcome::Stalled
        } else if arrival is Closed {
            Outcome::Failed
        } else if arrival is Message && received(self.key, arrival->Message_0@) is None {
            Outcome::Failed
        } else if held.is_ready() {
            Outcome::Deliver(held.held[held.next])
        } else {
            Outcome::Wait
        }
    }

    /// The inbox afterwards.
    pub open spec fn after(self, arrival: Arrival) -> InboxView {
        if self.outcome(arrival) is Deliver {
            self.take_in(arrival).delivered()
        } else {
            self.take_in(arrival)
        }
    }

    /// Why an arrival fails.
    pub open spec fn failure(self, arrival: Arrival, e: TransferError) -> bool {
        match arrival {
            Arrival::Message(raw) => refused(self.key, raw@, e),
            _ => e is Closed,
        }
    }
}

impl Inbox {
    /// An inbox that opens messages with `key` and delivers from counter zero.
    pub fn new(key: [u8; 32]) -> (inbox: Inbox)
        ensures
            inbox@ == (InboxView { key: key@, held: Map::empty(), next: 0 }),
    {
        let inbox = Inbox { key, held: BTreeMap::new(), next: 0 };
        assert(inbox@.held =~= Map::empty());
        inbox
    }

    /// Takes in what arrived, and delivers the next payload in order if it is
    /// there.
    pub fn next_payload(&mut self, arrival: Arrival) -> (r: Result<Next, TransferError>)
        requires
            old(self)@.next < u64::MAX,
        ensures
            took(old(self)@, arrival, r, final(self)@),
    {
        match arrival {
            Arrival::Silence => {
                return Ok(Next::Stalled);
            },
            Arrival::Closed => {
                return Err(TransferError::Closed);
            },
            Arrival::Begin => {},
            Arrival::Message(raw) => {
                let (counter, payload) = open_message(&self.key, raw.as_slice())?;
                self.held.insert(counter, payload);
                assert(self@ =~= old(self)@.hold(counter, payload@));
            },
        }
        let ghost before = self@;
        match self.held.remove(&self.next) {
            Some(payload) => {
                self.next = self.next + 1;
                assert(self@ =~= before.delivered());
                Ok(Next::Deliver(payload))
            },
            None => {
                assert(self@ =~= before);
                Ok(Next::Wait)
            },
        }
    }

    /// The counter of the next delivery.
    pub fn next_counter(&self) -> (next: u64)
        ensures
            next == self@.next,
    {
        self.next
    }

    /// Whether no payload is held.
    pub fn is_empty(&self) -> (empty: bool)
        ensures
            empty == (forall|k: u64| !self@.held.contains_key(k)),
    {
        let empty = self.held.is_empty();
        assert(self@.held.dom() =~= self.held@.dom());
        if !empty {
            assert(exists|k: u64| self@.held.contains_key(k));
        }
        empty
    }

    /// The lowest held counter whose turn is still to come.
    pub fn first_ahead(&self) -> (first: Option<u64>)
        ensures
            match first {
                Some(k) => {
                    &&& self@.held.contains_key(k)
                    &&& self@.next <= k
                    &&& forall|j: u64| self@.held.contains_key(j) && self@.next <= j ==> k <= j
                },
                None => forall|j: u64| self@.held.contains_key(j) ==> j < self@.next,
            },
    {
        let next: u64 = self.next;
        let mut first: Option<u64> = None;
        for key in keys: self.held.keys()
            invariant
                next == self@.next,
                match first {
                    Some(k) => {
                        &&& self@.held.contains_key(k)
                        &&& next <= k
                        &&& forall|i: int|
                            0 <= i < keys.index() && next <= *keys.seq()[i] ==> k <= *keys.seq()[i]
                    },
                    None => forall|i: int| 0 <= i < keys.index() ==> *keys.seq()[i] < next,
                },
        {
            if next <= *key {
                first = match first {
                    Some(k) if k <= *key => Some(k),
                    _ => Some(*key),
                };
            }
        }
        first
    }
}

/// What taking in an arrival does.
pub open spec fn took(
    before: InboxView,
    arrival: Arrival,
    r: Result<Next, TransferError>,
    after: InboxView,
) -> bool {
    &&& after == before.after(arrival)
    &&& match before.outcome(arrival) {
        Outcome::Deliver(p) => r matches Ok(Next::Deliver(x)) && x@ == p,
        Outcome::Wait => r matches Ok(Next::Wait),
        Outcome::Stalled => r matches Ok(Next::Stalled),
        Outcome::Failed => r matches Err(e) && before.failure(arrival, e),
    }
}

/// A message that opens is never lost: its payload is delivered at once, if it
/// is the next one, and else it is held under its counter, however far ahead.
/// What was held before stays held, but for what is delivered, and nothing else
/// is held.
pub proof fn law_every_message_is_kept(
    before: InboxView,
    raw: Vec<u8>,
    r: Result<Next, TransferError>,
    after: InboxView,
    counter: u64,
    payload: PayloadView,
    k: u64,
)
    requires
        before.next < u64::MAX,
        took(before, Arrival::Message(raw), r, after),
        received(before.key, raw@) == Some((counter, payload)),
    ensures
        after.key == before.key,
        if counter == before.next {
            &&& r matches Ok(Next::Deliver(x)) && x@ == payload
            &&& after.next == before.next + 1
            &&& !after.held.contains_key(counter)
        } else {
            &&& after.held.contains_key(counter)
            &&& after.held[counter] == payload
            &&& if before.held.contains_key(before.next) {
                &&& r matches Ok(Next::Deliver(x)) && x@ == before.held[before.next]
                &&& after.next == before.next + 1
            } else {
                &&& r matches Ok(Next::Wait)
                &&& after.next == before.next
            }
        },
        k != counter && k != before.next ==> {
            &&& after.held.contains_key(k) <==> before.held.contains_key(k)
            &&& before.held.contains_key(k) ==> after.held[k] == before.held[k]
        },
        k != counter && k == before.next ==> !after.held.contains_key(k),
{
}

/// Without a message the next payload is delivered if it is held, and nothing
/// else changes. Silence, a closed connection and messages that do not open
/// change nothing at all.
pub proof fn law_nothing_changes_without_a_message(
    before: InboxView,
    arrival: Arrival,
    r: Result<Next, TransferError>,
    after: InboxView,
    k: u64,
)
    requires
        before.next < u64::MAX,
        took(before, arrival, r, after),
        arrival matches Arrival::Message(raw) ==> received(before.key, raw@) is None,
    ensures
        after.key == before.key,
        if arrival is Begin && before.held.contains_key(before.next) {
            &&& r matches Ok(Next::Deliver(x)) && x@ == before.held[before.next]
            &&& after.next == before.next + 1
            &&& !after.held.contains_key(before.next)
            &&& k != before.next ==> (after.held.contains_key(k) <==> before.held.contains_key(k))
            &&& k != before.next && before.held.contains_key(k) ==> after.held[k] == before.held[k]
        } else {
            after == before
        },
        arrival is Begin && !before.held.contains_key(before.next) ==> (r matches Ok(Next::Wait)),
        arrival is Silence ==> (r matches Ok(Next::Stalled)),
        arrival is Closed ==> (r matches Err(TransferError::Closed)),
        arrival matches Arrival::Message(raw) ==> (r matches Err(e) && refused(
            before.key,
            raw@,
            e,
        )),
{
}

/// One call of `next_payload`, with what came of it.
pub struct Taking {
    pub arrival: Arrival,
    pub result: Result<Next, TransferError>,
    pub after: InboxView,
}

/// The inbox after some calls.
pub open spec fn inbox_after(start: InboxView, calls: Seq<Taking>) -> InboxView {
    if calls.len() == 0 {
        start
    } else {
        calls.last().after
    }
}

/// The calls follow each other, and the counters do not run out.
pub open spec fn takings(start: InboxView, calls: Seq<Taking>) -> bool
    decreases calls.len(),
{
    calls.len() > 0 ==> {
        let earlier = calls.drop_last();
        let before = inbox_after(start, earlier);
        &&& takings(start, earlier)
        &&& before.next < u64::MAX
        &&& took(before, calls.last().arrival, calls.last().result, calls.last().after)
    }
}

/// The payloads that the calls delivered, in order.
pub open spec fn given_out(calls: Seq<Taking>) -> Seq<PayloadView>
    decreases calls.len(),
{
    if calls.len() == 0 {
        Seq::empty()
    } else {
        match calls.last().result {
            Ok(Next::Deliver(p)) => given_out(calls.drop_last()).push(p@),
            _ => given_out(calls.drop_last()),
        }
    }
}

/// A message that opens under this counter was among what arrived.
pub open spec fn came_in(key: Seq<u8>, calls: Seq<Taking>, counter: u64) -> bool {
    exists|i: int|
        0 <= i < calls.len() && (#[trigger] calls[i]).arrival is Message && (received(
            key,
            calls[i].arrival->Message_0@,
        ) matches Some((c, _)) && c == counter)
}

/// Whatever arrives, in whatever order and however often: where every message
/// that opens is one that the peer sent, the payloads are delivered in the order
/// of their counters, each once, and as soon as none is left to deliver, all of
/// them have been delivered up to the first that did not arrive.
pub proof fn law_arrivals_are_delivered_in_order(
    start: InboxView,
    calls: Seq<Taking>,
    sent: Seq<PayloadView>,
)
    requires
        start.next == 0,
        start.held.dom() =~= Set::<u64>::empty(),
        takings(start, calls),
        forall|i: int|
            0 <= i < calls.len() && (#[trigger] calls[i]).arrival is Message ==> (received(
                start.key,
                calls[i].arrival->Message_0@,
            ) matches Some((c, p)) ==> c < sent.len() && p == sent[c as int]),
    ensures
        ({
            let end = inbox_after(start, calls);
            &&& end.next <= sent.len()
            &&& given_out(calls) == sent.take(end.next as int)
            &&& forall|c: u64| c < end.next ==> came_in(start.key, calls, c)
            &&& calls.len() > 0 && (calls.last().result matches Ok(Next::Wait)) ==> !came_in(
                start.key,
                calls,
                end.next,
            )
        }),
{
    lemma_takings(start, calls, sent);
}

/// What holds of an inbox after every call.
proof fn lemma_takings(start: InboxView, calls: Seq<Taking>, sent: Seq<PayloadView>)
    requires
        start.next == 0,
        start.held.dom() =~= Set::<u64>::empty(),
        takings(start, calls),
        forall|i: int|
            0 <= i < calls.len() && (#[trigger] calls[i]).arrival is Message ==> (received(
                start.key,
                calls[i].arrival->Message_0@,
            ) matches Some((c, p)) ==> c < sent.len() && p == sent[c as int]),
    ensures
        ({
            let end = inbox_after(start, calls);
            &&& end.key == start.key
            &&& end.next <= sent.len()
            &&& given_out(calls) == sent.take(end.next as int)
            &&& forall|c: u64| c < end.next ==> came_in(start.key, calls, c)
            &&& forall|c: u64| #[trigger]
                end.held.contains_key(c) ==> c < sent.len() && end.held[c] == sent[c as int]
            &&& forall|c: u64|
                end.next <= c ==> (came_in(start.key, calls, c) <==> #[trigger] end.held.contains_key(
                    c,
                ))
            &&& calls.len() > 0 && (calls.last().result matches Ok(Next::Wait))
                ==> !end.held.contains_key(end.next)
        }),
    decreases calls.len(),
{
    if calls.len() == 0 {
        assert(sent.take(0) =~= Seq::empty());
        assert forall|c: u64| !(#[trigger] start.held.contains_key(c)) by {
            assert(!start.held.dom().contains(c));
        }
    } else {
        let earlier = calls.drop_last();
        let last = calls.last();
        assert(last == calls[calls.len() - 1]);
        assert forall|i: int|
            0 <= i < earlier.len() && (#[trigger] earlier[i]).arrival is Message implies (received(
            start.key,
            earlier[i].arrival->Message_0@,
        ) matches Some((c, p)) ==> c < sent.len() && p == sent[c as int]) by {
            assert(earlier[i] == calls[i]);
        }
        lemma_takings(start, earlier, sent);
        let before = inbox_after(start, earlier);
        assert forall|c: u64| came_in(start.key, earlier, c) implies came_in(
            start.key,
            calls,
            c,
        ) by {
            let i = choose|i: int|
                0 <= i < earlier.len() && (#[trigger] earlier[i]).arrival is Message && (received(
                    start.key,
                    earlier[i].arrival->Message_0@,
                ) matches Some((d, _)) && d == c);
            assert(earlier[i] == calls[i]);
        }
        assert forall|c: u64| came_in(start.key, calls, c) implies came_in(start.key, earlier, c)
            || (last.arrival is Message && (received(start.key, last.arrival->Message_0@) matches Some(
            (d, _),
        ) && d == c)) by {
            let i = choose|i: int|
                0 <= i < calls.len() && (#[trigger] calls[i]).arrival is Message && (received(
                    start.key,
                    calls[i].arrival->Message_0@,
                ) matches Some((d, _)) && d == c);
            if i < earlier.len() {
                assert(earlier[i] == calls[i]);
            }
        }
        if last.result matches Ok(Next::Deliver(_)) {
            let n = before.next as int;
            assert(came_in(start.key, calls, before.next));
            assert(sent.take(n + 1) =~= sent.take(n).push(sent[n]));
        }
    }
}

/// One thing that happens to an inbox: a payload arrives under a counter, or
/// the next one is delivered.
pub enum InboxStep {
    Hold(u64, PayloadView),
    Deliver,
}

/// An inbox that was new, after some steps.
pub open spec fn replay(key: Seq<u8>, steps: Seq<InboxStep>) -> InboxView
    decreases steps.len(),
{
    if steps.len() == 0 {
        InboxView { key, held: Map::empty(), next: 0 }
    } else {
        let before = replay(key, steps.drop_last());
        match steps.last() {
            InboxStep::Hold(counter, payload) => before.hold(counter, payload),
            InboxStep::Deliver => before.delivered(),
        }
    }
}

/// Whether these steps can happen to a new inbox: only what is there is
/// delivered, and the counters do not run out.
pub open spec fn possible(key: Seq<u8>, steps: Seq<InboxStep>) -> bool
    decreases steps.len(),
{
    steps.len() > 0 ==> {
        let before = replay(key, steps.drop_last());
        &&& possible(key, steps.drop_last())
        &&& steps.last() is Deliver ==> before.is_ready() && before.next < u64::MAX
    }
}

/// The payloads that were delivered, in order.
pub open spec fn deliveries(key: Seq<u8>, steps: Seq<InboxStep>) -> Seq<PayloadView>
    decreases steps.len(),
{
    if steps.len() == 0 {
        Seq::empty()
    } else {
        let before = replay(key, steps.drop_last());
        let earlier = deliveries(key, steps.drop_last());
        match steps.last() {
            InboxStep::Hold(..) => earlier,
            InboxStep::Deliver => earlier.push(before.held[before.next]),
        }
    }
}

/// A payload has arrived under this counter.
pub open spec fn arrived(steps: Seq<InboxStep>, counter: u64) -> bool {
    exists|i: int| 0 <= i < steps.len() && #[trigger] steps[i] is Hold && steps[i]->Hold_0 == counter
}

/// Every payload that arrives is the one that the peer sends under its counter.
pub open spec fn honest(steps: Seq<InboxStep>, sent: Seq<PayloadView>) -> bool {
    forall|i: int|
        0 <= i < steps.len() && #[trigger] steps[i] is Hold ==> steps[i]->Hold_0 < sent.len()
            && steps[i]->Hold_1 == sent[steps[i]->Hold_0 as int]
}

/// Whatever the order in which payloads arrive, and however often, they are
/// delivered in the order of their counters, each once. Nothing that has
/// arrived is kept back, unless one with a lower counter has not arrived.
pub proof fn law_in_order_delivery(key: Seq<u8>, steps: Seq<InboxStep>, sent: Seq<PayloadView>)
    requires
        possible(key, steps),
        honest(steps, sent),
    ensures
        ({
            let inbox = replay(key, steps);
            &&& inbox.next <= sent.len()
            &&& deliveries(key, steps) == sent.take(inbox.next as int)
            &&& forall|c: u64| c < inbox.next ==> arrived(steps, c)
            &&& !inbox.is_ready() ==> !arrived(steps, inbox.next)
        }),
{
    lemma_replay(key, steps, sent);
}

/// What holds of the inbox after every step.
proof fn lemma_replay(key: Seq<u8>, steps: Seq<InboxStep>, sent: Seq<PayloadView>)
    requires
        possible(key, steps),
        honest(steps, sent),
    ensures
        ({
            let inbox = replay(key, steps);
            &&& inbox.key == key
            &&& inbox.next <= sent.len()
            &&& deliveries(key, steps) == sent.take(inbox.next as int)
            &&& forall|c: u64| c < inbox.next ==> arrived(steps, c)
            &&& forall|c: u64| #[trigger]
                inbox.held.contains_key(c) ==> c < sent.len() && inbox.held[c] == sent[c as int]
            &&& forall|c: u64|
                inbox.next <= c ==> (arrived(steps, c) <==> #[trigger] inbox.held.contains_key(c))
        }),
    decreases steps.len(),
{
    if steps.len() == 0 {
        assert(sent.take(0) =~= Seq::empty());
    } else {
        let earlier = steps.drop_last();
        let before = replay(key, earlier);
        let inbox = replay(key, steps);
        assert forall|i: int| 0 <= i < earlier.len() && #[trigger] earlier[i] is Hold implies
            earlier[i]->Hold_0 < sent.len() && earlier[i]->Hold_1 == sent[earlier[i]->Hold_0 as int] by {
            assert(steps[i] is Hold);
        }
        lemma_replay(key, earlier, sent);
        assert forall|c: u64| arrived(earlier, c) implies arrived(steps, c) by {
            let i = choose|i: int|
                0 <= i < earlier.len() && #[trigger] earlier[i] is Hold && earlier[i]->Hold_0 == c;
            assert(steps[i] is Hold);
        }
        assert forall|c: u64| arrived(steps, c) implies arrived(earlier, c) || (steps.last() is Hold
            && steps.last()->Hold_0 == c) by {
            let i = choose|i: int|
                0 <= i < steps.len() && #[trigger] steps[i] is Hold && steps[i]->Hold_0 == c;
            if i < earlier.len() {
                assert(earlier[i] is Hold);
            }
        }
        match steps.last() {
            InboxStep::Hold(counter, payload) => {
                assert(steps[steps.len() - 1] is Hold);
            },
            InboxStep::Deliver => {
                let n = before.next as int;
                assert(sent.take(n + 1) =~= sent.take(n).push(sent[n]));
                assert(arrived(earlier, before.next));
            },
        }
    }
}

} // verus!
