use vstd::prelude::*;
use crate::chain::ChainId;
use crate::exchange::{ExchangeError, Quote, SwapOrder};
use crate::observer::IncomingEvent;

verus! {

/// Where an event stands in its conversion.
#[derive(Clone, Copy, Debug, PartialEq, Eq, Structural)]
pub enum Stage {
    Quoting,
    Swapping,
    Sending,
    Done,
    Dropped,
    SendFailed,
}

/// One accepted event and its progress. `in_flight` is set when a request for
/// it is handed out and cleared by the answer; `deferred` holds it back until
/// the next cycle.
#[derive(Clone, Copy, Debug, PartialEq, Eq, Structural)]
pub struct Slot {
    pub event: IncomingEvent,
    pub stage: Stage,
    pub deferred: bool,
    pub in_flight: bool,
}

/// How an event ended, for the log.
pub enum Outcome {
    /// The swap was created under this id.
    Swapped(String),
    /// The outbound transfer went out.
    Sent,
    /// The exchange refused the event for good.
    Dropped(ExchangeError),
    /// Signing or broadcasting failed; never retried.
    SendFailed,
}

/// What the caller must do next for an event.
pub enum Action {
    /// Ask the exchange for an estimate.
    Estimate { id: usize, from: ChainId, to: ChainId, amount: u64 },
    /// Ask the exchange to create the swap, paying out to `destination`.
    CreateSwap { id: usize, from: ChainId, to: ChainId, amount: u64, destination: String },
    /// Send `amount` of `chain` from the wallet to the deposit `address`.
    Send { id: usize, chain: ChainId, amount: u64, address: String },
    /// Log the outcome of an event.
    Report { id: usize, outcome: Outcome },
}

/// The kinds of action.
#[derive(Clone, Copy, Debug, PartialEq, Eq, Structural)]
pub enum ActKind {
    Estimate,
    CreateSwap,
    Send,
    Report,
}

impl Action {
    pub open spec fn kind(&self) -> ActKind {
        match self {
            Action::Estimate { .. } => ActKind::Estimate,
            Action::CreateSwap { .. } => ActKind::CreateSwap,
            Action::Send { .. } => ActKind::Send,
            Action::Report { .. } => ActKind::Report,
        }
    }

    pub open spec fn event_id(&self) -> usize {
        match self {
            Action::Estimate { id, .. } => *id,
            Action::CreateSwap { id, .. } => *id,
            Action::Send { id, .. } => *id,
            Action::Report { id, .. } => *id,
        }
    }
}

/// The kind and event of an action, if any.
pub open spec fn act_of(a: Option<Action>) -> Option<(ActKind, int)> {
    match a {
        Some(x) => Some((x.kind(), x.event_id() as int)),
        None => None,
    }
}

/// An input to the state machine: one call of an `Orchestrator` method.
/// An answer holds `None` for success or the error.
pub enum Input {
    Cycle,
    Accept(Seq<IncomingEvent>),
    Next,
    Estimated(usize, Option<ExchangeError>),
    SwapCreated(usize, Option<ExchangeError>),
    SendDone(usize, bool),
}

/// The transfer is already held: a chain and an ordinal name one transfer.
pub open spec fn known(s: Seq<Slot>, e: IncomingEvent) -> bool {
    exists|i: int|
        0 <= i < s.len() && (#[trigger] s[i]).event.chain == e.chain && s[i].event.position
            == e.position
}

/// A new slot for an event.
pub open spec fn fresh_slot(e: IncomingEvent) -> Slot {
    Slot { event: e, stage: Stage::Quoting, deferred: false, in_flight: false }
}

/// Takes in each event that is not on the target chain and not already held.
pub open spec fn accept_spec(s: Seq<Slot>, target: ChainId, evs: Seq<IncomingEvent>) -> Seq<Slot>
    decreases evs.len(),
{
    if evs.len() == 0 {
        s
    } else {
        let s0 = accept_spec(s, target, evs.drop_last());
        let e = evs.last();
        if e.chain != target && !known(s0, e) {
            s0.push(fresh_slot(e))
        } else {
            s0
        }
    }
}

/// The slot waits for a request to be handed out.
pub open spec fn eligible(x: Slot) -> bool {
    &&& !x.deferred
    &&& !x.in_flight
    &&& (x.stage == Stage::Quoting || x.stage == Stage::Swapping || x.stage == Stage::Sending)
}

/// The first eligible slot at or after `i`.
pub open spec fn first_eligible(s: Seq<Slot>, i: int) -> Option<int>
    decreases s.len() - i,
{
    if i < 0 || i >= s.len() {
        None
    } else if eligible(s[i]) {
        Some(i)
    } else {
        first_eligible(s, i + 1)
    }
}

/// The request kind for a slot's stage.
pub open spec fn request_kind(st: Stage) -> ActKind {
    match st {
        Stage::Quoting => ActKind::Estimate,
        Stage::Swapping => ActKind::CreateSwap,
        _ => ActKind::Send,
    }
}

/// The slot leaves `stage` for `next`, or is deferred, on an answer.
pub open spec fn answered(x: Slot, next: Stage, deferred: bool) -> Slot {
    Slot { stage: next, deferred: deferred, in_flight: false, ..x }
}

/// Every slot with its deferral lifted.
pub open spec fn resumed(s: Seq<Slot>) -> Seq<Slot> {
    Seq::new(s.len(), |i: int| Slot { deferred: false, ..s[i] })
}

/// One step of the conversion state machine: the slots after an input, and
/// the kind and event of the action handed back.
pub open spec fn step(s: Seq<Slot>, target: ChainId, input: Input) -> (
    Seq<Slot>,
    Option<(ActKind, int)>,
) {
    match input {
        Input::Cycle => (resumed(s), None),
        Input::Accept(evs) => (accept_spec(s, target, evs), None),
        Input::Next => match first_eligible(s, 0) {
            Some(i) => (
                s.update(i, Slot { in_flight: true, ..s[i] }),
                Some((request_kind(s[i].stage), i)),
            ),
            None => (s, None),
        },
        Input::Estimated(id, r) => {
            if id < s.len() && s[id as int].stage == Stage::Quoting && s[id as int].in_flight {
                let x = s[id as int];
                match r {
                    None => (s.update(id as int, answered(x, Stage::Swapping, false)), None),
                    Some(ExchangeError::ServiceUnavailable) => (
                        s.update(id as int, answered(x, Stage::Quoting, true)),
                        None,
                    ),
                    Some(_) => (
                        s.update(id as int, answered(x, Stage::Dropped, false)),
                        Some((ActKind::Report, id as int)),
                    ),
                }
            } else {
                (s, None)
            }
        },
        Input::SwapCreated(id, r) => {
            if id < s.len() && s[id as int].stage == Stage::Swapping && s[id as int].in_flight {
                let x = s[id as int];
                match r {
                    None => (
                        s.update(id as int, answered(x, Stage::Sending, false)),
                        Some((ActKind::Report, id as int)),
                    ),
                    Some(ExchangeError::ServiceUnavailable) => (
                        s.update(id as int, answered(x, Stage::Swapping, true)),
                        None,
                    ),
                    Some(_) => (
                        s.update(id as int, answered(x, Stage::Dropped, false)),
                        Some((ActKind::Report, id as int)),
                    ),
                }
            } else {
                (s, None)
            }
        },
        Input::SendDone(id, ok) => {
            if id < s.len() && s[id as int].stage == Stage::Sending && s[id as int].in_flight {
                let x = s[id as int];
                let next = if ok {
                    Stage::Done
                } else {
                    Stage::SendFailed
                };
                (s.update(id as int, answered(x, next, false)), Some((ActKind::Report, id as int)))
            } else {
                (s, None)
            }
        },
    }
}

/// The error an answer carries, if any.
pub open spec fn error_of<T>(r: Result<T, ExchangeError>) -> Option<ExchangeError> {
    match r {
        Ok(_) => None,
        Err(e) => Some(e),
    }
}

/// Drives each accepted event through quote, swap and send. It hands out one
/// action at a time and learns the answers; it makes no call itself.
pub struct Orchestrator {
    target: ChainId,
    destination: String,
    slots: Vec<Slot>,
    deposits: Vec<String>,
    swap_ids: Vec<String>,
}

impl Orchestrator {
    /// The accepted events and their progress; an event's id is its index.
    pub closed spec fn slots(&self) -> Seq<Slot> {
        self.slots@
    }

    /// The currency everything is converted into.
    pub closed spec fn target_spec(&self) -> ChainId {
        self.target
    }

    /// The wallet address that receives the converted funds.
    pub closed spec fn destination_spec(&self) -> Seq<char> {
        self.destination@
    }

    /// The exchange deposit address of each event, once quoted.
    pub closed spec fn deposits(&self) -> Seq<Seq<char>> {
        self.deposits@.map_values(|a: String| a@)
    }

    /// The swap id of each event, once the swap exists.
    pub closed spec fn swap_ids(&self) -> Seq<Seq<char>> {
        self.swap_ids@.map_values(|a: String| a@)
    }

    /// One deposit address and one swap id per event.
    pub open spec fn wf(&self) -> bool {
        &&& self.deposits().len() == self.slots().len()
        &&& self.swap_ids().len() == self.slots().len()
    }

    /// An orchestrator with no events.
    pub fn new(target: ChainId, destination: String) -> (r: Orchestrator)
        ensures
            r.wf(),
            r.slots() == Seq::<Slot>::empty(),
            r.target_spec() == target,
            r.destination_spec() == destination@,
    {
        Orchestrator {
            target,
            destination,
            slots: Vec::new(),
            deposits: Vec::new(),
            swap_ids: Vec::new(),
        }
    }

    /// Number of accepted events.
    pub fn len(&self) -> (r: usize)
        ensures
            r == self.slots().len(),
    {
        self.slots.len()
    }

    /// An accepted event and its progress.
    pub fn slot(&self, id: usize) -> (r: Slot)
        requires
            id < self.slots().len(),
        ensures
            r == self.slots()[id as int],
    {
        self.slots[id]
    }

    /// Starts a poll cycle: deferred events become eligible again.
    pub fn begin_cycle(&mut self)
        requires
            old(self).wf(),
        ensures
            final(self).wf(),
            final(self).slots() == step(old(self).slots(), old(self).target_spec(), Input::Cycle).0,
            final(self).target_spec() == old(self).target_spec(),
            final(self).destination_spec() == old(self).destination_spec(),
            final(self).deposits() == old(self).deposits(),
            final(self).swap_ids() == old(self).swap_ids(),
    {
        let ghost s0 = self.slots@;
        let mut i: usize = 0;
        while i < self.slots.len()
            invariant
                self.wf(),
                i <= self.slots@.len() == s0.len(),
                self.target == old(self).target,
                self.destination == old(self).destination,
                self.deposits == old(self).deposits,
                self.swap_ids == old(self).swap_ids,
                s0 == old(self).slots@,
                forall|j: int| 0 <= j < i ==> #[trigger] self.slots@[j] == (Slot { deferred: false, ..s0[j] }),
                forall|j: int| i <= j < s0.len() ==> #[trigger] self.slots@[j] == s0[j],
            decreases s0.len() - i,
        {
            let x = self.slots[i];
            self.slots.set(i, Slot { event: x.event, stage: x.stage, deferred: false, in_flight: x.in_flight });
            i = i + 1;
        }
        assert(self.slots@ =~= resumed(s0));
    }

    /// Whether an event with the same chain and position is already held.
    fn holds(&self, e: IncomingEvent) -> (r: bool)
        ensures
            r == known(self.slots(), e),
    {
        let mut i: usize = 0;
        while i < self.slots.len()
            invariant
                i <= self.slots@.len(),
                forall|j: int|
                    0 <= j < i ==> !((#[trigger] self.slots@[j]).event.chain == e.chain
                        && self.slots@[j].event.position == e.position),
            decreases self.slots@.len() - i,
        {
            let x = self.slots[i];
            if x.event.chain == e.chain && x.event.position == e.position {
                assert(self.slots@[i as int] == x);
                return true;
            }
            i = i + 1;
        }
        false
    }

    /// Takes in the events of a poll: each one not on the target chain and not
    /// held already starts at `Quoting`. Re-observed funds are not taken in twice.
    pub fn accept_events(&mut self, events: &Vec<IncomingEvent>)
        requires
            old(self).wf(),
        ensures
            final(self).wf(),
            final(self).slots() == step(
                old(self).slots(),
                old(self).target_spec(),
                Input::Accept(events@),
            ).0,
            final(self).target_spec() == old(self).target_spec(),
            final(self).destination_spec() == old(self).destination_spec(),
            final(self).deposits().subrange(0, old(self).slots().len() as int) == old(self).deposits(),
            final(self).swap_ids().subrange(0, old(self).slots().len() as int) == old(self).swap_ids(),
    {
        let ghost s0 = self.slots@;
        let mut i: usize = 0;
        while i < events.len()
            invariant
                self.wf(),
                i <= events@.len(),
                self.target == old(self).target,
                self.destination == old(self).destination,
                s0 == old(self).slots@,
                s0.len() <= self.slots@.len(),
                self.slots@ == accept_spec(s0, self.target, events@.subrange(0, i as int)),
                self.deposits@.subrange(0, s0.len() as int) == old(self).deposits@,
                self.swap_ids@.subrange(0, s0.len() as int) == old(self).swap_ids@,
            decreases events@.len() - i,
        {
            let e = events[i];
            proof {
                assert(events@.subrange(0, i + 1).drop_last() =~= events@.subrange(0, i as int));
                assert(events@.subrange(0, i + 1).last() == e);
            }
            if e.chain != self.target && !self.holds(e) {
                self.slots.push(Slot { event: e, stage: Stage::Quoting, deferred: false, in_flight: false });
                self.deposits.push(String::new());
                self.swap_ids.push(String::new());
                assert(self.deposits@.subrange(0, s0.len() as int) =~= old(self).deposits@);
                assert(self.swap_ids@.subrange(0, s0.len() as int) =~= old(self).swap_ids@);
            }
            i = i + 1;
        }
        assert(events@.subrange(0, events@.len() as int) =~= events@);
        proof {
            assert(self.deposits().subrange(0, s0.len() as int) =~= old(self).deposits());
            assert(self.swap_ids().subrange(0, s0.len() as int) =~= old(self).swap_ids());
        }
    }

    /// Hands out the request for the first eligible event and marks it in
    /// flight, so that no second request for it goes out before the answer.
    pub fn next_action(&mut self) -> (r: Option<Action>)
        requires
            old(self).wf(),
        ensures
            final(self).wf(),
            (final(self).slots(), act_of(r)) == step(
                old(self).slots(),
                old(self).target_spec(),
                Input::Next,
            ),
            final(self).target_spec() == old(self).target_spec(),
            final(self).destination_spec() == old(self).destination_spec(),
            final(self).deposits() == old(self).deposits(),
            final(self).swap_ids() == old(self).swap_ids(),
            r matches Some(Action::Estimate { id, from, to, amount }) ==> id < old(self).slots().len()
                && from == old(self).slots()[id as int].event.chain && to == old(self).target_spec()
                && amount == old(self).slots()[id as int].event.amount,
            r matches Some(Action::CreateSwap { id, from, to, amount, destination }) ==> id < old(
                self,
            ).slots().len() && from == old(self).slots()[id as int].event.chain && to == old(
                self,
            ).target_spec() && amount == old(self).slots()[id as int].event.amount
                && destination@ == old(self).destination_spec(),
            r matches Some(Action::Send { id, chain, amount, address }) ==> id < old(self).slots().len()
                && chain == old(self).slots()[id as int].event.chain && amount == old(
                self,
            ).slots()[id as int].event.amount && address@ == old(self).deposits()[id as int],
            r is Some ==> !(r->0 is Report),
    {
        let ghost s0 = self.slots@;
        let mut i: usize = 0;
        while i < self.slots.len()
            invariant
                self.wf(),
                self.target == old(self).target,
                self.destination == old(self).destination,
                self.deposits == old(self).deposits,
                self.swap_ids == old(self).swap_ids,
                i <= s0.len(),
                s0 == old(self).slots@,
                self.slots@ == s0,
                forall|j: int| 0 <= j < i ==> !eligible(#[trigger] s0[j]),
                first_eligible(s0, 0) == first_eligible(s0, i as int),
            decreases s0.len() - i,
        {
            let x = self.slots[i];
            let is_eligible = !x.deferred && !x.in_flight && (x.stage == Stage::Quoting || x.stage
                == Stage::Swapping || x.stage == Stage::Sending);
            if is_eligible {
                self.slots.set(i, Slot { event: x.event, stage: x.stage, deferred: x.deferred, in_flight: true });
                proof {
                    assert(x == s0[i as int]);
                    assert(eligible(s0[i as int]));
                    assert(first_eligible(s0, i as int) == Some(i as int));
                    assert(self.slots@ =~= s0.update(i as int, Slot { in_flight: true, ..s0[i as int] }));
                    assert(self.deposits().len() == self.deposits@.len());
                }
                let act = match x.stage {
                    Stage::Quoting => Action::Estimate {
                        id: i,
                        from: x.event.chain,
                        to: self.target,
                        amount: x.event.amount,
                    },
                    Stage::Swapping => Action::CreateSwap {
                        id: i,
                        from: x.event.chain,
                        to: self.target,
                        amount: x.event.amount,
                        destination: self.destination.clone(),
                    },
                    _ => Action::Send {
                        id: i,
                        chain: x.event.chain,
                        amount: x.event.amount,
                        address: self.deposits[i].clone(),
                    },
                };
                assert(act.kind() == request_kind(x.stage));
                assert(act.event_id() as int == i as int);
                return Some(act);
            }
            i = i + 1;
        }
        None
    }

    /// Learns the answer to an estimate. A quote moves the event on to the
    /// swap; `ServiceUnavailable` defers it to the next cycle; any other error
    /// drops it, with one report. An answer nobody waits for changes nothing.
    pub fn on_estimate(&mut self, id: usize, answer: Result<Quote, ExchangeError>) -> (r: Option<
        Action,
    >)
        requires
            old(self).wf(),
        ensures
            final(self).wf(),
            (final(self).slots(), act_of(r)) == step(
                old(self).slots(),
                old(self).target_spec(),
                Input::Estimated(id, error_of(answer)),
            ),
            final(self).target_spec() == old(self).target_spec(),
            final(self).destination_spec() == old(self).destination_spec(),
            final(self).swap_ids() == old(self).swap_ids(),
            final(self).deposits() == (if answer is Ok && id < old(self).slots().len() && old(
                self,
            ).slots()[id as int].stage == Stage::Quoting && old(self).slots()[id as int].in_flight {
                old(self).deposits().update(id as int, answer->Ok_0.deposit_address@)
            } else {
                old(self).deposits()
            }),
            r matches Some(Action::Report { outcome, .. }) ==> outcome matches Outcome::Dropped(e)
                && answer == Err::<Quote, ExchangeError>(e),
    {
        if id >= self.slots.len() {
            return None;
        }
        let x = self.slots[id];
        if !(x.stage == Stage::Quoting && x.in_flight) {
            return None;
        }
        match answer {
            Ok(q) => {
                self.slots.set(id, Slot { event: x.event, stage: Stage::Swapping, deferred: false, in_flight: false });
                self.deposits.set(id, q.deposit_address);
                proof {
                    assert(self.deposits() =~= old(self).deposits().update(id as int, q.deposit_address@));
                }
                None
            },
            Err(ExchangeError::ServiceUnavailable) => {
                self.slots.set(id, Slot { event: x.event, stage: Stage::Quoting, deferred: true, in_flight: false });
                None
            },
            Err(e) => {
                self.slots.set(id, Slot { event: x.event, stage: Stage::Dropped, deferred: false, in_flight: false });
                Some(Action::Report { id, outcome: Outcome::Dropped(e) })
            },
        }
    }

    /// Learns the answer to a swap creation. An order moves the event on to
    /// the send and is reported with its id; `ServiceUnavailable` defers it to
    /// the next cycle; any other error drops it, with one report.
    pub fn on_swap(&mut self, id: usize, answer: Result<SwapOrder, ExchangeError>) -> (r: Option<
        Action,
    >)
        requires
            old(self).wf(),
        ensures
            final(self).wf(),
            (final(self).slots(), act_of(r)) == step(
                old(self).slots(),
                old(self).target_spec(),
                Input::SwapCreated(id, error_of(answer)),
            ),
            final(self).target_spec() == old(self).target_spec(),
            final(self).destination_spec() == old(self).destination_spec(),
            final(self).deposits() == old(self).deposits(),
            final(self).swap_ids() == (if answer is Ok && id < old(self).slots().len() && old(
                self,
            ).slots()[id as int].stage == Stage::Swapping && old(self).slots()[id as int].in_flight {
                old(self).swap_ids().update(id as int, answer->Ok_0.swap_id@)
            } else {
                old(self).swap_ids()
            }),
            r matches Some(Action::Report { outcome, .. }) ==> match outcome {
                Outcome::Swapped(sid) => answer is Ok && sid@ == answer->Ok_0.swap_id@,
                Outcome::Dropped(e) => answer == Err::<SwapOrder, ExchangeError>(e),
                _ => false,
            },
    {
        if id >= self.slots.len() {
            return None;
        }
        let x = self.slots[id];
        if !(x.stage == Stage::Swapping && x.in_flight) {
            return None;
        }
        match answer {
            Ok(order) => {
                self.slots.set(id, Slot { event: x.event, stage: Stage::Sending, deferred: false, in_flight: false });
                let sid = order.swap_id.clone();
                self.swap_ids.set(id, order.swap_id);
                proof {
                    assert(self.swap_ids() =~= old(self).swap_ids().update(id as int, sid@));
                }
                Some(Action::Report { id, outcome: Outcome::Swapped(sid) })
            },
            Err(ExchangeError::ServiceUnavailable) => {
                self.slots.set(id, Slot { event: x.event, stage: Stage::Swapping, deferred: true, in_flight: false });
                None
            },
            Err(e) => {
                self.slots.set(id, Slot { event: x.event, stage: Stage::Dropped, deferred: false, in_flight: false });
                Some(Action::Report { id, outcome: Outcome::Dropped(e) })
            },
        }
    }

    /// Learns whether the outbound transfer went out. Either way the event
    /// ends here: a failed send is reported and never retried.
    pub fn on_send(&mut self, id: usize, sent: bool) -> (r: Option<Action>)
        requires
            old(self).wf(),
        ensures
            final(self).wf(),
            (final(self).slots(), act_of(r)) == step(
                old(self).slots(),
                old(self).target_spec(),
                Input::SendDone(id, sent),
            ),
            final(self).target_spec() == old(self).target_spec(),
            final(self).destination_spec() == old(self).destination_spec(),
            final(self).deposits() == old(self).deposits(),
            final(self).swap_ids() == old(self).swap_ids(),
            r matches Some(Action::Report { outcome, .. }) ==> (if sent {
                outcome is Sent
            } else {
                outcome is SendFailed
            }),
    {
        if id >= self.slots.len() {
            return None;
        }
        let x = self.slots[id];
        if !(x.stage == Stage::Sending && x.in_flight) {
            return None;
        }
        if sent {
            self.slots.set(id, Slot { event: x.event, stage: Stage::Done, deferred: false, in_flight: false });
            Some(Action::Report { id, outcome: Outcome::Sent })
        } else {
            self.slots.set(id, Slot { event: x.event, stage: Stage::SendFailed, deferred: false, in_flight: false });
            Some(Action::Report { id, outcome: Outcome::SendFailed })
        }
    }
}

/// How many actions of `kind` for event `id` a run of inputs hands out.
pub open spec fn count_actions(
    s: Seq<Slot>,
    target: ChainId,
    inputs: Seq<Input>,
    kind: ActKind,
    id: usize,
) -> nat
    decreases inputs.len(),
{
    if inputs.len() == 0 {
        0
    } else {
        let (s1, a) = step(s, target, inputs[0]);
        (if a == Some((kind, id as int)) {
            1nat
        } else {
            0nat
        }) + count_actions(s1, target, inputs.drop_first(), kind, id)
    }
}

/// How many actions of any kind for event `id` a run of inputs hands out.
pub open spec fn count_for(s: Seq<Slot>, target: ChainId, inputs: Seq<Input>, id: usize) -> nat
    decreases inputs.len(),
{
    if inputs.len() == 0 {
        0
    } else {
        let (s1, a) = step(s, target, inputs[0]);
        (if a matches Some((_, j)) && j == id as int {
            1nat
        } else {
            0nat
        }) + count_for(s1, target, inputs.drop_first(), id)
    }
}

/// The event has no swap creation outstanding or behind it.
pub open spec fn swap_pending(s: Seq<Slot>, id: usize) -> bool {
    id >= s.len() || s[id as int].stage == Stage::Quoting || (s[id as int].stage
        == Stage::Swapping && !s[id as int].in_flight)
}

/// The event has ended.
pub open spec fn finished(st: Stage) -> bool {
    st == Stage::Done || st == Stage::Dropped || st == Stage::SendFailed
}

proof fn lemma_first_eligible(s: Seq<Slot>, i: int)
    ensures
        first_eligible(s, i) matches Some(j) ==> 0 <= i <= j < s.len() && eligible(s[j]),
    decreases s.len() - i,
{
    if 0 <= i < s.len() && !eligible(s[i]) {
        lemma_first_eligible(s, i + 1);
    }
}

proof fn lemma_accept_keeps(s: Seq<Slot>, target: ChainId, evs: Seq<IncomingEvent>)
    ensures
        s.len() <= accept_spec(s, target, evs).len(),
        forall|k: int| 0 <= k < s.len() ==> #[trigger] accept_spec(s, target, evs)[k] == s[k],
    decreases evs.len(),
{
    if evs.len() > 0 {
        lemma_accept_keeps(s, target, evs.drop_last());
    }
}

/// The input is aimed at slot `id`: an answer about it, or a `Next` that
/// picks it.
pub open spec fn aims_at(s: Seq<Slot>, input: Input, id: usize) -> bool {
    match input {
        Input::Next => first_eligible(s, 0) == Some(id as int),
        Input::Estimated(j, _) => j == id,
        Input::SwapCreated(j, _) => j == id,
        Input::SendDone(j, _) => j == id,
        _ => false,
    }
}

/// A step never shrinks the slots, and one not aimed at slot `id` keeps its
/// stage and flight and hands out no action for it.
proof fn lemma_step_frame(s: Seq<Slot>, target: ChainId, input: Input, id: usize)
    ensures
        ({
            let (s1, a) = step(s, target, input);
            &&& s.len() <= s1.len()
            &&& input is Next && aims_at(s, input, id) ==> id < s.len() && eligible(s[id as int])
            &&& !aims_at(s, input, id) ==> !(a matches Some((_, j)) && j == id as int)
            &&& !aims_at(s, input, id) && id < s.len() ==> s1[id as int].stage == s[id as int].stage
                && s1[id as int].in_flight == s[id as int].in_flight
        }),
{
    let (s1, a) = step(s, target, input);
    match input {
        Input::Accept(evs) => {
            lemma_accept_keeps(s, target, evs);
            if id < s.len() {
                assert(s1[id as int] == s[id as int]);
            }
        },
        Input::Next => {
            lemma_first_eligible(s, 0);
        },
        Input::Cycle => {
            if id < s.len() {
                assert(s1[id as int] == Slot { deferred: false, ..s[id as int] });
            }
        },
        Input::Estimated(j, r) => {
            if j != id && j < s.len() && id < s.len() {
                assert(s1[id as int] == s[id as int]);
            }
        },
        Input::SwapCreated(j, r) => {
            if j != id && j < s.len() && id < s.len() {
                assert(s1[id as int] == s[id as int]);
            }
        },
        Input::SendDone(j, r) => {
            if j != id && j < s.len() && id < s.len() {
                assert(s1[id as int] == s[id as int]);
            }
        },
    }
}

proof fn lemma_step_swap(s: Seq<Slot>, target: ChainId, input: Input, id: usize)
    requires
        input != Input::SwapCreated(id, Some(ExchangeError::ServiceUnavailable)),
    ensures
        ({
            let (s1, a) = step(s, target, input);
            &&& !swap_pending(s, id) ==> !swap_pending(s1, id) && a != Some((ActKind::CreateSwap, id as int))
            &&& a == Some((ActKind::CreateSwap, id as int)) ==> !swap_pending(s1, id)
        }),
{
    lemma_step_frame(s, target, input, id);
}

proof fn lemma_swap_count(s: Seq<Slot>, target: ChainId, inputs: Seq<Input>, id: usize)
    requires
        forall|k: int|
            0 <= k < inputs.len() ==> #[trigger] inputs[k] != Input::SwapCreated(
                id,
                Some(ExchangeError::ServiceUnavailable),
            ),
    ensures
        count_actions(s, target, inputs, ActKind::CreateSwap, id) <= if swap_pending(s, id) {
            1nat
        } else {
            0nat
        },
    decreases inputs.len(),
{
    if inputs.len() > 0 {
        assert(inputs[0] != Input::SwapCreated(id, Some(ExchangeError::ServiceUnavailable)));
        lemma_step_swap(s, target, inputs[0], id);
        let (s1, a) = step(s, target, inputs[0]);
        let rest = inputs.drop_first();
        assert forall|k: int| 0 <= k < rest.len() implies #[trigger] rest[k] != Input::SwapCreated(
            id,
            Some(ExchangeError::ServiceUnavailable),
        ) by {
            assert(rest[k] == inputs[k + 1]);
        }
        lemma_swap_count(s1, target, rest, id);
    }
}

/// Swap creation happens at most once per event: from any state, a run of
/// inputs hands out at most one `CreateSwap` for it. Retried cycles and
/// re-observed funds do not repeat it. The run holds no `ServiceUnavailable`
/// answer to a swap creation for the event, the one answer after which the
/// creation is retried.
pub proof fn lemma_create_swap_once(s: Seq<Slot>, target: ChainId, inputs: Seq<Input>, id: usize)
    requires
        forall|k: int|
            0 <= k < inputs.len() ==> #[trigger] inputs[k] != Input::SwapCreated(
                id,
                Some(ExchangeError::ServiceUnavailable),
            ),
    ensures
        count_actions(s, target, inputs, ActKind::CreateSwap, id) <= 1,
{
    lemma_swap_count(s, target, inputs, id);
}

/// Once a swap creation for an event has been handed out (or the event is
/// past it), no run hands out another, under the same proviso.
pub proof fn lemma_no_swap_after_claim(s: Seq<Slot>, target: ChainId, inputs: Seq<Input>, id: usize)
    requires
        !swap_pending(s, id),
        forall|k: int|
            0 <= k < inputs.len() ==> #[trigger] inputs[k] != Input::SwapCreated(
                id,
                Some(ExchangeError::ServiceUnavailable),
            ),
    ensures
        count_actions(s, target, inputs, ActKind::CreateSwap, id) == 0,
{
    lemma_swap_count(s, target, inputs, id);
}

/// The event has no send outstanding or behind it.
pub open spec fn send_pending(s: Seq<Slot>, id: usize) -> bool {
    id >= s.len() || s[id as int].stage == Stage::Quoting || s[id as int].stage == Stage::Swapping
        || (s[id as int].stage == Stage::Sending && !s[id as int].in_flight)
}

proof fn lemma_step_send(s: Seq<Slot>, target: ChainId, input: Input, id: usize)
    ensures
        ({
            let (s1, a) = step(s, target, input);
            &&& !send_pending(s, id) ==> !send_pending(s1, id) && a != Some((ActKind::Send, id as int))
            &&& a == Some((ActKind::Send, id as int)) ==> !send_pending(s1, id)
        }),
{
    lemma_step_frame(s, target, input, id);
}

proof fn lemma_send_count(s: Seq<Slot>, target: ChainId, inputs: Seq<Input>, id: usize)
    ensures
        count_actions(s, target, inputs, ActKind::Send, id) <= if send_pending(s, id) {
            1nat
        } else {
            0nat
        },
    decreases inputs.len(),
{
    if inputs.len() > 0 {
        lemma_step_send(s, target, inputs[0], id);
        let (s1, a) = step(s, target, inputs[0]);
        lemma_send_count(s1, target, inputs.drop_first(), id);
    }
}

/// Funds are never sent twice: from any state, any run of inputs hands out
/// at most one `Send` for an event, and none once one has been handed out.
pub proof fn lemma_send_once(s: Seq<Slot>, target: ChainId, inputs: Seq<Input>, id: usize)
    ensures
        count_actions(s, target, inputs, ActKind::Send, id) <= 1,
        !send_pending(s, id) ==> count_actions(s, target, inputs, ActKind::Send, id) == 0,
{
    lemma_send_count(s, target, inputs, id);
}

/// A `ServiceUnavailable` estimate defers the event, it does not drop it: it
/// stays at `Quoting`, nothing is reported, and the next cycle makes it
/// eligible for a new estimate.
pub proof fn lemma_unavailable_estimate_retried(s: Seq<Slot>, target: ChainId, id: usize)
    requires
        id < s.len(),
        s[id as int].stage == Stage::Quoting,
        s[id as int].in_flight,
    ensures
        ({
            let (s1, a) = step(
                s,
                target,
                Input::Estimated(id, Some(ExchangeError::ServiceUnavailable)),
            );
            let (s2, b) = step(s1, target, Input::Cycle);
            &&& a is None
            &&& s1[id as int].stage == Stage::Quoting
            &&& s1[id as int].deferred
            &&& !eligible(s1[id as int])
            &&& b is None
            &&& eligible(s2[id as int])
            &&& s2[id as int].event == s[id as int].event
        }),
{
}

proof fn lemma_finished_stays(s: Seq<Slot>, target: ChainId, input: Input, id: usize)
    requires
        id < s.len(),
        finished(s[id as int].stage),
    ensures
        ({
            let (s1, a) = step(s, target, input);
            &&& id < s1.len()
            &&& s1[id as int].stage == s[id as int].stage
            &&& !(a matches Some((_, j)) && j == id as int)
        }),
{
    lemma_step_frame(s, target, input, id);
}

proof fn lemma_finished_silent(s: Seq<Slot>, target: ChainId, inputs: Seq<Input>, id: usize)
    requires
        id < s.len(),
        finished(s[id as int].stage),
    ensures
        count_for(s, target, inputs, id) == 0,
    decreases inputs.len(),
{
    if inputs.len() > 0 {
        lemma_finished_stays(s, target, inputs[0], id);
        let (s1, a) = step(s, target, inputs[0]);
        lemma_finished_silent(s1, target, inputs.drop_first(), id);
    }
}

/// A malformed estimate drops its event with one report and touches no
/// other event: every other event keeps its state, so the loop goes on with
/// the next one.
pub proof fn lemma_malformed_estimate_isolated(s: Seq<Slot>, target: ChainId, id: usize)
    requires
        id < s.len(),
        s[id as int].stage == Stage::Quoting,
        s[id as int].in_flight,
    ensures
        ({
            let (s1, a) = step(
                s,
                target,
                Input::Estimated(id, Some(ExchangeError::MalformedResponse)),
            );
            &&& a == Some((ActKind::Report, id as int))
            &&& s1.len() == s.len()
            &&& s1[id as int].stage == Stage::Dropped
            &&& !eligible(s1[id as int])
            &&& forall|j: int| 0 <= j < s.len() && j != id ==> #[trigger] s1[j] == s[j]
        }),
{
}

/// An `InvalidPair` estimate drops the event exactly once: one report now,
/// and no further action of any kind for it, whatever inputs follow.
pub proof fn lemma_invalid_pair_dropped_once(
    s: Seq<Slot>,
    target: ChainId,
    id: usize,
    later: Seq<Input>,
)
    requires
        id < s.len(),
        s[id as int].stage == Stage::Quoting,
        s[id as int].in_flight,
    ensures
        ({
            let (s1, a) = step(s, target, Input::Estimated(id, Some(ExchangeError::InvalidPair)));
            &&& a == Some((ActKind::Report, id as int))
            &&& s1[id as int].stage == Stage::Dropped
            &&& count_for(s1, target, later, id) == 0
        }),
{
    let (s1, a) = step(s, target, Input::Estimated(id, Some(ExchangeError::InvalidPair)));
    lemma_finished_silent(s1, target, later, id);
}

} // verus!
