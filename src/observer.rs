use vstd::prelude::*;
use crate::chain::{chain_index, ChainId, CHAIN_COUNT};

verus! {

/// A funds-received signal from the ledger source. `position` is the
/// transfer's ordinal on its chain: each transfer has its own, and the
/// source numbers a chain's transfers upward in the order it observes them,
/// so a repeated signal carries the same ordinal. `amount` is in atomic units
/// (10^-12 of a coin), `observed_at` in seconds.
#[derive(Clone, Copy, Debug, PartialEq, Eq, Structural)]
pub struct Signal {
    pub chain: ChainId,
    pub position: u64,
    pub amount: u64,
    pub observed_at: u64,
}

/// Incoming funds on a watched chain, reported once; `position` is the
/// transfer's ordinal, as in `Signal`.
#[derive(Clone, Copy, Debug, PartialEq, Eq, Structural)]
pub struct IncomingEvent {
    pub chain: ChainId,
    pub position: u64,
    pub amount: u64,
    pub observed_at: u64,
}

/// The event that reports a signal.
pub open spec fn event_of(s: Signal) -> IncomingEvent {
    IncomingEvent {
        chain: s.chain,
        position: s.position,
        amount: s.amount,
        observed_at: s.observed_at,
    }
}

/// A signal at `p` lies beyond the high-water mark `m`.
pub open spec fn fresh(m: Option<u64>, p: u64) -> bool {
    match m {
        None => true,
        Some(x) => p > x,
    }
}

/// What a poll makes of a batch of signals, from the marks before it: the
/// marks after it and the events it reports, in signal order. A signal is
/// reported when its chain is watched and its ordinal lies beyond the mark,
/// which then moves up to it; a repeat of a reported transfer is not.
pub open spec fn observe(marks: Seq<Option<u64>>, watched: Seq<ChainId>, signals: Seq<Signal>) -> (
    Seq<Option<u64>>,
    Seq<IncomingEvent>,
)
    decreases signals.len(),
{
    if signals.len() == 0 {
        (marks, Seq::empty())
    } else {
        let (m, ev) = observe(marks, watched, signals.drop_last());
        let s = signals.last();
        let k = chain_index(s.chain);
        if watched.contains(s.chain) && fresh(m[k], s.position) {
            (m.update(k, Some(s.position)), ev.push(event_of(s)))
        } else {
            (m, ev)
        }
    }
}

/// Polls the ledger signal source and reports each incoming transfer once,
/// keeping a high-water mark per chain.
pub struct Observer {
    marks: Vec<Option<u64>>,
}

impl Observer {
    /// The high-water mark of each chain, by `chain_index`.
    pub closed spec fn marks(&self) -> Seq<Option<u64>> {
        self.marks@
    }

    pub open spec fn wf(&self) -> bool {
        self.marks().len() == CHAIN_COUNT
    }

    /// An observer that has seen nothing.
    pub fn new() -> (r: Observer)
        ensures
            r.wf(),
            forall|k: int| 0 <= k < CHAIN_COUNT ==> r.marks()[k] is None,
    {
        Observer { marks: vec![None, None, None, None, None, None] }
    }

    /// The high-water mark of a chain.
    pub fn mark_of(&self, c: ChainId) -> (r: Option<u64>)
        requires
            self.wf(),
        ensures
            r == self.marks()[chain_index(c)],
    {
        self.marks[c.index()]
    }

    /// Reports the signals of `watched` chains whose ordinal lies beyond
    /// their chain's mark, each moving the mark up to it.
    pub fn poll(&mut self, watched: &Vec<ChainId>, signals: &Vec<Signal>) -> (r: Vec<
        IncomingEvent,
    >)
        requires
            old(self).wf(),
        ensures
            final(self).wf(),
            (final(self).marks(), r@) == observe(old(self).marks(), watched@, signals@),
    {
        let mut out: Vec<IncomingEvent> = Vec::new();
        let mut i: usize = 0;
        while i < signals.len()
            invariant
                i <= signals@.len(),
                self.wf(),
                (self.marks(), out@) == observe(
                    old(self).marks(),
                    watched@,
                    signals@.subrange(0, i as int),
                ),
            decreases signals@.len() - i,
        {
            let s = signals[i];
            let k = s.chain.index();
            let watching = contains_chain(watched, s.chain);
            let is_fresh = match self.marks[k] {
                None => true,
                Some(x) => s.position > x,
            };
            proof {
                assert(signals@.subrange(0, i + 1).drop_last() =~= signals@.subrange(0, i as int));
                assert(signals@.subrange(0, i + 1).last() == s);
            }
            if watching && is_fresh {
                self.marks.set(k, Some(s.position));
                out.push(IncomingEvent {
                    chain: s.chain,
                    position: s.position,
                    amount: s.amount,
                    observed_at: s.observed_at,
                });
            }
            i = i + 1;
        }
        assert(signals@.subrange(0, signals@.len() as int) =~= signals@);
        out
    }
}

/// Whether `c` occurs in `v`.
pub fn contains_chain(v: &Vec<ChainId>, c: ChainId) -> (r: bool)
    ensures
        r == v@.contains(c),
{
    let mut i: usize = 0;
    while i < v.len()
        invariant
            i <= v@.len(),
            forall|j: int| 0 <= j < i ==> v@[j] != c,
        decreases v@.len() - i,
    {
        if v[i] == c {
            assert(v@[i as int] == c);
            return true;
        }
        i = i + 1;
    }
    false
}

/// Mark `a` is at or below mark `b`.
pub open spec fn mark_le(a: Option<u64>, b: Option<u64>) -> bool {
    match a {
        None => true,
        Some(x) => b matches Some(y) && x <= y,
    }
}

/// A poll only raises marks, every event it reports lies at or below the
/// new mark of its chain and beyond the old one, and within a chain its
/// events come in strictly increasing ordinal order.
proof fn lemma_observe_marks(marks: Seq<Option<u64>>, watched: Seq<ChainId>, signals: Seq<Signal>)
    requires
        marks.len() == CHAIN_COUNT,
    ensures
        ({
            let (m, ev) = observe(marks, watched, signals);
            &&& m.len() == CHAIN_COUNT
            &&& forall|k: int| 0 <= k < CHAIN_COUNT ==> mark_le(#[trigger] marks[k], m[k])
            &&& forall|j: int|
                0 <= j < ev.len() ==> mark_le(
                    Some((#[trigger] ev[j]).position),
                    m[chain_index(ev[j].chain)],
                ) && fresh(marks[chain_index(ev[j].chain)], ev[j].position)
            &&& forall|i: int, j: int|
                0 <= i < j < ev.len() && (#[trigger] ev[i]).chain == (#[trigger] ev[j]).chain
                    ==> ev[i].position < ev[j].position
        }),
    decreases signals.len(),
{
    if signals.len() > 0 {
        lemma_observe_marks(marks, watched, signals.drop_last());
        let (m0, ev0) = observe(marks, watched, signals.drop_last());
        let s = signals.last();
        let k = chain_index(s.chain);
        let (m, ev) = observe(marks, watched, signals);
        if watched.contains(s.chain) && fresh(m0[k], s.position) {
            assert forall|q: int| 0 <= q < CHAIN_COUNT implies mark_le(#[trigger] marks[q], m[q]) by {
                if q == k {
                    assert(mark_le(marks[q], m0[q]));
                }
            }
            assert forall|j: int| 0 <= j < ev.len() implies mark_le(
                Some((#[trigger] ev[j]).position),
                m[chain_index(ev[j].chain)],
            ) && fresh(marks[chain_index(ev[j].chain)], ev[j].position) by {
                if j < ev0.len() {
                    assert(ev[j] == ev0[j]);
                } else {
                    assert(ev[j] == event_of(s));
                    assert(mark_le(marks[k], m0[k]));
                }
            }
            assert forall|i: int, j: int|
                0 <= i < j < ev.len() && (#[trigger] ev[i]).chain == (#[trigger] ev[j]).chain
                    implies ev[i].position < ev[j].position by {
                assert(ev[i] == ev0[i]);
                if j < ev0.len() {
                    assert(ev[j] == ev0[j]);
                } else {
                    assert(ev[j] == event_of(s));
                    assert(mark_le(Some(ev0[i].position), m0[chain_index(ev0[i].chain)]));
                }
            }
        }
    }
}

/// Within a chain, the events of a poll come in observation order: their
/// ordinals strictly increase, so no transfer is reported twice in one poll.
pub proof fn lemma_chain_order(marks: Seq<Option<u64>>, watched: Seq<ChainId>, signals: Seq<Signal>)
    requires
        marks.len() == CHAIN_COUNT,
    ensures
        ({
            let ev = observe(marks, watched, signals).1;
            forall|i: int, j: int|
                0 <= i < j < ev.len() && (#[trigger] ev[i]).chain == (#[trigger] ev[j]).chain
                    ==> ev[i].position < ev[j].position
        }),
{
    lemma_observe_marks(marks, watched, signals);
}

/// Observation is idempotent: no funds signal that one poll reported is
/// reported again by the next poll, whatever that poll is handed.
pub proof fn lemma_no_rereport(
    marks: Seq<Option<u64>>,
    watched: Seq<ChainId>,
    first: Seq<Signal>,
    second: Seq<Signal>,
)
    requires
        marks.len() == CHAIN_COUNT,
    ensures
        ({
            let (m1, ev1) = observe(marks, watched, first);
            let (m2, ev2) = observe(m1, watched, second);
            forall|i: int, j: int|
                0 <= i < ev1.len() && 0 <= j < ev2.len() ==> !(#[trigger] ev1[i].chain
                    == #[trigger] ev2[j].chain && ev1[i].position == ev2[j].position)
        }),
{
    lemma_observe_marks(marks, watched, first);
    let (m1, ev1) = observe(marks, watched, first);
    lemma_observe_marks(m1, watched, second);
}

} // verus!
