//! The scan engine's decisions, apart from the workers that carry them out.
//!
//! A `Scan` holds the ports that wait in the work queue, the attempts in
//! flight and the outcomes reported so far. Whoever runs the workers asks
//! `dispatch` for the next job while a worker is free, hands each finished
//! job's outcome to `report`, and calls `finish` once `is_complete` holds:
//! every port has then been dispatched once and reported once.
use crate::outcome::{
    aggregate, lemma_no_duplication, lemma_partition, lemma_partition_counts, non_open_of, open_of,
    ScanOutcome, ScanResult,
};
use crate::work_queue::{new_queue, pop_port, push_port, queued};
use crossbeam::queue::SegQueue;
use vstd::prelude::*;

verus! {

/// Where one input port stands.
#[derive(PartialEq, Eq, Structural, Clone, Copy, Debug)]
pub enum Slot {
    /// Still in the work queue.
    Waiting,
    /// Handed to a worker; no outcome yet.
    Running,
    /// Its single attempt has been reported.
    Done(ScanOutcome),
}

/// One connection attempt to make: the port, and the slot that its outcome
/// is reported under.
#[derive(PartialEq, Eq, Structural, Clone, Copy, Debug)]
pub struct Job {
    pub slot: usize,
    pub port: u16,
}

#[derive(PartialEq, Eq, Structural, Clone, Copy, Debug)]
pub enum ScanError {
    /// A pool of zero workers cannot run any attempt.
    ZeroConcurrency,
    /// The slot named no attempt in flight.
    UnknownJob,
}

/// How many slots are `Running`.
pub open spec fn running_count(slots: Seq<Slot>) -> nat
    decreases slots.len(),
{
    if slots.len() == 0 {
        0
    } else {
        running_count(slots.drop_last()) + (if slots.last() == Slot::Running { 1nat } else { 0nat })
    }
}

/// The outcome recorded in a slot (`NonOpen` where none is).
pub open spec fn outcome_in(s: Slot) -> ScanOutcome {
    match s {
        Slot::Done(o) => o,
        _ => ScanOutcome::NonOpen,
    }
}

/// The outcomes recorded in the slots, slot by slot.
pub open spec fn outcomes_in(slots: Seq<Slot>) -> Seq<ScanOutcome> {
    slots.map_values(|s: Slot| outcome_in(s))
}

proof fn lemma_running_count_update(slots: Seq<Slot>, i: int, v: Slot)
    requires
        0 <= i < slots.len(),
    ensures
        running_count(slots.update(i, v)) + (if slots[i] == Slot::Running { 1int } else { 0int })
            == running_count(slots) + (if v == Slot::Running { 1int } else { 0int }),
    decreases slots.len(),
{
    let u = slots.update(i, v);
    if i == slots.len() - 1 {
        assert(u.drop_last() =~= slots.drop_last());
    } else {
        lemma_running_count_update(slots.drop_last(), i, v);
        assert(u.drop_last() =~= slots.drop_last().update(i, v));
    }
}

proof fn lemma_none_running(slots: Seq<Slot>)
    requires
        running_count(slots) == 0,
    ensures
        forall|i: int| 0 <= i < slots.len() ==> slots[i] != Slot::Running,
    decreases slots.len(),
{
    if slots.len() > 0 {
        lemma_none_running(slots.drop_last());
        assert forall|i: int| 0 <= i < slots.len() implies slots[i] != Slot::Running by {
            if i < slots.len() - 1 {
                assert(slots[i] == slots.drop_last()[i]);
            }
        }
    }
}

proof fn lemma_all_waiting(n: nat)
    ensures
        running_count(Seq::new(n, |i: int| Slot::Waiting)) == 0,
    decreases n,
{
    if n > 0 {
        lemma_all_waiting((n - 1) as nat);
        assert(Seq::new(n, |i: int| Slot::Waiting).drop_last() =~= Seq::new(
            (n - 1) as nat,
            |i: int| Slot::Waiting,
        ));
    }
}

/// A scan of one host in progress.
pub struct Scan {
    ports: Vec<u16>,
    limit: usize,
    queue: SegQueue<u16>,
    dispatched: usize,
    slots: Vec<Slot>,
    in_flight: usize,
}

impl Scan {
    /// The input ports, in the order they were given.
    pub closed spec fn ports(&self) -> Seq<u16> {
        self.ports@
    }

    /// The most attempts that may be in flight at once.
    pub closed spec fn limit(&self) -> nat {
        self.limit as nat
    }

    /// How many ports have been handed to workers: always a prefix of the
    /// input.
    pub closed spec fn dispatched(&self) -> nat {
        self.dispatched as nat
    }

    /// Where each input port stands.
    pub closed spec fn slots(&self) -> Seq<Slot> {
        self.slots@
    }

    /// How many attempts are in flight.
    pub closed spec fn in_flight(&self) -> nat {
        self.in_flight as nat
    }

    /// The ports still in the work queue, front first.
    pub closed spec fn pending(&self) -> Seq<u16> {
        queued(self.queue)
    }

    /// Every port has been dispatched and every attempt reported.
    pub open spec fn complete(&self) -> bool {
        self.dispatched() == self.ports().len() && self.in_flight() == 0
    }

    pub closed spec fn wf(&self) -> bool {
        &&& self.limit >= 1
        &&& self.slots@.len() == self.ports@.len()
        &&& self.dispatched <= self.ports@.len()
        &&& queued(self.queue) == self.ports@.subrange(self.dispatched as int, self.ports@.len() as int)
        &&& forall|i: int|
            0 <= i < self.slots@.len() ==> (#[trigger] self.slots@[i] == Slot::Waiting <==> i
                >= self.dispatched)
        &&& running_count(self.slots@) == self.in_flight
        &&& self.in_flight <= self.limit
    }

    /// Starts a scan of `ports` with at most `limit` attempts in flight at
    /// once. Every port waits in the work queue; none is dispatched yet.
    pub fn new(ports: Vec<u16>, limit: usize) -> (r: Result<Scan, ScanError>)
        ensures
            limit == 0 <==> r is Err,
            r is Err ==> r == Err::<Scan, ScanError>(ScanError::ZeroConcurrency),
            r matches Ok(s) ==> {
                &&& s.wf()
                &&& s.ports() == ports@
                &&& s.limit() == limit
                &&& s.dispatched() == 0
                &&& s.in_flight() == 0
                &&& s.pending() == ports@
                &&& s.slots() == Seq::new(ports@.len(), |i: int| Slot::Waiting)
            },
    {
        if limit == 0 {
            return Err(ScanError::ZeroConcurrency);
        }
        let mut queue = new_queue();
        let mut slots: Vec<Slot> = Vec::new();
        let mut i: usize = 0;
        while i < ports.len()
            invariant
                i <= ports.len(),
                queued(queue) == ports@.take(i as int),
                slots@ == Seq::new(i as nat, |k: int| Slot::Waiting),
            decreases ports.len() - i,
        {
            push_port(&mut queue, ports[i]);
            slots.push(Slot::Waiting);
            assert(ports@.take(i + 1) =~= ports@.take(i as int).push(ports@[i as int]));
            assert(slots@ =~= Seq::new((i + 1) as nat, |k: int| Slot::Waiting));
            i = i + 1;
        }
        assert(ports@.take(i as int) =~= ports@);
        assert(ports@.subrange(0, ports@.len() as int) =~= ports@);
        proof {
            lemma_all_waiting(ports@.len());
        }
        Ok(Scan { ports, limit, queue, dispatched: 0, slots, in_flight: 0 })
    }

    /// Hands out the next port in the queue, if a worker is free (fewer than
    /// `limit` attempts in flight) and a port is still waiting.
    pub fn dispatch(&mut self) -> (r: Option<Job>)
        requires
            old(self).wf(),
        ensures
            final(self).wf(),
            final(self).ports() == old(self).ports(),
            final(self).limit() == old(self).limit(),
            r is Some <==> old(self).in_flight() < old(self).limit() && old(self).dispatched()
                < old(self).ports().len(),
            r matches Some(job) ==> {
                &&& job.slot == old(self).dispatched()
                &&& job.port == old(self).ports()[job.slot as int]
                &&& final(self).dispatched() == old(self).dispatched() + 1
                &&& final(self).in_flight() == old(self).in_flight() + 1
                &&& final(self).slots() == old(self).slots().update(job.slot as int, Slot::Running)
                &&& final(self).pending() == old(self).pending().drop_first()
            },
            r is None ==> {
                &&& final(self).dispatched() == old(self).dispatched()
                &&& final(self).in_flight() == old(self).in_flight()
                &&& final(self).slots() == old(self).slots()
                &&& final(self).pending() == old(self).pending()
            },
    {
        if self.in_flight >= self.limit || self.dispatched >= self.ports.len() {
            return None;
        }
        let ghost before = self.slots@;
        let popped = pop_port(&mut self.queue);
        let port = match popped {
            Some(p) => p,
            None => {
                return None;
            },
        };
        let slot = self.dispatched;
        assert(port == self.ports@[slot as int]);
        self.slots.set(slot, Slot::Running);
        proof {
            lemma_running_count_update(before, slot as int, Slot::Running);
        }
        self.dispatched = self.dispatched + 1;
        self.in_flight = self.in_flight + 1;
        assert(queued(self.queue) =~= self.ports@.subrange(
            self.dispatched as int,
            self.ports@.len() as int,
        ));
        Some(Job { slot, port })
    }

    /// Records the outcome of the attempt dispatched under `slot`. A slot
    /// that is not in flight (never dispatched, or already reported) is
    /// refused and changes nothing.
    pub fn report(&mut self, slot: usize, outcome: ScanOutcome) -> (r: Result<(), ScanError>)
        requires
            old(self).wf(),
        ensures
            final(self).wf(),
            final(self).ports() == old(self).ports(),
            final(self).limit() == old(self).limit(),
            final(self).dispatched() == old(self).dispatched(),
            final(self).pending() == old(self).pending(),
            r is Ok <==> slot < old(self).slots().len() && old(self).slots()[slot as int]
                == Slot::Running,
            r is Ok ==> {
                &&& final(self).in_flight() == old(self).in_flight() - 1
                &&& final(self).slots() == old(self).slots().update(slot as int, Slot::Done(outcome))
            },
            r is Err ==> {
                &&& r == Err::<(), ScanError>(ScanError::UnknownJob)
                &&& final(self).in_flight() == old(self).in_flight()
                &&& final(self).slots() == old(self).slots()
            },
    {
        if slot >= self.slots.len() || self.slots[slot] != Slot::Running {
            return Err(ScanError::UnknownJob);
        }
        let ghost before = self.slots@;
        proof {
            lemma_running_count_update(before, slot as int, Slot::Done(outcome));
        }
        self.slots.set(slot, Slot::Done(outcome));
        self.in_flight = self.in_flight - 1;
        Ok(())
    }

    /// Whether every port has been dispatched and reported.
    pub fn is_complete(&self) -> (r: bool)
        requires
            self.wf(),
        ensures
            r == self.complete(),
    {
        self.dispatched == self.ports.len() && self.in_flight == 0
    }

    /// How many attempts are in flight.
    pub fn in_flight_count(&self) -> (r: usize)
        requires
            self.wf(),
        ensures
            r == self.in_flight(),
    {
        self.in_flight
    }

    /// Ends a completed scan: the input ports split by their reported
    /// outcomes, each list in input order.
    pub fn finish(self) -> (r: ScanResult)
        requires
            self.wf(),
            self.complete(),
        ensures
            r.open_ports@ == open_of(self.ports(), outcomes_in(self.slots())),
            r.non_open_ports@ == non_open_of(self.ports(), outcomes_in(self.slots())),
    {
        let mut outcomes: Vec<ScanOutcome> = Vec::new();
        let mut i: usize = 0;
        while i < self.slots.len()
            invariant
                i <= self.slots.len(),
                outcomes@ == outcomes_in(self.slots@).take(i as int),
            decreases self.slots.len() - i,
        {
            let o = match self.slots[i] {
                Slot::Done(o) => o,
                _ => ScanOutcome::NonOpen,
            };
            outcomes.push(o);
            assert(outcomes@ =~= outcomes_in(self.slots@).take(i + 1));
            i = i + 1;
        }
        assert(outcomes@ =~= outcomes_in(self.slots@));
        aggregate(&self.ports, &outcomes)
    }
}

/// Never are more attempts in flight than the scan's limit.
pub proof fn lemma_in_flight_within_limit(s: &Scan)
    requires
        s.wf(),
    ensures
        s.in_flight() <= s.limit(),
        s.limit() >= 1,
{
}

/// A completed scan has dispatched every port exactly once and holds exactly
/// one reported outcome for each.
pub proof fn lemma_complete_all_reported(s: &Scan)
    requires
        s.wf(),
        s.complete(),
    ensures
        s.pending().len() == 0,
        forall|i: int| 0 <= i < s.slots().len() ==> (#[trigger] s.slots()[i]) == Slot::Done(
            outcomes_in(s.slots())[i],
        ),
{
    lemma_none_running(s.slots@);
    assert forall|i: int| 0 <= i < s.slots().len() implies (#[trigger] s.slots()[i]) == Slot::Done(
        outcomes_in(s.slots())[i],
    ) by {
        assert(s.slots@[i] != Slot::Waiting);
        assert(s.slots@[i] != Slot::Running);
    }
}

/// A scan of no ports is complete from the start, and finishes with both
/// lists empty.
pub proof fn lemma_empty_input(s: &Scan)
    requires
        s.wf(),
        s.ports().len() == 0,
    ensures
        s.complete(),
        open_of(s.ports(), outcomes_in(s.slots())).len() == 0,
        non_open_of(s.ports(), outcomes_in(s.slots())).len() == 0,
{
    assert(s.slots@.len() == 0);
}

/// A scan that is not complete can always move on: a port can be dispatched,
/// or an attempt in flight awaits its report.
pub proof fn lemma_progress(s: &Scan)
    requires
        s.wf(),
        !s.complete(),
    ensures
        s.in_flight() > 0 || (s.in_flight() < s.limit() && s.dispatched() < s.ports().len()),
{
}

/// What a completed scan finishes with partitions its input: each input port
/// is listed open or non-open, as often as it was given, and with distinct
/// input ports none is listed twice or in both lists.
pub proof fn lemma_finished_scan_partitions(s: &Scan)
    requires
        s.wf(),
        s.complete(),
    ensures
        ({
            let o = open_of(s.ports(), outcomes_in(s.slots()));
            let n = non_open_of(s.ports(), outcomes_in(s.slots()));
            &&& (o + n).to_multiset() == s.ports().to_multiset()
            &&& forall|p: u16| #[trigger] s.ports().contains(p) <==> o.contains(p) || n.contains(p)
            &&& s.ports().no_duplicates() ==> (o + n).no_duplicates()
        }),
{
    let outs = outcomes_in(s.slots());
    lemma_partition_counts(s.ports(), outs);
    lemma_partition(s.ports(), outs);
    if s.ports().no_duplicates() {
        lemma_no_duplication(s.ports(), outs);
    }
}

} // verus!
