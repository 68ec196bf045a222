//! Around the requests: the in-flight cap, the accept loop's patience, and the
//! metering of NAR bodies.
use vstd::prelude::*;

verus! {

/// How many slots are out, of how many.
pub struct SlotsView {
    pub used: nat,
    pub max: nat,
}

impl SlotsView {
    /// Whether a slot is free.
    pub open spec fn has_room(self) -> bool {
        self.used < self.max
    }
}

/// A cap below 1 is taken as 1.
pub open spec fn cap(max_inflight: nat) -> nat {
    if max_inflight < 1 {
        1
    } else {
        max_inflight
    }
}

/// All slots free.
pub open spec fn all_free(max_inflight: nat) -> SlotsView {
    SlotsView { used: 0, max: cap(max_inflight) }
}

/// Slots after a request asked for one: taken if there is room, as they were if
/// not.
pub open spec fn after_acquire(slots: SlotsView) -> SlotsView {
    if slots.has_room() {
        SlotsView { used: slots.used + 1, ..slots }
    } else {
        slots
    }
}

/// Slots after one was given back.
pub open spec fn after_release(slots: SlotsView) -> SlotsView {
    SlotsView { used: (slots.used - 1) as nat, ..slots }
}

/// The in-flight cap: a slot is held for the whole of a request, transfer
/// included.
#[derive(Debug)]
pub struct Slots {
    used: usize,
    max: usize,
}

impl View for Slots {
    type V = SlotsView;

    closed spec fn view(&self) -> SlotsView {
        SlotsView { used: self.used as nat, max: self.max as nat }
    }
}

impl Slots {
    #[verifier::type_invariant]
    spec fn within_cap(self) -> bool {
        self.used <= self.max && 1 <= self.max
    }

    /// All slots free. A cap below 1 is taken as 1.
    pub fn new(max: usize) -> (s: Slots)
        ensures
            s@ == all_free(max as nat),
    {
        Slots {
            used: 0,
            max: if max < 1 {
                1
            } else {
                max
            },
        }
    }

    /// How many slots are out, never more than there are.
    pub fn in_use(&self) -> (n: usize)
        ensures
            n == self@.used,
            self@.used <= self@.max,
    {
        proof {
            use_type_invariant(self);
        }
        self.used
    }

    /// Takes a slot if one is free; otherwise the caller has to wait until one
    /// is released.
    pub fn acquire(&mut self) -> (granted: bool)
        ensures
            granted == old(self)@.has_room(),
            final(self)@ == after_acquire(old(self)@),
            !granted ==> old(self)@.used == old(self)@.max,
            final(self)@.used <= final(self)@.max,
    {
        proof {
            use_type_invariant(&*self);
        }
        if self.used < self.max {
            self.used = self.used + 1;
            true
        } else {
            false
        }
    }

    /// Gives a slot back.
    pub fn release(&mut self)
        requires
            old(self)@.used > 0,
        ensures
            final(self)@ == after_release(old(self)@),
            final(self)@.has_room(),
    {
        proof {
            use_type_invariant(&*self);
        }
        self.used = self.used - 1;
    }
}

/// One thing that happens to the slots.
pub enum SlotStep {
    /// A request asks for a slot.
    Acquire,
    /// A request ends and gives its slot back.
    Release,
}

/// The slots after a run of steps.
pub open spec fn slots_after(max_inflight: nat, steps: Seq<SlotStep>) -> SlotsView
    decreases steps.len(),
{
    if steps.len() == 0 {
        all_free(max_inflight)
    } else {
        let before = slots_after(max_inflight, steps.drop_last());
        match steps.last() {
            SlotStep::Acquire => after_acquire(before),
            SlotStep::Release => after_release(before),
        }
    }
}

/// Whether only slots that are out are given back.
pub open spec fn slots_run(max_inflight: nat, steps: Seq<SlotStep>) -> bool {
    forall|i: int|
        #![trigger steps[i]]
        0 <= i < steps.len() && steps[i] is Release ==> slots_after(
            max_inflight,
            steps.take(i),
        ).used > 0
}

/// How many requests were granted a slot in a run of steps.
pub open spec fn grants(max_inflight: nat, steps: Seq<SlotStep>) -> nat
    decreases steps.len(),
{
    if steps.len() == 0 {
        0
    } else {
        let before = steps.drop_last();
        grants(max_inflight, before) + (if steps.last() is Acquire && slots_after(
            max_inflight,
            before,
        ).has_room() {
            1nat
        } else {
            0
        })
    }
}

/// How many slots were given back in a run of steps.
pub open spec fn releases(steps: Seq<SlotStep>) -> nat
    decreases steps.len(),
{
    if steps.len() == 0 {
        0
    } else {
        releases(steps.drop_last()) + (if steps.last() is Release {
            1nat
        } else {
            0
        })
    }
}

/// The in-flight cap holds at every moment: whatever run of acquires and
/// releases led there, the slots out are those granted and not yet given back,
/// and they are no more than the cap, where a cap below 1 is taken as 1. The
/// next request has to wait exactly if the cap is reached.
pub proof fn law_in_flight_cap(max_inflight: nat, steps: Seq<SlotStep>)
    requires
        slots_run(max_inflight, steps),
    ensures
        ({
            let slots = slots_after(max_inflight, steps);
            &&& slots.max == cap(max_inflight)
            &&& slots.used <= cap(max_inflight)
            &&& slots.used == grants(max_inflight, steps) - releases(steps)
            &&& !slots.has_room() <==> slots.used == cap(max_inflight)
        }),
    decreases steps.len(),
{
    if steps.len() > 0 {
        let before = steps.drop_last();
        let last = steps.len() - 1;
        assert(steps.take(last) == before);
        assert(steps[last] == steps.last());
        assert forall|i: int|
            #![trigger before[i]]
            0 <= i < before.len() && before[i] is Release implies slots_after(
            max_inflight,
            before.take(i),
        ).used > 0 by {
            assert(before[i] == steps[i]);
            assert(before.take(i) == steps.take(i));
        }
        law_in_flight_cap(max_inflight, before);
    }
}

/// A request that has to wait is granted a slot by the first release.
pub proof fn law_release_admits_the_next(max_inflight: nat, steps: Seq<SlotStep>)
    requires
        slots_run(max_inflight, steps),
        !slots_after(max_inflight, steps).has_room(),
    ensures
        slots_after(max_inflight, steps.push(SlotStep::Acquire)) == slots_after(
            max_inflight,
            steps,
        ),
        slots_after(max_inflight, steps.push(SlotStep::Release)).has_room(),
        slots_run(max_inflight, steps.push(SlotStep::Release)),
{
    law_in_flight_cap(max_inflight, steps);
    assert(steps.push(SlotStep::Acquire).drop_last() == steps);
    let released = steps.push(SlotStep::Release);
    assert(released.drop_last() == steps);
    assert forall|i: int|
        #![trigger released[i]]
        0 <= i < released.len() && released[i] is Release implies slots_after(
        max_inflight,
        released.take(i),
    ).used > 0 by {
        if i < steps.len() {
            assert(released[i] == steps[i]);
            assert(released.take(i) == steps.take(i));
        } else {
            assert(released.take(i) == steps);
        }
    }
}

/// One thing that happens to the requests.
pub enum Arrival {
    /// A request comes in.
    Arrived,
    /// A request ends, its transfer over.
    Ended,
}

/// The requests under the cap: a request that finds no slot free waits, and one
/// that ends hands its slot on to one that waits.
pub struct Admission {
    pub slots: SlotsView,
    pub waiting: nat,
    pub ended: nat,
}

/// The requests after a run of arrivals and ends.
pub open spec fn admitted(max_inflight: nat, events: Seq<Arrival>) -> Admission
    decreases events.len(),
{
    if events.len() == 0 {
        Admission { slots: all_free(max_inflight), waiting: 0, ended: 0 }
    } else {
        let before = admitted(max_inflight, events.drop_last());
        match events.last() {
            Arrival::Arrived => if before.slots.has_room() {
                Admission { slots: after_acquire(before.slots), ..before }
            } else {
                Admission { waiting: before.waiting + 1, ..before }
            },
            Arrival::Ended => {
                let freed = after_release(before.slots);
                if before.waiting > 0 {
                    Admission {
                        slots: after_acquire(freed),
                        waiting: (before.waiting - 1) as nat,
                        ended: before.ended + 1,
                    }
                } else {
                    Admission { slots: freed, ended: before.ended + 1, ..before }
                }
            },
        }
    }
}

/// Whether only requests that hold a slot end.
pub open spec fn admission_run(max_inflight: nat, events: Seq<Arrival>) -> bool {
    forall|i: int|
        #![trigger events[i]]
        0 <= i < events.len() && events[i] is Ended ==> admitted(
            max_inflight,
            events.take(i),
        ).slots.used > 0
}

/// How many requests came in.
pub open spec fn arrivals(events: Seq<Arrival>) -> nat
    decreases events.len(),
{
    if events.len() == 0 {
        0
    } else {
        arrivals(events.drop_last()) + (if events.last() is Arrived {
            1nat
        } else {
            0
        })
    }
}

/// The cap is backpressure, not rejection: every request that came in is being
/// handled, waits, or has ended, and none waits while a slot is free. So once
/// nothing is being handled any more, every request has been handled to its end.
pub proof fn law_no_request_is_turned_away(max_inflight: nat, events: Seq<Arrival>)
    requires
        admission_run(max_inflight, events),
    ensures
        ({
            let now = admitted(max_inflight, events);
            &&& now.slots.max == cap(max_inflight)
            &&& now.slots.used <= cap(max_inflight)
            &&& arrivals(events) == now.slots.used + now.waiting + now.ended
            &&& now.waiting > 0 ==> now.slots.used == cap(max_inflight)
            &&& now.slots.used == 0 ==> now.ended == arrivals(events)
        }),
    decreases events.len(),
{
    if events.len() > 0 {
        let before = events.drop_last();
        let last = events.len() - 1;
        assert(events.take(last) == before);
        assert(events[last] == events.last());
        assert forall|i: int|
            #![trigger before[i]]
            0 <= i < before.len() && before[i] is Ended implies admitted(
            max_inflight,
            before.take(i),
        ).slots.used > 0 by {
            assert(before[i] == events[i]);
            assert(before.take(i) == events.take(i));
        }
        law_no_request_is_turned_away(max_inflight, before);
    }
}

/// After how many accept failures in a row the listener is given up.
pub const MAX_ACCEPT_FAILURES: u32 = 100;

/// What the accept loop does after a failure.
#[derive(Debug, Clone, Copy, PartialEq, Eq, Structural)]
pub enum AfterFailure {
    /// Wait a moment, then accept again.
    Retry,
    /// Stop serving, after this many failures in a row.
    GiveUp(u32),
}

/// The accept loop's patience.
#[derive(Debug)]
pub struct Patience {
    failures: u32,
}

impl Patience {
    /// Failures since the last accepted request.
    pub closed spec fn failures(self) -> nat {
        self.failures as nat
    }

    pub fn new() -> (p: Patience)
        ensures
            p.failures() == 0,
    {
        Patience { failures: 0 }
    }

    /// A request was accepted.
    pub fn accepted(&mut self)
        ensures
            final(self).failures() == 0,
    {
        self.failures = 0;
    }

    /// Accepting a request failed.
    pub fn failed(&mut self) -> (r: AfterFailure)
        requires
            old(self).failures() < u32::MAX,
        ensures
            final(self).failures() == old(self).failures() + 1,
            r == (if old(self).failures() + 1 >= MAX_ACCEPT_FAILURES {
                AfterFailure::GiveUp((old(self).failures() + 1) as u32)
            } else {
                AfterFailure::Retry
            }),
    {
        self.failures = self.failures + 1;
        if self.failures >= MAX_ACCEPT_FAILURES {
            AfterFailure::GiveUp(self.failures)
        } else {
            AfterFailure::Retry
        }
    }
}

/// Failures in a row at the end of a run of accepts: `true` for an accepted
/// request, `false` for a failure.
pub open spec fn failures_after(accepts: Seq<bool>) -> nat
    decreases accepts.len(),
{
    if accepts.len() == 0 || accepts.last() {
        0
    } else {
        failures_after(accepts.drop_last()) + 1
    }
}

/// [`Patience`] counts these: an accepted request starts over, and a failure
/// adds one.
pub proof fn law_patience_counts_failures_in_a_row(accepts: Seq<bool>)
    ensures
        failures_after(Seq::<bool>::empty()) == 0,
        failures_after(accepts.push(true)) == 0,
        failures_after(accepts.push(false)) == failures_after(accepts) + 1,
{
    assert(accepts.push(false).drop_last() == accepts);
}

/// Only an unbroken run of failures counts: there are `n` or more of them
/// exactly if the last `n` accepts all failed.
pub proof fn law_only_consecutive_failures_count(accepts: Seq<bool>, n: int)
    requires
        0 <= n,
    ensures
        failures_after(accepts) >= n <==> n <= accepts.len() && forall|i: int|
            accepts.len() - n <= i < accepts.len() ==> !#[trigger] accepts[i],
    decreases n,
{
    if n > 0 && accepts.len() > 0 {
        let rest = accepts.drop_last();
        law_only_consecutive_failures_count(rest, n - 1);
        if failures_after(accepts) >= n {
            assert forall|i: int|
                accepts.len() - n <= i < accepts.len() implies !#[trigger] accepts[i] by {
                if i < rest.len() {
                    assert(!rest[i]);
                }
            }
        }
        if n <= accepts.len() && forall|i: int|
            accepts.len() - n <= i < accepts.len() ==> !#[trigger] accepts[i] {
            assert(!accepts[accepts.len() - 1]);
            assert forall|i: int|
                rest.len() - (n - 1) <= i < rest.len() implies !#[trigger] rest[i] by {
                assert(!accepts[i]);
            }
        }
    }
}

/// What passed through so far.
pub struct MeterView {
    pub bytes: nat,
    pub eof: bool,
}

/// Counts NAR bytes on the way through; a transfer counts once its body is
/// complete, and an aborted one not at all.
#[derive(Debug)]
pub struct Meter {
    bytes: u64,
    eof: bool,
}

impl View for Meter {
    type V = MeterView;

    closed spec fn view(&self) -> MeterView {
        MeterView { bytes: self.bytes as nat, eof: self.eof }
    }
}

/// Whether a read that asked for some bytes and got `n` came to the end of the
/// body. One that asked for none says nothing.
pub open spec fn at_end(asked: nat, n: nat) -> bool {
    asked > 0 && n == 0
}

/// A meter after one more read.
pub open spec fn after_read(meter: MeterView, asked: nat, n: nat) -> MeterView {
    MeterView { bytes: meter.bytes + n, eof: meter.eof || at_end(asked, n) }
}

/// What a transfer that is over counts for: every byte that passed through, if
/// the body came to its end and took some time, and nothing otherwise.
pub open spec fn counted(meter: MeterView, elapsed_nanos: nat) -> Option<nat> {
    if meter.eof && elapsed_nanos > 0 && meter.bytes > 0 {
        Some(meter.bytes)
    } else {
        None
    }
}

impl Meter {
    pub fn new() -> (m: Meter)
        ensures
            m@ == (MeterView { bytes: 0, eof: false }),
    {
        Meter { bytes: 0, eof: false }
    }

    /// How many bytes passed through.
    pub fn bytes(&self) -> (n: u64)
        ensures
            n == self@.bytes,
    {
        self.bytes
    }

    /// A read into room for `asked` bytes took `n` off the body.
    pub fn read(&mut self, asked: usize, n: usize)
        requires
            old(self)@.bytes + n <= u64::MAX,
        ensures
            final(self)@ == after_read(old(self)@, asked as nat, n as nat),
    {
        self.bytes = self.bytes + n as u64;
        if asked > 0 && n == 0 {
            self.eof = true;
        }
    }

    /// The transfer is over after this time: the bytes to take into the
    /// throughput average, if it counts.
    pub fn finish(&self, elapsed_nanos: u128) -> (r: Option<u64>)
        ensures
            self@.bytes <= u64::MAX,
            r is Some <==> counted(self@, elapsed_nanos as nat) is Some,
            r matches Some(bytes) ==> counted(self@, elapsed_nanos as nat) == Some(bytes as nat),
    {
        if self.eof && elapsed_nanos > 0 && self.bytes > 0 {
            Some(self.bytes)
        } else {
            None
        }
    }
}

/// A meter after a run of reads: of each, how many bytes it asked for and how
/// many it got.
pub open spec fn after_reads(reads: Seq<(nat, nat)>) -> MeterView
    decreases reads.len(),
{
    if reads.len() == 0 {
        MeterView { bytes: 0, eof: false }
    } else {
        after_read(after_reads(reads.drop_last()), reads.last().0, reads.last().1)
    }
}

/// How many bytes a run of reads got.
pub open spec fn total(reads: Seq<(nat, nat)>) -> nat
    decreases reads.len(),
{
    if reads.len() == 0 {
        0
    } else {
        total(reads.drop_last()) + reads.last().1
    }
}

/// Whether a run of reads came to the end of the body: some read asked for at
/// least one byte and got none.
pub open spec fn completed(reads: Seq<(nat, nat)>) -> bool {
    exists|i: int| 0 <= i < reads.len() && at_end((#[trigger] reads[i]).0, reads[i].1)
}

/// A meter knows the bytes that passed through and whether the body came to its
/// end.
pub proof fn law_meter_follows_the_reads(reads: Seq<(nat, nat)>)
    ensures
        after_reads(reads).eof <==> completed(reads),
        after_reads(reads).bytes == total(reads),
    decreases reads.len(),
{
    if reads.len() > 0 {
        let rest = reads.drop_last();
        law_meter_follows_the_reads(rest);
        if completed(rest) {
            let i = choose|i: int|
                0 <= i < rest.len() && at_end((#[trigger] rest[i]).0, rest[i].1);
            assert(reads[i] == rest[i]);
        }
        assert(reads[reads.len() - 1] == reads.last());
        if completed(reads) && !at_end(reads.last().0, reads.last().1) {
            let i = choose|i: int|
                0 <= i < reads.len() && at_end((#[trigger] reads[i]).0, reads[i].1);
            assert(rest[i] == reads[i]);
        }
    }
}

/// An aborted transfer counts nothing: without a read that came to the end of
/// the body, whatever was read and however long it took. A complete one counts
/// with every byte that was read.
pub proof fn law_aborted_transfer_counts_nothing(reads: Seq<(nat, nat)>, elapsed_nanos: nat)
    ensures
        !completed(reads) ==> counted(after_reads(reads), elapsed_nanos) is None,
        completed(reads) && elapsed_nanos > 0 && total(reads) > 0 ==> counted(
            after_reads(reads),
            elapsed_nanos,
        ) == Some(total(reads)),
{
    law_meter_follows_the_reads(reads);
}

/// Slots, call by call: as many as the cap, where 0 is taken as 1, and all free at
/// first.
pub proof fn law_new_slots_are_free(max: usize, slots: Slots, n: usize)
    requires
        call_ensures(Slots::new, (max,), slots),
        call_ensures(Slots::in_use, (&slots,), n),
    ensures
        n == 0,
        slots@.used == 0,
        max == 0 ==> slots@.max == 1,
        max > 0 ==> slots@.max == max,
{
}

/// A slot is granted exactly while fewer are out than there are, and then one
/// more is out; a refusal changes nothing.
pub proof fn law_slots_are_granted_below_the_cap(slots: &mut Slots, granted: bool)
    requires
        call_ensures(Slots::acquire, (slots,), granted),
    ensures
        granted <==> old(slots)@.used < old(slots)@.max,
        granted ==> final(slots)@.used == old(slots)@.used + 1,
        !granted ==> final(slots)@.used == old(slots)@.used,
        final(slots)@.max == old(slots)@.max,
        final(slots)@.used <= final(slots)@.max,
{
}

/// A slot given back is free again, and only that one.
pub proof fn law_slots_come_back(slots: &mut Slots)
    requires
        old(slots)@.used > 0,
        call_ensures(Slots::release, (slots,), ()),
    ensures
        final(slots)@.used == old(slots)@.used - 1,
        final(slots)@.max == old(slots)@.max,
{
}

/// The listener is given up at the hundredth failure since the last accepted
/// request, and retried before that.
pub proof fn law_hundred_failures_are_too_many(patience: &mut Patience, r: AfterFailure)
    requires
        old(patience).failures() < u32::MAX,
        call_ensures(Patience::failed, (patience,), r),
    ensures
        final(patience).failures() == old(patience).failures() + 1,
        old(patience).failures() < 99 <==> r is Retry,
        r matches AfterFailure::GiveUp(n) ==> n == old(patience).failures() + 1,
{
}

/// Patience is whole at first and after every accepted request.
pub proof fn law_patience_is_restored(fresh: Patience, patience: &mut Patience)
    requires
        call_ensures(Patience::new, (), fresh),
        call_ensures(Patience::accepted, (patience,), ()),
    ensures
        fresh.failures() == 0,
        final(patience).failures() == 0,
{
}

/// A meter counts every byte of a read, and ends exactly at a read that asked for
/// some and got none.
pub proof fn law_meter_reads(meter: &mut Meter, asked: usize, n: usize)
    requires
        old(meter)@.bytes + n <= u64::MAX,
        call_ensures(Meter::read, (meter, asked, n), ()),
    ensures
        final(meter)@.bytes == old(meter)@.bytes + n,
        final(meter)@.eof <==> old(meter)@.eof || asked > 0 && n == 0,
{
}

/// A meter starts at nothing, and a transfer counts exactly if its body ended, it
/// took some time and something passed through; and then with all that did.
pub proof fn law_meter_counts(fresh: Meter, meter: &Meter, elapsed: u128, r: Option<u64>, n: u64)
    requires
        call_ensures(Meter::new, (), fresh),
        call_ensures(Meter::finish, (meter, elapsed), r),
        call_ensures(Meter::bytes, (meter,), n),
    ensures
        fresh@.bytes == 0 && !fresh@.eof,
        n == meter@.bytes,
        r is Some <==> meter@.eof && elapsed > 0 && meter@.bytes > 0,
        r matches Some(bytes) ==> bytes == meter@.bytes,
{
}

} // verus!
