use vstd::prelude::*;

use crate::network::{AddressView, Transmitter, TransmitterArgs, TransmitterKind, Transport, TransportAddress};

verus! {

/// A point in space.
#[derive(PartialEq, Eq, Structural, Clone, Copy, Debug)]
pub struct XYZPoint {
    pub x: i64,
    pub y: i64,
    pub z: i64,
}

/// A point in space and time.
#[derive(PartialEq, Eq, Structural, Clone, Copy, Debug)]
pub struct MinkowskiPoint {
    pub x: i64,
    pub y: i64,
    pub z: i64,
    pub t: u64,
}

/// Something in flight in the simulated network: where and when it left,
/// where and when it arrives, and what it carries.
#[derive(Debug)]
pub struct SimEvent<E> {
    pub source_point: MinkowskiPoint,
    pub dest_point: MinkowskiPoint,
    pub payload: E,
}

/// A simulated network with its own clock: what is sent waits in a queue
/// until the clock is advanced past its time.
#[derive(Debug)]
pub struct Simulator<E> {
    clock: u64,
    queue: Vec<SimEvent<E>>,
    speed_of_light: u64,
    wait_clock: u64,
    run: bool,
}

/// Whether event `e` is one that an advance of the clock to `t` hands out.
pub open spec fn handed_out_at<E>(e: SimEvent<E>, t: u64) -> bool {
    e.dest_point.t >= t
}

/// Whether event `e` is one that an advance of the clock to `t` hands out.
fn is_handed_out<E>(e: &SimEvent<E>, t: u64) -> (r: bool)
    ensures
        r == handed_out_at(*e, t),
{
    e.dest_point.t >= t
}

/// Calls `itertools::partition` on the queue, with `is_handed_out` as the
/// predicate: the events for which it holds are moved before the others, in
/// an order that the crate leaves open, and their number is returned.
#[verifier::external_body]
fn partition_handed_out<E>(queue: &mut Vec<SimEvent<E>>, t: u64) -> (r: usize)
    ensures
        final(queue)@.to_multiset() == old(queue)@.to_multiset(),
        r <= final(queue)@.len(),
        forall|i: int| 0 <= i < r ==> handed_out_at(#[trigger] final(queue)@[i], t),
        forall|i: int| r <= i < final(queue)@.len() ==> !handed_out_at(#[trigger] final(queue)@[i], t),
{
    itertools::partition(queue.iter_mut(), |e| is_handed_out(e, t))
}

impl<E> Simulator<E> {
    /// The simulated clock.
    pub closed spec fn clock(&self) -> u64 {
        self.clock
    }

    /// The events in flight.
    pub closed spec fn queue(&self) -> Seq<SimEvent<E>> {
        self.queue@
    }

    /// The distance covered per clock tick.
    pub closed spec fn speed(&self) -> u64 {
        self.speed_of_light
    }

    /// The clock reading at which the last wait ended.
    pub closed spec fn wait_clock(&self) -> u64 {
        self.wait_clock
    }

    /// Whether a metronome advances the clock.
    pub closed spec fn running(&self) -> bool {
        self.run
    }

    /// A simulator at time zero with nothing in flight, one distance unit
    /// per tick, running.
    pub fn new() -> (r: Simulator<E>)
        ensures
            r.clock() == 0,
            r.queue() == Seq::<SimEvent<E>>::empty(),
            r.speed() == 1,
            r.wait_clock() == 0,
            r.running(),
    {
        Simulator { clock: 0, queue: Vec::new(), speed_of_light: 1, wait_clock: 0, run: true }
    }

    /// The simulated clock.
    pub fn get_clock(&self) -> (r: u64)
        ensures
            r == self.clock(),
    {
        self.clock
    }

    /// The distance covered per clock tick.
    pub fn get_speed(&self) -> (r: u64)
        ensures
            r == self.speed(),
    {
        self.speed_of_light
    }

    /// The number of events in flight.
    pub fn queue_len(&self) -> (r: usize)
        ensures
            r == self.queue().len(),
    {
        self.queue.len()
    }

    /// Stops a metronome from advancing the clock.
    pub fn pause(&mut self)
        ensures
            !final(self).running(),
            final(self).clock() == old(self).clock(),
            final(self).queue() == old(self).queue(),
            final(self).wait_clock() == old(self).wait_clock(),
            final(self).speed() == old(self).speed(),
    {
        self.run = false;
    }

    /// Lets a metronome advance the clock again.
    pub fn resume(&mut self)
        ensures
            final(self).running(),
            final(self).clock() == old(self).clock(),
            final(self).queue() == old(self).queue(),
            final(self).wait_clock() == old(self).wait_clock(),
            final(self).speed() == old(self).speed(),
    {
        self.run = true;
    }

    /// Whether a metronome advances the clock.
    pub fn is_running(&self) -> (r: bool)
        ensures
            r == self.running(),
    {
        self.run
    }

    /// Starts the next wait from the present clock reading.
    pub fn clear_wait(&mut self)
        ensures
            final(self).wait_clock() == old(self).clock(),
            final(self).clock() == old(self).clock(),
            final(self).queue() == old(self).queue(),
            final(self).running() == old(self).running(),
            final(self).speed() == old(self).speed(),
    {
        self.wait_clock = self.clock;
    }

    /// One look of a wait for `count` ticks: whether the clock has moved
    /// `count` ticks past the end of the last wait; if so, this wait ends now.
    pub fn wait_ticks_done(&mut self, count: u64) -> (r: bool)
        ensures
            r == (old(self).clock() >= old(self).wait_clock() + count),
            r ==> final(self).wait_clock() == old(self).clock(),
            !r ==> final(self).wait_clock() == old(self).wait_clock(),
            final(self).clock() == old(self).clock(),
            final(self).queue() == old(self).queue(),
            final(self).running() == old(self).running(),
            final(self).speed() == old(self).speed(),
    {
        if self.clock as u128 >= self.wait_clock as u128 + count as u128 {
            self.wait_clock = self.clock;
            true
        } else {
            false
        }
    }

    /// One look of a wait for the network to fall idle: whether nothing is in
    /// flight; if so, this wait ends now.
    pub fn wait_idle_done(&mut self) -> (r: bool)
        ensures
            r == (old(self).queue().len() == 0),
            r ==> final(self).wait_clock() == old(self).clock(),
            !r ==> final(self).wait_clock() == old(self).wait_clock(),
            final(self).clock() == old(self).clock(),
            final(self).queue() == old(self).queue(),
            final(self).running() == old(self).running(),
            final(self).speed() == old(self).speed(),
    {
        if self.queue.len() == 0 {
            self.wait_clock = self.clock;
            true
        } else {
            false
        }
    }

    /// Puts an event in flight.
    pub fn add_event(&mut self, event: SimEvent<E>)
        ensures
            final(self).queue() == old(self).queue().push(event),
            final(self).clock() == old(self).clock(),
            final(self).wait_clock() == old(self).wait_clock(),
            final(self).running() == old(self).running(),
            final(self).speed() == old(self).speed(),
    {
        self.queue.push(event);
    }

    /// Sends `payload` from `source` to `dest`, `distance` apart: it leaves
    /// now and arrives after `distance` times the speed of light in ticks,
    /// plus one so that nothing arrives at once.
    pub fn send(&mut self, source: XYZPoint, dest: XYZPoint, distance: u64, payload: E)
        requires
            old(self).clock() + distance * old(self).speed() + 1 <= u64::MAX,
        ensures
            final(self).queue() == old(self).queue().push(
                SimEvent {
                    source_point: MinkowskiPoint { x: source.x, y: source.y, z: source.z, t: old(self).clock() },
                    dest_point: MinkowskiPoint {
                        x: dest.x,
                        y: dest.y,
                        z: dest.z,
                        t: (old(self).clock() + distance * old(self).speed() + 1) as u64,
                    },
                    payload,
                },
            ),
            final(self).clock() == old(self).clock(),
            final(self).wait_clock() == old(self).wait_clock(),
            final(self).running() == old(self).running(),
            final(self).speed() == old(self).speed(),
    {
        let t0 = self.clock;
        proof {
            assert(distance * self.speed_of_light <= u64::MAX) by (nonlinear_arith)
                requires
                    t0 + distance * self.speed_of_light + 1 <= u64::MAX,
            ;
        }
        let travel = distance * self.speed_of_light;
        let source_point = MinkowskiPoint { x: source.x, y: source.y, z: source.z, t: t0 };
        let dest_point = MinkowskiPoint { x: dest.x, y: dest.y, z: dest.z, t: t0 + travel + 1 };
        self.add_event(SimEvent { source_point, dest_point, payload });
    }

    /// Advances the clock by `ticks` and hands out, for delivery, the events
    /// in flight whose arrival time is at or after the new clock reading; the
    /// others stay in flight.
    pub fn advance_clock(&mut self, ticks: u64) -> (r: Vec<SimEvent<E>>)
        requires
            old(self).clock() + ticks <= u64::MAX,
        ensures
            final(self).clock() == old(self).clock() + ticks,
            r@.to_multiset().add(final(self).queue().to_multiset()) == old(self).queue().to_multiset(),
            forall|i: int| 0 <= i < r@.len() ==> handed_out_at(#[trigger] r@[i], final(self).clock()),
            forall|i: int| 0 <= i < final(self).queue().len() ==> !handed_out_at(#[trigger] final(self).queue()[i], final(self).clock()),
            final(self).wait_clock() == old(self).wait_clock(),
            final(self).running() == old(self).running(),
            final(self).speed() == old(self).speed(),
    {
        self.clock = self.clock + ticks;
        let t = self.clock;
        let ghost q0 = self.queue@;
        let split = partition_handed_out(&mut self.queue, t);
        let ghost q1 = self.queue@;
        let rest = self.queue.split_off(split);
        let mut events = rest;
        core::mem::swap(&mut events, &mut self.queue);
        proof {
            assert(q1 =~= events@ + self.queue@);
            vstd::seq_lib::lemma_multiset_commutative(events@, self.queue@);
            assert forall|i: int| 0 <= i < self.queue@.len() implies !handed_out_at(#[trigger] self.queue@[i], t) by {
                assert(self.queue@[i] == q1[i + split]);
            }
            assert forall|i: int| 0 <= i < events@.len() implies handed_out_at(#[trigger] events@[i], t) by {
                assert(events@[i] == q1[i]);
            }
        }
        events
    }
}

impl<E> Transport for Simulator<E> {
    fn is_local(&self) -> (r: bool)
        ensures
            r,
    {
        true
    }

    fn make_transmitter(&self, args: &TransmitterArgs) -> (r: Option<Transmitter>)
        ensures
            args matches TransmitterArgs::Local(s) ==> (r matches Some(t) && t.kind == TransmitterKind::Dynamic
                && t.to_slab_id == s),
            args is Remote ==> r is None,
    {
        match args {
            TransmitterArgs::Local(s) => Some(Transmitter::new_dynamic(*s)),
            TransmitterArgs::Remote(_, _) => None,
        }
    }

    fn get_return_address(&self, address: &TransportAddress) -> (r: TransportAddress)
        ensures
            address@ is Local ==> r@ == AddressView::Local,
            !(address@ is Local) ==> r@ == AddressView::Blackhole,
    {
        match address {
            TransportAddress::Local => TransportAddress::Local,
            _ => TransportAddress::Blackhole,
        }
    }
}

} // verus!
