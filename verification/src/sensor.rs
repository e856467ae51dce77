//! Readings of eight sensors, numbered in turn, and a ring buffer of twenty
//! readings. A reading's ten measurements are kept as the bit patterns of
//! 32-bit floating-point numbers (`f32::to_bits`): the buffer only moves
//! them.
use vstd::prelude::*;
use crate::clock::now_millis;
use std::collections::HashMap;

verus! {

broadcast use vstd::std_specs::hash::group_hash_axioms;

/// The number of sensors: the sequence numbers of readings run from 1 to
/// this, then start again.
pub const SENSORS: u32 = 8;

/// The number of slots of a `CircularBuffer`.
pub const BUFFER_LEN: usize = 20;

/// A reading: its sequence number, ten measurements (as `f32` bit
/// patterns) and the time in milliseconds (the low 32 bits of the time since
/// the Unix epoch).
#[derive(Debug, PartialEq, Eq, Copy, Clone)]
pub struct SensorData {
    pub seq: u32,
    pub values: [u32; 10],
    pub timestamp: u32,
}

impl SensorData {
    /// A generator of readings; its first reading has sequence number 1.
    pub fn new() -> (g: SensorDataGenerator)
        ensures
            g.wf(),
            g.next_seq() == 1,
    {
        SensorDataGenerator { seq: 0 }
    }

    /// The sequence number.
    pub fn get_seq(&self) -> (s: u32)
        ensures
            s == self.seq,
    {
        self.seq
    }

    /// The measurements, as `f32` bit patterns.
    pub fn get_values(&self) -> (v: [u32; 10])
        ensures
            v == self.values,
    {
        self.values
    }
}

/// Whether `d` is the empty reading: sequence number 0, measurements 0.0
/// (bit pattern 0), time 0.
pub open spec fn is_empty_reading(d: SensorData) -> bool {
    d.seq == 0 && d.timestamp == 0 && forall|i: int| 0 <= i < 10 ==> #[trigger] d.values@[i] == 0
}

impl Default for SensorData {
    /// The empty reading.
    fn default() -> (d: Self)
        ensures
            is_empty_reading(d),
    {
        SensorData { seq: 0, values: [0u32; 10], timestamp: 0 }
    }
}

/// Makes readings with sequence numbers 1, 2, ..., 8, 1, 2, ...
pub struct SensorDataGenerator {
    seq: u32,
}

impl SensorDataGenerator {
    /// The sequence number of the next reading.
    pub closed spec fn next_seq(&self) -> u32 {
        (self.seq + 1) as u32
    }

    /// The invariant: the last sequence number given is below 8 (0 before
    /// the first reading and after the eighth).
    pub closed spec fn wf(&self) -> bool {
        self.seq < SENSORS
    }

    /// The next reading, with `values` and the time `timestamp`.
    pub fn next_at(&mut self, values: [u32; 10], timestamp: u32) -> (d: SensorData)
        requires
            old(self).wf(),
        ensures
            final(self).wf(),
            d == (SensorData { seq: old(self).next_seq(), values, timestamp }),
            final(self).next_seq() == if old(self).next_seq() >= SENSORS { 1 } else { old(self).next_seq() + 1 },
            1 <= d.seq <= SENSORS,
    {
        self.seq = self.seq + 1;
        let result = SensorData { seq: self.seq, values, timestamp };
        if self.seq >= SENSORS {
            self.seq = 0;
        }
        result
    }

    /// The next reading, with `values`, taken now.
    pub fn next(&mut self, values: [u32; 10]) -> (d: SensorData)
        requires
            old(self).wf(),
        ensures
            final(self).wf(),
            d.seq == old(self).next_seq(),
            d.values == values,
            final(self).next_seq() == if old(self).next_seq() >= SENSORS { 1 } else { old(self).next_seq() + 1 },
    {
        let now = now_millis();
        let timestamp = (now % 0x1_0000_0000) as u32;
        self.next_at(values, timestamp)
    }
}

/// One step of the producer: stores the pending reading `pending` in
/// `buffer`. Where it was stored, the next reading, with the values `fresh`
/// and taken now, becomes the pending one; where the buffer was full,
/// `pending` is kept for the next try and no reading is made.
pub fn produce_step(
    gen: &mut SensorDataGenerator,
    buffer: &mut CircularBuffer,
    pending: SensorData,
    fresh: [u32; 10],
) -> (r: (Option<usize>, SensorData))
    requires
        old(gen).wf(),
        old(buffer).wf(),
    ensures
        final(gen).wf(),
        final(buffer).wf(),
        old(buffer).view().len() == 20 ==> {
            &&& r.0 is None
            &&& r.1 == pending
            &&& *final(gen) == *old(gen)
            &&& *final(buffer) == *old(buffer)
        },
        old(buffer).view().len() < 20 ==> {
            &&& r.0 == Some(old(buffer).spec_parts().0)
            &&& final(buffer).view() == old(buffer).view().push(pending)
            &&& r.1.seq == old(gen).next_seq()
            &&& r.1.values == fresh
            &&& final(gen).next_seq() == if old(gen).next_seq() >= SENSORS {
                1
            } else {
                old(gen).next_seq() + 1
            }
        },
{
    match buffer.store(pending) {
        None => (None, pending),
        Some(i) => {
            let next = gen.next(fresh);
            (Some(i), next)
        },
    }
}

/// A ring of twenty readings that a producer fills at the tail and a
/// consumer empties at the head.
#[derive(Debug, PartialEq, Eq, Copy, Clone)]
pub struct CircularBuffer {
    tail: usize,
    head: usize,
    counter: u8,
    buffer: [SensorData; 20],
}

/// The slot of the `i`-th stored reading, counted from the head.
pub open spec fn slot(head: int, i: int) -> int {
    (head % 20 + i) % 20
}

impl CircularBuffer {
    /// The invariant: at most twenty readings are stored, from the slot of
    /// the head on, and the tail is the slot after the last of them.
    pub closed spec fn wf(&self) -> bool {
        &&& self.counter <= 20
        &&& self.tail < 20
        &&& self.head <= 20
        &&& (self.head % 20 + self.counter) % 20 == self.tail
    }

    /// The number of stored readings is the counter.
    proof fn lemma_len(&self)
        ensures
            self.view().len() == self.counter,
            self.wf() ==> self.counter <= 20,
    {
    }

    /// The stored readings, from the oldest to the newest.
    pub closed spec fn view(&self) -> Seq<SensorData> {
        Seq::new(self.counter as nat, |i: int| self.buffer@[slot(self.head as int, i)])
    }

    /// The contents of the slots.
    pub closed spec fn slots(&self) -> Seq<SensorData> {
        self.buffer@
    }

    /// The fields of the buffer: tail, head, count and slots.
    pub closed spec fn spec_parts(&self) -> (usize, usize, u8, [SensorData; 20]) {
        (self.tail, self.head, self.counter, self.buffer)
    }

    /// Whether the fields `tail`, `head` and `counter` describe a buffer.
    pub open spec fn parts_wf(tail: usize, head: usize, counter: u8) -> bool {
        &&& counter <= 20
        &&& tail < 20
        &&& head <= 20
        &&& (head % 20 + counter) % 20 == tail
    }

    /// The fields of the buffer, to be stored elsewhere.
    pub fn parts(&self) -> (r: (usize, usize, u8, [SensorData; 20]))
        ensures
            r == self.spec_parts(),
    {
        (self.tail, self.head, self.counter, self.buffer)
    }

    /// The buffer of the given fields, or `None` when they describe none.
    pub fn from_parts(tail: usize, head: usize, counter: u8, buffer: [SensorData; 20]) -> (r: Option<Self>)
        ensures
            r is Some <==> Self::parts_wf(tail, head, counter),
            r matches Some(b) ==> b.wf() && b.spec_parts() == (tail, head, counter, buffer),
    {
        if counter <= 20 && tail < 20 && head <= 20 && (head % 20 + counter as usize) % 20 == tail {
            Some(CircularBuffer { tail, head, counter, buffer })
        } else {
            None
        }
    }

    /// Whether no reading is stored.
    pub fn empty(&self) -> (r: bool)
        requires
            self.wf(),
        ensures
            r == (self.view().len() == 0),
    {
        self.counter == 0
    }

    /// Whether all twenty slots hold readings.
    pub fn full(&self) -> (r: bool)
        requires
            self.wf(),
        ensures
            r == (self.view().len() == 20),
    {
        self.counter == 20
    }

    /// Stores `sensor_data` after the newest reading and returns its slot
    /// (the tail: the slot after the newest reading), or returns `None`,
    /// storing nothing, when the buffer is full.
    pub fn store(&mut self, sensor_data: SensorData) -> (r: Option<usize>)
        requires
            old(self).wf(),
        ensures
            final(self).wf(),
            old(self).view().len() == 20 ==> r is None && *final(self) == *old(self),
            old(self).view().len() < 20 ==> r is Some && r->0 < 20
                && r->0 == old(self).spec_parts().0
                && r->0 == slot(old(self).spec_parts().1 as int, old(self).view().len() as int)
                && final(self).view() == old(self).view().push(sensor_data)
                && final(self).view() == after_stores(old(self).view(), seq![sensor_data])
                && final(self).slots()[r->0 as int] == sensor_data,
    {
        if self.full() {
            return None;
        }
        let index = self.tail;
        self.buffer[index] = sensor_data;
        self.tail = (index + 1) % 20;
        self.counter = self.counter + 1;
        proof {
            let o = old(self);
            assert(self.view() =~= o.view().push(sensor_data)) by {
                assert forall|i: int| 0 <= i < o.counter implies slot(self.head as int, i) != index as int by {
                    assert(slot(o.head as int, i) != slot(o.head as int, o.counter as int)) by (nonlinear_arith)
                        requires
                            0 <= i < o.counter <= 19,
                            0 <= o.head % 20 < 20,
                    {}
                }
            }
            assert((self.head % 20 + self.counter) % 20 == self.tail) by (nonlinear_arith)
                requires
                    (o.head % 20 + o.counter) % 20 == index,
                    self.counter == o.counter + 1,
                    self.head == o.head,
                    self.tail == (index + 1) % 20,
            {}
        }
        proof {
            let o = old(self);
            lemma_store_one(o.view(), sensor_data);
        }
        Some(index)
    }

    /// Takes the reading in slot `index`, leaving the empty reading there.
    pub fn read_from_index(&mut self, index: &usize) -> (r: Box<SensorData>)
        requires
            old(self).wf(),
            *index < 20,
        ensures
            final(self).wf(),
            *r == old(self).slots()[*index as int],
            final(self).slots().len() == 20,
            is_empty_reading(final(self).slots()[*index as int]),
            forall|i: int| 0 <= i < 20 && i != *index ==> #[trigger] final(self).slots()[i] == old(self).slots()[i],
    {
        let sensor_data = Box::new(self.buffer[*index]);
        self.buffer[*index] = SensorData::default();
        sensor_data
    }

    /// Takes the oldest reading, leaving the empty reading in its slot, or
    /// returns `None` when the buffer is empty.
    pub fn read(&mut self) -> (r: Option<Box<SensorData>>)
        requires
            old(self).wf(),
        ensures
            final(self).wf(),
            old(self).view().len() == 0 ==> r is None && *final(self) == *old(self),
            old(self).view().len() > 0 ==> (r matches Some(d) && *d == old(self).view()[0]
                && final(self).view() == old(self).view().drop_first()
                && seq![*d] == after_reads(old(self).view(), 1).0
                && final(self).view() == after_reads(old(self).view(), 1).1),
    {
        if self.empty() {
            return None;
        }
        self.head = self.head % 20;
        let sensor_data = Box::new(self.buffer[self.head]);
        self.buffer[self.head] = SensorData::default();
        self.head = self.head + 1;
        self.counter = self.counter - 1;
        proof {
            let o = old(self);
            let h0 = (o.head % 20) as int;
            assert(self.view() =~= o.view().drop_first()) by {
                assert forall|i: int| 0 <= i < self.counter implies #[trigger] self.buffer@[slot(self.head as int, i)] == o.buffer@[slot(o.head as int, i + 1)] by {
                    assert(slot(self.head as int, i) == slot(o.head as int, i + 1)) by (nonlinear_arith)
                        requires
                            self.head == h0 + 1,
                            h0 == o.head % 20,
                            0 <= h0 < 20,
                            0 <= i,
                    {}
                    assert((h0 + (i + 1)) % 20 != h0) by (nonlinear_arith)
                        requires
                            0 <= i + 1 < 20,
                            1 <= i + 1,
                            0 <= h0 < 20,
                    {}
                    assert(slot(o.head as int, i + 1) == (h0 + (i + 1)) % 20);
                }
            }
            assert((self.head % 20 + self.counter) % 20 == self.tail) by (nonlinear_arith)
                requires
                    (o.head % 20 + o.counter) % 20 == o.tail,
                    self.head == o.head % 20 + 1,
                    self.counter == o.counter - 1,
                    self.tail == o.tail,
            {}
            let v = o.view();
            assert(after_reads(v.drop_first(), 0) == (Seq::<SensorData>::empty(), v.drop_first()));
            assert(seq![v[0]] + Seq::<SensorData>::empty() =~= seq![v[0]]);
        }
        Some(sensor_data)
    }
}

impl Default for CircularBuffer {
    /// An empty buffer: the tail at slot 0, the head at 20 (which is slot 0),
    /// every slot holding the empty reading.
    fn default() -> (b: Self)
        ensures
            b.wf(),
            b.view() == Seq::<SensorData>::empty(),
            forall|i: int| 0 <= i < 20 ==> is_empty_reading(#[trigger] b.slots()[i]),
    {
        let b = Self { tail: 0, head: 20, counter: 0, buffer: [SensorData::default(); 20] };
        assert(b.view() =~= Seq::<SensorData>::empty());
        b
    }
}

/// The measurements gathered per sensor: for each sequence number, the
/// measurements of its readings, in the order in which they were read.
pub struct SensorStats {
    by_seq: HashMap<u32, Vec<u32>>,
}

/// The gathered measurements after `ds` were read, one after the other,
/// into `m`.
pub open spec fn gathered(m: Map<u32, Seq<u32>>, ds: Seq<SensorData>) -> Map<u32, Seq<u32>>
    decreases ds.len(),
{
    if ds.len() == 0 {
        m
    } else {
        let before = gathered(m, ds.drop_last());
        let d = ds.last();
        let earlier = if before.contains_key(d.seq) { before[d.seq] } else { Seq::empty() };
        before.insert(d.seq, earlier + d.values@)
    }
}

proof fn lemma_gathered_one(m: Map<u32, Seq<u32>>, d: SensorData)
    ensures
        gathered(m, seq![d]) == m.insert(
            d.seq,
            (if m.contains_key(d.seq) { m[d.seq] } else { Seq::empty() }) + d.values@,
        ),
{
    assert(seq![d].drop_last() =~= Seq::<SensorData>::empty());
    assert(gathered(m, Seq::<SensorData>::empty()) == m);
}

impl SensorStats {
    /// The measurements, by sequence number.
    pub closed spec fn view(&self) -> Map<u32, Seq<u32>> {
        self.by_seq@.map_values(|v: Vec<u32>| v@)
    }

    /// No measurement yet.
    pub fn new() -> (s: Self)
        ensures
            s.view() == Map::<u32, Seq<u32>>::empty(),
    {
        let s = SensorStats { by_seq: HashMap::new() };
        assert(s.view() =~= Map::<u32, Seq<u32>>::empty());
        s
    }

    /// Adds the measurements of `d` after those of its sensor.
    pub fn record(&mut self, d: SensorData)
        ensures
            final(self).view() == gathered(old(self).view(), seq![d]),
    {
        let ghost om = self.by_seq@;
        let mut v: Vec<u32> = match self.by_seq.remove(&d.seq) {
            Some(v) => v,
            None => Vec::new(),
        };
        let ghost before = v@;
        let mut i: usize = 0;
        while i < 10
            invariant
                i <= 10,
                v@ == before + d.values@.subrange(0, i as int),
            decreases 10 - i,
        {
            v.push(d.values[i]);
            i = i + 1;
            assert(v@ =~= before + d.values@.subrange(0, i as int));
        }
        assert(d.values@.subrange(0, 10) =~= d.values@);
        self.by_seq.insert(d.seq, v);
        proof {
            lemma_gathered_one(old(self).view(), d);
            assert(before == (if old(self).view().contains_key(d.seq) { old(self).view()[d.seq] } else { Seq::<u32>::empty() }));
            assert(self.by_seq@ =~= om.insert(d.seq, v));
            assert(self.view() =~= old(self).view().insert(d.seq, before + d.values@));
        }
    }

    /// The measurements of the sensor with sequence number `seq`, if any
    /// were read.
    pub fn samples(&self, seq: u32) -> (r: Option<Vec<u32>>)
        ensures
            r is Some <==> self.view().contains_key(seq),
            r matches Some(v) ==> v@ == self.view()[seq],
    {
        match self.by_seq.get(&seq) {
            Some(v) => Some(v.clone()),
            None => None,
        }
    }

    /// Reads every reading out of `buffer`, oldest first, and adds its
    /// measurements.
    pub fn drain(&mut self, buffer: &mut CircularBuffer)
        requires
            old(buffer).wf(),
        ensures
            final(buffer).wf(),
            final(buffer).view().len() == 0,
            final(self).view() == gathered(old(self).view(), old(buffer).view()),
    {
        let ghost start = self.view();
        let ghost all = buffer.view();
        while !buffer.empty()
            invariant
                buffer.wf(),
                buffer.view().len() <= all.len(),
                all.subrange(all.len() - buffer.view().len(), all.len() as int) == buffer.view(),
                self.view() == gathered(start, all.subrange(0, all.len() - buffer.view().len())),
            decreases buffer.view().len(),
        {
            let ghost k = all.len() - buffer.view().len();
            let ghost rest = buffer.view();
            let d = *buffer.read().unwrap();
            proof {
                assert(d == all[k]);
                assert(buffer.view() =~= all.subrange(k + 1, all.len() as int));
                let done = all.subrange(0, k);
                assert(all.subrange(0, k + 1).drop_last() =~= done);
            }
            let ghost mid = self.view();
            self.record(d);
            proof {
                lemma_gathered_one(mid, d);
                assert(all.subrange(0, k + 1).last() == d);
            }
        }
        assert(all.subrange(0, all.len() as int) =~= all);
    }
}

/// The readings of a buffer that held `view` after each reading of `xs`
/// is stored in turn, as `store` leaves them while there is room.
pub open spec fn after_stores(view: Seq<SensorData>, xs: Seq<SensorData>) -> Seq<SensorData>
    decreases xs.len(),
{
    if xs.len() == 0 {
        view
    } else {
        after_stores(view, xs.drop_last()).push(xs.last())
    }
}

/// What `k` reads take from a buffer holding `view`, as `read` gives them:
/// the readings taken, in order, and the readings left.
pub open spec fn after_reads(view: Seq<SensorData>, k: nat) -> (Seq<SensorData>, Seq<SensorData>)
    decreases k,
{
    if k == 0 || view.len() == 0 {
        (Seq::empty(), view)
    } else {
        let (taken, left) = after_reads(view.drop_first(), (k - 1) as nat);
        (seq![view[0]] + taken, left)
    }
}

proof fn lemma_stores_into_empty(xs: Seq<SensorData>)
    ensures
        after_stores(Seq::empty(), xs) == xs,
    decreases xs.len(),
{
    if xs.len() > 0 {
        lemma_stores_into_empty(xs.drop_last());
        assert(xs.drop_last().push(xs.last()) =~= xs);
    }
}

proof fn lemma_read_all(view: Seq<SensorData>)
    ensures
        after_reads(view, view.len()) == (view, Seq::<SensorData>::empty()),
    decreases view.len(),
{
    if view.len() > 0 {
        lemma_read_all(view.drop_first());
        assert(seq![view[0]] + view.drop_first() =~= view);
    }
}

/// Readings come out first in, first out: up to twenty readings stored
/// into an empty buffer (each store finds room) come out of as many reads
/// in the order in which they were stored, and the buffer is then empty.
/// Each `store` leaves `after_stores` of its one reading and each `read`
/// takes `after_reads` of one; `lemma_stores_compose` and
/// `lemma_reads_compose` add these up over a run of calls.
pub proof fn lemma_fifo(xs: Seq<SensorData>)
    requires
        xs.len() <= 20,
    ensures
        forall|k: int| 0 <= k < xs.len() ==> #[trigger] after_stores(Seq::empty(), xs.take(k)).len() < 20,
        after_reads(after_stores(Seq::empty(), xs), xs.len()) == (xs, Seq::<SensorData>::empty()),
{
    assert forall|k: int| 0 <= k < xs.len() implies #[trigger] after_stores(Seq::empty(), xs.take(k)).len() < 20 by {
        lemma_stores_into_empty(xs.take(k));
    }
    lemma_stores_into_empty(xs);
    lemma_read_all(xs);
}

/// Storing readings one after the other is storing them all at once: each
/// `store` gives `after_stores` of one reading, and these add up.
pub proof fn lemma_stores_compose(view: Seq<SensorData>, xs: Seq<SensorData>, x: SensorData)
    ensures
        after_stores(after_stores(view, xs), seq![x]) == after_stores(view, xs.push(x)),
{
    lemma_store_one(after_stores(view, xs), x);
    assert(xs.push(x).drop_last() =~= xs);
}

proof fn lemma_store_one(view: Seq<SensorData>, x: SensorData)
    ensures
        after_stores(view, seq![x]) == view.push(x),
{
    let one = seq![x];
    assert(one.drop_last() =~= Seq::<SensorData>::empty());
    assert(after_stores(view, one.drop_last()) == view);
    assert(one.last() == x);
}

/// Reading one reading and then `k` more is reading `k + 1`: each `read`
/// gives `after_reads` of one, and these add up.
pub proof fn lemma_reads_compose(view: Seq<SensorData>, k: nat)
    ensures
        after_reads(view, k + 1) == ({
            let first = after_reads(view, 1);
            let rest = after_reads(first.1, k);
            (first.0 + rest.0, rest.1)
        }),
{
    if view.len() == 0 {
        assert(after_reads(view, 1) == (Seq::<SensorData>::empty(), view));
        if k > 0 {
            assert(after_reads(view, k) == (Seq::<SensorData>::empty(), view));
        }
        assert(Seq::<SensorData>::empty() + Seq::<SensorData>::empty() =~= Seq::<SensorData>::empty());
    } else {
        assert(after_reads(view.drop_first(), 0) == (Seq::<SensorData>::empty(), view.drop_first()));
        assert(seq![view[0]] + Seq::<SensorData>::empty() =~= seq![view[0]]);
    }
}

/// Saving and loading round-trips: the fields of every buffer that keeps
/// its invariant (a full one of twenty readings included) describe a
/// buffer, so `from_parts` accepts `parts()`, and the buffer it gives,
/// having those same fields, is the buffer that was saved.
pub proof fn lemma_parts_round_trip(b: CircularBuffer)
    requires
        b.wf(),
    ensures
        CircularBuffer::parts_wf(b.spec_parts().0, b.spec_parts().1, b.spec_parts().2),
        forall|c: CircularBuffer| #[trigger] c.spec_parts() == b.spec_parts() ==> c == b,
        b.view().len() <= 20,
{
    b.lemma_len();
}

/// A buffer holds at most twenty readings.
pub proof fn lemma_at_most_twenty(b: &CircularBuffer)
    requires
        b.wf(),
    ensures
        b.view().len() <= 20,
{
    b.lemma_len();
}

/// Readings come out in the order in which they were stored: a reading
/// stored in an empty buffer is the next one read, and the buffer is then
/// empty again; with readings already stored, the next read gives the
/// oldest of them. The states are those that `store` and `read` promise.
pub proof fn lemma_store_then_read(before: Seq<SensorData>, d: SensorData)
    ensures
        before.push(d)[0] == if before.len() == 0 { d } else { before[0] },
        before.len() == 0 ==> before.push(d).drop_first() == before,
{
    if before.len() == 0 {
        assert(before.push(d).drop_first() =~= before);
    }
}

} // verus!
