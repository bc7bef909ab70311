//! The event log: every recorded input with the frame and the elapsed time at
//! which it arrived, and the cursor that marks how much of it was replayed.
use crate::frame_counting::FrameCount;
use vstd::prelude::*;

verus! {

/// A span of time since startup, in whole seconds and the nanoseconds beyond them.
#[derive(Clone, Copy, Debug, PartialEq, Eq, Structural, PartialOrd, Ord, Hash)]
pub struct Elapsed {
    /// Whole seconds.
    pub secs: u64,
    /// Nanoseconds beyond `secs`.
    pub nanos: u32,
}

impl Elapsed {
    /// The nanoseconds stay below one second.
    pub open spec fn wf(self) -> bool {
        self.nanos < 1_000_000_000
    }

    /// The span of `secs` seconds and `nanos` nanoseconds.
    pub fn new(secs: u64, nanos: u32) -> (r: Self)
        requires
            nanos < 1_000_000_000,
        ensures
            r.secs == secs,
            r.nanos == nanos,
            r.wf(),
    {
        Elapsed { secs, nanos }
    }
}

/// One recorded input, stamped with the tick and the time at which it arrived.
///
/// `E` is the payload: the input event itself, which the log only stores and
/// hands back.
#[derive(Clone, Debug)]
pub struct TimestampedInputEvent<E> {
    /// The tick on which the input arrived.
    pub frame: FrameCount,
    /// The time elapsed since startup when the input arrived.
    pub time_since_startup: Elapsed,
    /// The input itself.
    pub input_event: E,
}

/// The frame stamps of a sequence of records, in order.
pub open spec fn frames_of<E>(events: Seq<TimestampedInputEvent<E>>) -> Seq<u64> {
    events.map_values(|e: TimestampedInputEvent<E>| e.frame.0)
}

/// The records that a batch of inputs becomes when they all share one stamp.
pub open spec fn stamped<E>(frame: FrameCount, time: Elapsed, inputs: Seq<E>) -> Seq<
    TimestampedInputEvent<E>,
> {
    inputs.map_values(|i: E| TimestampedInputEvent { frame, time_since_startup: time, input_event: i })
}

/// The log after appending `records` one at a time, in order.
pub open spec fn appended_one_by_one<E>(
    log: Seq<TimestampedInputEvent<E>>,
    records: Seq<TimestampedInputEvent<E>>,
) -> Seq<TimestampedInputEvent<E>>
    decreases records.len(),
{
    if records.len() == 0 {
        log
    } else {
        appended_one_by_one(log.push(records[0]), records.drop_first())
    }
}

/// An append-only log of recorded inputs and a replay cursor.
///
/// `events` is in the order of capture. `cursor` is the index of the first
/// record not yet replayed; playback treats a cursor past the end as "all
/// replayed".
#[derive(Clone, Debug)]
pub struct TimestampedInputs<E> {
    /// The recorded inputs, in the order in which they were appended.
    pub events: Vec<TimestampedInputEvent<E>>,
    /// The index of the next record to replay.
    pub cursor: usize,
}

impl<E> TimestampedInputs<E> {
    /// The frame stamps of the log's records, in order.
    pub open spec fn frames(&self) -> Seq<u64> {
        frames_of(self.events@)
    }

    /// The cursor lies within the log.
    pub open spec fn wf(&self) -> bool {
        self.cursor <= self.events@.len()
    }

    /// An empty log with its cursor at the start.
    pub fn new() -> (r: Self)
        ensures
            r.events@.len() == 0,
            r.cursor == 0,
            r.wf(),
    {
        TimestampedInputs { events: Vec::new(), cursor: 0 }
    }

    /// Appends one input stamped with `frame` and `time_since_startup`.
    pub fn send(&mut self, frame: FrameCount, time_since_startup: Elapsed, event: E)
        requires
            old(self).events@.len() < usize::MAX,
        ensures
            final(self).events@ == old(self).events@.push(
                TimestampedInputEvent { frame, time_since_startup, input_event: event },
            ),
            final(self).cursor == old(self).cursor,
            old(self).wf() ==> final(self).wf(),
    {
        self.events.push(TimestampedInputEvent { frame, time_since_startup, input_event: event });
    }

    /// Appends a batch of inputs that all share one stamp, in the batch's order.
    pub fn send_multiple(&mut self, frame: FrameCount, time_since_startup: Elapsed, events: Vec<E>)
        requires
            old(self).events@.len() + events@.len() <= usize::MAX,
        ensures
            final(self).events@ == old(self).events@ + stamped(frame, time_since_startup, events@),
            final(self).cursor == old(self).cursor,
            old(self).wf() ==> final(self).wf(),
    {
        let ghost start = self.events@;
        let ghost batch = events@;
        let mut rest = events;
        let mut n: usize = 0;
        while rest.len() > 0
            invariant
                n + rest@.len() == batch.len(),
                start.len() + batch.len() <= usize::MAX,
                self.cursor == old(self).cursor,
                rest@ == batch.subrange(n as int, batch.len() as int),
                self.events@ == start + stamped(frame, time_since_startup, batch.subrange(0, n as int)),
            decreases rest@.len(),
        {
            let e = rest.remove(0);
            proof {
                assert(e == batch[n as int]);
            }
            self.events.push(TimestampedInputEvent { frame, time_since_startup, input_event: e });
            n = n + 1;
            proof {
                assert(rest@ =~= batch.subrange(n as int, batch.len() as int));
                assert(stamped(frame, time_since_startup, batch.subrange(0, n as int)) =~= stamped(
                    frame,
                    time_since_startup,
                    batch.subrange(0, n - 1),
                ).push(TimestampedInputEvent { frame, time_since_startup, input_event: e }));
            }
        }
        proof {
            assert(batch.subrange(0, n as int) =~= batch);
        }
    }

    /// The number of recorded inputs.
    pub fn len(&self) -> (r: usize)
        ensures
            r == self.events@.len(),
    {
        self.events.len()
    }

    /// Whether nothing was recorded.
    pub fn is_empty(&self) -> (r: bool)
        ensures
            r == (self.events@.len() == 0),
    {
        self.events.len() == 0
    }

    /// Moves the cursor back to the start, so that the whole log replays again.
    pub fn reset_cursor(&mut self)
        ensures
            final(self).cursor == 0,
            final(self).events@ == old(self).events@,
            final(self).wf(),
    {
        self.cursor = 0;
    }

    /// The record at index `i`.
    pub fn get(&self, i: usize) -> (r: &TimestampedInputEvent<E>)
        requires
            i < self.events@.len(),
        ensures
            *r == self.events@[i as int],
    {
        &self.events[i]
    }
}

impl<E> Default for TimestampedInputs<E> {
    fn default() -> (r: Self)
        ensures
            r.events@.len() == 0,
            r.cursor == 0,
    {
        Self::new()
    }
}

/// Appending records one at a time to an empty log gives exactly those records,
/// in the order in which they were appended: the log's length is their number,
/// and index `i` holds the `i`-th record appended.
pub proof fn lemma_appends_keep_order<E>(records: Seq<TimestampedInputEvent<E>>)
    ensures
        appended_one_by_one(Seq::empty(), records) == records,
        appended_one_by_one(Seq::empty(), records).len() == records.len(),
{
    lemma_appended_is_concat(Seq::empty(), records);
    assert(Seq::<TimestampedInputEvent<E>>::empty() + records =~= records);
}

/// Appending records one at a time extends the log by those records, in order.
pub proof fn lemma_appended_is_concat<E>(
    log: Seq<TimestampedInputEvent<E>>,
    records: Seq<TimestampedInputEvent<E>>,
)
    ensures
        appended_one_by_one(log, records) == log + records,
    decreases records.len(),
{
    if records.len() > 0 {
        lemma_appended_is_concat(log.push(records[0]), records.drop_first());
        assert(log.push(records[0]) + records.drop_first() =~= log + records);
    } else {
        assert(log + records =~= log);
    }
}

} // verus!
