//! Aggregator task: folds a stream of samples into their minimum, maximum,
//! sum and count, and answers the finish signal with one final result.
use vstd::prelude::*;

verus! {

/// The magnitude bound of one sample (`2^63`), used to bound running sums.
pub open spec fn sample_bound() -> int {
    0x8000_0000_0000_0000
}

pub open spec fn seq_sum(s: Seq<int>) -> int
    decreases s.len(),
{
    if s.len() == 0 {
        0
    } else {
        seq_sum(s.drop_last()) + s.last()
    }
}

/// The least element of a non-empty sequence.
pub open spec fn seq_min(s: Seq<int>) -> int
    decreases s.len(),
{
    if s.len() <= 1 {
        s[0]
    } else if s.last() < seq_min(s.drop_last()) {
        s.last()
    } else {
        seq_min(s.drop_last())
    }
}

/// The greatest element of a non-empty sequence.
pub open spec fn seq_max(s: Seq<int>) -> int
    decreases s.len(),
{
    if s.len() <= 1 {
        s[0]
    } else if s.last() > seq_max(s.drop_last()) {
        s.last()
    } else {
        seq_max(s.drop_last())
    }
}

/// Final statistics of one key, in tenths; the mean is `sum / count`.
#[derive(Clone, Copy, Debug, PartialEq, Eq, Structural)]
pub struct Summary {
    pub min: i64,
    pub max: i64,
    pub sum: i128,
    pub count: u64,
}

/// `sm` holds the statistics of the non-empty sample sequence `s`.
pub open spec fn summarizes(sm: Summary, s: Seq<int>) -> bool {
    &&& s.len() >= 1
    &&& sm.count == s.len()
    &&& sm.sum == seq_sum(s)
    &&& sm.min == seq_min(s)
    &&& sm.max == seq_max(s)
}

/// What a task emits on the finish signal.
#[derive(Clone, Copy, Debug, PartialEq, Eq, Structural)]
pub enum FinalStats {
    /// The task received no sample: minimum, maximum and mean are undefined.
    Undefined,
    Defined(Summary),
}

/// The final statistics owed for the sample sequence `s`.
pub open spec fn final_stats_for(r: FinalStats, s: Seq<int>) -> bool {
    match r {
        FinalStats::Undefined => s.len() == 0,
        FinalStats::Defined(sm) => summarizes(sm, s),
    }
}

/// A message on a task's inbound channel.
#[derive(Clone, Copy, Debug, PartialEq, Eq, Structural)]
pub enum Message {
    Sample(i64),
    Finish,
}

/// The running state of one aggregator task.
pub struct Aggregator {
    sum: i128,
    count: u64,
    min: i64,
    max: i64,
    finished: bool,
    received: Ghost<Seq<int>>,
}

impl Aggregator {
    /// The samples received so far, in order.
    pub closed spec fn samples(&self) -> Seq<int> {
        self.received@
    }

    /// Whether the finish signal has been handled.
    pub closed spec fn is_finished(&self) -> bool {
        self.finished
    }

    pub closed spec fn wf(&self) -> bool {
        &&& self.count == self.received@.len()
        &&& self.sum == seq_sum(self.received@)
        &&& -(self.count * sample_bound()) <= self.sum <= self.count * sample_bound()
        &&& self.count > 0 ==> self.min == seq_min(self.received@) && self.max == seq_max(
            self.received@,
        )
    }

    /// A task in its idle state: no sample yet.
    pub fn new() -> (r: Aggregator)
        ensures
            r.wf(),
            r.samples() == Seq::<int>::empty(),
            !r.is_finished(),
    {
        Aggregator { sum: 0, count: 0, min: 0, max: 0, finished: false, received: Ghost(Seq::empty()) }
    }

    /// The number of samples received so far.
    pub fn count(&self) -> (r: u64)
        requires
            self.wf(),
        ensures
            r == self.samples().len(),
    {
        self.count
    }

    /// Handles one message. A sample is folded in and gets no reply; the finish
    /// signal ends the task and is answered with its final statistics.
    pub fn handle(&mut self, msg: Message) -> (r: Option<FinalStats>)
        requires
            old(self).wf(),
            !old(self).is_finished(),
            msg is Sample ==> old(self).samples().len() < u64::MAX,
        ensures
            final(self).wf(),
            match msg {
                Message::Sample(v) => {
                    &&& r is None
                    &&& final(self).samples() == old(self).samples().push(v as int)
                    &&& !final(self).is_finished()
                },
                Message::Finish => {
                    &&& r matches Some(stats) && final_stats_for(stats, old(self).samples())
                    &&& final(self).samples() == old(self).samples()
                    &&& final(self).is_finished()
                },
            },
    {
        match msg {
            Message::Sample(v) => {
                let ghost prev = self.received@;
                let ghost next = prev.push(v as int);
                assert(next.drop_last() =~= prev);
                if self.count == 0 || v < self.min {
                    self.min = v;
                }
                if self.count == 0 || v > self.max {
                    self.max = v;
                }
                self.sum = self.sum + v as i128;
                self.count = self.count + 1;
                self.received = Ghost(next);
                None
            },
            Message::Finish => {
                self.finished = true;
                if self.count == 0 {
                    Some(FinalStats::Undefined)
                } else {
                    Some(
                        FinalStats::Defined(
                            Summary { min: self.min, max: self.max, sum: self.sum, count: self.count },
                        ),
                    )
                }
            },
        }
    }
}

} // verus!
