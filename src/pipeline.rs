//! Dispatch loop and result collector: routes each record of the input to the
//! aggregator of its key's slot, then finishes every slot and gathers one
//! summary per key.
use vstd::prelude::*;
use crate::aggregator::{Aggregator, FinalStats, Message, Summary, summarizes};
use crate::record::{LineError, LineView, line_view, parse_line};
use crate::router::{KeyRouter, distinct, route_step};

verus! {

/// The number of worker slots a run is configured with by default.
pub const WORKER_CAPACITY: usize = 500;

/// A fatal condition that aborts a run.
#[derive(Clone, Copy, Debug, PartialEq, Eq, Structural)]
pub enum RunError {
    /// A value after the delimiter is not a number.
    MalformedValue,
    /// More distinct keys than worker slots.
    CapacityExceeded,
}

/// The bindings after one more line, or the error that line raises.
pub open spec fn dispatch_step(keys: Seq<Seq<u8>>, capacity: nat, line: Seq<u8>) -> Result<
    Seq<Seq<u8>>,
    RunError,
> {
    match line_view(line) {
        LineView::Skipped => Ok(keys),
        LineView::Malformed => Err(RunError::MalformedValue),
        LineView::Record(k, _) => match route_step(keys, capacity, k) {
            Some(next) => Ok(next),
            None => Err(RunError::CapacityExceeded),
        },
    }
}

/// The keys bound, in slot order, after dispatching `lines`; or the first
/// error met.
pub open spec fn keys_after(lines: Seq<Seq<u8>>, capacity: nat) -> Result<
    Seq<Seq<u8>>,
    RunError,
>
    decreases lines.len(),
{
    if lines.len() == 0 {
        Ok(Seq::empty())
    } else {
        match keys_after(lines.drop_last(), capacity) {
            Ok(keys) => dispatch_step(keys, capacity, lines.last()),
            Err(e) => Err(e),
        }
    }
}

/// The samples of `key` in `lines`, in input order.
pub open spec fn samples_for(lines: Seq<Seq<u8>>, key: Seq<u8>) -> Seq<int>
    decreases lines.len(),
{
    if lines.len() == 0 {
        Seq::empty()
    } else {
        let prev = samples_for(lines.drop_last(), key);
        match line_view(lines.last()) {
            LineView::Record(k, v) => if k == key {
                prev.push(v)
            } else {
                prev
            },
            _ => prev,
        }
    }
}

pub open spec fn lines_view(lines: Seq<Vec<u8>>) -> Seq<Seq<u8>> {
    lines.map_values(|l: Vec<u8>| l@)
}

/// `r` is what a run over `lines` with `capacity` slots yields: the first
/// error met, or every bound key, in first-seen order, with the summary of its
/// samples.
pub open spec fn is_run_outcome(
    lines: Seq<Seq<u8>>,
    capacity: nat,
    r: Result<ResultMapping, RunError>,
) -> bool {
    match r {
        Ok(m) => {
            &&& m.wf()
            &&& keys_after(lines, capacity) == Ok::<Seq<Seq<u8>>, RunError>(m.keys())
            &&& forall|s: int|
                0 <= s < m.keys().len() ==> summarizes(
                    #[trigger] m.summaries()[s],
                    samples_for(lines, m.keys()[s]),
                )
        },
        Err(e) => keys_after(lines, capacity) == Err::<Seq<Seq<u8>>, RunError>(e),
    }
}

/// The outcome of a run: every key with its summary, in first-seen order.
pub struct ResultMapping {
    keys: Vec<Vec<u8>>,
    summaries: Vec<Summary>,
}

impl ResultMapping {
    pub closed spec fn keys(&self) -> Seq<Seq<u8>> {
        self.keys@.map_values(|k: Vec<u8>| k@)
    }

    pub closed spec fn summaries(&self) -> Seq<Summary> {
        self.summaries@
    }

    pub open spec fn wf(&self) -> bool {
        &&& distinct(self.keys())
        &&& self.keys().len() == self.summaries().len()
        &&& forall|i: int| 0 <= i < self.summaries().len() ==> #[trigger] self.summaries()[i].count >= 1
    }

    /// The summary recorded for `key`, if any.
    pub open spec fn summary_of(&self, key: Seq<u8>) -> Option<Summary> {
        if self.keys().contains(key) {
            Some(self.summaries()[self.keys().index_of(key)])
        } else {
            None
        }
    }

    /// An empty mapping.
    pub fn new() -> (r: ResultMapping)
        ensures
            r.wf(),
            r.keys() == Seq::<Seq<u8>>::empty(),
    {
        let r = ResultMapping { keys: Vec::new(), summaries: Vec::new() };
        assert(r.keys() =~= Seq::<Seq<u8>>::empty());
        r
    }

    /// The number of keys.
    pub fn len(&self) -> (r: usize)
        requires
            self.wf(),
        ensures
            r == self.keys().len(),
    {
        self.keys.len()
    }

    /// The key at position `i`.
    pub fn key_at(&self, i: usize) -> (r: &Vec<u8>)
        requires
            self.wf(),
            i < self.keys().len(),
        ensures
            r@ == self.keys()[i as int],
    {
        &self.keys[i]
    }

    /// The summary at position `i`.
    pub fn summary_at(&self, i: usize) -> (r: Summary)
        requires
            self.wf(),
            i < self.keys().len(),
        ensures
            r == self.summaries()[i as int],
    {
        self.summaries[i]
    }

    /// The summary of `key`, if the mapping holds it.
    pub fn get(&self, key: &[u8]) -> (r: Option<Summary>)
        requires
            self.wf(),
        ensures
            r == self.summary_of(key@),
    {
        let mut i: usize = 0;
        while i < self.keys.len()
            invariant
                self.wf(),
                0 <= i <= self.keys@.len(),
                forall|j: int| 0 <= j < i ==> self.keys()[j] != key@,
            decreases self.keys@.len() - i,
        {
            if crate::router::bytes_equal(self.keys[i].as_slice(), key) {
                assert(self.keys()[i as int] == key@);
                assert(self.keys().contains(key@));
                assert(self.keys().index_of(key@) == i);
                return Some(self.summaries[i]);
            }
            i = i + 1;
        }
        None
    }

    /// Records `summary` as the result of the new key `key`.
    pub fn push(&mut self, key: &[u8], summary: Summary)
        requires
            old(self).wf(),
            !old(self).keys().contains(key@),
            summary.count >= 1,
        ensures
            final(self).wf(),
            final(self).keys() == old(self).keys().push(key@),
            final(self).summaries() == old(self).summaries().push(summary),
    {
        let ghost prev = self.keys();
        self.keys.push(vstd::slice::slice_to_vec(key));
        self.summaries.push(summary);
        assert(self.keys() =~= prev.push(key@));
    }
}

/// The dispatch loop's state: the key-to-slot map it owns.
pub struct Dispatcher {
    router: KeyRouter,
}

impl Dispatcher {
    /// The bound keys, by slot.
    pub closed spec fn keys(&self) -> Seq<Seq<u8>> {
        self.router.keys()
    }

    pub closed spec fn capacity(&self) -> nat {
        self.router.capacity()
    }

    pub open spec fn wf(&self) -> bool {
        distinct(self.keys()) && self.keys().len() <= self.capacity()
    }

    /// A dispatcher for `capacity` worker slots, none bound yet.
    pub fn new(capacity: usize) -> (r: Dispatcher)
        ensures
            r.wf(),
            r.keys() == Seq::<Seq<u8>>::empty(),
            r.capacity() == capacity,
    {
        Dispatcher { router: KeyRouter::new(capacity) }
    }

    /// The number of bound slots.
    pub fn len(&self) -> (r: usize)
        ensures
            r == self.keys().len(),
    {
        self.router.len()
    }

    /// The key bound to `slot`.
    pub fn key_at(&self, slot: usize) -> (r: &Vec<u8>)
        requires
            slot < self.keys().len(),
        ensures
            r@ == self.keys()[slot as int],
    {
        self.router.key_at(slot)
    }

    /// Reads one line: `None` for a line without delimiter, otherwise the slot
    /// of its key (bound now if the key is new) and its sample.
    pub fn dispatch(&mut self, line: &[u8]) -> (r: Result<Option<(usize, i64)>, RunError>)
        requires
            old(self).wf(),
        ensures
            final(self).wf(),
            final(self).capacity() == old(self).capacity(),
            match r {
                Ok(routed) => {
                    &&& dispatch_step(old(self).keys(), old(self).capacity(), line@) == Ok::<Seq<Seq<u8>>, RunError>(
                        final(self).keys(),
                    )
                    &&& match routed {
                        None => line_view(line@) is Skipped,
                        Some((slot, v)) => {
                            &&& slot < final(self).keys().len()
                            &&& line_view(line@) == LineView::Record(
                                final(self).keys()[slot as int],
                                v as int,
                            )
                        },
                    }
                },
                Err(e) => {
                    &&& dispatch_step(old(self).keys(), old(self).capacity(), line@) == Err::<Seq<Seq<u8>>, RunError>(e)
                    &&& final(self).keys() == old(self).keys()
                },
            },
    {
        match parse_line(line) {
            Err(LineError::MissingDelimiter) => Ok(None),
            Err(LineError::MalformedValue) => Err(RunError::MalformedValue),
            Ok(rec) => match self.router.resolve(rec.key.as_slice()) {
                Ok(slot) => Ok(Some((slot, rec.value))),
                Err(_) => Err(RunError::CapacityExceeded),
            },
        }
    }
}

proof fn lemma_unbound_key_has_no_samples(lines: Seq<Seq<u8>>, capacity: nat, key: Seq<u8>)
    requires
        keys_after(lines, capacity) is Ok,
        !keys_after(lines, capacity)->Ok_0.contains(key),
    ensures
        samples_for(lines, key) == Seq::<int>::empty(),
    decreases lines.len(),
{
    if lines.len() > 0 {
        let keys = keys_after(lines.drop_last(), capacity)->Ok_0;
        let next = keys_after(lines, capacity)->Ok_0;
        match line_view(lines.last()) {
            LineView::Record(k, _) => {
                if keys.contains(key) {
                    let j = choose|j: int| 0 <= j < keys.len() && keys[j] == key;
                    if !keys.contains(k) {
                        assert(next[j] == key);
                    }
                }
                if k == key {
                    if !keys.contains(k) {
                        assert(next[keys.len() as int] == key);
                    }
                }
            },
            _ => {},
        }
        lemma_unbound_key_has_no_samples(lines.drop_last(), capacity, key);
    }
}

/// Runs the whole pipeline over `lines` with `capacity` worker slots: every
/// record goes to its key's aggregator in input order, then every bound slot
/// is finished and its summary collected.
pub fn run(lines: &Vec<Vec<u8>>, capacity: usize) -> (r: Result<ResultMapping, RunError>)
    ensures
        is_run_outcome(lines_view(lines@), capacity as nat, r),
{
    let ghost all = lines_view(lines@);
    let mut dispatcher = Dispatcher::new(capacity);
    let mut workers: Vec<Aggregator> = Vec::new();
    let mut i: usize = 0;
    assert(all.take(0) =~= Seq::<Seq<u8>>::empty());
    while i < lines.len()
        invariant
            0 <= i <= lines@.len(),
            all == lines_view(lines@),
            dispatcher.wf(),
            dispatcher.capacity() == capacity,
            keys_after(all.take(i as int), capacity as nat) == Ok::<Seq<Seq<u8>>, RunError>(dispatcher.keys()),
            workers@.len() == dispatcher.keys().len(),
            forall|s: int|
                0 <= s < workers@.len() ==> {
                    &&& (#[trigger] workers@[s]).wf()
                    &&& !workers@[s].is_finished()
                    &&& workers@[s].samples() == samples_for(
                        all.take(i as int),
                        dispatcher.keys()[s],
                    )
                    &&& 1 <= workers@[s].samples().len() <= i
                },
        decreases lines@.len() - i,
    {
        let ghost before = all.take(i as int);
        let ghost after = all.take(i + 1);
        let ghost old_keys = dispatcher.keys();
        let ghost old_workers = workers@;
        assert(after.drop_last() =~= before);
        assert(after.last() == lines@[i as int]@);
        match dispatcher.dispatch(lines[i].as_slice()) {
            Err(e) => {
                proof {
                    lemma_keys_after_error_sticks(all, capacity as nat, i + 1);
                }
                return Err(e);
            },
            Ok(None) => {
                assert forall|s: int| 0 <= s < workers@.len() implies workers@[s].samples()
                    == samples_for(after, dispatcher.keys()[s]) by {}
            },
            Ok(Some((slot, v))) => {
                if slot == workers.len() {
                    proof {
                        assert(!old_keys.contains(dispatcher.keys()[slot as int])) by {
                            if old_keys.contains(dispatcher.keys()[slot as int]) {
                                assert(dispatcher.keys() == old_keys);
                            }
                        }
                        lemma_unbound_key_has_no_samples(
                            before,
                            capacity as nat,
                            dispatcher.keys()[slot as int],
                        );
                    }
                    workers.push(Aggregator::new());
                }
                assert(workers@[slot as int].samples().len() <= i);
                workers[slot].handle(Message::Sample(v));
                assert forall|s: int| 0 <= s < workers@.len() implies {
                    &&& (#[trigger] workers@[s]).wf()
                    &&& !workers@[s].is_finished()
                    &&& workers@[s].samples() == samples_for(after, dispatcher.keys()[s])
                    &&& 1 <= workers@[s].samples().len() <= i + 1
                } by {
                    if s != slot {
                        assert(dispatcher.keys()[s] != dispatcher.keys()[slot as int]);
                        assert(s < old_workers.len());
                        assert(old_keys[s] == dispatcher.keys()[s]) by {
                            if !old_keys.contains(dispatcher.keys()[slot as int]) {
                                assert(dispatcher.keys() =~= old_keys.push(
                                    dispatcher.keys()[slot as int],
                                ));
                            }
                        }
                    }
                }
            },
        }
        i = i + 1;
    }
    assert(all.take(i as int) =~= all);
    let mut mapping = ResultMapping::new();
    let mut s: usize = 0;
    while s < workers.len()
        invariant
            0 <= s <= workers@.len(),
            workers@.len() == dispatcher.keys().len(),
            distinct(dispatcher.keys()),
            mapping.wf(),
            mapping.keys() == dispatcher.keys().take(s as int),
            forall|t: int|
                0 <= t < s ==> summarizes(
                    #[trigger] mapping.summaries()[t],
                    samples_for(all, dispatcher.keys()[t]),
                ),
            forall|t: int|
                s <= t < workers@.len() ==> {
                    &&& (#[trigger] workers@[t]).wf()
                    &&& !workers@[t].is_finished()
                    &&& workers@[t].samples() == samples_for(all, dispatcher.keys()[t])
                    &&& 1 <= workers@[t].samples().len()
                },
        decreases workers@.len() - s,
    {
        let out = workers[s].handle(Message::Finish);
        if let Some(FinalStats::Defined(sm)) = out {
            let key = dispatcher.key_at(s);
            assert(!mapping.keys().contains(key@)) by {
                if mapping.keys().contains(key@) {
                    let j = choose|j: int| 0 <= j < mapping.keys().len() && mapping.keys()[j] == key@;
                    assert(dispatcher.keys()[j] == dispatcher.keys()[s as int]);
                }
            }
            mapping.push(key.as_slice(), sm);
            assert(mapping.keys() =~= dispatcher.keys().take(s + 1));
        } else {
            assert(false);
        }
        s = s + 1;
    }
    assert(mapping.keys() =~= dispatcher.keys());
    Ok(mapping)
}

proof fn lemma_keys_after_error_sticks(lines: Seq<Seq<u8>>, capacity: nat, n: int)
    requires
        0 <= n <= lines.len(),
        keys_after(lines.take(n), capacity) is Err,
    ensures
        keys_after(lines, capacity) == keys_after(lines.take(n), capacity),
    decreases lines.len(),
{
    if n == lines.len() {
        assert(lines.take(n) =~= lines);
    } else {
        assert(lines.drop_last().take(n) =~= lines.take(n));
        lemma_keys_after_error_sticks(lines.drop_last(), capacity, n);
    }
}

} // verus!
