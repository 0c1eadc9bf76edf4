//! Properties of a whole run, stated over its outcome.
use vstd::prelude::*;
use crate::aggregator::{seq_max, seq_min, seq_sum, summarizes};
use crate::pipeline::{ResultMapping, RunError, is_run_outcome, keys_after, samples_for};
use crate::record::{LineView, line_view};

verus! {

/// The key of a line that holds a record.
pub open spec fn key_of_line(line: Seq<u8>) -> Option<Seq<u8>> {
    match line_view(line) {
        LineView::Record(k, _) => Some(k),
        _ => None,
    }
}

/// The keys of all records among `lines`.
pub open spec fn recorded_keys(lines: Seq<Seq<u8>>) -> Set<Seq<u8>>
    decreases lines.len(),
{
    if lines.len() == 0 {
        Set::empty()
    } else {
        match key_of_line(lines.last()) {
            Some(k) => recorded_keys(lines.drop_last()).insert(k),
            None => recorded_keys(lines.drop_last()),
        }
    }
}

/// Some line of `lines` is a record of `key`.
pub open spec fn appears(lines: Seq<Seq<u8>>, key: Seq<u8>) -> bool {
    exists|i: int| 0 <= i < lines.len() && #[trigger] key_of_line(lines[i]) == Some(key)
}

/// No line of `lines` has a value text that is no sample.
pub open spec fn no_malformed(lines: Seq<Seq<u8>>) -> bool {
    forall|i: int| 0 <= i < lines.len() ==> !(#[trigger] line_view(lines[i]) is Malformed)
}

proof fn lemma_recorded_keys_appear(lines: Seq<Seq<u8>>)
    ensures
        recorded_keys(lines).finite(),
        forall|k: Seq<u8>| #[trigger] recorded_keys(lines).contains(k) <==> appears(lines, k),
    decreases lines.len(),
{
    if lines.len() > 0 {
        let prev = lines.drop_last();
        lemma_recorded_keys_appear(prev);
        assert forall|k: Seq<u8>| #[trigger] recorded_keys(lines).contains(k) <==> appears(
            lines,
            k,
        ) by {
            if appears(lines, k) {
                let i = choose|i: int| 0 <= i < lines.len() && #[trigger] key_of_line(lines[i]) == Some(k);
                if i < prev.len() {
                    assert(key_of_line(prev[i]) == Some(k));
                }
            }
            if appears(prev, k) {
                let i = choose|i: int| 0 <= i < prev.len() && #[trigger] key_of_line(prev[i]) == Some(k);
                assert(key_of_line(lines[i]) == Some(k));
            }
            if key_of_line(lines.last()) == Some(k) {
                assert(key_of_line(lines[lines.len() - 1]) == Some(k));
            }
        }
    }
}

/// How the keys bound by dispatching relate to the keys recorded in the input.
proof fn lemma_keys_after_recorded(lines: Seq<Seq<u8>>, capacity: nat)
    ensures
        recorded_keys(lines).finite(),
        match keys_after(lines, capacity) {
            Ok(keys) => {
                &&& forall|k: Seq<u8>| #[trigger] keys.contains(k) <==> recorded_keys(lines).contains(k)
                &&& keys.len() == recorded_keys(lines).len()
                &&& keys.len() <= capacity
            },
            Err(RunError::CapacityExceeded) => recorded_keys(lines).len() > capacity,
            Err(RunError::MalformedValue) => !no_malformed(lines),
        },
    decreases lines.len(),
{
    if lines.len() > 0 {
        let prev = lines.drop_last();
        let last = lines.last();
        lemma_keys_after_recorded(prev, capacity);
        lemma_recorded_keys_appear(prev);
        let set = recorded_keys(prev);
        match keys_after(prev, capacity) {
            Ok(keys) => {
                match line_view(last) {
                    LineView::Record(k, _) => {
                        if keys.contains(k) {
                            assert(set.insert(k) =~= set);
                        } else if keys.len() < capacity {
                            let next = keys.push(k);
                            assert forall|x: Seq<u8>| #[trigger] next.contains(x) <==> set.insert(
                                k,
                            ).contains(x) by {
                                if keys.contains(x) {
                                    let j = choose|j: int| 0 <= j < keys.len() && keys[j] == x;
                                    assert(next[j] == x);
                                }
                                if x == k {
                                    assert(next[keys.len() as int] == x);
                                }
                                if next.contains(x) && x != k {
                                    let j = choose|j: int| 0 <= j < next.len() && next[j] == x;
                                    assert(keys[j] == x);
                                }
                            }
                        }
                    },
                    LineView::Malformed => {
                        assert(line_view(lines[lines.len() - 1]) is Malformed);
                    },
                    LineView::Skipped => {},
                }
            },
            Err(e) => {
                if e is MalformedValue {
                    let i = choose|i: int| 0 <= i < prev.len() && #[trigger] line_view(prev[i]) is Malformed;
                    assert(line_view(lines[i]) is Malformed);
                } else {
                    match key_of_line(last) {
                        Some(k) => {
                            vstd::set_lib::lemma_len_subset(set, set.insert(k));
                        },
                        None => {},
                    }
                }
            },
        }
    }
}

proof fn lemma_min_max_bound(s: Seq<int>, i: int)
    requires
        0 <= i < s.len(),
    ensures
        seq_min(s) <= s[i] <= seq_max(s),
    decreases s.len(),
{
    if s.len() > 1 && i < s.len() - 1 {
        lemma_min_max_bound(s.drop_last(), i);
    }
}

/// Every sample of a reported key lies between the minimum and the maximum
/// reported for that key.
pub proof fn law_samples_within_min_max(
    lines: Seq<Seq<u8>>,
    capacity: nat,
    m: ResultMapping,
    key: Seq<u8>,
    i: int,
)
    requires
        is_run_outcome(lines, capacity, Ok(m)),
        m.summary_of(key) is Some,
        0 <= i < samples_for(lines, key).len(),
    ensures
        m.summary_of(key)->0.min <= samples_for(lines, key)[i] <= m.summary_of(key)->0.max,
{
    let s = m.keys().index_of(key);
    assert(summarizes(m.summaries()[s], samples_for(lines, m.keys()[s])));
    lemma_min_max_bound(samples_for(lines, key), i);
}

/// The reported sum and count of a key are the sum and the number of its
/// samples, so the mean `sum / count` is their arithmetic mean.
pub proof fn law_mean_is_sum_over_count(
    lines: Seq<Seq<u8>>,
    capacity: nat,
    m: ResultMapping,
    key: Seq<u8>,
)
    requires
        is_run_outcome(lines, capacity, Ok(m)),
        m.summary_of(key) is Some,
    ensures
        m.summary_of(key)->0.sum == seq_sum(samples_for(lines, key)),
        m.summary_of(key)->0.count == samples_for(lines, key).len(),
        samples_for(lines, key).len() >= 1,
{
    let s = m.keys().index_of(key);
    assert(summarizes(m.summaries()[s], samples_for(lines, m.keys()[s])));
}

/// The keys of a successful run are exactly the keys of the input's records,
/// whatever their order.
pub proof fn law_keys_are_recorded_keys(
    lines: Seq<Seq<u8>>,
    capacity: nat,
    m: ResultMapping,
    key: Seq<u8>,
)
    requires
        is_run_outcome(lines, capacity, Ok(m)),
    ensures
        m.summary_of(key) is Some <==> appears(lines, key),
{
    lemma_keys_after_recorded(lines, capacity);
    lemma_recorded_keys_appear(lines);
    assert(recorded_keys(lines).contains(key) <==> appears(lines, key));
    assert(m.keys().contains(key) <==> recorded_keys(lines).contains(key));
}

/// Two runs over the same input with the same capacity yield the same outcome.
pub proof fn law_runs_agree(
    lines: Seq<Seq<u8>>,
    capacity: nat,
    r1: Result<ResultMapping, RunError>,
    r2: Result<ResultMapping, RunError>,
)
    requires
        is_run_outcome(lines, capacity, r1),
        is_run_outcome(lines, capacity, r2),
    ensures
        match (r1, r2) {
            (Ok(a), Ok(b)) => a.keys() == b.keys() && a.summaries() == b.summaries(),
            (Err(a), Err(b)) => a == b,
            _ => false,
        },
{
    match (r1, r2) {
        (Ok(a), Ok(b)) => {
            assert forall|s: int| 0 <= s < a.summaries().len() implies a.summaries()[s]
                == b.summaries()[s] by {
                assert(summarizes(a.summaries()[s], samples_for(lines, a.keys()[s])));
                assert(summarizes(b.summaries()[s], samples_for(lines, b.keys()[s])));
            }
            assert(a.summaries() =~= b.summaries());
        },
        _ => {},
    }
}

/// With no malformed value in the input, a run succeeds exactly when the
/// number of distinct keys is at most the capacity, and otherwise fails with
/// `CapacityExceeded`.
pub proof fn law_capacity_boundary(
    lines: Seq<Seq<u8>>,
    capacity: nat,
    r: Result<ResultMapping, RunError>,
)
    requires
        no_malformed(lines),
        is_run_outcome(lines, capacity, r),
    ensures
        recorded_keys(lines).finite(),
        recorded_keys(lines).len() <= capacity ==> r is Ok,
        recorded_keys(lines).len() > capacity ==> r == Err::<ResultMapping, RunError>(
            RunError::CapacityExceeded,
        ),
{
    lemma_keys_after_recorded(lines, capacity);
}

proof fn lemma_skipped_line_ignored(
    a: Seq<Seq<u8>>,
    line: Seq<u8>,
    b: Seq<Seq<u8>>,
    capacity: nat,
    key: Seq<u8>,
)
    requires
        line_view(line) is Skipped,
    ensures
        keys_after(a.push(line) + b, capacity) == keys_after(a + b, capacity),
        samples_for(a.push(line) + b, key) == samples_for(a + b, key),
    decreases b.len(),
{
    if b.len() == 0 {
        assert(a.push(line) + b =~= a.push(line));
        assert(a + b =~= a);
        assert(a.push(line).drop_last() =~= a);
    } else {
        lemma_skipped_line_ignored(a, line, b.drop_last(), capacity, key);
        assert((a.push(line) + b).drop_last() =~= a.push(line) + b.drop_last());
        assert((a + b).drop_last() =~= a + b.drop_last());
        assert((a.push(line) + b).last() == b.last());
        assert((a + b).last() == b.last());
    }
}

/// A line without delimiter, inserted anywhere in the input, leaves the
/// outcome of a run unchanged.
pub proof fn law_skipped_line_ignored(
    a: Seq<Seq<u8>>,
    line: Seq<u8>,
    b: Seq<Seq<u8>>,
    capacity: nat,
    with_line: Result<ResultMapping, RunError>,
    without_line: Result<ResultMapping, RunError>,
)
    requires
        line_view(line) is Skipped,
        is_run_outcome(a.push(line) + b, capacity, with_line),
        is_run_outcome(a + b, capacity, without_line),
    ensures
        match (with_line, without_line) {
            (Ok(x), Ok(y)) => x.keys() == y.keys() && x.summaries() == y.summaries(),
            (Err(x), Err(y)) => x == y,
            _ => false,
        },
{
    lemma_skipped_line_ignored(a, line, b, capacity, Seq::empty());
    match (with_line, without_line) {
        (Ok(x), Ok(y)) => {
            assert forall|s: int| 0 <= s < x.summaries().len() implies x.summaries()[s]
                == y.summaries()[s] by {
                lemma_skipped_line_ignored(a, line, b, capacity, x.keys()[s]);
                assert(summarizes(x.summaries()[s], samples_for(a.push(line) + b, x.keys()[s])));
                assert(summarizes(y.summaries()[s], samples_for(a + b, y.keys()[s])));
            }
            assert(x.summaries() =~= y.summaries());
        },
        _ => {},
    }
}

} // verus!
