use crate::record::Sequenced;
use crate::sink::{
    is_drain, lemma_accept_preserves_wf, lemma_drain_of_nothing, lemma_ready_count, ready_count,
    SinkState,
};
use vstd::prelude::*;
use vstd::set_lib::{lemma_int_range, lemma_len_subset, lemma_subset_equality, set_int_range};

verus! {

/// The state of a fresh sink after the items of `arrivals` came in one after
/// another, and everything it handed out on the way, in the order it left.
pub open spec fn run<T>(arrivals: Seq<Sequenced<T>>) -> (SinkState<T>, Seq<Sequenced<T>>)
    decreases arrivals.len(),
{
    if arrivals.len() == 0 {
        (SinkState::initial(), Seq::empty())
    } else {
        let (state, out) = run(arrivals.drop_last());
        (state.after_accept(arrivals.last()), out + state.released(arrivals.last()))
    }
}

/// Whether some item of `arrivals` carries the sequence number `n`.
pub open spec fn carries<T>(arrivals: Seq<Sequenced<T>>, n: u64) -> bool {
    exists|j: int| 0 <= j < arrivals.len() && (#[trigger] arrivals[j]).sequence == n
}

/// No two items carry the same sequence number, and none carries the
/// largest 64-bit number.
pub open spec fn distinct_sequences<T>(arrivals: Seq<Sequenced<T>>) -> bool {
    &&& forall|i: int, j: int|
        0 <= i < j < arrivals.len() ==> (#[trigger] arrivals[i]).sequence != (
        #[trigger] arrivals[j]).sequence
    &&& forall|j: int| 0 <= j < arrivals.len() ==> (#[trigger] arrivals[j]).sequence < u64::MAX
}

/// The items carry the sequence numbers `0 .. arrivals.len()`, each exactly
/// once, in whatever order: no number occurs twice, and none is as large as
/// the number of items.
pub open spec fn is_arrival_order<T>(arrivals: Seq<Sequenced<T>>) -> bool {
    &&& distinct_sequences(arrivals)
    &&& forall|j: int| 0 <= j < arrivals.len() ==> (#[trigger] arrivals[j]).sequence < arrivals.len()
}

/// In an arrival order every sequence number below the number of items is
/// carried by some item.
pub proof fn lemma_every_number_arrives<T>(arrivals: Seq<Sequenced<T>>)
    requires
        is_arrival_order(arrivals),
    ensures
        forall|n: u64| n < arrivals.len() ==> #[trigger] carries(arrivals, n),
{
    let count = arrivals.len() as int;
    let numbers = Seq::new(arrivals.len(), |j: int| arrivals[j].sequence as int);
    assert(numbers.no_duplicates()) by {
        assert forall|i: int, j: int|
            0 <= i < numbers.len() && 0 <= j < numbers.len() && i != j implies numbers[i]
            != numbers[j] by {
            if i < j {
                assert(arrivals[i].sequence != arrivals[j].sequence);
            } else {
                assert(arrivals[j].sequence != arrivals[i].sequence);
            }
        }
    }
    numbers.unique_seq_to_set();
    lemma_int_range(0, count);
    assert(numbers.to_set().subset_of(set_int_range(0, count))) by {
        assert forall|n: int| numbers.to_set().contains(n) implies set_int_range(
            0,
            count,
        ).contains(n) by {
            let j = choose|j: int| 0 <= j < numbers.len() && numbers[j] == n;
            assert(arrivals[j].sequence < arrivals.len());
        }
    }
    lemma_len_subset(numbers.to_set(), set_int_range(0, count));
    lemma_subset_equality(numbers.to_set(), set_int_range(0, count));
    assert forall|n: u64| n < arrivals.len() implies #[trigger] carries(arrivals, n) by {
        assert(set_int_range(0, count).contains(n as int));
        assert(numbers.to_set().contains(n as int));
        let j = choose|j: int| 0 <= j < numbers.len() && numbers[j] == n as int;
        assert(arrivals[j].sequence == n);
    }
}

/// What holds of a sink and its output after any arrivals with distinct
/// sequence numbers: the output is the unbroken run of sequence numbers from
/// 0, each with the item that arrived under it, and every other arrival is
/// waiting under its number.
pub open spec fn ordered_so_far<T>(
    arrivals: Seq<Sequenced<T>>,
    state: SinkState<T>,
    out: Seq<Sequenced<T>>,
) -> bool {
    &&& state.wf()
    &&& !state.stopped
    &&& out.len() == state.next_expected
    &&& forall|i: int|
        0 <= i < out.len() ==> (#[trigger] out[i]).sequence == i && arrivals.contains(out[i])
    &&& forall|j: int|
        0 <= j < arrivals.len() ==> (#[trigger] arrivals[j]).sequence < state.next_expected || (
        state.pending.contains_key(arrivals[j].sequence) && state.pending[arrivals[j].sequence]
            == arrivals[j].item)
    &&& forall|k: u64| #[trigger] state.pending.contains_key(k) ==> carries(arrivals, k)
}

/// Whatever the order of arrival, as long as sequence numbers are distinct:
/// each arrival is one the sink admits, and the sink has handed out, in
/// order and without a gap, the items numbered from 0 up to its next
/// expected number, and holds the rest.
pub proof fn lemma_run_is_ordered<T>(arrivals: Seq<Sequenced<T>>)
    requires
        distinct_sequences(arrivals),
    ensures
        ordered_so_far(arrivals, run(arrivals).0, run(arrivals).1),
        arrivals.len() > 0 ==> run(arrivals.drop_last()).0.wf() && run(arrivals.drop_last()).0.admits(
            arrivals.last().sequence,
        ),
    decreases arrivals.len(),
{
    if arrivals.len() > 0 {
        let prefix = arrivals.drop_last();
        let rec = arrivals.last();
        let last = arrivals.len() - 1;
        assert forall|j: int| 0 <= j < prefix.len() implies prefix[j] == arrivals[j] by {}
        lemma_run_is_ordered(prefix);
        let (state, out) = run(prefix);
        let (after, out_after) = run(arrivals);
        assert(arrivals[last] == rec);

        assert(state.admits(rec.sequence)) by {
            if rec.sequence < state.next_expected {
                let held = out[rec.sequence as int];
                assert(prefix.contains(held));
                let j = choose|j: int| 0 <= j < prefix.len() && prefix[j] == held;
                assert(arrivals[j].sequence == arrivals[last].sequence);
            }
            if state.pending.contains_key(rec.sequence) {
                assert(carries(prefix, rec.sequence));
                let j = choose|j: int| 0 <= j < prefix.len() && prefix[j].sequence == rec.sequence;
                assert(arrivals[j].sequence == arrivals[last].sequence);
            }
        }
        lemma_accept_preserves_wf(state, rec);

        assert forall|k: u64| #[trigger] after.pending.contains_key(k) implies carries(
            arrivals,
            k,
        ) by {
            if k == rec.sequence {
                assert(arrivals[last].sequence == k);
            } else {
                assert(state.pending.contains_key(k));
                assert(carries(prefix, k));
                let j = choose|j: int| 0 <= j < prefix.len() && prefix[j].sequence == k;
                assert(arrivals[j].sequence == k);
            }
        }

        if rec.sequence != state.next_expected {
            assert(out_after =~= out);
            assert forall|i: int| 0 <= i < out_after.len() implies (#[trigger] out_after[i]).sequence
                == i && arrivals.contains(out_after[i]) by {
                assert(prefix.contains(out[i]));
                let j = choose|j: int| 0 <= j < prefix.len() && prefix[j] == out[i];
                assert(arrivals[j] == out[i]);
            }
            assert forall|j: int| 0 <= j < arrivals.len() implies (#[trigger] arrivals[j]).sequence
                < after.next_expected || (after.pending.contains_key(arrivals[j].sequence)
                && after.pending[arrivals[j].sequence] == arrivals[j].item) by {
                if j < last {
                    assert(prefix[j] == arrivals[j]);
                    assert(arrivals[j].sequence != arrivals[last].sequence);
                }
            }
        } else {
            let first = rec.sequence;
            let run_len = ready_count(state.pending, first + 1);
            lemma_ready_count(state.pending, first + 1);
            let tail = Seq::new(
                run_len,
                |i: int|
                    Sequenced {
                        sequence: (first + 1 + i) as u64,
                        item: state.pending[(first + 1 + i) as u64],
                    },
            );
            assert(out_after =~= out + (seq![rec] + tail));
            assert forall|i: int| 0 <= i < out_after.len() implies (#[trigger] out_after[i]).sequence
                == i && arrivals.contains(out_after[i]) by {
                if i < out.len() {
                    assert(out_after[i] == out[i]);
                    assert(prefix.contains(out[i]));
                    let j = choose|j: int| 0 <= j < prefix.len() && prefix[j] == out[i];
                    assert(arrivals[j] == out[i]);
                } else if i == out.len() {
                    assert(out_after[i] == rec);
                    assert(arrivals[last] == rec);
                } else {
                    let key = i as u64;
                    assert(out_after[i] == tail[i - out.len() - 1]);
                    assert(state.pending.contains_key(key));
                    assert(carries(prefix, key));
                    let j = choose|j: int| 0 <= j < prefix.len() && prefix[j].sequence == key;
                    assert(prefix[j] == arrivals[j]);
                    assert(state.pending[key] == prefix[j].item);
                    assert(out_after[i].sequence == key);
                    assert(out_after[i].item == arrivals[j].item);
                    assert(out_after[i] == arrivals[j]);
                }
            }
            assert forall|j: int| 0 <= j < arrivals.len() implies (#[trigger] arrivals[j]).sequence
                < after.next_expected || (after.pending.contains_key(arrivals[j].sequence)
                && after.pending[arrivals[j].sequence] == arrivals[j].item) by {
                if j < last {
                    assert(prefix[j] == arrivals[j]);
                }
            }
        }
    }
}

/// Output order equals input order. When the items numbered
/// `0 .. arrivals.len()` arrive, each once and in any order, the sink hands
/// out every one of them, the item at output position `i` being the one
/// numbered `i`; nothing is left waiting and the next expected number is
/// the number of items.
pub proof fn lemma_output_order_is_input_order<T>(arrivals: Seq<Sequenced<T>>)
    requires
        is_arrival_order(arrivals),
    ensures
        run(arrivals).1.len() == arrivals.len(),
        forall|i: int|
            0 <= i < arrivals.len() ==> (#[trigger] run(arrivals).1[i]).sequence == i
                && arrivals.contains(run(arrivals).1[i]),
        run(arrivals).0.pending =~= Map::<u64, T>::empty(),
        run(arrivals).0.next_expected == arrivals.len(),
        run(arrivals).0.wf(),
        !run(arrivals).0.stopped,
{
    lemma_run_is_ordered(arrivals);
    lemma_every_number_arrives(arrivals);
    let (state, out) = run(arrivals);
    let next = state.next_expected;
    if next < arrivals.len() {
        assert(carries(arrivals, next));
        let j = choose|j: int| 0 <= j < arrivals.len() && arrivals[j].sequence == next;
        assert(state.pending.contains_key(arrivals[j].sequence));
    }
    if next > arrivals.len() {
        let held = out[arrivals.len() as int];
        assert(arrivals.contains(held));
        let j = choose|j: int| 0 <= j < arrivals.len() && arrivals[j] == held;
        assert(arrivals[j].sequence < arrivals.len());
    }
    assert forall|k: u64| !state.pending.contains_key(k) by {
        if state.pending.contains_key(k) {
            assert(carries(arrivals, k));
            let j = choose|j: int| 0 <= j < arrivals.len() && arrivals[j].sequence == k;
            assert(arrivals[j].sequence < arrivals.len());
        }
    }
}

/// The buffer drains fully. Once the items numbered `0 .. arrivals.len()`
/// have all arrived, in any order, nothing waits: the final flush hands out
/// nothing, and after it the sink holds nothing and expects the number of
/// items next.
pub proof fn lemma_buffer_drains_fully<T>(arrivals: Seq<Sequenced<T>>, rest: Seq<Sequenced<T>>)
    requires
        is_arrival_order(arrivals),
        is_drain(run(arrivals).0.pending, rest),
    ensures
        rest =~= Seq::<Sequenced<T>>::empty(),
        run(arrivals).0.after_finish().pending =~= Map::<u64, T>::empty(),
        run(arrivals).0.after_finish().next_expected == arrivals.len(),
{
    lemma_output_order_is_input_order(arrivals);
    lemma_drain_of_nothing(rest);
}

} // verus!
