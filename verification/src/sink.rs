use crate::error::PipelineError;
use crate::record::Sequenced;
use std::collections::BTreeMap;
use vstd::prelude::*;
use vstd::std_specs::btree::{group_btree_axioms, increasing_seq, spec_keys_iter};
use vstd::std_specs::cmp::OrdSpec;
use vstd::std_specs::iter::IteratorSpec;

verus! {

/// What a reassembly sink is at any moment: the sequence number it will
/// hand out next, the items that arrived early, keyed by their sequence
/// number, and whether the consumer has rejected a write.
pub struct SinkState<T> {
    pub next_expected: u64,
    pub pending: Map<u64, T>,
    pub stopped: bool,
}

/// How many consecutive sequence numbers, counted upwards from `from`, are
/// held in `pending`.
pub open spec fn ready_count<T>(pending: Map<u64, T>, from: int) -> nat
    decreases u64::MAX + 1 - from,
{
    if 0 <= from <= u64::MAX && pending.contains_key(from as u64) {
        1 + ready_count(pending, from + 1)
    } else {
        0
    }
}

/// `out` holds exactly the entries of `pending`, by ascending sequence number.
pub open spec fn is_drain<T>(pending: Map<u64, T>, out: Seq<Sequenced<T>>) -> bool {
    &&& forall|i: int, j: int| 0 <= i < j < out.len() ==> out[i].sequence < out[j].sequence
    &&& forall|i: int|
        0 <= i < out.len() ==> pending.contains_key(#[trigger] out[i].sequence) && out[i].item
            == pending[out[i].sequence]
    &&& forall|k: u64| #[trigger]
        pending.contains_key(k) ==> exists|i: int| 0 <= i < out.len() && out[i].sequence == k
}

impl<T> SinkState<T> {
    /// The state of a sink that has seen nothing.
    pub open spec fn initial() -> SinkState<T> {
        SinkState { next_expected: 0, pending: Map::empty(), stopped: false }
    }

    /// Every buffered item is waiting for an earlier one; a stopped sink
    /// holds nothing.
    pub open spec fn wf(self) -> bool {
        &&& forall|k: u64| #[trigger]
            self.pending.contains_key(k) ==> self.next_expected < k < u64::MAX
        &&& self.stopped ==> self.pending =~= Map::empty()
    }

    /// A sequence number the sink can take: not handed out yet, not waiting
    /// already, and below the largest 64-bit number.
    pub open spec fn admits(self, sequence: u64) -> bool {
        &&& self.next_expected <= sequence < u64::MAX
        &&& !self.pending.contains_key(sequence)
    }

    /// The items that leave when `rec` arrives: none if the sink is stopped
    /// or `rec` is early; otherwise `rec` and behind it the unbroken run of
    /// waiting items that follow it.
    pub open spec fn released(self, rec: Sequenced<T>) -> Seq<Sequenced<T>> {
        if self.stopped || rec.sequence != self.next_expected {
            Seq::empty()
        } else {
            seq![rec] + Seq::new(
                ready_count(self.pending, rec.sequence + 1),
                |i: int|
                    Sequenced {
                        sequence: (rec.sequence + 1 + i) as u64,
                        item: self.pending[(rec.sequence + 1 + i) as u64],
                    },
            )
        }
    }

    /// The state after `rec` has arrived.
    pub open spec fn after_accept(self, rec: Sequenced<T>) -> SinkState<T> {
        if self.stopped {
            self
        } else if rec.sequence != self.next_expected {
            SinkState { pending: self.pending.insert(rec.sequence, rec.item), ..self }
        } else {
            let run = ready_count(self.pending, rec.sequence + 1);
            SinkState {
                next_expected: (rec.sequence + 1 + run) as u64,
                pending: self.pending.remove_keys(
                    Set::new(|k: u64| rec.sequence < k <= rec.sequence + run),
                ),
                ..self
            }
        }
    }

    /// The state after every waiting item has been handed out.
    pub open spec fn after_finish(self) -> SinkState<T> {
        SinkState { pending: Map::empty(), ..self }
    }

    /// The state after the consumer rejected a write.
    pub open spec fn after_failure(self) -> SinkState<T> {
        SinkState { pending: Map::empty(), stopped: true, ..self }
    }
}

/// The run counted by `ready_count` is held in `pending`, and the number
/// just behind it is not.
pub proof fn lemma_ready_count<T>(pending: Map<u64, T>, from: int)
    requires
        0 <= from <= u64::MAX,
        forall|k: u64| #[trigger] pending.contains_key(k) ==> k < u64::MAX,
    ensures
        from + ready_count(pending, from) <= u64::MAX,
        forall|k: u64|
            from <= k < from + ready_count(pending, from) ==> #[trigger] pending.contains_key(k),
        !pending.contains_key((from + ready_count(pending, from)) as u64),
    decreases u64::MAX + 1 - from,
{
    if from <= u64::MAX && pending.contains_key(from as u64) {
        lemma_ready_count(pending, from + 1);
    }
}

/// Counting a run from `from` is counting `len` held numbers and then the
/// run behind them.
pub proof fn lemma_ready_count_split<T>(pending: Map<u64, T>, from: int, len: nat)
    requires
        0 <= from,
        from + len <= u64::MAX + 1,
        forall|k: u64| from <= k < from + len ==> #[trigger] pending.contains_key(k),
    ensures
        ready_count(pending, from) == len + ready_count(pending, from + len),
    decreases len,
{
    if len > 0 {
        assert(pending.contains_key(from as u64));
        lemma_ready_count_split(pending, from + 1, (len - 1) as nat);
    }
}

/// Draining a sink that holds nothing hands out nothing.
pub proof fn lemma_drain_of_nothing<T>(out: Seq<Sequenced<T>>)
    requires
        is_drain(Map::<u64, T>::empty(), out),
    ensures
        out =~= Seq::<Sequenced<T>>::empty(),
{
    if out.len() > 0 {
        assert(Map::<u64, T>::empty().contains_key(out[0].sequence));
    }
}

/// Accepting an admissible item keeps the state well formed: what waits is
/// still above the next expected sequence number.
pub proof fn lemma_accept_preserves_wf<T>(s: SinkState<T>, rec: Sequenced<T>)
    requires
        s.wf(),
        s.admits(rec.sequence),
    ensures
        s.after_accept(rec).wf(),
        s.after_accept(rec).next_expected == s.next_expected + s.released(rec).len(),
{
    if !s.stopped && rec.sequence == s.next_expected {
        lemma_ready_count(s.pending, rec.sequence + 1);
    }
}

/// What leaves and what stays when a running sink accepts an admissible
/// item: the items that leave carry the sequence numbers from the next
/// expected one upwards without a gap, each is the new item or one that was
/// waiting, and whatever does not leave is waiting afterwards.
pub proof fn lemma_released<T>(s: SinkState<T>, rec: Sequenced<T>)
    requires
        s.wf(),
        s.admits(rec.sequence),
        !s.stopped,
    ensures
        s.after_accept(rec).wf(),
        !s.after_accept(rec).stopped,
        s.after_accept(rec).next_expected == s.next_expected + s.released(rec).len(),
        forall|j: int|
            0 <= j < s.released(rec).len() ==> (#[trigger] s.released(rec)[j]).sequence
                == s.next_expected + j,
        forall|j: int|
            0 <= j < s.released(rec).len() ==> (#[trigger] s.released(rec)[j]) == rec || (
            s.pending.contains_key(s.released(rec)[j].sequence) && s.released(rec)[j].item
                == s.pending[s.released(rec)[j].sequence]),
        forall|k: u64| #[trigger]
            s.after_accept(rec).pending.contains_key(k) ==> (k == rec.sequence && s.after_accept(
                rec,
            ).pending[k] == rec.item) || (s.pending.contains_key(k) && s.after_accept(
                rec,
            ).pending[k] == s.pending[k]),
        forall|k: u64| #[trigger]
            s.pending.contains_key(k) ==> s.after_accept(rec).pending.contains_key(k)
                || s.next_expected <= k < s.after_accept(rec).next_expected,
        s.after_accept(rec).pending.contains_key(rec.sequence) || s.next_expected <= rec.sequence
            < s.after_accept(rec).next_expected,
{
    lemma_accept_preserves_wf(s, rec);
    if rec.sequence == s.next_expected {
        lemma_ready_count(s.pending, rec.sequence + 1);
    }
}

/// The reassembly sink. Items arrive in any order, each with the sequence
/// number it was given when it was read; the sink hands them out strictly
/// by ascending sequence number and keeps what arrives early.
pub struct ReassemblySink<T> {
    next_expected: u64,
    pending: BTreeMap<u64, T>,
    stopped: bool,
}

impl<T> View for ReassemblySink<T> {
    type V = SinkState<T>;

    closed spec fn view(&self) -> SinkState<T> {
        SinkState {
            next_expected: self.next_expected,
            pending: self.pending@,
            stopped: self.stopped,
        }
    }
}

/// The keys of `pending`, smallest first.
fn ascending_keys<T>(pending: &BTreeMap<u64, T>) -> (keys: Vec<u64>)
    ensures
        keys@.to_set() == pending@.dom(),
        forall|i: int, j: int| 0 <= i < j < keys@.len() ==> keys@[i] < keys@[j],
{
    broadcast use group_btree_axioms;
    broadcast use vstd::laws_cmp::group_laws_cmp;

    let mut keys: Vec<u64> = Vec::new();
    let ghost walk = spec_keys_iter(pending).remaining();
    for k in it: pending.keys()
        invariant
            it.seq() == walk,
            keys@.len() == it.index(),
            forall|i: int| 0 <= i < keys@.len() ==> keys@[i] == *walk[i],
    {
        keys.push(*k);
    }
    proof {
        assert(keys@ =~= walk.unref());
        assert(increasing_seq(walk));
        assert forall|i: int, j: int| 0 <= i < j < keys@.len() implies keys@[i] < keys@[j] by {
            assert(OrdSpec::cmp_spec(&walk[i], &walk[j]) is Less);
        }
    }
    keys
}

/// Whether `key` is held.
fn holds_key<T>(pending: &BTreeMap<u64, T>, key: u64) -> (held: bool)
    ensures
        held == pending@.contains_key(key),
{
    broadcast use group_btree_axioms;
    broadcast use vstd::laws_cmp::group_laws_cmp;

    pending.contains_key(&key)
}

/// Puts `item` under `key`.
fn put_key<T>(pending: &mut BTreeMap<u64, T>, key: u64, item: T)
    ensures
        final(pending)@ == old(pending)@.insert(key, item),
{
    broadcast use group_btree_axioms;
    broadcast use vstd::laws_cmp::group_laws_cmp;

    pending.insert(key, item);
}

/// Takes out what is held under `key`, if anything.
fn take_key<T>(pending: &mut BTreeMap<u64, T>, key: u64) -> (held: Option<T>)
    ensures
        final(pending)@ == old(pending)@.remove(key),
        old(pending)@.contains_key(key) ==> held == Some(old(pending)@[key]),
        !old(pending)@.contains_key(key) ==> held is None,
{
    broadcast use group_btree_axioms;
    broadcast use vstd::laws_cmp::group_laws_cmp;

    pending.remove(&key)
}

impl<T> ReassemblySink<T> {
    #[verifier::type_invariant]
    spec fn inv(self) -> bool {
        self@.wf()
    }

    /// A sink that expects sequence number 0 and holds nothing.
    pub fn new() -> (sink: Self)
        ensures
            sink@ == SinkState::<T>::initial(),
    {
        ReassemblySink { next_expected: 0, pending: BTreeMap::new(), stopped: false }
    }

    /// The sequence number that leaves next.
    pub fn next_expected(&self) -> (next: u64)
        ensures
            next == self@.next_expected,
    {
        self.next_expected
    }

    /// Whether the consumer has rejected a write.
    pub fn is_stopped(&self) -> (stopped: bool)
        ensures
            stopped == self@.stopped,
    {
        self.stopped
    }

    /// Whether an item with this sequence number is waiting.
    pub fn is_pending(&self, sequence: u64) -> (waiting: bool)
        ensures
            waiting == self@.pending.contains_key(sequence),
    {
        holds_key(&self.pending, sequence)
    }

    /// Whether nothing is waiting.
    pub fn is_drained(&self) -> (empty: bool)
        ensures
            empty == (self@.pending =~= Map::<u64, T>::empty()),
    {
        let empty = self.pending.is_empty();
        assert(self.pending@.is_empty() == (self.pending@ =~= Map::<u64, T>::empty()));
        empty
    }

    /// Whether `accept` may be called with this sequence number.
    pub fn admits(&self, sequence: u64) -> (ok: bool)
        ensures
            ok == self@.admits(sequence),
            self@.wf(),
    {
        proof {
            use_type_invariant(self);
        }
        self.next_expected <= sequence && sequence < u64::MAX && !self.is_pending(sequence)
    }

    /// Takes one item. An item that is not the next expected one is kept.
    /// The next expected one leaves at once, and with it every waiting item
    /// that follows it without a gap. A stopped sink drops what it is given.
    pub fn accept(&mut self, rec: Sequenced<T>) -> (batch: Vec<Sequenced<T>>)
        requires
            old(self)@.admits(rec.sequence),
        ensures
            batch@ == old(self)@.released(rec),
            final(self)@ == old(self)@.after_accept(rec),
            final(self)@.wf(),
    {
        proof {
            use_type_invariant(&*self);
            lemma_accept_preserves_wf(self@, rec);
        }
        let ghost before = self@;
        let mut batch: Vec<Sequenced<T>> = Vec::new();
        if self.stopped {
            return batch;
        }
        let mut pending: BTreeMap<u64, T> = BTreeMap::new();
        core::mem::swap(&mut self.pending, &mut pending);
        if rec.sequence != self.next_expected {
            put_key(&mut pending, rec.sequence, rec.item);
            core::mem::swap(&mut self.pending, &mut pending);
            return batch;
        }
        let first: u64 = rec.sequence;
        batch.push(rec);
        let mut next: u64 = first + 1;
        let mut held: Option<T> = take_key(&mut pending, next);
        while held.is_some()
            invariant
                first < next <= u64::MAX,
                before.wf(),
                before.next_expected == first,
                !before.stopped,
                self.next_expected == first,
                self.stopped == before.stopped,
                batch@ == seq![rec] + Seq::new(
                    (next - first - 1) as nat,
                    |i: int|
                        Sequenced {
                            sequence: (first + 1 + i) as u64,
                            item: before.pending[(first + 1 + i) as u64],
                        },
                ),
                forall|k: u64| first < k < next ==> #[trigger] before.pending.contains_key(k),
                held matches Some(item) ==> before.pending.contains_key(next) && item
                    == before.pending[next],
                held is None ==> !before.pending.contains_key(next),
                pending@ =~= before.pending.remove_keys(
                    Set::new(|k: u64| first < k < next + if held is Some { 1int } else { 0int }),
                ),
            decreases u64::MAX - next,
        {
            let item = held.unwrap();
            batch.push(Sequenced { sequence: next, item });
            next = next + 1;
            held = take_key(&mut pending, next);
        }
        proof {
            lemma_ready_count_split(before.pending, first + 1, (next - first - 1) as nat);
            assert(ready_count(before.pending, next as int) == 0);
            assert(ready_count(before.pending, first + 1) == next - first - 1);
            assert(Set::new(|k: u64| first < k < next) =~= Set::new(
                |k: u64| first < k <= first + ready_count(before.pending, first + 1),
            ));
        }
        core::mem::swap(&mut self.pending, &mut pending);
        self.next_expected = next;
        batch
    }

    /// Hands out every waiting item, smallest sequence number first, gaps or
    /// not. To be called when no more items will arrive.
    pub fn finish(&mut self) -> (rest: Vec<Sequenced<T>>)
        ensures
            is_drain(old(self)@.pending, rest@),
            final(self)@ == old(self)@.after_finish(),
            final(self)@.wf(),
    {
        proof {
            use_type_invariant(&*self);
        }
        let ghost before = self@;
        let mut pending: BTreeMap<u64, T> = BTreeMap::new();
        core::mem::swap(&mut self.pending, &mut pending);
        let keys = ascending_keys(&pending);
        let mut rest: Vec<Sequenced<T>> = Vec::new();
        let mut i: usize = 0;
        while i < keys.len()
            invariant
                i <= keys.len(),
                before.wf(),
                keys@.to_set() == before.pending.dom(),
                forall|a: int, b: int| 0 <= a < b < keys@.len() ==> keys@[a] < keys@[b],
                self.next_expected == before.next_expected,
                self.stopped == before.stopped,
                rest@.len() == i,
                forall|a: int|
                    0 <= a < i ==> (#[trigger] rest@[a]).sequence == keys@[a] && rest@[a].item
                        == before.pending[keys@[a]],
                self.pending@ =~= Map::<u64, T>::empty(),
                pending@ =~= before.pending.remove_keys(keys@.take(i as int).to_set()),
            decreases keys.len() - i,
        {
            let key: u64 = keys[i];
            proof {
                assert(keys@.to_set().contains(keys@[i as int]));
                assert(!keys@.take(i as int).to_set().contains(key)) by {
                    if keys@.take(i as int).contains(key) {
                        let a = choose|a: int|
                            0 <= a < keys@.take(i as int).len() && keys@.take(i as int)[a] == key;
                        assert(keys@[a] < keys@[i as int]);
                    }
                }
                assert(keys@.take(i + 1).to_set() =~= keys@.take(i as int).to_set().insert(key))
                    by {
                    assert(keys@.take(i + 1) =~= keys@.take(i as int).push(key));
                    keys@.take(i as int).lemma_push_to_set_commute(key);
                }
            }
            match take_key(&mut pending, key) {
                Some(item) => {
                    rest.push(Sequenced { sequence: key, item });
                },
                None => {},
            }
            i = i + 1;
        }
        proof {
            assert(keys@.take(keys@.len() as int) =~= keys@);
            assert forall|k: u64| #[trigger] before.pending.contains_key(k) implies exists|a: int|
                0 <= a < rest@.len() && rest@[a].sequence == k by {
                assert(keys@.to_set().contains(k));
                let a = choose|a: int| 0 <= a < keys@.len() && keys@[a] == k;
                assert(rest@[a].sequence == k);
            }
            assert forall|a: int| 0 <= a < rest@.len() implies before.pending.contains_key(
                #[trigger] rest@[a].sequence,
            ) && rest@[a].item == before.pending[rest@[a].sequence] by {
                assert(keys@.to_set().contains(keys@[a]));
            }
        }
        rest
    }

    /// Records that the consumer rejected the write of the item numbered
    /// `sequence`. The sink stops: what waits is discarded and whatever
    /// arrives afterwards is dropped.
    pub fn fail(&mut self, sequence: u64) -> (error: PipelineError)
        ensures
            error == (PipelineError::SinkError { sequence }),
            final(self)@ == old(self)@.after_failure(),
            final(self)@.wf(),
    {
        self.pending = BTreeMap::new();
        self.stopped = true;
        PipelineError::SinkError { sequence }
    }
}

} // verus!
