use crate::error::PipelineError;
use crate::names::NameTable;
use crate::record::{Alignment, Sequenced};
use crate::region::RegionIndex;
use crate::reorder::{carries, is_arrival_order, lemma_output_order_is_input_order, run};
use crate::sequencer::{Sequencer, SequencerAction, SourceEvent};
use crate::sink::{is_drain, lemma_released, ReassemblySink, SinkState};
use crate::transform::{rewrite, transform, QualityRule};
use vstd::prelude::*;

verus! {

/// After how many records a line of progress is due.
pub const PROGRESS_INTERVAL: u64 = 1_000_000;

/// Whether a line of progress is due at this count.
pub fn progress_due(count: u64) -> (due: bool)
    ensures
        due == (count % PROGRESS_INTERVAL == 0),
{
    count % PROGRESS_INTERVAL == 0
}

/// How many records were read, transformed and written.
#[derive(Clone, Copy, Debug, PartialEq, Eq, Structural)]
pub struct Totals {
    pub read: u64,
    pub transformed: u64,
    pub written: u64,
}

impl Totals {
    /// Whether every record that was read was transformed and written.
    pub open spec fn spec_is_balanced(self) -> bool {
        self.read == self.transformed && self.transformed == self.written
    }

    #[verifier::when_used_as_spec(spec_is_balanced)]
    pub fn is_balanced(self) -> (balanced: bool)
        ensures
            balanced == self.spec_is_balanced(),
    {
        self.read == self.transformed && self.transformed == self.written
    }
}

/// The coordinator's books: the three counters and the first error that
/// any stage reported.
#[derive(Clone, Copy, Debug)]
pub struct Coordinator {
    pub totals: Totals,
    pub first_error: Option<PipelineError>,
}

impl Coordinator {
    /// Books with nothing counted and no error.
    pub fn new() -> (books: Coordinator)
        ensures
            books.totals == (Totals { read: 0, transformed: 0, written: 0 }),
            books.first_error is None,
    {
        Coordinator { totals: Totals { read: 0, transformed: 0, written: 0 }, first_error: None }
    }

    /// Counts one record that was read.
    pub fn record_read(&mut self)
        requires
            old(self).totals.read < u64::MAX,
        ensures
            final(self).totals == (Totals { read: (old(self).totals.read + 1) as u64, ..old(self).totals }),
            final(self).first_error == old(self).first_error,
    {
        self.totals.read = self.totals.read + 1;
    }

    /// Counts one record that was transformed.
    pub fn record_transformed(&mut self)
        requires
            old(self).totals.transformed < u64::MAX,
        ensures
            final(self).totals == (Totals {
                transformed: (old(self).totals.transformed + 1) as u64,
                ..old(self).totals
            }),
            final(self).first_error == old(self).first_error,
    {
        self.totals.transformed = self.totals.transformed + 1;
    }

    /// Counts `count` records that were written.
    pub fn record_written(&mut self, count: usize)
        requires
            old(self).totals.written + count <= u64::MAX,
        ensures
            final(self).totals == (Totals {
                written: (old(self).totals.written + count) as u64,
                ..old(self).totals
            }),
            final(self).first_error == old(self).first_error,
    {
        self.totals.written = self.totals.written + count as u64;
    }

    /// Takes note of an error. Only the first one is kept.
    pub fn record_error(&mut self, error: PipelineError)
        ensures
            final(self).totals == old(self).totals,
            final(self).first_error == if old(self).first_error is Some {
                old(self).first_error
            } else {
                Some(error)
            },
    {
        if self.first_error.is_none() {
            self.first_error = Some(error);
        }
    }

    /// The result of the run once every stage has wound down: the first
    /// error if there was one, the totals otherwise.
    pub fn finish(&self) -> (outcome: Result<Totals, PipelineError>)
        ensures
            outcome == match self.first_error {
                Some(error) => Err::<Totals, PipelineError>(error),
                None => Ok(self.totals),
            },
    {
        match self.first_error {
            Some(error) => Err(error),
            None => Ok(self.totals),
        }
    }
}

/// Whether the source yields a well-shaped record at position `i`.
pub open spec fn shaped_at(source: Seq<SourceEvent<Alignment>>, i: int) -> bool {
    source[i] matches SourceEvent::Record(record) && record.is_well_shaped()
}

/// The record that the source yields at position `i`.
pub open spec fn record_at(source: Seq<SourceEvent<Alignment>>, i: int) -> Alignment {
    match source[i] {
        SourceEvent::Record(record) => record,
        _ => arbitrary(),
    }
}

/// How many of the first `upto` events are well-shaped records.
pub open spec fn shaped_count(source: Seq<SourceEvent<Alignment>>, upto: int) -> int
    decreases upto,
{
    if upto <= 0 {
        0
    } else {
        shaped_count(source, upto - 1) + if shaped_at(source, upto - 1) {
            1int
        } else {
            0int
        }
    }
}

/// How many records the source yields before it ends or fails: `read` is
/// the position of the first event that is no record, or the length.
pub open spec fn reads(source: Seq<SourceEvent<Alignment>>, read: int) -> bool {
    &&& 0 <= read <= source.len()
    &&& forall|i: int| 0 <= i < read ==> (#[trigger] source[i]) is Record
    &&& read < source.len() ==> !(source[read] is Record)
}

/// `emitted` is what leaves the pipeline when the first `read` events of
/// the source are records: the well-shaped ones among them, each under the
/// sequence number that is its position in the source, rewritten as the
/// rule says, by ascending sequence number, each exactly once.
pub open spec fn is_run_output(
    index: Map<Seq<char>, Set<(u64, u64)>>,
    names: Map<i32, Seq<char>>,
    rule: QualityRule,
    source: Seq<SourceEvent<Alignment>>,
    read: int,
    emitted: Seq<Sequenced<Alignment>>,
) -> bool {
    &&& forall|a: int, b: int|
        0 <= a < b < emitted.len() ==> (#[trigger] emitted[a]).sequence < (
        #[trigger] emitted[b]).sequence
    &&& forall|k: int|
        0 <= k < emitted.len() ==> (#[trigger] emitted[k]).sequence < read && shaped_at(
            source,
            emitted[k].sequence as int,
        ) && emitted[k].item == rewrite(
            index,
            names,
            rule,
            record_at(source, emitted[k].sequence as int),
        )
    &&& forall|i: u64| i < read && shaped_at(source, i as int) ==> #[trigger] carries(emitted, i)
}

/// The error that a run over the source reports: the first ill-shaped
/// record if there is one among the records read, else the decode failure
/// that ended the reading, else none.
pub open spec fn is_run_error(
    source: Seq<SourceEvent<Alignment>>,
    read: int,
    error: Option<PipelineError>,
) -> bool {
    match error {
        Some(PipelineError::RecordError { sequence }) => sequence < read && !shaped_at(
            source,
            sequence as int,
        ) && forall|i: int| 0 <= i < sequence ==> shaped_at(source, i),
        Some(PipelineError::SourceError { sequence }) => sequence == read && read < source.len()
            && source[read] is DecodeFailure && forall|i: int| 0 <= i < read ==> shaped_at(source, i),
        Some(_) => false,
        None => (read == source.len() || source[read] is Exhausted) && forall|i: int|
            0 <= i < read ==> shaped_at(source, i),
    }
}

/// What a run hands back.
pub struct RunOutcome {
    /// The records in the order in which they left.
    pub emitted: Vec<Sequenced<Alignment>>,
    pub totals: Totals,
    /// The first error that a stage reported.
    pub error: Option<PipelineError>,
}

/// The record of an event, if it is one.
fn record_of(event: &SourceEvent<Alignment>) -> (record: Option<Alignment>)
    ensures
        match record {
            Some(found) => *event == SourceEvent::Record(found),
            None => !(*event is Record),
        },
{
    match event {
        SourceEvent::Record(found) => Some(*found),
        _ => None,
    }
}

/// Whether an event is a decode failure.
fn is_failure(event: &SourceEvent<Alignment>) -> (failed: bool)
    ensures
        failed == (*event is DecodeFailure),
{
    match event {
        SourceEvent::DecodeFailure => true,
        _ => false,
    }
}

/// What holds in the middle of a run, when the first `at` events of the
/// source were records and have gone through the transform stage: what has
/// left and what waits in the sink are together the well-shaped records
/// among them, rewritten, each under its position; what has left is in
/// order and below the next expected number; and as long as no record was
/// ill-shaped, everything has left.
pub open spec fn in_step(
    index: Map<Seq<char>, Set<(u64, u64)>>,
    names: Map<i32, Seq<char>>,
    rule: QualityRule,
    source: Seq<SourceEvent<Alignment>>,
    at: int,
    sink: SinkState<Alignment>,
    emitted: Seq<Sequenced<Alignment>>,
) -> bool {
    &&& sink.wf()
    &&& !sink.stopped
    &&& sink.next_expected <= at
    &&& forall|a: int, b: int|
        0 <= a < b < emitted.len() ==> (#[trigger] emitted[a]).sequence < (
        #[trigger] emitted[b]).sequence
    &&& forall|k: int|
        0 <= k < emitted.len() ==> (#[trigger] emitted[k]).sequence < sink.next_expected
            && shaped_at(source, emitted[k].sequence as int) && emitted[k].item == rewrite(
            index,
            names,
            rule,
            record_at(source, emitted[k].sequence as int),
        )
    &&& forall|key: u64| #[trigger]
        sink.pending.contains_key(key) ==> key < at && shaped_at(source, key as int)
            && sink.pending[key] == rewrite(index, names, rule, record_at(source, key as int))
    &&& forall|i: u64|
        i < at && shaped_at(source, i as int) ==> #[trigger] carries(emitted, i)
            || sink.pending.contains_key(i)
    &&& (forall|i: int| 0 <= i < at ==> shaped_at(source, i)) ==> emitted.len() == at
        && sink.next_expected == at && forall|i: int|
        0 <= i < emitted.len() ==> (#[trigger] emitted[i]).sequence == i
}

/// A well-shaped record that was rewritten is one the sink admits, and what
/// the sink then hands out keeps the run in step.
proof fn lemma_step_accepted(
    index: Map<Seq<char>, Set<(u64, u64)>>,
    names: Map<i32, Seq<char>>,
    rule: QualityRule,
    source: Seq<SourceEvent<Alignment>>,
    at: int,
    sink: SinkState<Alignment>,
    emitted: Seq<Sequenced<Alignment>>,
    out: Sequenced<Alignment>,
)
    requires
        in_step(index, names, rule, source, at, sink, emitted),
        0 <= at < u64::MAX,
        shaped_at(source, at),
        out.sequence == at,
        out.item == rewrite(index, names, rule, record_at(source, at)),
    ensures
        sink.admits(out.sequence),
        in_step(
            index,
            names,
            rule,
            source,
            at + 1,
            sink.after_accept(out),
            emitted + sink.released(out),
        ),
{
    let left = sink.released(out);
    let after = sink.after_accept(out);
    let all = emitted + left;
    lemma_released(sink, out);
    assert forall|k: int| 0 <= k < all.len() implies (#[trigger] all[k]).sequence
        < after.next_expected && shaped_at(source, all[k].sequence as int) && all[k].item
        == rewrite(index, names, rule, record_at(source, all[k].sequence as int)) by {
        if k < emitted.len() {
            assert(all[k] == emitted[k]);
        } else {
            assert(all[k] == left[k - emitted.len()]);
        }
    }
    assert forall|a: int, b: int| 0 <= a < b < all.len() implies (#[trigger] all[a]).sequence < (
    #[trigger] all[b]).sequence by {
        if a < emitted.len() {
            assert(all[a] == emitted[a]);
        } else {
            assert(all[a] == left[a - emitted.len()]);
        }
        if b < emitted.len() {
            assert(all[b] == emitted[b]);
        } else {
            assert(all[b] == left[b - emitted.len()]);
        }
    }
    assert forall|i: u64| i < at + 1 && shaped_at(source, i as int) implies (#[trigger] carries(
        all,
        i,
    )) || after.pending.contains_key(i) by {
        if !after.pending.contains_key(i) {
            if i < at && carries(emitted, i) {
                let k = choose|k: int|
                    0 <= k < emitted.len() && (#[trigger] emitted[k]).sequence == i;
                assert(all[k].sequence == i);
            } else {
                assert(sink.pending.contains_key(i) || i == out.sequence);
                let j = i - sink.next_expected;
                assert(left[j].sequence == i);
                assert(all[emitted.len() + j].sequence == i);
            }
        }
    }
    if forall|i: int| 0 <= i < at + 1 ==> shaped_at(source, i) {
        if left.len() > 1 {
            assert(left[1].sequence == sink.next_expected + 1);
            assert(sink.pending.contains_key(left[1].sequence));
        }
        assert forall|i: int| 0 <= i < all.len() implies (#[trigger] all[i]).sequence == i by {
            if i < emitted.len() {
                assert(all[i] == emitted[i]);
            } else {
                assert(all[i] == left[i - emitted.len()]);
            }
        }
    }
}

/// A record that is ill-shaped is dropped, which leaves the run in step.
proof fn lemma_step_dropped(
    index: Map<Seq<char>, Set<(u64, u64)>>,
    names: Map<i32, Seq<char>>,
    rule: QualityRule,
    source: Seq<SourceEvent<Alignment>>,
    at: int,
    sink: SinkState<Alignment>,
    emitted: Seq<Sequenced<Alignment>>,
)
    requires
        in_step(index, names, rule, source, at, sink, emitted),
        !shaped_at(source, at),
    ensures
        in_step(index, names, rule, source, at + 1, sink, emitted),
{
}

/// When the source has no more records, draining the sink completes the
/// output of the run.
proof fn lemma_step_drained(
    index: Map<Seq<char>, Set<(u64, u64)>>,
    names: Map<i32, Seq<char>>,
    rule: QualityRule,
    source: Seq<SourceEvent<Alignment>>,
    at: int,
    sink: SinkState<Alignment>,
    emitted: Seq<Sequenced<Alignment>>,
    rest: Seq<Sequenced<Alignment>>,
)
    requires
        in_step(index, names, rule, source, at, sink, emitted),
        is_drain(sink.pending, rest),
    ensures
        is_run_output(index, names, rule, source, at, emitted + rest),
        (forall|i: int| 0 <= i < at ==> shaped_at(source, i)) ==> rest.len() == 0 && (emitted
            + rest).len() == at && forall|i: int|
            0 <= i < (emitted + rest).len() ==> (#[trigger] (emitted + rest)[i]).sequence == i,
{
    let all = emitted + rest;
    assert forall|k: int| 0 <= k < all.len() implies (#[trigger] all[k]).sequence < at
        && shaped_at(source, all[k].sequence as int) && all[k].item == rewrite(
        index,
        names,
        rule,
        record_at(source, all[k].sequence as int),
    ) by {
        if k < emitted.len() {
            assert(all[k] == emitted[k]);
        } else {
            assert(all[k] == rest[k - emitted.len()]);
            assert(sink.pending.contains_key(rest[k - emitted.len()].sequence));
        }
    }
    assert forall|a: int, b: int| 0 <= a < b < all.len() implies (#[trigger] all[a]).sequence < (
    #[trigger] all[b]).sequence by {
        if a < emitted.len() {
            assert(all[a] == emitted[a]);
        } else {
            assert(all[a] == rest[a - emitted.len()]);
            assert(sink.pending.contains_key(rest[a - emitted.len()].sequence));
        }
        if b < emitted.len() {
            assert(all[b] == emitted[b]);
        } else {
            assert(all[b] == rest[b - emitted.len()]);
            assert(sink.pending.contains_key(rest[b - emitted.len()].sequence));
        }
    }
    assert forall|i: u64| i < at && shaped_at(source, i as int) implies #[trigger] carries(
        all,
        i,
    ) by {
        if carries(emitted, i) {
            let k = choose|k: int| 0 <= k < emitted.len() && (#[trigger] emitted[k]).sequence == i;
            assert(all[k].sequence == i);
        } else {
            assert(sink.pending.contains_key(i));
            let j = choose|j: int| 0 <= j < rest.len() && rest[j].sequence == i;
            assert(all[emitted.len() + j].sequence == i);
        }
    }
    if forall|i: int| 0 <= i < at ==> shaped_at(source, i) {
        if rest.len() > 0 {
            assert(sink.pending.contains_key(rest[0].sequence));
        }
        assert(all =~= emitted);
    }
}

/// Runs the whole pipeline on one thread: the sequencer numbers the
/// records of the source until it ends or fails, each record goes through
/// the transform stage and into the reassembly sink, and the sink is
/// drained at the end. An ill-shaped record is dropped and reported; it
/// does not stop the run.
pub fn run_in_order(
    index: &RegionIndex,
    names: &NameTable,
    rule: &QualityRule,
    source: &Vec<SourceEvent<Alignment>>,
) -> (outcome: RunOutcome)
    ensures
        reads(source@, outcome.totals.read as int),
        is_run_output(index@, names@, *rule, source@, outcome.totals.read as int, outcome.emitted@),
        is_run_error(source@, outcome.totals.read as int, outcome.error),
        outcome.totals.transformed == shaped_count(source@, outcome.totals.read as int),
        outcome.totals.written == outcome.emitted@.len(),
        (forall|i: int| 0 <= i < outcome.totals.read ==> shaped_at(source@, i)) ==> {
            &&& outcome.totals.is_balanced()
            &&& outcome.emitted@.len() == outcome.totals.read
            &&& forall|i: int|
                0 <= i < outcome.emitted@.len() ==> (#[trigger] outcome.emitted@[i]).sequence == i
        },
{
    let mut sequencer = Sequencer::new();
    let mut sink: ReassemblySink<Alignment> = ReassemblySink::new();
    let mut books = Coordinator::new();
    let mut emitted: Vec<Sequenced<Alignment>> = Vec::new();
    let mut at: usize = 0;
    let mut live: bool = true;
    while live && at < source.len()
        invariant
            at <= source.len(),
            sequencer.issued() == at,
            !sequencer.is_halted(),
            forall|i: int| 0 <= i < at ==> (#[trigger] source@[i]) is Record,
            !live ==> at < source.len() && !(source@[at as int] is Record),
            in_step(index@, names@, *rule, source@, at as int, sink@, emitted@),
            books.totals.read == at,
            books.totals.transformed == shaped_count(source@, at as int),
            books.totals.transformed <= at,
            (forall|i: int| 0 <= i < at ==> shaped_at(source@, i)) ==> books.totals.transformed
                == at,
            books.totals.written == emitted@.len(),
            match books.first_error {
                Some(PipelineError::RecordError { sequence }) => sequence < at && !shaped_at(
                    source@,
                    sequence as int,
                ) && forall|i: int| 0 <= i < sequence ==> shaped_at(source@, i),
                Some(_) => false,
                None => forall|i: int| 0 <= i < at ==> shaped_at(source@, i),
            },
        decreases source.len() - at + if live { 1int } else { 0int },
    {
        match record_of(&source[at]) {
            None => {
                live = false;
            },
            Some(record) => {
                match sequencer.step(SourceEvent::Record(record)) {
                    SequencerAction::Push(rec) => {
                        books.record_read();
                        match transform(index, names, rule, rec) {
                            Ok(out) => {
                                proof {
                                    lemma_step_accepted(
                                        index@,
                                        names@,
                                        *rule,
                                        source@,
                                        at as int,
                                        sink@,
                                        emitted@,
                                        out,
                                    );
                                }
                                let ghost before = emitted@;
                                books.record_transformed();
                                let mut batch = sink.accept(out);
                                let ghost left = batch@;
                                let count = batch.len();
                                emitted.append(&mut batch);
                                assert(emitted@ =~= before + left);
                                assert(emitted.len() == books.totals.written + count);
                                books.record_written(count);
                            },
                            Err(error) => {
                                proof {
                                    lemma_step_dropped(
                                        index@,
                                        names@,
                                        *rule,
                                        source@,
                                        at as int,
                                        sink@,
                                        emitted@,
                                    );
                                }
                                books.record_error(error);
                            },
                        }
                    },
                    _ => {},
                }
                at = at + 1;
            },
        }
    }
    let last: SourceEvent<Alignment> = if at < source.len() && is_failure(&source[at]) {
        SourceEvent::DecodeFailure
    } else {
        SourceEvent::Exhausted
    };
    match sequencer.step(last) {
        SequencerAction::Abort(error) => {
            books.record_error(error);
        },
        _ => {},
    }
    let ghost before = emitted@;
    let ghost waiting = sink@;
    let mut rest = sink.finish();
    proof {
        lemma_step_drained(index@, names@, *rule, source@, at as int, waiting, before, rest@);
    }
    let ghost left = rest@;
    let count = rest.len();
    emitted.append(&mut rest);
    assert(emitted@ =~= before + left);
    assert(emitted.len() == books.totals.written + count);
    books.record_written(count);
    RunOutcome { emitted, totals: books.totals, error: books.first_error }
}

/// Output order equals input order, whatever the schedule. Let the inputs
/// be numbered by their position and rewritten by the rule, and let them
/// reach the sink in any order at all. Then the sink hands out as many
/// items as there are inputs, and the item at output position `i` is input
/// `i`, rewritten as the rule says.
pub proof fn lemma_any_schedule_preserves_order(
    index: Map<Seq<char>, Set<(u64, u64)>>,
    names: Map<i32, Seq<char>>,
    rule: QualityRule,
    inputs: Seq<Alignment>,
    arrivals: Seq<Sequenced<Alignment>>,
)
    requires
        arrivals.len() == inputs.len(),
        is_arrival_order(arrivals),
        forall|j: int|
            0 <= j < arrivals.len() ==> (#[trigger] arrivals[j]).item == rewrite(
                index,
                names,
                rule,
                inputs[arrivals[j].sequence as int],
            ),
    ensures
        run(arrivals).1.len() == inputs.len(),
        forall|i: int|
            0 <= i < inputs.len() ==> (#[trigger] run(arrivals).1[i]).sequence == i && run(
                arrivals,
            ).1[i].item == rewrite(index, names, rule, inputs[i]),
        run(arrivals).0.pending =~= Map::<u64, Alignment>::empty(),
        run(arrivals).0.next_expected == inputs.len(),
{
    lemma_output_order_is_input_order(arrivals);
    let out = run(arrivals).1;
    assert forall|i: int| 0 <= i < inputs.len() implies (#[trigger] out[i]).sequence == i
        && out[i].item == rewrite(index, names, rule, inputs[i]) by {
        assert(arrivals.contains(out[i]));
        let j = choose|j: int| 0 <= j < arrivals.len() && arrivals[j] == out[i];
        assert(arrivals[j].item == out[i].item);
    }
}

} // verus!
