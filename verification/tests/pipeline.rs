use mapq_pipeline::error::PipelineError;
use mapq_pipeline::names::NameTable;
use mapq_pipeline::pipeline::{
    progress_due, run_in_order, Coordinator, RunOutcome, Totals, PROGRESS_INTERVAL,
};
use mapq_pipeline::record::{Alignment, Sequenced};
use mapq_pipeline::region::{RegionEntry, RegionIndex};
use mapq_pipeline::sequencer::{Sequencer, SequencerAction, SourceEvent};
use mapq_pipeline::sink::ReassemblySink;
use mapq_pipeline::transform::{transform, QualityRule};

fn chr1_index() -> RegionIndex {
    let entries = vec![RegionEntry { key: "chr1".to_string(), start: 100, end: 200 }];
    match RegionIndex::build(&entries) {
        Ok(index) => index,
        Err(error) => panic!("unexpected error: {:?}", error),
    }
}

fn empty_index() -> RegionIndex {
    match RegionIndex::build(&Vec::new()) {
        Ok(index) => index,
        Err(error) => panic!("unexpected error: {:?}", error),
    }
}

fn chr1_names() -> NameTable {
    let mut names = NameTable::new();
    names.insert(0, "chr1".to_string());
    names.insert(1, "chr2".to_string());
    names
}

fn record(reference: i32, start: u64, end: u64, quality: u8) -> Alignment {
    Alignment { reference, start, end, quality }
}

fn run(index: &RegionIndex, source: Vec<SourceEvent<Alignment>>) -> RunOutcome {
    run_in_order(index, &chr1_names(), &QualityRule::standard(), &source)
}

fn items(outcome: &RunOutcome) -> Vec<Alignment> {
    outcome.emitted.iter().map(|rec| rec.item).collect()
}

fn sequences(outcome: &RunOutcome) -> Vec<u64> {
    outcome.emitted.iter().map(|rec| rec.sequence).collect()
}

#[test]
fn run_rewrites_inside_and_keeps_outside() {
    let outcome = run(
        &chr1_index(),
        vec![
            SourceEvent::Record(record(0, 150, 160, 10)),
            SourceEvent::Record(record(0, 300, 310, 10)),
        ],
    );
    assert_eq!(items(&outcome), vec![record(0, 150, 160, 60), record(0, 300, 310, 10)]);
    assert_eq!(sequences(&outcome), vec![0, 1]);
    assert_eq!(outcome.totals, Totals { read: 2, transformed: 2, written: 2 });
    assert!(outcome.totals.is_balanced());
    assert_eq!(outcome.error, None);
}

#[test]
fn run_keeps_the_order_of_the_source() {
    let mut source: Vec<SourceEvent<Alignment>> = Vec::new();
    let mut expected: Vec<Alignment> = Vec::new();
    let mut at: u64 = 0;
    while at < 300 {
        let quality = (at % 64) as u8;
        let reference = (at % 3) as i32 - 1;
        let start = (at * 7) % 400;
        source.push(SourceEvent::Record(record(reference, start, start + 5, quality)));
        let inside = reference == 0 && start < 200 && 100 < start + 5;
        let after = if inside && quality < 30 { 60 } else { quality };
        expected.push(record(reference, start, start + 5, after));
        at += 1;
    }
    let outcome = run(&chr1_index(), source);
    assert_eq!(items(&outcome), expected);
    let mut position: u64 = 0;
    for rec in outcome.emitted.iter() {
        assert_eq!(rec.sequence, position);
        position += 1;
    }
    assert_eq!(outcome.totals, Totals { read: 300, transformed: 300, written: 300 });
    assert_eq!(outcome.error, None);
}

#[test]
fn run_with_an_empty_index_changes_nothing() {
    let source = vec![
        SourceEvent::Record(record(0, 150, 160, 10)),
        SourceEvent::Record(record(1, 0, 1000, 0)),
        SourceEvent::Record(record(-1, 0, 0, 29)),
    ];
    let outcome = run(&empty_index(), source);
    assert_eq!(
        items(&outcome),
        vec![record(0, 150, 160, 10), record(1, 0, 1000, 0), record(-1, 0, 0, 29)]
    );
    assert_eq!(outcome.error, None);
}

#[test]
fn source_failing_on_its_fifth_record() {
    let source = vec![
        SourceEvent::Record(record(0, 10, 20, 1)),
        SourceEvent::Record(record(0, 110, 120, 2)),
        SourceEvent::Record(record(0, 210, 220, 3)),
        SourceEvent::Record(record(0, 190, 220, 40)),
        SourceEvent::DecodeFailure,
        SourceEvent::Record(record(0, 150, 160, 5)),
    ];
    let outcome = run(&chr1_index(), source);
    assert_eq!(outcome.emitted.len(), 4);
    assert_eq!(sequences(&outcome), vec![0, 1, 2, 3]);
    assert_eq!(
        items(&outcome),
        vec![
            record(0, 10, 20, 1),
            record(0, 110, 120, 60),
            record(0, 210, 220, 3),
            record(0, 190, 220, 40)
        ]
    );
    assert_eq!(outcome.error, Some(PipelineError::SourceError { sequence: 4 }));
    assert_eq!(outcome.totals, Totals { read: 4, transformed: 4, written: 4 });
}

#[test]
fn source_failing_at_once() {
    let outcome = run(&chr1_index(), vec![SourceEvent::DecodeFailure]);
    assert!(outcome.emitted.is_empty());
    assert_eq!(outcome.error, Some(PipelineError::SourceError { sequence: 0 }));
    assert_eq!(outcome.totals, Totals { read: 0, transformed: 0, written: 0 });
}

#[test]
fn an_empty_source() {
    let outcome = run(&chr1_index(), Vec::new());
    assert!(outcome.emitted.is_empty());
    assert_eq!(outcome.error, None);
    assert_eq!(outcome.totals, Totals { read: 0, transformed: 0, written: 0 });
}

#[test]
fn nothing_is_read_behind_the_end_of_the_source() {
    let source = vec![
        SourceEvent::Record(record(0, 150, 160, 5)),
        SourceEvent::Exhausted,
        SourceEvent::Record(record(0, 150, 160, 6)),
    ];
    let outcome = run(&chr1_index(), source);
    assert_eq!(items(&outcome), vec![record(0, 150, 160, 60)]);
    assert_eq!(outcome.error, None);
    assert_eq!(outcome.totals, Totals { read: 1, transformed: 1, written: 1 });
}

#[test]
fn an_ill_shaped_record_is_dropped_and_the_run_goes_on() {
    let source = vec![
        SourceEvent::Record(record(0, 150, 160, 5)),
        SourceEvent::Record(record(0, 160, 150, 5)),
        SourceEvent::Record(record(0, 170, 180, 5)),
        SourceEvent::Record(record(0, 9, 3, 5)),
        SourceEvent::Record(record(0, 300, 310, 5)),
    ];
    let outcome = run(&chr1_index(), source);
    assert_eq!(sequences(&outcome), vec![0, 2, 4]);
    assert_eq!(
        items(&outcome),
        vec![record(0, 150, 160, 60), record(0, 170, 180, 60), record(0, 300, 310, 5)]
    );
    assert_eq!(outcome.error, Some(PipelineError::RecordError { sequence: 1 }));
    assert_eq!(outcome.totals, Totals { read: 5, transformed: 3, written: 3 });
    assert!(!outcome.totals.is_balanced());
}

#[test]
fn the_first_error_is_the_one_reported() {
    let source = vec![
        SourceEvent::Record(record(0, 160, 150, 5)),
        SourceEvent::Record(record(0, 170, 180, 5)),
        SourceEvent::DecodeFailure,
    ];
    let outcome = run(&chr1_index(), source);
    assert_eq!(sequences(&outcome), vec![1]);
    assert_eq!(outcome.error, Some(PipelineError::RecordError { sequence: 0 }));
    assert_eq!(outcome.totals, Totals { read: 2, transformed: 1, written: 1 });
}

#[test]
fn stages_by_hand_in_a_scrambled_schedule() {
    let index = chr1_index();
    let names = chr1_names();
    let rule = QualityRule::standard();
    let inputs = vec![
        record(0, 150, 160, 10),
        record(0, 300, 310, 10),
        record(1, 150, 160, 10),
        record(0, 199, 200, 29),
        record(0, 200, 201, 29),
        record(-1, 150, 160, 0),
    ];
    let mut sequencer = Sequencer::new();
    let mut work: Vec<Sequenced<Alignment>> = Vec::new();
    for input in inputs.iter() {
        match sequencer.step(SourceEvent::Record(*input)) {
            SequencerAction::Push(rec) => work.push(rec),
            _ => panic!("a record was not pushed"),
        }
    }
    let schedule: Vec<usize> = vec![4, 1, 5, 0, 3, 2];
    let mut sink: ReassemblySink<Alignment> = ReassemblySink::new();
    let mut books = Coordinator::new();
    let mut written: Vec<Sequenced<Alignment>> = Vec::new();
    for position in schedule.iter() {
        let rec = work[*position].clone();
        books.record_read();
        match transform(&index, &names, &rule, rec) {
            Ok(out) => {
                books.record_transformed();
                assert!(sink.admits(out.sequence));
                let mut batch = sink.accept(out);
                books.record_written(batch.len());
                written.append(&mut batch);
            }
            Err(error) => books.record_error(error),
        }
    }
    let mut rest = sink.finish();
    assert!(rest.is_empty());
    written.append(&mut rest);
    let got: Vec<Alignment> = written.iter().map(|rec| rec.item).collect();
    assert_eq!(
        got,
        vec![
            record(0, 150, 160, 60),
            record(0, 300, 310, 10),
            record(1, 150, 160, 10),
            record(0, 199, 200, 60),
            record(0, 200, 201, 29),
            record(-1, 150, 160, 0),
        ]
    );
    let got: Vec<u64> = written.iter().map(|rec| rec.sequence).collect();
    assert_eq!(got, vec![0, 1, 2, 3, 4, 5]);
    assert_eq!(books.finish(), Ok(Totals { read: 6, transformed: 6, written: 6 }));
    assert_eq!(sink.next_expected(), 6);
    assert!(sink.is_drained());
}

#[test]
fn coordinator_keeps_the_first_error() {
    let mut books = Coordinator::new();
    assert_eq!(books.finish(), Ok(Totals { read: 0, transformed: 0, written: 0 }));
    books.record_read();
    books.record_read();
    books.record_transformed();
    books.record_written(1);
    assert_eq!(books.totals, Totals { read: 2, transformed: 1, written: 1 });
    assert_eq!(books.finish(), Ok(Totals { read: 2, transformed: 1, written: 1 }));
    books.record_error(PipelineError::RecordError { sequence: 1 });
    books.record_error(PipelineError::SinkError { sequence: 0 });
    assert_eq!(books.first_error, Some(PipelineError::RecordError { sequence: 1 }));
    assert_eq!(books.finish(), Err(PipelineError::RecordError { sequence: 1 }));
    books.record_written(5);
    assert_eq!(books.totals, Totals { read: 2, transformed: 1, written: 6 });
}

#[test]
fn totals_balance() {
    assert!(Totals { read: 0, transformed: 0, written: 0 }.is_balanced());
    assert!(Totals { read: 9, transformed: 9, written: 9 }.is_balanced());
    assert!(!Totals { read: 9, transformed: 8, written: 8 }.is_balanced());
    assert!(!Totals { read: 9, transformed: 9, written: 8 }.is_balanced());
    assert!(!Totals { read: 8, transformed: 9, written: 9 }.is_balanced());
}

#[test]
fn progress_is_due_every_million() {
    assert_eq!(PROGRESS_INTERVAL, 1_000_000);
    assert!(progress_due(0));
    assert!(!progress_due(1));
    assert!(!progress_due(999_999));
    assert!(progress_due(1_000_000));
    assert!(!progress_due(1_000_001));
    assert!(progress_due(7_000_000));
}
