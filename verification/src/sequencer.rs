use crate::error::PipelineError;
use crate::record::Sequenced;
use vstd::prelude::*;

verus! {

/// What the record source gave when it was asked for one more record.
pub enum SourceEvent<T> {
    /// A decoded record.
    Record(T),
    /// A record that could not be decoded.
    DecodeFailure,
    /// Nothing: the source has no more records.
    Exhausted,
}

/// What is to be done after an event of the source.
pub enum SequencerAction<T> {
    /// Hand the numbered record to the work queue.
    Push(Sequenced<T>),
    /// Close the work queue: every record has been read.
    Close,
    /// Close the work queue and report the error: the source has failed.
    Abort(PipelineError),
    /// Nothing: the sequencer has halted before.
    Halted,
}

/// The sequencer. It numbers the records of a source 0, 1, 2, ... in the
/// order in which the source yields them, and halts for good when the source
/// is exhausted or fails.
#[derive(Clone, Copy, Debug, PartialEq, Eq, Structural)]
pub struct Sequencer {
    issued: u64,
    halted: bool,
}

impl Sequencer {
    /// How many records have been numbered; also the number that the next
    /// record gets.
    pub closed spec fn spec_issued(self) -> u64 {
        self.issued
    }

    /// Whether the source was exhausted or has failed.
    pub closed spec fn spec_is_halted(self) -> bool {
        self.halted
    }

    /// A sequencer that has numbered nothing.
    pub fn new() -> (sequencer: Sequencer)
        ensures
            sequencer.issued() == 0,
            !sequencer.is_halted(),
    {
        Sequencer { issued: 0, halted: false }
    }

    #[verifier::when_used_as_spec(spec_issued)]
    pub fn issued(self) -> (count: u64)
        ensures
            count == self.spec_issued(),
    {
        self.issued
    }

    #[verifier::when_used_as_spec(spec_is_halted)]
    pub fn is_halted(self) -> (halted: bool)
        ensures
            halted == self.spec_is_halted(),
    {
        self.halted
    }

    /// Whether one more record can be numbered.
    pub open spec fn spec_can_issue(self) -> bool {
        self.issued() < u64::MAX
    }

    #[verifier::when_used_as_spec(spec_can_issue)]
    pub fn can_issue(self) -> (ok: bool)
        ensures
            ok == self.spec_can_issue(),
    {
        self.issued < u64::MAX
    }

    /// Takes one event of the source. A record gets the next sequence
    /// number and is to be pushed. Exhaustion closes the queue. A decode
    /// failure aborts with a `SourceError` that carries the number the
    /// record would have got. After either of the two the sequencer is
    /// halted, and every later event is answered with `Halted`.
    pub fn step<T>(&mut self, event: SourceEvent<T>) -> (action: SequencerAction<T>)
        requires
            !old(self).is_halted() && event is Record ==> old(self).can_issue(),
        ensures
            old(self).is_halted() ==> action is Halted && *final(self) == *old(self),
            !old(self).is_halted() ==> match event {
                SourceEvent::Record(item) => action == SequencerAction::Push(
                    Sequenced { sequence: old(self).issued(), item },
                ) && final(self).issued() == old(self).issued() + 1 && !final(self).is_halted(),
                SourceEvent::DecodeFailure => action == SequencerAction::<T>::Abort(
                    PipelineError::SourceError { sequence: old(self).issued() },
                ) && final(self).issued() == old(self).issued() && final(self).is_halted(),
                SourceEvent::Exhausted => action is Close && final(self).issued() == old(
                    self,
                ).issued() && final(self).is_halted(),
            },
    {
        if self.halted {
            return SequencerAction::Halted;
        }
        match event {
            SourceEvent::Record(item) => {
                let sequence = self.issued;
                self.issued = sequence + 1;
                SequencerAction::Push(Sequenced { sequence, item })
            },
            SourceEvent::DecodeFailure => {
                self.halted = true;
                SequencerAction::Abort(PipelineError::SourceError { sequence: self.issued })
            },
            SourceEvent::Exhausted => {
                self.halted = true;
                SequencerAction::Close
            },
        }
    }
}

} // verus!
