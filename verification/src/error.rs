use vstd::prelude::*;

verus! {

/// The part of the pipeline in which an error arose.
#[derive(Clone, Copy, Debug, PartialEq, Eq, Structural)]
pub enum Stage {
    /// Building the region index, before any record is read.
    Index,
    /// Pulling records from the source and numbering them.
    Sequencer,
    /// Evaluating the quality rule on one record.
    Transform,
    /// Handing records to the consumer in order.
    Sink,
}

/// Everything that can go wrong, with the sequence number where one is known.
#[derive(Clone, Copy, Debug, PartialEq, Eq, Structural)]
pub enum PipelineError {
    /// A region line has a coordinate that is not an unsigned 64-bit decimal.
    MalformedInput,
    /// A region has its start after its end.
    InvalidInterval,
    /// The source failed to decode a record; `sequence` is the number the
    /// record would have been given.
    SourceError { sequence: u64 },
    /// One record has its alignment end before its start.
    RecordError { sequence: u64 },
    /// The consumer rejected the write of the record numbered `sequence`.
    SinkError { sequence: u64 },
}

impl PipelineError {
    /// The stage that reports this error.
    pub open spec fn spec_stage(self) -> Stage {
        match self {
            PipelineError::MalformedInput => Stage::Index,
            PipelineError::InvalidInterval => Stage::Index,
            PipelineError::SourceError { .. } => Stage::Sequencer,
            PipelineError::RecordError { .. } => Stage::Transform,
            PipelineError::SinkError { .. } => Stage::Sink,
        }
    }

    /// Every error ends the run except the one that concerns a single record.
    pub open spec fn spec_is_fatal(self) -> bool {
        !(self is RecordError)
    }

    /// The sequence number the error carries, if it carries one.
    pub open spec fn spec_sequence(self) -> Option<u64> {
        match self {
            PipelineError::MalformedInput => None,
            PipelineError::InvalidInterval => None,
            PipelineError::SourceError { sequence } => Some(sequence),
            PipelineError::RecordError { sequence } => Some(sequence),
            PipelineError::SinkError { sequence } => Some(sequence),
        }
    }

    #[verifier::when_used_as_spec(spec_stage)]
    pub fn stage(self) -> (stage: Stage)
        ensures
            stage == self.spec_stage(),
    {
        match self {
            PipelineError::MalformedInput => Stage::Index,
            PipelineError::InvalidInterval => Stage::Index,
            PipelineError::SourceError { .. } => Stage::Sequencer,
            PipelineError::RecordError { .. } => Stage::Transform,
            PipelineError::SinkError { .. } => Stage::Sink,
        }
    }

    #[verifier::when_used_as_spec(spec_is_fatal)]
    pub fn is_fatal(self) -> (fatal: bool)
        ensures
            fatal == self.spec_is_fatal(),
    {
        match self {
            PipelineError::RecordError { .. } => false,
            _ => true,
        }
    }

    #[verifier::when_used_as_spec(spec_sequence)]
    pub fn sequence(self) -> (sequence: Option<u64>)
        ensures
            sequence == self.spec_sequence(),
    {
        match self {
            PipelineError::MalformedInput => None,
            PipelineError::InvalidInterval => None,
            PipelineError::SourceError { sequence } => Some(sequence),
            PipelineError::RecordError { sequence } => Some(sequence),
            PipelineError::SinkError { sequence } => Some(sequence),
        }
    }

    /// A short fixed text for the kind of error, for messages.
    pub fn label(self) -> (text: &'static str)
        ensures
            text@ == match self {
                PipelineError::MalformedInput => "malformed region input"@,
                PipelineError::InvalidInterval => "invalid interval"@,
                PipelineError::SourceError { .. } => "record source error"@,
                PipelineError::RecordError { .. } => "record error"@,
                PipelineError::SinkError { .. } => "record sink error"@,
            },
    {
        match self {
            PipelineError::MalformedInput => "malformed region input",
            PipelineError::InvalidInterval => "invalid interval",
            PipelineError::SourceError { .. } => "record source error",
            PipelineError::RecordError { .. } => "record error",
            PipelineError::SinkError { .. } => "record sink error",
        }
    }
}

} // verus!
