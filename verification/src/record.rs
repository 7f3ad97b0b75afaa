use vstd::prelude::*;

verus! {

/// What the pipeline reads of one alignment record: the reference it lies
/// on, the half-open span `[start, end)` it covers there, and its mapping
/// quality.
#[derive(Clone, Copy, Debug, PartialEq, Eq, Structural)]
pub struct Alignment {
    /// Identifier of the reference sequence; negative for an unplaced record.
    pub reference: i32,
    pub start: u64,
    pub end: u64,
    pub quality: u8,
}

impl Alignment {
    /// A record is well shaped when its span does not end before it starts.
    pub open spec fn spec_is_well_shaped(self) -> bool {
        self.start <= self.end
    }

    #[verifier::when_used_as_spec(spec_is_well_shaped)]
    pub fn is_well_shaped(self) -> (ok: bool)
        ensures
            ok == self.spec_is_well_shaped(),
    {
        self.start <= self.end
    }

    /// The same record with another quality.
    pub open spec fn spec_with_quality(self, quality: u8) -> Alignment {
        Alignment { quality, ..self }
    }

    #[verifier::when_used_as_spec(spec_with_quality)]
    pub fn with_quality(self, quality: u8) -> (out: Alignment)
        ensures
            out == self.spec_with_quality(quality),
    {
        Alignment { reference: self.reference, start: self.start, end: self.end, quality }
    }
}

/// An item together with its position in the order in which it was read.
#[derive(Clone, Debug)]
pub struct Sequenced<T> {
    pub sequence: u64,
    pub item: T,
}

} // verus!
