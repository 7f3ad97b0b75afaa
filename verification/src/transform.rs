use crate::error::PipelineError;
use crate::names::NameTable;
use crate::record::{Alignment, Sequenced};
use crate::region::{region_overlaps, RegionIndex};
use vstd::prelude::*;

verus! {

/// The quality below which a record inside a region is rewritten, unless
/// the rule says otherwise.
pub const DEFAULT_THRESHOLD: u8 = 30;

/// The quality that a rewritten record gets, unless the rule says otherwise.
pub const DEFAULT_REPLACEMENT: u8 = 60;

/// The rewriting rule: a record that lies in an indexed region and whose
/// quality is below `threshold` gets the quality `replacement`.
#[derive(Clone, Copy, Debug, PartialEq, Eq, Structural)]
pub struct QualityRule {
    pub threshold: u8,
    pub replacement: u8,
}

impl QualityRule {
    /// The rule with the default threshold and replacement.
    pub fn standard() -> (rule: QualityRule)
        ensures
            rule.threshold == DEFAULT_THRESHOLD,
            rule.replacement == DEFAULT_REPLACEMENT,
    {
        QualityRule { threshold: DEFAULT_THRESHOLD, replacement: DEFAULT_REPLACEMENT }
    }
}

impl Default for QualityRule {
    fn default() -> (rule: QualityRule)
        ensures
            rule.threshold == DEFAULT_THRESHOLD,
            rule.replacement == DEFAULT_REPLACEMENT,
    {
        QualityRule::standard()
    }
}

/// Whether the record lies on a reference that has a key, and its span
/// intersects a region indexed under that key.
pub open spec fn in_region(
    index: Map<Seq<char>, Set<(u64, u64)>>,
    names: Map<i32, Seq<char>>,
    record: Alignment,
) -> bool {
    &&& record.reference >= 0
    &&& names.contains_key(record.reference)
    &&& region_overlaps(index, names[record.reference], record.start, record.end)
}

/// Whether the rule rewrites the record: it lies in a region and its
/// quality is below the threshold.
pub open spec fn is_rewritten(
    index: Map<Seq<char>, Set<(u64, u64)>>,
    names: Map<i32, Seq<char>>,
    rule: QualityRule,
    record: Alignment,
) -> bool {
    in_region(index, names, record) && record.quality < rule.threshold
}

/// The record as it leaves the transform stage.
pub open spec fn rewrite(
    index: Map<Seq<char>, Set<(u64, u64)>>,
    names: Map<i32, Seq<char>>,
    rule: QualityRule,
    record: Alignment,
) -> Alignment {
    if is_rewritten(index, names, rule, record) {
        record.with_quality(rule.replacement)
    } else {
        record
    }
}

/// The quality rule in full: a record is rewritten exactly when it lies in
/// a region and its quality is below the threshold; a rewritten record has
/// the replacement quality and is otherwise as it was; every other record
/// is unchanged.
pub proof fn lemma_quality_rule(
    index: Map<Seq<char>, Set<(u64, u64)>>,
    names: Map<i32, Seq<char>>,
    rule: QualityRule,
    record: Alignment,
)
    ensures
        is_rewritten(index, names, rule, record) <==> in_region(index, names, record)
            && record.quality < rule.threshold,
        is_rewritten(index, names, rule, record) ==> rewrite(index, names, rule, record).quality
            == rule.replacement,
        !is_rewritten(index, names, rule, record) ==> rewrite(index, names, rule, record)
            == record,
        rewrite(index, names, rule, record).reference == record.reference,
        rewrite(index, names, rule, record).start == record.start,
        rewrite(index, names, rule, record).end == record.end,
{
}

/// A record whose key the index does not hold is never rewritten, wherever
/// it lies: neither one without a reference, nor one whose reference has no
/// key, nor one whose key has no regions.
pub proof fn lemma_unindexed_key_is_never_rewritten(
    index: Map<Seq<char>, Set<(u64, u64)>>,
    names: Map<i32, Seq<char>>,
    rule: QualityRule,
    record: Alignment,
)
    requires
        record.reference < 0 || !names.contains_key(record.reference) || !index.contains_key(
            names[record.reference],
        ),
    ensures
        rewrite(index, names, rule, record) == record,
{
}

/// With an index that holds nothing, no record is rewritten.
pub proof fn lemma_empty_index_rewrites_nothing(
    names: Map<i32, Seq<char>>,
    rule: QualityRule,
    record: Alignment,
)
    ensures
        rewrite(Map::<Seq<char>, Set<(u64, u64)>>::empty(), names, rule, record) == record,
{
}

/// Evaluates the rule on one record.
pub fn apply_rule(index: &RegionIndex, names: &NameTable, rule: &QualityRule, record: Alignment) -> (out:
    Alignment)
    ensures
        out == rewrite(index@, names@, *rule, record),
{
    if record.reference < 0 {
        return record;
    }
    match names.resolve(record.reference) {
        None => record,
        Some(key) => {
            if index.overlaps(key, record.start, record.end) && record.quality < rule.threshold {
                record.with_quality(rule.replacement)
            } else {
                record
            }
        },
    }
}

/// The transform stage for one numbered record. A record whose span ends
/// before it starts is refused with a `RecordError` that carries its
/// sequence number; every other record comes back under the same sequence
/// number, rewritten or not as the rule says.
pub fn transform(
    index: &RegionIndex,
    names: &NameTable,
    rule: &QualityRule,
    rec: Sequenced<Alignment>,
) -> (outcome: Result<Sequenced<Alignment>, PipelineError>)
    ensures
        match outcome {
            Ok(out) => rec.item.is_well_shaped() && out.sequence == rec.sequence && out.item
                == rewrite(index@, names@, *rule, rec.item),
            Err(error) => !rec.item.is_well_shaped() && error == (PipelineError::RecordError {
                sequence: rec.sequence,
            }),
        },
{
    if !rec.item.is_well_shaped() {
        return Err(PipelineError::RecordError { sequence: rec.sequence });
    }
    let item = apply_rule(index, names, rule, rec.item);
    Ok(Sequenced { sequence: rec.sequence, item })
}

} // verus!
