//! Order-preserving record pipeline: a region index that answers overlap
//! queries per key, a quality rewriting rule evaluated per record, and the
//! sequencer / reassembly sink pair that lets records be processed in any
//! order and still leave in the order in which they were read.

pub mod error;
pub mod names;
pub mod pipeline;
pub mod record;
pub mod region;
pub mod region_text;
pub mod reorder;
pub mod sequencer;
pub mod sink;
pub mod transform;
