use crate::error::PipelineError;
use intervaltree::IntervalTree;
use vstd::hash_map::StringHashMap;
use vstd::prelude::*;

verus! {

/// Whether the point `p` lies in the half-open span `[start, end)`.
pub open spec fn span_contains(start: u64, end: u64, p: int) -> bool {
    start <= p < end
}

/// Whether the half-open spans `[a_start, a_end)` and `[b_start, b_end)`
/// intersect. A span that is empty intersects nothing.
pub open spec fn spans_intersect(a_start: u64, a_end: u64, b_start: u64, b_end: u64) -> bool {
    a_start < a_end && b_start < b_end && a_start < b_end && b_start < a_end
}

/// Two spans intersect exactly when some point lies in both.
pub proof fn lemma_intersect_is_common_point(a_start: u64, a_end: u64, b_start: u64, b_end: u64)
    ensures
        spans_intersect(a_start, a_end, b_start, b_end) <==> exists|p: int|
            #[trigger] span_contains(a_start, a_end, p) && span_contains(b_start, b_end, p),
{
    if spans_intersect(a_start, a_end, b_start, b_end) {
        let p: int = if a_start <= b_start {
            b_start as int
        } else {
            a_start as int
        };
        assert(span_contains(a_start, a_end, p) && span_contains(b_start, b_end, p));
    }
}

/// The opaque outside type `intervaltree::IntervalTree`.
#[verifier::external_type_specification]
#[verifier::external_body]
#[verifier::reject_recursive_types(K)]
#[verifier::reject_recursive_types(V)]
pub struct ExIntervalTree<K, V>(intervaltree::IntervalTree<K, V>);

/// The ranges that an `intervaltree::IntervalTree` holds, each as the pair
/// of its start and its end.
pub uninterp spec fn tree_intervals(tree: IntervalTree<u64, ()>) -> Set<(u64, u64)>;

/// Calls `IntervalTree::from_iter` of `intervaltree`, handing it one range
/// per pair. Trusted: the tree holds the ranges it was given and no others.
#[verifier::external_body]
fn tree_from_spans(spans: &Vec<(u64, u64)>) -> (tree: IntervalTree<u64, ()>)
    ensures
        tree_intervals(tree) == spans@.to_set(),
{
    IntervalTree::from_iter(spans.iter().map(|span| (span.0..span.1, ())))
}

/// Calls `IntervalTree::query` of `intervaltree` with the range
/// `start..end` and takes the first element that the returned iterator
/// yields. Trusted: the iterator yields exactly the held ranges `r` with
/// `r.start < end` and `start < r.end`, so the result is such a range if
/// there is one and `None` if there is none.
#[verifier::external_body]
fn tree_first_hit(tree: &IntervalTree<u64, ()>, start: u64, end: u64) -> (hit: Option<(u64, u64)>)
    ensures
        match hit {
            Some(span) => tree_intervals(*tree).contains(span) && span.0 < end && start < span.1,
            None => forall|span: (u64, u64)| #[trigger]
                tree_intervals(*tree).contains(span) ==> !(span.0 < end && start < span.1),
        },
{
    tree.query(start..end).next().map(|element| (element.range.start, element.range.end))
}

/// One line of a region source: a key and the half-open span `[start, end)`.
#[derive(Clone, Debug, PartialEq, Eq)]
pub struct RegionEntry {
    pub key: String,
    pub start: u64,
    pub end: u64,
}

impl View for RegionEntry {
    type V = (Seq<char>, u64, u64);

    open spec fn view(&self) -> (Seq<char>, u64, u64) {
        (self.key@, self.start, self.end)
    }
}

/// Whether one of the first `upto` entries has the key `key`.
pub open spec fn key_listed(entries: Seq<RegionEntry>, upto: int, key: Seq<char>) -> bool {
    exists|j: int| 0 <= j < upto && (#[trigger] entries[j]).key@ == key
}

/// Whether one of the first `upto` entries has the key `key` and the span `span`.
pub open spec fn span_listed(
    entries: Seq<RegionEntry>,
    upto: int,
    key: Seq<char>,
    span: (u64, u64),
) -> bool {
    exists|j: int|
        0 <= j < upto && (#[trigger] entries[j]).key@ == key && entries[j].start == span.0
            && entries[j].end == span.1
}

/// No entry has its start after its end.
pub open spec fn all_valid(entries: Seq<RegionEntry>) -> bool {
    forall|j: int| 0 <= j < entries.len() ==> (#[trigger] entries[j]).start <= entries[j].end
}

/// The non-empty spans listed under `key` among the first `upto` entries.
pub open spec fn spans_of(entries: Seq<RegionEntry>, upto: int, key: Seq<char>) -> Set<(u64, u64)> {
    Set::new(|span: (u64, u64)| span.0 < span.1 && span_listed(entries, upto, key, span))
}

/// The index that `entries` describe: every key that occurs, with the set
/// of non-empty spans listed under it. Empty spans cover no point and are
/// left out.
pub open spec fn index_of(entries: Seq<RegionEntry>) -> Map<Seq<char>, Set<(u64, u64)>> {
    Map::new(
        |key: Seq<char>| key_listed(entries, entries.len() as int, key),
        |key: Seq<char>| spans_of(entries, entries.len() as int, key),
    )
}

/// Whether, in `index`, some span under `key` intersects `[start, end)`. A
/// key that the index does not hold overlaps nothing.
pub open spec fn region_overlaps(
    index: Map<Seq<char>, Set<(u64, u64)>>,
    key: Seq<char>,
    start: u64,
    end: u64,
) -> bool {
    index.contains_key(key) && exists|span: (u64, u64)| #[trigger]
        index[key].contains(span) && spans_intersect(span.0, span.1, start, end)
}

/// An index built from no entries overlaps nothing, whatever is asked.
pub proof fn lemma_empty_index_overlaps_nothing(key: Seq<char>, start: u64, end: u64)
    ensures
        index_of(Seq::<RegionEntry>::empty()) =~= Map::<Seq<char>, Set<(u64, u64)>>::empty(),
        !region_overlaps(index_of(Seq::<RegionEntry>::empty()), key, start, end),
{
}

proof fn lemma_listed_step(entries: Seq<RegionEntry>, i: int, key: Seq<char>)
    requires
        0 <= i < entries.len(),
    ensures
        key_listed(entries, i + 1, key) <==> key_listed(entries, i, key) || entries[i].key@ == key,
        spans_of(entries, i + 1, key) =~= if entries[i].key@ == key && entries[i].start
            < entries[i].end {
            spans_of(entries, i, key).insert((entries[i].start, entries[i].end))
        } else {
            spans_of(entries, i, key)
        },
{
    if key_listed(entries, i, key) {
        let j = choose|j: int| 0 <= j < i && (#[trigger] entries[j]).key@ == key;
        assert(0 <= j < i + 1 && entries[j].key@ == key);
    }
    if entries[i].key@ == key {
        assert(0 <= i < i + 1 && entries[i].key@ == key);
    }
    let here = (entries[i].start, entries[i].end);
    assert forall|span: (u64, u64)|
        span_listed(entries, i + 1, key, span) <==> span_listed(entries, i, key, span) || (
        entries[i].key@ == key && span == here) by {
        if span_listed(entries, i, key, span) {
            let j = choose|j: int|
                0 <= j < i && (#[trigger] entries[j]).key@ == key && entries[j].start == span.0
                    && entries[j].end == span.1;
            assert(0 <= j < i + 1 && entries[j].key@ == key && entries[j].start == span.0
                && entries[j].end == span.1);
        }
        if entries[i].key@ == key && span == here {
            assert(0 <= i < i + 1 && entries[i].key@ == key && entries[i].start == span.0
                && entries[i].end == span.1);
        }
    }
}

/// For each key the spans recorded under it, ready for overlap queries. It
/// is built once and never changes afterwards.
pub struct RegionIndex {
    slots: StringHashMap<usize>,
    trees: Vec<IntervalTree<u64, ()>>,
}

impl View for RegionIndex {
    type V = Map<Seq<char>, Set<(u64, u64)>>;

    closed spec fn view(&self) -> Map<Seq<char>, Set<(u64, u64)>> {
        Map::new(
            |key: Seq<char>| self.slots@.contains_key(key),
            |key: Seq<char>| tree_intervals(self.trees@[self.slots@[key] as int]),
        )
    }
}

impl RegionIndex {
    #[verifier::type_invariant]
    spec fn inv(self) -> bool {
        &&& forall|key: Seq<char>| #[trigger]
            self.slots@.contains_key(key) ==> self.slots@[key] < self.trees@.len()
        &&& forall|slot: int, span: (u64, u64)|
            0 <= slot < self.trees@.len() && #[trigger] tree_intervals(self.trees@[slot]).contains(
                span,
            ) ==> span.0 < span.1
    }

    /// Builds the index from the entries of a region source. An entry whose
    /// start lies after its end is refused; one whose start equals its end
    /// covers nothing and adds only its key.
    pub fn build(entries: &Vec<RegionEntry>) -> (built: Result<RegionIndex, PipelineError>)
        ensures
            match built {
                Ok(index) => all_valid(entries@) && index@ == index_of(entries@),
                Err(error) => !all_valid(entries@) && error == PipelineError::InvalidInterval,
            },
    {
        let count = entries.len();
        let mut checked: usize = 0;
        while checked < count
            invariant
                count == entries.len(),
                checked <= count,
                forall|j: int| 0 <= j < checked ==> (#[trigger] entries@[j]).start <= entries@[j].end,
            decreases count - checked,
        {
            if entries[checked].start > entries[checked].end {
                return Err(PipelineError::InvalidInterval);
            }
            checked = checked + 1;
        }

        let mut slots: StringHashMap<usize> = StringHashMap::new();
        let mut groups: Vec<Vec<(u64, u64)>> = Vec::new();
        let mut i: usize = 0;
        while i < count
            invariant
                count == entries.len(),
                i <= count,
                forall|key: Seq<char>| #[trigger]
                    slots@.contains_key(key) <==> key_listed(entries@, i as int, key),
                forall|key: Seq<char>| #[trigger]
                    slots@.contains_key(key) ==> slots@[key] < groups@.len(),
                forall|a: Seq<char>, b: Seq<char>|
                    slots@.contains_key(a) && slots@.contains_key(b) && #[trigger] slots@[a]
                        == #[trigger] slots@[b] ==> a == b,
                forall|key: Seq<char>| #[trigger]
                    slots@.contains_key(key) ==> groups@[slots@[key] as int]@.to_set() =~= spans_of(
                        entries@,
                        i as int,
                        key,
                    ),
                forall|g: int, span: (u64, u64)|
                    0 <= g < groups@.len() && #[trigger] groups@[g]@.to_set().contains(span)
                        ==> span.0 < span.1,
            decreases count - i,
        {
            let entry = &entries[i];
            let ghost here = entry.key@;
            let ghost slots_before = slots@;
            let ghost groups_before = groups@;
            proof {
                assert forall|key: Seq<char>|
                    (key_listed(entries@, i + 1, key) <==> key_listed(entries@, i as int, key)
                        || here == key) && spans_of(entries@, i + 1, key) =~= if here == key
                        && entry.start < entry.end {
                        spans_of(entries@, i as int, key).insert((entry.start, entry.end))
                    } else {
                        spans_of(entries@, i as int, key)
                    } by {
                    lemma_listed_step(entries@, i as int, key);
                }
            }
            let found: Option<usize> = match slots.get(entry.key.as_str()) {
                Some(slot) => Some(*slot),
                None => None,
            };
            let slot: usize = match found {
                Some(slot) => slot,
                None => {
                    let slot = groups.len();
                    slots.insert(entry.key.clone(), slot);
                    groups.push(Vec::new());
                    proof {
                        assert(groups@[slot as int]@.to_set() =~= Set::<(u64, u64)>::empty());
                        assert(spans_of(entries@, i as int, here) =~= Set::<(u64, u64)>::empty());
                        assert forall|key: Seq<char>| #[trigger]
                            slots_before.contains_key(key) implies groups@[slots@[key] as int]
                            == groups_before[slots_before[key] as int] by {}
                    }
                    slot
                },
            };
            if entry.start < entry.end {
                let ghost groups_mid = groups@;
                groups[slot].push((entry.start, entry.end));
                proof {
                    groups_mid[slot as int]@.lemma_push_to_set_commute((entry.start, entry.end));
                    assert forall|key: Seq<char>| #[trigger] slots@.contains_key(key)
                        && key != here implies groups@[slots@[key] as int] == groups_mid[slots@[key] as int] by {
                        assert(slots@.contains_key(here));
                    }
                }
            }
            i = i + 1;
        }

        let mut trees: Vec<IntervalTree<u64, ()>> = Vec::new();
        let mut slot: usize = 0;
        while slot < groups.len()
            invariant
                slot <= groups.len(),
                trees@.len() == slot,
                forall|g: int|
                    0 <= g < slot ==> #[trigger] tree_intervals(trees@[g]) == groups@[g]@.to_set(),
                forall|g: int, span: (u64, u64)|
                    0 <= g < groups@.len() && #[trigger] groups@[g]@.to_set().contains(span)
                        ==> span.0 < span.1,
            decreases groups.len() - slot,
        {
            let tree = tree_from_spans(&groups[slot]);
            trees.push(tree);
            slot = slot + 1;
        }
        proof {
            assert forall|g: int, span: (u64, u64)|
                0 <= g < trees@.len() && #[trigger] tree_intervals(trees@[g]).contains(
                    span,
                ) implies span.0 < span.1 by {
                assert(groups@[g]@.to_set().contains(span));
            }
        }
        let index = RegionIndex { slots, trees };
        proof {
            assert(index@ =~= index_of(entries@));
        }
        Ok(index)
    }

    /// Whether any span recorded under `key` intersects `[start, end)`.
    /// A key the index does not hold is no error: nothing overlaps.
    pub fn overlaps(&self, key: &str, start: u64, end: u64) -> (hit: bool)
        ensures
            hit == region_overlaps(self@, key@, start, end),
            !self@.contains_key(key@) ==> !hit,
    {
        proof {
            use_type_invariant(self);
        }
        if start >= end {
            return false;
        }
        match self.slots.get(key) {
            None => false,
            Some(slot) => {
                let tree = &self.trees[*slot];
                match tree_first_hit(tree, start, end) {
                    Some(span) => {
                        assert(self@[key@].contains(span) && spans_intersect(
                            span.0,
                            span.1,
                            start,
                            end,
                        ));
                        true
                    },
                    None => false,
                }
            },
        }
    }

    /// Whether the index holds the key.
    pub fn contains_key(&self, key: &str) -> (held: bool)
        ensures
            held == self@.contains_key(key@),
    {
        self.slots.contains_key(key)
    }

    /// The number of keys the index holds.
    pub fn key_count(&self) -> (count: usize)
        ensures
            count == self@.dom().len(),
    {
        broadcast use vstd::hash_map::group_hash_map_axioms;

        assert(self@.dom() =~= self.slots@.dom());
        self.slots.len()
    }
}

} // verus!
