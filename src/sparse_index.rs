use vstd::prelude::*;

use crate::inverted_index::InvertedIndexRam;
use crate::posting_list::PointOffset;
use crate::sparse_vector::{DimId, DimWeight, SparseVector, SparseVectorError};

verus! {

/// Tunables of the index.
#[derive(Debug, Clone, Copy, PartialEq, Eq, Structural)]
pub struct SparseIndexConfig {
    /// Filter cardinality under which a filtered search scans the matching points instead.
    pub full_scan_threshold: usize,
    pub on_disk: bool,
}

/// How many points a filter may match.
#[derive(Debug, Clone, Copy, PartialEq, Eq, Structural)]
pub struct CardinalityEstimation {
    pub min: usize,
    pub exp: usize,
    pub max: usize,
}

/// Which way a search goes, and the telemetry bucket it is timed in.
#[derive(Debug, Clone, Copy, PartialEq, Eq, Structural)]
pub enum SearchRoute {
    /// Score the points that the filter matches one by one.
    SmallCardinality,
    /// Walk the inverted index, checking the filter on each candidate.
    FilteredSparse,
    /// Walk the inverted index with no filter.
    UnfilteredSparse,
}

/// What is wrong with the index's files.
#[derive(Debug, Clone, Copy, PartialEq, Eq, Structural)]
pub enum CorruptReason {
    /// A file is shorter or longer than its header says.
    Truncated,
    /// The header does not start with the format's magic number.
    BadMagic,
    /// The header names a version this library cannot read.
    BadVersion,
    /// A dimension's block reaches past the end of the postings.
    OffsetOutOfRange,
    /// A dimension's block is empty or its record ids do not ascend.
    BadPostings,
    /// Two entries of the offset table name one dimension.
    DuplicateDimension,
}

/// The kinds of query that a vector index may be asked.
#[derive(Debug, Clone, Copy, PartialEq, Eq, Structural)]
pub enum QueryKind {
    Nearest,
    Recommend,
    Discovery,
    Context,
}

/// A query: a sparse vector for a nearest-neighbour search, or one of the kinds this index refuses.
#[derive(Debug)]
pub enum QueryVector {
    Nearest(SparseVector),
    Recommend,
    Discovery,
    Context,
}

#[derive(Debug, Clone, Copy, PartialEq, Eq, Structural)]
pub enum SparseIndexError {
    InvalidSparseVector(SparseVectorError),
    UnsupportedQueryKind(QueryKind),
    MissingVector(PointOffset),
    /// Reading or writing the index's files failed.
    IndexIo,
    /// The index's files do not hold a well-formed index.
    IndexCorrupt(CorruptReason),
    Cancelled,
}

/// The upper estimate of a filter's cardinality, bounded by the points that are available.
pub open spec fn adjusted_max(card: CardinalityEstimation, available_points: usize) -> usize {
    if card.max < available_points {
        card.max
    } else {
        available_points
    }
}

pub open spec fn route_spec(
    config: SparseIndexConfig,
    filter_cardinality: Option<CardinalityEstimation>,
    available_points: usize,
) -> SearchRoute {
    match filter_cardinality {
        None => SearchRoute::UnfilteredSparse,
        Some(card) => if adjusted_max(card, available_points) < config.full_scan_threshold {
            SearchRoute::SmallCardinality
        } else {
            SearchRoute::FilteredSparse
        },
    }
}

/// The weight that record `r` has on dimension `d` once `points` are stored in order:
/// the last vector stored under `r` decides.
pub open spec fn built_entry(points: Seq<(PointOffset, SparseVector)>, d: DimId, r: PointOffset) -> Option<DimWeight>
    decreases points.len(),
{
    if points.len() == 0 {
        None
    } else if points.last().0 == r {
        points.last().1.weight_of(d)
    } else {
        built_entry(points.drop_last(), d, r)
    }
}

/// The greatest point id among `points`, zero when there are none.
pub open spec fn max_id(points: Seq<(PointOffset, SparseVector)>) -> PointOffset
    decreases points.len(),
{
    if points.len() == 0 {
        0
    } else {
        let rest = max_id(points.drop_last());
        if points.last().0 > rest {
            points.last().0
        } else {
            rest
        }
    }
}

pub open spec fn all_valid(points: Seq<(PointOffset, SparseVector)>) -> bool {
    forall|i: int| 0 <= i < points.len() ==> (#[trigger] points[i]).1.valid()
}

/// A rebuild depends on the points alone: two indices built from the same points, whatever
/// updates either received before, hold the same weight for every dimension and record, and
/// the same greatest point id.
pub proof fn rebuild_forgets_prior_state(a: SparseVectorIndex, b: SparseVectorIndex, points: Seq<(PointOffset, SparseVector)>)
    requires
        forall|d: DimId, r: PointOffset| #[trigger] a.inverted_index.entry(d, r) == built_entry(points, d, r),
        forall|d: DimId, r: PointOffset| #[trigger] b.inverted_index.entry(d, r) == built_entry(points, d, r),
        a.max_point_id == max_id(points),
        b.max_point_id == max_id(points),
    ensures
        forall|d: DimId, r: PointOffset| #[trigger] a.inverted_index.entry(d, r) == b.inverted_index.entry(d, r),
        a.max_point_id == b.max_point_id,
{
    assert forall|d: DimId, r: PointOffset| #[trigger] a.inverted_index.entry(d, r) == b.inverted_index.entry(d, r) by {
        assert(a.inverted_index.entry(d, r) == built_entry(points, d, r));
        assert(b.inverted_index.entry(d, r) == built_entry(points, d, r));
    }
}

/// Bounds the upper estimate of a filter's cardinality by the number of available points.
pub fn adjust_to_available(card: CardinalityEstimation, available_points: usize) -> (r: CardinalityEstimation)
    ensures
        r.max == adjusted_max(card, available_points),
        r.min == (if card.min < r.max { card.min } else { r.max }),
        r.exp == (if card.exp < r.max { card.exp } else { r.max }),
{
    let max = if card.max < available_points { card.max } else { available_points };
    let min = if card.min < max { card.min } else { max };
    let exp = if card.exp < max { card.exp } else { max };
    CardinalityEstimation { min, exp, max }
}

/// The nearest-neighbour vector of a query, or the error for a kind this index refuses.
pub fn nearest_vector(query: &QueryVector) -> (r: Result<&SparseVector, SparseIndexError>)
    ensures
        query matches QueryVector::Nearest(v) ==> r == Ok::<&SparseVector, SparseIndexError>(v),
        query is Recommend ==> r == Err::<&SparseVector, _>(SparseIndexError::UnsupportedQueryKind(QueryKind::Recommend)),
        query is Discovery ==> r == Err::<&SparseVector, _>(SparseIndexError::UnsupportedQueryKind(QueryKind::Discovery)),
        query is Context ==> r == Err::<&SparseVector, _>(SparseIndexError::UnsupportedQueryKind(QueryKind::Context)),
{
    match query {
        QueryVector::Nearest(v) => Ok(v),
        QueryVector::Recommend => Err(SparseIndexError::UnsupportedQueryKind(QueryKind::Recommend)),
        QueryVector::Discovery => Err(SparseIndexError::UnsupportedQueryKind(QueryKind::Discovery)),
        QueryVector::Context => Err(SparseIndexError::UnsupportedQueryKind(QueryKind::Context)),
    }
}

/// The sparse index: the configuration, the inverted index, and the greatest point id indexed.
#[derive(Debug)]
pub struct SparseVectorIndex {
    pub config: SparseIndexConfig,
    pub inverted_index: InvertedIndexRam,
    pub max_point_id: PointOffset,
}

impl SparseVectorIndex {
    pub open spec fn wf(&self) -> bool {
        self.inverted_index.wf()
    }

    /// An index with nothing in it yet.
    pub fn new(config: SparseIndexConfig) -> (r: SparseVectorIndex)
        ensures
            r.wf(),
            r.config == config,
            r.max_point_id == 0,
            forall|d: DimId, p: PointOffset| r.inverted_index.entry(d, p) is None,
    {
        SparseVectorIndex { config, inverted_index: InvertedIndexRam::empty(), max_point_id: 0 }
    }

    /// Which way a search with a filter of the given cardinality goes (none: no filter).
    pub fn route(&self, filter_cardinality: Option<CardinalityEstimation>, available_points: usize) -> (r: SearchRoute)
        ensures
            r == route_spec(self.config, filter_cardinality, available_points),
    {
        match filter_cardinality {
            None => SearchRoute::UnfilteredSparse,
            Some(card) => {
                let adjusted = adjust_to_available(card, available_points);
                if adjusted.max < self.config.full_scan_threshold {
                    SearchRoute::SmallCardinality
                } else {
                    SearchRoute::FilteredSparse
                }
            },
        }
    }

    /// The most results that a search with `query_vector` can give: the number of records
    /// that hold at least one of its dimensions.
    pub fn max_result_count(&self, query_vector: &SparseVector) -> (r: usize)
        requires
            self.wf(),
        ensures
            r == self.inverted_index.records_on(query_vector.indices@).len(),
    {
        let ids = self.inverted_index.records_matching(&query_vector.indices);
        proof {
            ids@.unique_seq_to_set();
        }
        ids.len()
    }

    /// Replaces the inverted index with one built from `points`, stored in order.
    pub fn build_index(&mut self, points: Vec<(PointOffset, SparseVector)>)
        requires
            all_valid(points@),
        ensures
            final(self).wf(),
            final(self).config == old(self).config,
            forall|d: DimId, r: PointOffset| #[trigger] final(self).inverted_index.entry(d, r) == built_entry(points@, d, r),
            final(self).max_point_id == max_id(points@),
    {
        let ghost all = points@;
        let n = points.len();
        let mut rest = points;
        let mut ram_index = InvertedIndexRam::empty();
        let mut count: usize = 0;
        let mut max_point_id: PointOffset = 0;
        while rest.len() > 0
            invariant
                all_valid(all),
                n == all.len(),
                count + rest@.len() == n,
                rest@ == all.subrange(count as int, n as int),
                max_point_id == max_id(all.subrange(0, count as int)),
                ram_index.wf(),
                forall|d: DimId, r: PointOffset| #[trigger] ram_index.entry(d, r) == built_entry(all.subrange(0, count as int), d, r),
            decreases rest@.len(),
        {
            let (id, vector) = rest.remove(0);
            assert(all[count as int] == (id, vector));
            assert(all[count as int].1.valid());
            if id > max_point_id {
                max_point_id = id;
            }
            ram_index.upsert(id, vector);
            proof {
                let pre = all.subrange(0, count as int);
                let post = all.subrange(0, count + 1);
                assert(post.drop_last() =~= pre);
                assert(post.last() == (id, vector));
                assert(rest@ =~= all.subrange(count + 1, n as int));
            }
            count = count + 1;
        }
        proof {
            assert(all.subrange(0, n as int) =~= all);
        }
        self.max_point_id = max_point_id;
        self.inverted_index = ram_index;
    }

    /// Stores `vector` as point `id` in the inverted index.
    pub fn update_vector(&mut self, id: PointOffset, vector: SparseVector)
        requires
            old(self).wf(),
            vector.valid(),
        ensures
            final(self).wf(),
            final(self).config == old(self).config,
            final(self).max_point_id == if id > old(self).max_point_id { id } else { old(self).max_point_id },
            forall|d: DimId, r: PointOffset| #[trigger] final(self).inverted_index.entry(d, r) == if r == id {
                vector.weight_of(d)
            } else {
                old(self).inverted_index.entry(d, r)
            },
    {
        if id > self.max_point_id {
            self.max_point_id = id;
        }
        self.inverted_index.upsert(id, vector);
    }

    /// The number of indexed vectors: one more than the greatest point id indexed, as internal
    /// ids start at zero.
    pub fn indexed_vector_count(&self) -> (r: usize)
        requires
            self.max_point_id < usize::MAX,
        ensures
            r == self.max_point_id + 1,
    {
        self.max_point_id as usize + 1
    }
}

} // verus!
