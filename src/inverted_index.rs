use vstd::prelude::*;

use crate::posting_list::{has_record, ids_ascending, is_max_weight, PointOffset, PostingElement, PostingList};
use crate::sparse_vector::{lemma_prefix_weight_step, prefix_weight, DimId, DimWeight, SparseVector};


verus! {

/// The posting list of one dimension.
#[derive(Debug)]
pub struct DimPostings {
    pub dim: DimId,
    pub list: PostingList,
}

pub open spec fn map_get(m: Map<PointOffset, DimWeight>, r: PointOffset) -> Option<DimWeight> {
    if m.contains_key(r) {
        Some(m[r])
    } else {
        None
    }
}

pub open spec fn has_dim(s: Seq<DimPostings>, d: DimId) -> bool {
    exists|k: int| 0 <= k < s.len() && s[k].dim == d
}

/// The weight that record `r` has on dimension `d`, if any.
pub open spec fn entry_of(s: Seq<DimPostings>, d: DimId, r: PointOffset) -> Option<DimWeight> {
    if has_dim(s, d) {
        map_get(s[choose|k: int| 0 <= k < s.len() && s[k].dim == d].list@, r)
    } else {
        None
    }
}

pub open spec fn dims_unique(s: Seq<DimPostings>) -> bool {
    forall|i: int, j: int| 0 <= i < j < s.len() ==> s[i].dim != s[j].dim
}

/// Every list well formed and none of them empty.
pub open spec fn lists_wf(s: Seq<DimPostings>) -> bool {
    forall|k: int| 0 <= k < s.len() ==> (#[trigger] s[k]).list.wf() && s[k].list.seq().len() > 0
}

pub proof fn lemma_entry_at(s: Seq<DimPostings>, k: int, r: PointOffset)
    requires
        dims_unique(s),
        0 <= k < s.len(),
    ensures
        entry_of(s, s[k].dim, r) == map_get(s[k].list@, r),
{
    assert(has_dim(s, s[k].dim));
    let j = choose|j: int| 0 <= j < s.len() && s[j].dim == s[k].dim;
    if j < k {
        assert(s[j].dim != s[k].dim);
    } else if k < j {
        assert(s[k].dim != s[j].dim);
    }
}

/// Appending the list of a new dimension decides that dimension only.
proof fn lemma_entry_push(s: Seq<DimPostings>, x: DimPostings, d: DimId, r: PointOffset)
    requires
        dims_unique(s),
        !has_dim(s, x.dim),
    ensures
        dims_unique(s.push(x)),
        entry_of(s.push(x), d, r) == if d == x.dim {
            map_get(x.list@, r)
        } else {
            entry_of(s, d, r)
        },
{
    let t = s.push(x);
    assert forall|i: int, j: int| 0 <= i < j < t.len() implies t[i].dim != t[j].dim by {
        if j == s.len() {
            assert(t[i] == s[i]);
        } else {
            assert(t[i] == s[i] && t[j] == s[j]);
        }
    }
    if d == x.dim {
        lemma_entry_at(t, s.len() as int, r);
    } else if has_dim(s, d) {
        let k = choose|k: int| 0 <= k < s.len() && s[k].dim == d;
        assert(t[k] == s[k]);
        lemma_entry_at(t, k, r);
        lemma_entry_at(s, k, r);
    } else {
        assert(!has_dim(t, d)) by {
            if has_dim(t, d) {
                let k = choose|k: int| 0 <= k < t.len() && t[k].dim == d;
                assert(k < s.len());
                assert(t[k] == s[k]);
            }
        }
    }
}

/// Taking out the list at `k` leaves the other dimensions as they were.
proof fn lemma_entry_remove(s: Seq<DimPostings>, k: int, d: DimId, r: PointOffset)
    requires
        dims_unique(s),
        0 <= k < s.len(),
    ensures
        dims_unique(s.remove(k)),
        !has_dim(s.remove(k), s[k].dim),
        entry_of(s.remove(k), d, r) == if d == s[k].dim {
            None
        } else {
            entry_of(s, d, r)
        },
{
    let t = s.remove(k);
    assert forall|i: int| 0 <= i < t.len() implies t[i] == (if i < k { s[i] } else { s[i + 1] }) by {}
    assert forall|i: int, j: int| 0 <= i < j < t.len() implies t[i].dim != t[j].dim by {
        if j < k {
        } else if i < k {
            assert(s[i].dim != s[j + 1].dim);
        } else {
            assert(s[i + 1].dim != s[j + 1].dim);
        }
    }
    assert(!has_dim(t, s[k].dim)) by {
        if has_dim(t, s[k].dim) {
            let i = choose|i: int| 0 <= i < t.len() && t[i].dim == s[k].dim;
            if i < k {
                assert(s[i].dim != s[k].dim);
            } else {
                assert(s[k].dim != s[i + 1].dim);
            }
        }
    }
    if d != s[k].dim {
        if has_dim(s, d) {
            let j = choose|j: int| 0 <= j < s.len() && s[j].dim == d;
            lemma_entry_at(s, j, r);
            if j < k {
                lemma_entry_at(t, j, r);
            } else {
                assert(j != k);
                assert(t[j - 1] == s[j]);
                lemma_entry_at(t, j - 1, r);
            }
        } else {
            assert(!has_dim(t, d)) by {
                if has_dim(t, d) {
                    let i = choose|i: int| 0 <= i < t.len() && t[i].dim == d;
                    if i < k {
                        assert(s[i].dim == d);
                    } else {
                        assert(s[i + 1].dim == d);
                    }
                }
            }
        }
    }
}

/// Every posting list of a well-formed index holds its records in strictly ascending order,
/// each once, and its greatest weight is the maximum of its weights; `upsert` keeps the index
/// well formed, so this holds after any sequence of upserts.
pub proof fn posting_lists_ordered(index: &InvertedIndexRam, k: int)
    requires
        index.wf(),
        0 <= k < index.postings@.len(),
    ensures
        ids_ascending(index.postings@[k].list.seq()),
        is_max_weight(index.postings@[k].list.seq(), index.postings@[k].list.max_weight_spec()),
{
    assert(lists_wf(index.postings@));
    assert(index.postings@[k].list.wf());
}

pub open spec fn ids_strictly_ascending(v: Seq<PointOffset>) -> bool {
    forall|i: int, j: int| 0 <= i < j < v.len() ==> v[i] < v[j]
}

/// The union of an ascending sequence of ids and the records of a posting list, ascending.
pub fn merge_records(a: &Vec<PointOffset>, e: &Vec<PostingElement>) -> (r: Vec<PointOffset>)
    requires
        ids_strictly_ascending(a@),
        ids_ascending(e@),
    ensures
        ids_strictly_ascending(r@),
        forall|x: PointOffset| r@.contains(x) <==> a@.contains(x) || has_record(e@, x),
{
    let mut out: Vec<PointOffset> = Vec::new();
    let mut i: usize = 0;
    let mut j: usize = 0;
    while i < a.len() || j < e.len()
        invariant
            i <= a@.len(),
            j <= e@.len(),
            ids_strictly_ascending(a@),
            ids_ascending(e@),
            ids_strictly_ascending(out@),
            forall|k: int| 0 <= k < out@.len() ==> (i < a@.len() ==> out@[k] < a@[i as int])
                && (j < e@.len() ==> out@[k] < e@[j as int].record_id),
            forall|x: PointOffset| out@.contains(x) <==> (exists|k: int| 0 <= k < i && a@[k] == x)
                || (exists|k: int| 0 <= k < j && e@[k].record_id == x),
        decreases a@.len() + e@.len() - i - j,
    {
        let take_a = j >= e.len() || (i < a.len() && a[i] <= e[j].record_id);
        let take_e = i >= a.len() || (j < e.len() && e[j].record_id <= a[i]);
        let x = if take_a { a[i] } else { e[j].record_id };
        let ghost o0 = out@;
        let ghost i0 = i as int;
        let ghost j0 = j as int;
        out.push(x);
        if take_a {
            i = i + 1;
        }
        if take_e {
            j = j + 1;
        }
        proof {
            assert forall|k: int| 0 <= k < out@.len() implies (i < a@.len() ==> out@[k] < a@[i as int])
                && (j < e@.len() ==> out@[k] < e@[j as int].record_id) by {
                if i < a@.len() && i0 < i {
                    assert(a@[i0] < a@[i as int]);
                }
                if j < e@.len() && j0 < j {
                    assert(e@[j0].record_id < e@[j as int].record_id);
                }
            }
            assert forall|x2: PointOffset| out@.contains(x2) <==> (exists|k: int| 0 <= k < i && a@[k] == x2)
                || (exists|k: int| 0 <= k < j && e@[k].record_id == x2) by {
                if out@.contains(x2) {
                    let k = choose|k: int| 0 <= k < out@.len() && out@[k] == x2;
                    if k < o0.len() {
                        assert(o0.contains(x2));
                    }
                }
                if o0.contains(x2) {
                    let k = choose|k: int| 0 <= k < o0.len() && o0[k] == x2;
                    assert(out@[k] == x2);
                }
                if x2 == x {
                    assert(out@[o0.len() as int] == x);
                }
                if exists|k: int| 0 <= k < i && a@[k] == x2 {
                    let k = choose|k: int| 0 <= k < i && a@[k] == x2;
                    if k == i0 {
                        assert(x2 == x);
                    }
                }
                if exists|k: int| 0 <= k < j && e@[k].record_id == x2 {
                    let k = choose|k: int| 0 <= k < j && e@[k].record_id == x2;
                    if k == j0 {
                        assert(x2 == x);
                    }
                }
            }
        }
    }
    proof {
        assert forall|x: PointOffset| out@.contains(x) <==> a@.contains(x) || has_record(e@, x) by {
            if a@.contains(x) {
                let k = choose|k: int| 0 <= k < a@.len() && a@[k] == x;
                assert(exists|k2: int| 0 <= k2 < i && a@[k2] == x);
            }
        }
    }
    out
}

/// Mapping from dimension to the posting list of the records that hold it, kept in memory.
#[derive(Debug)]
pub struct InvertedIndexRam {
    pub postings: Vec<DimPostings>,
}

impl InvertedIndexRam {
    /// The weight that record `r` has on dimension `d`, if any.
    pub open spec fn entry(&self, d: DimId, r: PointOffset) -> Option<DimWeight> {
        entry_of(self.postings@, d, r)
    }

    /// Dimensions unique; every posting list well formed and nonempty.
    pub open spec fn wf(&self) -> bool {
        &&& dims_unique(self.postings@)
        &&& lists_wf(self.postings@)
    }

    pub fn empty() -> (r: InvertedIndexRam)
        ensures
            r.wf(),
            forall|d: DimId, p: PointOffset| r.entry(d, p) is None,
    {
        InvertedIndexRam { postings: Vec::new() }
    }

    /// Where the list of dimension `d` stands, if the index has one.
    pub fn position(&self, d: DimId) -> (r: Option<usize>)
        ensures
            r matches Some(k) ==> k < self.postings@.len() && self.postings@[k as int].dim == d,
            r is None ==> !has_dim(self.postings@, d),
    {
        let mut k: usize = 0;
        while k < self.postings.len()
            invariant
                k <= self.postings@.len(),
                forall|j: int| 0 <= j < k ==> self.postings@[j].dim != d,
            decreases self.postings@.len() - k,
        {
            if self.postings[k].dim == d {
                return Some(k);
            }
            k = k + 1;
        }
        None
    }

    /// The posting list of dimension `d`, if the index has one.
    pub fn get(&self, d: DimId) -> (r: Option<&PostingList>)
        requires
            self.wf(),
        ensures
            r matches Some(l) ==> l.wf() && l.seq().len() > 0 && forall|p: PointOffset| #[trigger] self.entry(d, p) == map_get(l@, p),
            r is None ==> forall|p: PointOffset| #[trigger] self.entry(d, p) is None,
    {
        match self.position(d) {
            Some(k) => {
                proof {
                    assert forall|p: PointOffset| #[trigger] self.entry(d, p) == map_get(self.postings@[k as int].list@, p) by {
                        lemma_entry_at(self.postings@, k as int, p);
                    }
                }
                Some(&self.postings[k].list)
            },
            None => None,
        }
    }

    /// Number of dimensions that hold at least one record.
    pub fn len(&self) -> (r: usize)
        ensures
            r == self.postings@.len(),
    {
        self.postings.len()
    }

    /// Stores `vector` as record `id`: it gets the vector's weight on each of its dimensions,
    /// and leaves the lists of the dimensions that the vector lacks.
    pub fn upsert(&mut self, id: PointOffset, vector: SparseVector)
        requires
            old(self).wf(),
            vector.valid(),
        ensures
            final(self).wf(),
            forall|d: DimId, r: PointOffset| #[trigger] final(self).entry(d, r) == if r == id {
                vector.weight_of(d)
            } else {
                old(self).entry(d, r)
            },
    {
        let mut rest: Vec<DimPostings> = Vec::new();
        std::mem::swap(&mut rest, &mut self.postings);
        let ghost s0 = rest@;
        let ghost n0 = s0.len() as int;
        proof {
            assert forall|d: DimId, r: PointOffset| #[trigger] entry_of(self.postings@, d, r) == if r == id {
                None
            } else {
                entry_of(s0.subrange(rest@.len() as int, n0), d, r)
            } by {
                assert(!has_dim(s0.subrange(n0, n0), d));
            }
        }
        while rest.len() > 0
            invariant
                dims_unique(s0),
                lists_wf(s0),
                n0 == s0.len(),
                rest@.len() <= n0,
                rest@ == s0.subrange(0, rest@.len() as int),
                dims_unique(self.postings@),
                lists_wf(self.postings@),
                forall|k: int| 0 <= k < self.postings@.len() ==> exists|j: int| rest@.len() <= j < n0
                    && s0[j].dim == #[trigger] self.postings@[k].dim,
                forall|d: DimId, r: PointOffset| #[trigger] entry_of(self.postings@, d, r) == if r == id {
                    None
                } else {
                    entry_of(s0.subrange(rest@.len() as int, n0), d, r)
                },
            decreases rest@.len(),
        {
            let ghost m = rest@.len() as int;
            let ghost p0 = self.postings@;
            match rest.pop() {
                Some(e0) => {
                    let mut e = e0;
                    assert(e == s0[m - 1]);
                    assert(lists_wf(s0));
                    assert(s0[m - 1].list.wf());
                    e.list.remove(id);
                    let ghost t0 = s0.subrange(m, n0);
                    let ghost t1 = s0.subrange(m - 1, n0);
                    proof {
                        assert(dims_unique(t1)) by {
                            assert forall|i: int, j: int| 0 <= i < j < t1.len() implies t1[i].dim != t1[j].dim by {
                                assert(t1[i] == s0[m - 1 + i] && t1[j] == s0[m - 1 + j]);
                            }
                        }
                        assert(!has_dim(p0, e.dim)) by {
                            if has_dim(p0, e.dim) {
                                let k = choose|k: int| 0 <= k < p0.len() && p0[k].dim == e.dim;
                                let j = choose|j: int| m <= j < n0 && s0[j].dim == p0[k].dim;
                                assert(s0[m - 1].dim != s0[j].dim);
                            }
                        }
                    }
                    if !e.list.is_empty() {
                        self.postings.push(e);
                    }
                    proof {
                        let p1 = self.postings@;
                        assert forall|d: DimId, r: PointOffset| #[trigger] entry_of(p1, d, r) == if r == id {
                            None
                        } else {
                            entry_of(t1, d, r)
                        } by {
                            assert(t1[0] == s0[m - 1]);
                            if d == e.dim {
                                lemma_entry_at(t1, 0, r);
                                if e.list.seq().len() > 0 {
                                    lemma_entry_push(p0, e, d, r);
                                } else {
                                    assert(!e.list@.contains_key(r)) by {
                                        if e.list@.contains_key(r) {
                                            assert(has_record(e.list.seq(), r));
                                        }
                                    }
                                }
                            } else {
                                if e.list.seq().len() > 0 {
                                    lemma_entry_push(p0, e, d, r);
                                }
                                if has_dim(t0, d) {
                                    let k = choose|k: int| 0 <= k < t0.len() && t0[k].dim == d;
                                    assert(t1[k + 1] == t0[k]);
                                    lemma_entry_at(t0, k, r);
                                    lemma_entry_at(t1, k + 1, r);
                                } else {
                                    assert(!has_dim(t1, d)) by {
                                        if has_dim(t1, d) {
                                            let k = choose|k: int| 0 <= k < t1.len() && t1[k].dim == d;
                                            assert(k != 0);
                                            assert(t0[k - 1] == t1[k]);
                                        }
                                    }
                                }
                            }
                        }
                        assert forall|k: int| 0 <= k < p1.len() implies exists|j: int| m - 1 <= j < n0
                            && s0[j].dim == #[trigger] p1[k].dim by {
                            if k < p0.len() {
                                assert(p1[k] == p0[k]);
                                let j = choose|j: int| m <= j < n0 && s0[j].dim == p0[k].dim;
                            } else {
                                assert(p1[k] == e);
                            }
                        }
                        assert(lists_wf(p1)) by {
                            assert forall|k: int| 0 <= k < p1.len() implies (#[trigger] p1[k]).list.wf() && p1[k].list.seq().len() > 0 by {
                                if k < p0.len() {
                                    assert(p1[k] == p0[k]);
                                }
                            }
                        }
                        if e.list.seq().len() > 0 {
                            lemma_entry_push(p0, e, 0, 0);
                        }
                        assert(rest@ =~= s0.subrange(0, rest@.len() as int));
                    }
                },
                None => {},
            }
        }
        proof {
            assert(s0.subrange(0, n0) =~= s0);
        }
        let ghost p_a = self.postings@;
        let n = vector.indices.len();
        let mut i: usize = 0;
        while i < n
            invariant
                vector.valid(),
                n == vector.indices@.len(),
                i <= n,
                dims_unique(self.postings@),
                lists_wf(self.postings@),
                forall|d: DimId, r: PointOffset| #[trigger] entry_of(self.postings@, d, r) == if r == id {
                    prefix_weight(vector.indices@, vector.values@, i as int, d)
                } else {
                    entry_of(s0, d, r)
                },
            decreases n - i,
        {
            let d = vector.indices[i];
            let w = vector.values[i];
            let ghost p0 = self.postings@;
            match self.position(d) {
                Some(k) => {
                    let mut e = self.postings.remove(k);
                    assert(e == p0[k as int]);
                    e.list.insert_or_replace(id, w);
                    self.postings.push(e);
                    proof {
                        let pr = p0.remove(k as int);
                        assert forall|dd: DimId, r: PointOffset| #[trigger] entry_of(self.postings@, dd, r) == if r == id {
                            prefix_weight(vector.indices@, vector.values@, i + 1, dd)
                        } else {
                            entry_of(s0, dd, r)
                        } by {
                            lemma_prefix_weight_step(vector.indices@, vector.values@, i as int, dd);
                            lemma_entry_remove(p0, k as int, dd, r);
                            lemma_entry_push(pr, e, dd, r);
                            lemma_entry_at(p0, k as int, r);
                        }
                        lemma_entry_remove(p0, k as int, 0, 0);
                        lemma_entry_push(pr, e, 0, 0);
                        assert(e.list@.contains_key(id));
                        assert(has_record(e.list.seq(), id));
                        assert(lists_wf(self.postings@)) by {
                            let p1 = self.postings@;
                            assert forall|j: int| 0 <= j < p1.len() implies (#[trigger] p1[j]).list.wf() && p1[j].list.seq().len() > 0 by {
                                if j < pr.len() {
                                    if j < k {
                                        assert(p1[j] == p0[j]);
                                    } else {
                                        assert(p1[j] == p0[j + 1]);
                                    }
                                }
                            }
                        }
                    }
                },
                None => {
                    let mut list = PostingList::new();
                    list.insert_or_replace(id, w);
                    let e = DimPostings { dim: d, list };
                    self.postings.push(e);
                    proof {
                        assert forall|dd: DimId, r: PointOffset| #[trigger] entry_of(self.postings@, dd, r) == if r == id {
                            prefix_weight(vector.indices@, vector.values@, i + 1, dd)
                        } else {
                            entry_of(s0, dd, r)
                        } by {
                            lemma_prefix_weight_step(vector.indices@, vector.values@, i as int, dd);
                            lemma_entry_push(p0, e, dd, r);
                            assert(entry_of(p0, d, r) is None);
                        }
                        lemma_entry_push(p0, e, 0, 0);
                        assert(e.list@.contains_key(id));
                        assert(has_record(e.list.seq(), id));
                        assert(lists_wf(self.postings@)) by {
                            let p1 = self.postings@;
                            assert forall|j: int| 0 <= j < p1.len() implies (#[trigger] p1[j]).list.wf() && p1[j].list.seq().len() > 0 by {
                                if j < p0.len() {
                                    assert(p1[j] == p0[j]);
                                }
                            }
                        }
                    }
                },
            }
            i = i + 1;
        }
    }

    /// Every record that the index holds on some dimension.
    pub open spec fn all_records(&self) -> Set<PointOffset> {
        Set::new(|r: PointOffset| exists|d: DimId| #[trigger] self.entry(d, r) is Some)
    }

    /// The number of distinct records stored. As every stored vector holds a dimension, this is
    /// the number of distinct ids upserted.
    pub fn vector_count(&self) -> (r: usize)
        requires
            self.wf(),
        ensures
            r == self.all_records().len(),
    {
        let mut dims: Vec<DimId> = Vec::new();
        let mut k: usize = 0;
        while k < self.postings.len()
            invariant
                k <= self.postings@.len(),
                dims@.len() == k,
                forall|j: int| 0 <= j < k ==> dims@[j] == (#[trigger] self.postings@[j]).dim,
            decreases self.postings@.len() - k,
        {
            dims.push(self.postings[k].dim);
            k = k + 1;
        }
        let ids = self.records_matching(&dims);
        proof {
            assert forall|r: PointOffset| self.all_records().contains(r) <==> #[trigger] self.records_on(dims@).contains(r) by {
                if self.all_records().contains(r) {
                    let d = choose|d: DimId| #[trigger] self.entry(d, r) is Some;
                    assert(has_dim(self.postings@, d));
                    let j = choose|j: int| 0 <= j < self.postings@.len() && self.postings@[j].dim == d;
                    assert(dims@[j] == d);
                }
            }
            assert(self.all_records() =~= self.records_on(dims@));
            ids@.unique_seq_to_set();
        }
        ids.len()
    }

    /// The records that hold at least one of the dimensions in `dims`.
    pub open spec fn records_on(&self, dims: Seq<DimId>) -> Set<PointOffset> {
        Set::new(|r: PointOffset| exists|i: int| 0 <= i < dims.len() && self.entry(dims[i], r) is Some)
    }

    /// The records that hold at least one of the dimensions in `dims`, each once, ascending:
    /// the posting lists merged one after another.
    pub fn records_matching(&self, dims: &Vec<DimId>) -> (r: Vec<PointOffset>)
        requires
            self.wf(),
        ensures
            r@.no_duplicates(),
            ids_strictly_ascending(r@),
            r@.to_set() == self.records_on(dims@),
    {
        let mut out: Vec<PointOffset> = Vec::new();
        let mut i: usize = 0;
        while i < dims.len()
            invariant
                self.wf(),
                i <= dims@.len(),
                ids_strictly_ascending(out@),
                forall|r: PointOffset| out@.contains(r) <==> exists|k: int| 0 <= k < i && (#[trigger] self.entry(dims@[k], r)) is Some,
            decreases dims@.len() - i,
        {
            let d = dims[i];
            match self.get(d) {
                Some(list) => {
                    let merged = merge_records(&out, list.elements());
                    proof {
                        assert forall|r: PointOffset| merged@.contains(r) <==> exists|k: int| 0 <= k < i + 1 && (#[trigger] self.entry(dims@[k], r)) is Some by {
                            if has_record(list.seq(), r) {
                                assert(list@.contains_key(r));
                                assert(self.entry(dims@[i as int], r) is Some);
                            }
                            if self.entry(dims@[i as int], r) is Some {
                                assert(list@.contains_key(r));
                            }
                            if exists|k: int| 0 <= k < i + 1 && (#[trigger] self.entry(dims@[k], r)) is Some {
                                let k = choose|k: int| 0 <= k < i + 1 && (#[trigger] self.entry(dims@[k], r)) is Some;
                                if k < i {
                                    assert(out@.contains(r));
                                }
                            }
                        }
                    }
                    out = merged;
                },
                None => {
                    proof {
                        assert forall|r: PointOffset| out@.contains(r) <==> exists|k: int| 0 <= k < i + 1 && (#[trigger] self.entry(dims@[k], r)) is Some by {
                            assert(self.entry(dims@[i as int], r) is None);
                        }
                    }
                },
            }
            i = i + 1;
        }
        proof {
            assert(out@.no_duplicates()) by {
                assert forall|a: int, b: int| 0 <= a < out@.len() && 0 <= b < out@.len() && a != b implies out@[a] != out@[b] by {
                    if a < b {
                        assert(out@[a] < out@[b]);
                    } else {
                        assert(out@[b] < out@[a]);
                    }
                }
            }
            assert(out@.to_set() =~= self.records_on(dims@));
        }
        out
    }

    /// The terms of record `r`'s score against the first `n` pairs of a query: the query's
    /// weight and the record's weight on each of those dimensions that the record holds.
    pub open spec fn terms_prefix(&self, dims: Seq<DimId>, weights: Seq<DimWeight>, r: PointOffset, n: int) -> Seq<(DimWeight, DimWeight)>
        decreases n,
    {
        if n <= 0 {
            Seq::empty()
        } else {
            let prev = self.terms_prefix(dims, weights, r, n - 1);
            match self.entry(dims[n - 1], r) {
                Some(w) => prev.push((weights[n - 1], w)),
                None => prev,
            }
        }
    }

    /// The terms of record `r`'s score against `query`, in the query's order: their products,
    /// summed in this order, give the record's dot product with the query.
    pub fn score_terms(&self, query: &SparseVector, r: PointOffset) -> (t: Vec<(DimWeight, DimWeight)>)
        requires
            self.wf(),
            query.valid(),
        ensures
            t@ == self.terms_prefix(query.indices@, query.values@, r, query.indices@.len() as int),
    {
        let mut out: Vec<(DimWeight, DimWeight)> = Vec::new();
        let n = query.indices.len();
        let mut i: usize = 0;
        while i < n
            invariant
                self.wf(),
                query.valid(),
                n == query.indices@.len(),
                i <= n,
                out@ == self.terms_prefix(query.indices@, query.values@, r, i as int),
            decreases n - i,
        {
            let d = query.indices[i];
            match self.get(d) {
                Some(list) => {
                    match list.get_weight(r) {
                        Some(w) => {
                            out.push((query.values[i], w));
                        },
                        None => {},
                    }
                },
                None => {},
            }
            i = i + 1;
        }
        out
    }
}

/// When the index holds record `r` as the vector `stored`, the terms it scores `r` with are
/// those of the dot product of the query with `stored`, in the same order: a search through the
/// index scores each record as a scan over the stored vectors would.
pub proof fn index_scores_as_scan(index: &InvertedIndexRam, query: &SparseVector, r: PointOffset, stored: &SparseVector)
    requires
        forall|d: DimId| #[trigger] index.entry(d, r) == stored.weight_of(d),
    ensures
        index.terms_prefix(query.indices@, query.values@, r, query.indices@.len() as int)
            == query.matched_pairs_spec(stored),
{
    lemma_terms_as_matched(index, query, r, stored, query.indices@.len() as int);
}

proof fn lemma_terms_as_matched(index: &InvertedIndexRam, query: &SparseVector, r: PointOffset, stored: &SparseVector, n: int)
    requires
        forall|d: DimId| #[trigger] index.entry(d, r) == stored.weight_of(d),
        0 <= n <= query.indices@.len(),
    ensures
        index.terms_prefix(query.indices@, query.values@, r, n) == query.matched_prefix(stored, n),
    decreases n,
{
    if n > 0 {
        lemma_terms_as_matched(index, query, r, stored, n - 1);
        assert(index.entry(query.indices@[n - 1], r) == stored.weight_of(query.indices@[n - 1]));
    }
}

/// A record is a candidate of a query exactly when its score has at least one term.
pub proof fn candidates_have_terms(index: &InvertedIndexRam, query: &SparseVector, r: PointOffset)
    ensures
        index.records_on(query.indices@).contains(r)
            <==> index.terms_prefix(query.indices@, query.values@, r, query.indices@.len() as int).len() > 0,
{
    lemma_terms_nonempty(index, query, r, query.indices@.len() as int);
}

proof fn lemma_terms_nonempty(index: &InvertedIndexRam, query: &SparseVector, r: PointOffset, n: int)
    requires
        0 <= n <= query.indices@.len(),
    ensures
        (exists|i: int| 0 <= i < n && (#[trigger] index.entry(query.indices@[i], r)) is Some)
            <==> index.terms_prefix(query.indices@, query.values@, r, n).len() > 0,
    decreases n,
{
    if n > 0 {
        lemma_terms_nonempty(index, query, r, n - 1);
        if exists|i: int| 0 <= i < n && (#[trigger] index.entry(query.indices@[i], r)) is Some {
            let i = choose|i: int| 0 <= i < n && (#[trigger] index.entry(query.indices@[i], r)) is Some;
            if i < n - 1 {
                assert(exists|j: int| 0 <= j < n - 1 && (#[trigger] index.entry(query.indices@[j], r)) is Some);
            }
        }
        if index.terms_prefix(query.indices@, query.values@, r, n - 1).len() > 0 {
            let j = choose|j: int| 0 <= j < n - 1 && (#[trigger] index.entry(query.indices@[j], r)) is Some;
            assert(0 <= j < n && index.entry(query.indices@[j], r) is Some);
        }
    }
}

} // verus!
