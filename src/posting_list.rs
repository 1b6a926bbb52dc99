use vstd::prelude::*;

use crate::sparse_vector::{
    canonical, canonical_weight, lemma_canonical_key, lemma_key_determines_weight, weight_key, weight_order_key,
    DimWeight,
};

verus! {

/// Internal identifier of a stored point.
pub type PointOffset = u32;

/// The weight that a record holds on one dimension.
#[derive(Debug, Clone, Copy, PartialEq, Eq, Structural)]
pub struct PostingElement {
    pub record_id: PointOffset,
    pub weight: DimWeight,
}

/// Record identifiers strictly ascending, hence unique.
pub open spec fn ids_ascending(s: Seq<PostingElement>) -> bool {
    forall|i: int, j: int| 0 <= i < j < s.len() ==> s[i].record_id < s[j].record_id
}

pub open spec fn has_record(s: Seq<PostingElement>, r: PointOffset) -> bool {
    exists|i: int| 0 <= i < s.len() && s[i].record_id == r
}

/// What a sequence of elements says: each record's weight.
pub open spec fn weights_of(s: Seq<PostingElement>) -> Map<PointOffset, DimWeight> {
    Map::new(
        |r: PointOffset| has_record(s, r),
        |r: PointOffset| s[choose|i: int| 0 <= i < s.len() && s[i].record_id == r].weight,
    )
}

/// `m` is the greatest weight of a nonempty sequence: one of its weights (a zero kept as
/// `0.0`), and none above it.
pub open spec fn is_max_weight(s: Seq<PostingElement>, m: DimWeight) -> bool {
    s.len() > 0 ==> {
        &&& exists|i: int| 0 <= i < s.len() && canonical_weight(s[i].weight) == m
        &&& forall|i: int| 0 <= i < s.len() ==> weight_key(#[trigger] s[i].weight) <= weight_key(m)
    }
}

/// In a sequence with ascending identifiers, the element at `i` gives its record's weight.
pub proof fn lemma_lookup(s: Seq<PostingElement>, i: int)
    requires
        ids_ascending(s),
        0 <= i < s.len(),
    ensures
        weights_of(s).contains_key(s[i].record_id),
        weights_of(s)[s[i].record_id] == s[i].weight,
{
    let r = s[i].record_id;
    assert(has_record(s, r));
    let j = choose|j: int| 0 <= j < s.len() && s[j].record_id == r;
    if j < i {
        assert(s[j].record_id < s[i].record_id);
    } else if j > i {
        assert(s[i].record_id < s[j].record_id);
    }
}

/// Setting the element of a record that the sequence holds sets that record's weight.
proof fn lemma_update_weights(s0: Seq<PostingElement>, pos: int, e: PostingElement)
    requires
        ids_ascending(s0),
        ids_ascending(s0.update(pos, e)),
        0 <= pos < s0.len(),
        s0[pos].record_id == e.record_id,
    ensures
        weights_of(s0.update(pos, e)) == weights_of(s0).insert(e.record_id, e.weight),
{
    let s1 = s0.update(pos, e);
    let m = weights_of(s0).insert(e.record_id, e.weight);
    assert forall|x: PointOffset| #[trigger] weights_of(s1).contains_key(x) == m.contains_key(x)
        && (weights_of(s1).contains_key(x) ==> weights_of(s1)[x] == m[x]) by {
        if has_record(s1, x) {
            let i = choose|i: int| 0 <= i < s1.len() && s1[i].record_id == x;
            lemma_lookup(s1, i);
            if i != pos {
                lemma_lookup(s0, i);
            }
        }
        if has_record(s0, x) {
            let i = choose|i: int| 0 <= i < s0.len() && s0[i].record_id == x;
            assert(s1[i].record_id == x);
        }
    }
    assert(weights_of(s1) =~= m);
}

/// Inserting an element of a record that the sequence lacks adds that record's weight.
proof fn lemma_insert_weights(s0: Seq<PostingElement>, pos: int, e: PostingElement)
    requires
        ids_ascending(s0),
        ids_ascending(s0.insert(pos, e)),
        0 <= pos <= s0.len(),
        !has_record(s0, e.record_id),
    ensures
        weights_of(s0.insert(pos, e)) == weights_of(s0).insert(e.record_id, e.weight),
{
    let s1 = s0.insert(pos, e);
    let m = weights_of(s0).insert(e.record_id, e.weight);
    assert(s1[pos] == e);
    assert forall|x: PointOffset| #[trigger] weights_of(s1).contains_key(x) == m.contains_key(x)
        && (weights_of(s1).contains_key(x) ==> weights_of(s1)[x] == m[x]) by {
        if has_record(s1, x) {
            let i = choose|i: int| 0 <= i < s1.len() && s1[i].record_id == x;
            lemma_lookup(s1, i);
            if i < pos {
                assert(s1[i] == s0[i]);
                lemma_lookup(s0, i);
            } else if i > pos {
                assert(s1[i] == s0[i - 1]);
                lemma_lookup(s0, i - 1);
            }
        }
        if has_record(s0, x) {
            let i = choose|i: int| 0 <= i < s0.len() && s0[i].record_id == x;
            if i < pos {
                assert(s1[i] == s0[i]);
            } else {
                assert(s1[i + 1] == s0[i]);
            }
        }
    }
    assert(weights_of(s1) =~= m);
}

/// Removing the element at `pos` removes that record's weight.
proof fn lemma_remove_weights(s0: Seq<PostingElement>, pos: int)
    requires
        ids_ascending(s0),
        0 <= pos < s0.len(),
    ensures
        ids_ascending(s0.remove(pos)),
        weights_of(s0.remove(pos)) == weights_of(s0).remove(s0[pos].record_id),
{
    let s1 = s0.remove(pos);
    let r = s0[pos].record_id;
    assert forall|i: int| 0 <= i < s1.len() implies s1[i] == (if i < pos { s0[i] } else { s0[i + 1] }) by {}
    assert forall|i: int, j: int| 0 <= i < j < s1.len() implies s1[i].record_id < s1[j].record_id by {
        if j < pos {
            assert(s0[i].record_id < s0[j].record_id);
        } else if i < pos {
            assert(s0[i].record_id < s0[j + 1].record_id);
        } else {
            assert(s0[i + 1].record_id < s0[j + 1].record_id);
        }
    }
    let m = weights_of(s0).remove(r);
    assert forall|x: PointOffset| #[trigger] weights_of(s1).contains_key(x) == m.contains_key(x)
        && (weights_of(s1).contains_key(x) ==> weights_of(s1)[x] == m[x]) by {
        if has_record(s1, x) {
            let i = choose|i: int| 0 <= i < s1.len() && s1[i].record_id == x;
            lemma_lookup(s1, i);
            if i < pos {
                lemma_lookup(s0, i);
                assert(s0[i].record_id < s0[pos].record_id);
            } else {
                lemma_lookup(s0, i + 1);
                assert(s0[pos].record_id < s0[i + 1].record_id);
            }
        }
        if has_record(s0, x) && x != r {
            let i = choose|i: int| 0 <= i < s0.len() && s0[i].record_id == x;
            if i < pos {
                assert(s1[i] == s0[i]);
            } else {
                assert(i != pos);
                assert(s1[i - 1] == s0[i]);
            }
        }
    }
    assert(weights_of(s1) =~= m);
}

/// A nonempty sequence has one greatest weight: its order key is the greatest of the
/// weights' keys, and a zero is kept as `0.0`, so equal lists carry equal maxima.
pub proof fn max_weight_unique(s: Seq<PostingElement>, m1: DimWeight, m2: DimWeight)
    requires
        s.len() > 0,
        is_max_weight(s, m1),
        is_max_weight(s, m2),
    ensures
        m1 == m2,
{
    let i = choose|i: int| 0 <= i < s.len() && canonical_weight(s[i].weight) == m1;
    let j = choose|j: int| 0 <= j < s.len() && canonical_weight(s[j].weight) == m2;
    lemma_canonical_key(s[i].weight);
    lemma_canonical_key(s[j].weight);
    assert(weight_key(s[i].weight) <= weight_key(m2));
    assert(weight_key(s[j].weight) <= weight_key(m1));
    if weight_key(m1) != 0 {
        lemma_key_determines_weight(m1, m2);
    }
}

/// The elements of one dimension, ordered by record identifier, with their greatest weight.
#[derive(Debug, Clone)]
pub struct PostingList {
    pub elements: Vec<PostingElement>,
    pub max_weight: DimWeight,
}

/// Bit pattern of negative infinity: the greatest weight of an empty list.
pub const NEG_INFINITY_WEIGHT: DimWeight = 0xff80_0000;

impl PostingList {
    pub open spec fn view(&self) -> Map<PointOffset, DimWeight> {
        weights_of(self.elements@)
    }

    pub open spec fn seq(&self) -> Seq<PostingElement> {
        self.elements@
    }

    pub open spec fn max_weight_spec(&self) -> DimWeight {
        self.max_weight
    }

    pub open spec fn wf(&self) -> bool {
        &&& ids_ascending(self.elements@)
        &&& is_max_weight(self.elements@, self.max_weight)
    }

    pub fn new() -> (r: PostingList)
        ensures
            r.wf(),
            r.seq().len() == 0,
            r@ == Map::<PointOffset, DimWeight>::empty(),
    {
        let r = PostingList { elements: Vec::new(), max_weight: NEG_INFINITY_WEIGHT };
        assert(r@ =~= Map::<PointOffset, DimWeight>::empty());
        r
    }

    pub fn len(&self) -> (r: usize)
        ensures
            r == self.seq().len(),
    {
        self.elements.len()
    }

    pub fn is_empty(&self) -> (r: bool)
        ensures
            r == (self.seq().len() == 0),
    {
        self.elements.len() == 0
    }

    /// The greatest weight of the list.
    pub fn max_weight(&self) -> (r: DimWeight)
        ensures
            r == self.max_weight_spec(),
    {
        self.max_weight
    }

    pub fn elements(&self) -> (r: &Vec<PostingElement>)
        ensures
            r@ == self.seq(),
    {
        &self.elements
    }

    /// The first position whose record identifier is at least `record_id`.
    pub fn lower_bound(&self, record_id: PointOffset) -> (r: usize)
        requires
            self.wf(),
        ensures
            r <= self.seq().len(),
            forall|k: int| 0 <= k < r ==> self.seq()[k].record_id < record_id,
            forall|k: int| r <= k < self.seq().len() ==> self.seq()[k].record_id >= record_id,
    {
        let mut lo: usize = 0;
        let mut hi: usize = self.elements.len();
        while lo < hi
            invariant
                lo <= hi <= self.elements@.len(),
                ids_ascending(self.elements@),
                forall|k: int| 0 <= k < lo ==> self.elements@[k].record_id < record_id,
                forall|k: int| hi <= k < self.elements@.len() ==> self.elements@[k].record_id >= record_id,
            decreases hi - lo,
        {
            let mid = lo + (hi - lo) / 2;
            if self.elements[mid].record_id < record_id {
                lo = mid + 1;
            } else {
                hi = mid;
            }
        }
        lo
    }

    /// The greatest weight of a nonempty sequence of elements.
    pub(crate) fn greatest_weight(elements: &Vec<PostingElement>) -> (r: DimWeight)
        requires
            elements@.len() > 0,
        ensures
            is_max_weight(elements@, r),
    {
        let mut best = elements[0].weight;
        let mut i: usize = 1;
        while i < elements.len()
            invariant
                1 <= i <= elements@.len(),
                exists|k: int| 0 <= k < i && elements@[k].weight == best,
                forall|k: int| 0 <= k < i ==> weight_key(#[trigger] elements@[k].weight) <= weight_key(best),
            decreases elements@.len() - i,
        {
            let w = elements[i].weight;
            if weight_order_key(w) > weight_order_key(best) {
                best = w;
            }
            i = i + 1;
        }
        canonical(best)
    }

    /// Sets the weight of `record_id`, adding the record if the list lacks it.
    pub fn insert_or_replace(&mut self, record_id: PointOffset, weight: DimWeight)
        requires
            old(self).wf(),
        ensures
            final(self).wf(),
            final(self)@ == old(self)@.insert(record_id, weight),
    {
        let pos = self.lower_bound(record_id);
        let ghost s0 = self.elements@;
        let e = PostingElement { record_id, weight };
        if pos < self.elements.len() && self.elements[pos].record_id == record_id {
            let replaced_max = canonical(self.elements[pos].weight) == self.max_weight;
            self.elements.set(pos, e);
            let ghost s1 = self.elements@;
            assert(ids_ascending(s1)) by {
                assert forall|i: int, j: int| 0 <= i < j < s1.len() implies s1[i].record_id < s1[j].record_id by {
                    assert(s0[i].record_id == s1[i].record_id);
                    assert(s0[j].record_id == s1[j].record_id);
                }
            }
            if replaced_max {
                self.max_weight = Self::greatest_weight(&self.elements);
            } else if weight_order_key(weight) > weight_order_key(self.max_weight) {
                self.max_weight = canonical(weight);
            } else {
                assert(is_max_weight(s1, self.max_weight)) by {
                    let k = choose|k: int| 0 <= k < s0.len() && canonical_weight(s0[k].weight) == self.max_weight;
                    assert(k != pos);
                    assert(canonical_weight(s1[k].weight) == self.max_weight);
                    assert forall|i: int| 0 <= i < s1.len() implies weight_key(#[trigger] s1[i].weight) <= weight_key(self.max_weight) by {
                        if i != pos {
                            assert(s1[i] == s0[i]);
                        }
                    }
                }
            }
            proof {
                if weight_key(weight) > weight_key(old(self).max_weight) && !replaced_max {
                    assert(s1[pos as int].weight == weight);
                    lemma_canonical_key(weight);
                    assert forall|i: int| 0 <= i < s1.len() implies weight_key(#[trigger] s1[i].weight) <= weight_key(canonical_weight(weight)) by {
                        if i != pos {
                            assert(s1[i] == s0[i]);
                            assert(weight_key(s0[i].weight) <= weight_key(old(self).max_weight));
                        }
                    }
                }
                lemma_update_weights(s0, pos as int, e);
            }
        } else {
            self.elements.insert(pos, e);
            let ghost s1 = self.elements@;
            assert(ids_ascending(s1)) by {
                assert forall|i: int, j: int| 0 <= i < j < s1.len() implies s1[i].record_id < s1[j].record_id by {
                    if j < pos {
                        assert(s1[i] == s0[i] && s1[j] == s0[j]);
                    } else if j == pos {
                        assert(s1[i] == s0[i]);
                    } else if i < pos {
                        assert(s1[i] == s0[i] && s1[j] == s0[j - 1]);
                    } else if i == pos {
                        assert(s1[j] == s0[j - 1]);
                    } else {
                        assert(s1[i] == s0[i - 1] && s1[j] == s0[j - 1]);
                    }
                }
            }
            if pos == 0 && self.elements.len() == 1 || weight_order_key(weight) > weight_order_key(self.max_weight) {
                self.max_weight = canonical(weight);
                assert(s1[pos as int].weight == weight);
                assert forall|i: int| 0 <= i < s1.len() implies weight_key(#[trigger] s1[i].weight) <= weight_key(canonical_weight(weight)) by {
                    if i < pos {
                        assert(s1[i] == s0[i]);
                    } else if i > pos {
                        assert(s1[i] == s0[i - 1]);
                    }
                }
            } else {
                assert(is_max_weight(s1, self.max_weight)) by {
                    let k = choose|k: int| 0 <= k < s0.len() && canonical_weight(s0[k].weight) == self.max_weight;
                    if k < pos {
                        assert(s1[k] == s0[k]);
                    } else {
                        assert(s1[k + 1] == s0[k]);
                    }
                    assert forall|i: int| 0 <= i < s1.len() implies weight_key(#[trigger] s1[i].weight) <= weight_key(self.max_weight) by {
                        if i < pos {
                            assert(s1[i] == s0[i]);
                        } else if i > pos {
                            assert(s1[i] == s0[i - 1]);
                        }
                    }
                }
            }
            proof {
                lemma_insert_weights(s0, pos as int, e);
            }
        }
    }

    /// Takes `record_id` out of the list, if it is there.
    pub fn remove(&mut self, record_id: PointOffset)
        requires
            old(self).wf(),
        ensures
            final(self).wf(),
            final(self)@ == old(self)@.remove(record_id),
    {
        let pos = self.lower_bound(record_id);
        let ghost s0 = self.elements@;
        if pos < self.elements.len() && self.elements[pos].record_id == record_id {
            self.elements.remove(pos);
            let ghost s1 = self.elements@;
            proof {
                lemma_remove_weights(s0, pos as int);
            }
            if self.elements.len() == 0 {
                self.max_weight = NEG_INFINITY_WEIGHT;
            } else {
                self.max_weight = Self::greatest_weight(&self.elements);
            }
        } else {
            proof {
                assert(!has_record(s0, record_id)) by {
                    if has_record(s0, record_id) {
                        let i = choose|i: int| 0 <= i < s0.len() && s0[i].record_id == record_id;
                        if i > pos {
                            assert(s0[pos as int].record_id < s0[i].record_id);
                        }
                    }
                }
                assert(self@ =~= old(self)@.remove(record_id));
            }
        }
    }

    /// The weight of `record_id`, if the list holds it.
    pub fn get_weight(&self, record_id: PointOffset) -> (r: Option<DimWeight>)
        requires
            self.wf(),
        ensures
            r == (if self@.contains_key(record_id) { Some(self@[record_id]) } else { None::<DimWeight> }),
    {
        let pos = self.lower_bound(record_id);
        if pos < self.elements.len() && self.elements[pos].record_id == record_id {
            proof {
                lemma_lookup(self.elements@, pos as int);
            }
            Some(self.elements[pos].weight)
        } else {
            proof {
                let s0 = self.elements@;
                if has_record(s0, record_id) {
                    let i = choose|i: int| 0 <= i < s0.len() && s0[i].record_id == record_id;
                    if i > pos {
                        assert(s0[pos as int].record_id < s0[i].record_id);
                    }
                }
            }
            None
        }
    }
}

} // verus!
