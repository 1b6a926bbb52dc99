use vstd::prelude::*;

verus! {

/// A dimension identifier.
pub type DimId = u32;

/// A weight, held as the IEEE-754 bit pattern of a single-precision float.
pub type DimWeight = u32;

/// Mask of the exponent field of a single-precision float.
pub const EXPONENT_MASK: u32 = 0x7f80_0000;

/// Mask of the sign bit of a single-precision float.
pub const SIGN_MASK: u32 = 0x8000_0000;

/// Mask of the magnitude bits (exponent and mantissa) of a single-precision float.
pub const MAGNITUDE_MASK: u32 = 0x7fff_ffff;

/// A weight is finite when its exponent field is not all ones (neither an infinity nor a NaN).
pub open spec fn is_finite_weight(w: DimWeight) -> bool {
    w & EXPONENT_MASK != EXPONENT_MASK
}

/// An integer that orders finite weights as the floats they encode are ordered:
/// the magnitude, negated when the sign bit is set (so that `-0.0` and `0.0` meet at zero).
pub open spec fn weight_key(w: DimWeight) -> int {
    if w & SIGN_MASK == 0 {
        (w & MAGNITUDE_MASK) as int
    } else {
        -((w & MAGNITUDE_MASK) as int)
    }
}

/// A weight with zero standing for both zeros: `-0.0` becomes `0.0`, other weights stay.
pub open spec fn canonical_weight(w: DimWeight) -> DimWeight {
    if weight_key(w) == 0 {
        0
    } else {
        w
    }
}

pub proof fn lemma_canonical_key(w: DimWeight)
    ensures
        weight_key(canonical_weight(w)) == weight_key(w),
{
    assert(0u32 & SIGN_MASK == 0 && 0u32 & MAGNITUDE_MASK == 0) by (bit_vector);
}

/// Two weights with one order key that is not zero are the same weight.
pub proof fn lemma_key_determines_weight(a: DimWeight, b: DimWeight)
    requires
        weight_key(a) == weight_key(b),
        weight_key(a) != 0,
    ensures
        a == b,
{
    let sa = a & SIGN_MASK;
    let sb = b & SIGN_MASK;
    assert(sa == 0 || sa == 0x8000_0000u32) by (bit_vector)
        requires
            sa == a & 0x8000_0000u32,
    ;
    assert(sb == 0 || sb == 0x8000_0000u32) by (bit_vector)
        requires
            sb == b & 0x8000_0000u32,
    ;
    assert(sa == sb);
    assert(a & MAGNITUDE_MASK == b & MAGNITUDE_MASK);
    assert(a == b) by (bit_vector)
        requires
            a & 0x8000_0000u32 == b & 0x8000_0000u32,
            a & 0x7fff_ffffu32 == b & 0x7fff_ffffu32,
    ;
}

/// The weight with zero standing for both zeros, see `canonical_weight`.
pub fn canonical(w: DimWeight) -> (r: DimWeight)
    ensures
        r == canonical_weight(w),
        weight_key(r) == weight_key(w),
{
    proof {
        lemma_canonical_key(w);
    }
    if weight_order_key(w) == 0 {
        0
    } else {
        w
    }
}

pub fn is_finite(w: DimWeight) -> (r: bool)
    ensures
        r == is_finite_weight(w),
{
    w & EXPONENT_MASK != EXPONENT_MASK
}

/// The order key of a weight, see `weight_key`.
pub fn weight_order_key(w: DimWeight) -> (r: i64)
    ensures
        r as int == weight_key(w),
{
    let m = w & MAGNITUDE_MASK;
    if w & SIGN_MASK == 0 {
        m as i64
    } else {
        -(m as i64)
    }
}

/// Why a pair of sequences is not a sparse vector.
#[derive(Debug, Clone, Copy, PartialEq, Eq, Structural)]
pub enum SparseVectorError {
    /// `indices` or `values` is empty.
    Empty,
    /// `indices` and `values` differ in length.
    LengthMismatch,
    /// Two neighbouring indices are equal.
    DuplicateIndex,
    /// An index is greater than the one that follows it.
    NotSorted,
    /// A value is an infinity or a NaN.
    NonFiniteValue,
    /// A pair holds a negative dimension identifier.
    NegativeIndex,
}

pub open spec fn has_duplicate(indices: Seq<DimId>) -> bool {
    exists|i: int| 0 <= i < indices.len() - 1 && #[trigger] indices[i] == indices[i + 1]
}

pub open spec fn has_descent(indices: Seq<DimId>) -> bool {
    exists|i: int| 0 <= i < indices.len() - 1 && #[trigger] indices[i] > indices[i + 1]
}

pub open spec fn all_finite(values: Seq<DimWeight>) -> bool {
    forall|i: int| 0 <= i < values.len() ==> is_finite_weight(#[trigger] values[i])
}

/// Strictly increasing indices.
pub open spec fn strictly_sorted(indices: Seq<DimId>) -> bool {
    forall|i: int, j: int| 0 <= i < j < indices.len() ==> indices[i] < indices[j]
}

/// The outcome of validating a pair of sequences, with the first failing rule winning.
pub open spec fn validation(indices: Seq<DimId>, values: Seq<DimWeight>) -> Result<(), SparseVectorError> {
    if indices.len() == 0 || values.len() == 0 {
        Err(SparseVectorError::Empty)
    } else if indices.len() != values.len() {
        Err(SparseVectorError::LengthMismatch)
    } else if has_duplicate(indices) {
        Err(SparseVectorError::DuplicateIndex)
    } else if has_descent(indices) {
        Err(SparseVectorError::NotSorted)
    } else if !all_finite(values) {
        Err(SparseVectorError::NonFiniteValue)
    } else {
        Ok(())
    }
}

/// The weight of dimension `d` among the first `n` pairs.
pub open spec fn prefix_weight(indices: Seq<DimId>, values: Seq<DimWeight>, n: int, d: DimId) -> Option<DimWeight> {
    if exists|i: int| 0 <= i < n && indices[i] == d {
        Some(values[choose|i: int| 0 <= i < n && indices[i] == d])
    } else {
        None
    }
}

/// With strictly increasing indices, one more pair decides the weight of its own dimension only.
pub proof fn lemma_prefix_weight_step(indices: Seq<DimId>, values: Seq<DimWeight>, n: int, d: DimId)
    requires
        strictly_sorted(indices),
        0 <= n < indices.len(),
    ensures
        prefix_weight(indices, values, n + 1, d) == if d == indices[n] {
            Some(values[n])
        } else {
            prefix_weight(indices, values, n, d)
        },
{
    if exists|i: int| 0 <= i < n + 1 && indices[i] == d {
        let j1 = choose|i: int| 0 <= i < n + 1 && indices[i] == d;
        if d == indices[n] {
            if j1 < n {
                assert(indices[j1] < indices[n]);
            }
        } else {
            assert(j1 < n);
            let j0 = choose|i: int| 0 <= i < n && indices[i] == d;
            if j0 < j1 {
                assert(indices[j0] < indices[j1]);
            } else if j1 < j0 {
                assert(indices[j1] < indices[j0]);
            }
        }
    }
}

/// With strictly increasing indices, the pair at `j` gives the weight of its dimension.
pub proof fn lemma_prefix_weight_at(indices: Seq<DimId>, values: Seq<DimWeight>, n: int, j: int)
    requires
        strictly_sorted(indices),
        0 <= j < n <= indices.len(),
    ensures
        prefix_weight(indices, values, n, indices[j]) == Some(values[j]),
{
    let k = choose|i: int| 0 <= i < n && indices[i] == indices[j];
    if k < j {
        assert(indices[k] < indices[j]);
    } else if j < k {
        assert(indices[j] < indices[k]);
    }
}

/// The pairs with their identifiers read as dimension identifiers.
pub open spec fn as_dims(pairs: Seq<(i32, DimWeight)>) -> Seq<(DimId, DimWeight)> {
    pairs.map_values(|p: (i32, DimWeight)| (p.0 as DimId, p.1))
}

pub open spec fn by_dim(s: Seq<(DimId, DimWeight)>) -> bool {
    forall|a: int, b: int| 0 <= a < b < s.len() ==> s[a].0 <= s[b].0
}

pub open spec fn has_negative(pairs: Seq<(i32, DimWeight)>) -> bool {
    exists|i: int| 0 <= i < pairs.len() && (#[trigger] pairs[i]).0 < 0
}

/// The pairs ordered by dimension, equal dimensions in their order of arrival.
pub fn sort_by_dim(pairs: &Vec<(i32, DimWeight)>) -> (r: Vec<(DimId, DimWeight)>)
    requires
        !has_negative(pairs@),
    ensures
        by_dim(r@),
        r@.to_multiset() == as_dims(pairs@).to_multiset(),
{
    broadcast use vstd::seq_lib::group_to_multiset_ensures;

    let mut out: Vec<(DimId, DimWeight)> = Vec::new();
    let mut i: usize = 0;
    proof {
        assert(as_dims(pairs@.subrange(0, 0)) =~= Seq::<(DimId, DimWeight)>::empty());
    }
    while i < pairs.len()
        invariant
            i <= pairs@.len(),
            !has_negative(pairs@),
            by_dim(out@),
            out@.to_multiset() == as_dims(pairs@.subrange(0, i as int)).to_multiset(),
        decreases pairs@.len() - i,
    {
        let (d, w) = pairs[i];
        assert(!(pairs@[i as int].0 < 0));
        let x: (DimId, DimWeight) = (d as DimId, w);
        let mut p: usize = 0;
        while p < out.len() && out[p].0 <= x.0
            invariant
                p <= out@.len(),
                forall|k: int| 0 <= k < p ==> out@[k].0 <= x.0,
            decreases out@.len() - p,
        {
            p = p + 1;
        }
        let ghost o0 = out@;
        out.insert(p, x);
        proof {
            let o1 = out@;
            assert forall|a: int, b: int| 0 <= a < b < o1.len() implies o1[a].0 <= o1[b].0 by {
                if p < o0.len() {
                    assert(o0[p as int].0 > x.0);
                }
                if b < p {
                    assert(o1[a] == o0[a] && o1[b] == o0[b]);
                } else if b == p {
                    assert(o1[a] == o0[a]);
                } else if a < p {
                    assert(o1[a] == o0[a] && o1[b] == o0[b - 1]);
                } else if a == p {
                    assert(o1[b] == o0[b - 1]);
                    assert(o0[p as int].0 <= o0[b - 1].0);
                } else {
                    assert(o1[a] == o0[a - 1] && o1[b] == o0[b - 1]);
                }
            }
            assert(as_dims(pairs@.subrange(0, i + 1)) =~= as_dims(pairs@.subrange(0, i as int)).push(x));
            vstd::seq_lib::to_multiset_insert(o0, p as int, x);
            vstd::seq_lib::to_multiset_build(as_dims(pairs@.subrange(0, i as int)), x);
        }
        i = i + 1;
    }
    proof {
        assert(pairs@.subrange(0, pairs@.len() as int) =~= pairs@);
    }
    out
}

/// Sparse vector: parallel sequences of dimension identifiers and weights.
#[derive(Debug, Clone)]
pub struct SparseVector {
    pub indices: Vec<DimId>,
    pub values: Vec<DimWeight>,
}

/// Each index is below every later one when no neighbouring pair is equal or descending.
proof fn lemma_ascending_from(indices: Seq<DimId>, i: int, j: int)
    requires
        !has_duplicate(indices),
        !has_descent(indices),
        0 <= i < j < indices.len(),
    ensures
        indices[i] < indices[j],
    decreases j - i,
{
    assert(!(indices[j - 1] == indices[j]));
    assert(!(indices[j - 1] > indices[j]));
    if i < j - 1 {
        lemma_ascending_from(indices, i, j - 1);
    }
}

/// A sequence with no neighbouring indices equal or descending is strictly increasing.
pub proof fn lemma_neighbours_sorted(indices: Seq<DimId>)
    requires
        !has_duplicate(indices),
        !has_descent(indices),
    ensures
        strictly_sorted(indices),
{
    assert forall|i: int, j: int| 0 <= i < j < indices.len() implies indices[i] < indices[j] by {
        lemma_ascending_from(indices, i, j);
    }
}

impl SparseVector {
    /// The vector's pairs are well formed: equal nonzero lengths, strictly increasing
    /// indices and finite values.
    pub open spec fn valid(&self) -> bool {
        &&& self.indices@.len() >= 1
        &&& self.indices@.len() == self.values@.len()
        &&& strictly_sorted(self.indices@)
        &&& all_finite(self.values@)
    }

    pub open spec fn overlaps_spec(&self, other: &SparseVector) -> bool {
        exists|i: int, j: int|
            0 <= i < self.indices@.len() && 0 <= j < other.indices@.len()
                && self.indices@[i] == other.indices@[j]
    }

    /// The weight of dimension `d`, if the vector has it.
    pub open spec fn weight_of(&self, d: DimId) -> Option<DimWeight> {
        prefix_weight(self.indices@, self.values@, self.indices@.len() as int, d)
    }

    /// The pairs of weights on the dimensions that both vectors hold, among the first `n`
    /// pairs of `self`, in the order of `self`.
    pub open spec fn matched_prefix(&self, other: &SparseVector, n: int) -> Seq<(DimWeight, DimWeight)>
        decreases n,
    {
        if n <= 0 {
            Seq::empty()
        } else {
            let prev = self.matched_prefix(other, n - 1);
            match other.weight_of(self.indices@[n - 1]) {
                Some(w) => prev.push((self.values@[n - 1], w)),
                None => prev,
            }
        }
    }

    /// The pairs of weights on the dimensions that both vectors hold, by ascending dimension:
    /// the terms of their dot product.
    pub open spec fn matched_pairs_spec(&self, other: &SparseVector) -> Seq<(DimWeight, DimWeight)> {
        self.matched_prefix(other, self.indices@.len() as int)
    }

    /// Checks the pairs against the rules of a sparse vector.
    pub fn validate(&self) -> (r: Result<(), SparseVectorError>)
        ensures
            r == validation(self.indices@, self.values@),
            r is Ok <==> self.valid(),
    {
        let n = self.indices.len();
        if n == 0 || self.values.len() == 0 {
            return Err(SparseVectorError::Empty);
        }
        if n != self.values.len() {
            return Err(SparseVectorError::LengthMismatch);
        }
        let mut i: usize = 0;
        while i + 1 < n
            invariant
                n == self.indices@.len(),
                n == self.values@.len(),
                n >= 1,
                i < n,
                forall|k: int| 0 <= k < i ==> #[trigger] self.indices@[k] != self.indices@[k + 1],
            decreases n - i,
        {
            if self.indices[i] == self.indices[i + 1] {
                assert(has_duplicate(self.indices@)) by {
                    assert(self.indices@[i as int] == self.indices@[i + 1]);
                }
                return Err(SparseVectorError::DuplicateIndex);
            }
            i = i + 1;
        }
        let mut i: usize = 0;
        while i + 1 < n
            invariant
                n == self.indices@.len(),
                n >= 1,
                i < n,
                n == self.values@.len(),
                !has_duplicate(self.indices@),
                forall|k: int| 0 <= k < i ==> !(#[trigger] self.indices@[k] > self.indices@[k + 1]),
            decreases n - i,
        {
            if self.indices[i] > self.indices[i + 1] {
                assert(has_descent(self.indices@)) by {
                    assert(self.indices@[i as int] > self.indices@[i + 1]);
                }
                return Err(SparseVectorError::NotSorted);
            }
            i = i + 1;
        }
        proof {
            lemma_neighbours_sorted(self.indices@);
        }
        let mut i: usize = 0;
        while i < n
            invariant
                n == self.values@.len(),
                n == self.indices@.len(),
                n >= 1,
                i <= n,
                !has_duplicate(self.indices@),
                !has_descent(self.indices@),
                strictly_sorted(self.indices@),
                forall|k: int| 0 <= k < i ==> is_finite_weight(#[trigger] self.values@[k]),
            decreases n - i,
        {
            if !is_finite(self.values[i]) {
                assert(!is_finite_weight(self.values@[i as int]));
                return Err(SparseVectorError::NonFiniteValue);
            }
            i = i + 1;
        }
        Ok(())
    }

    /// Builds a sparse vector from its pairs, rejecting those that break its rules.
    pub fn new(indices: Vec<DimId>, values: Vec<DimWeight>) -> (r: Result<SparseVector, SparseVectorError>)
        ensures
            validation(indices@, values@) is Ok ==> (r matches Ok(v) && v.indices@ == indices@
                && v.values@ == values@),
            validation(indices@, values@) matches Err(e) ==> r == Err::<SparseVector, _>(e),
            r matches Ok(v) ==> v.valid(),
    {
        let vector = SparseVector { indices, values };
        match vector.validate() {
            Ok(()) => Ok(vector),
            Err(e) => Err(e),
        }
    }

    /// Whether the two vectors share a dimension.
    pub fn overlaps(&self, other: &SparseVector) -> (r: bool)
        requires
            strictly_sorted(self.indices@),
            strictly_sorted(other.indices@),
        ensures
            r == self.overlaps_spec(other),
    {
        let mut i: usize = 0;
        let mut j: usize = 0;
        while i < self.indices.len() && j < other.indices.len()
            invariant
                i <= self.indices@.len(),
                j <= other.indices@.len(),
                strictly_sorted(self.indices@),
                strictly_sorted(other.indices@),
                forall|a: int, b: int|
                    0 <= a < self.indices@.len() && 0 <= b < other.indices@.len()
                        && (a < i || b < j) ==> self.indices@[a] != other.indices@[b],
            decreases self.indices@.len() + other.indices@.len() - i - j,
        {
            let x = self.indices[i];
            let y = other.indices[j];
            if x < y {
                i = i + 1;
            } else if x > y {
                j = j + 1;
            } else {
                return true;
            }
        }
        false
    }

    /// The pairs of weights on the dimensions that both vectors hold, by ascending dimension.
    /// Their products, summed in this order, give the dot product.
    pub fn matched_pairs(&self, other: &SparseVector) -> (r: Vec<(DimWeight, DimWeight)>)
        requires
            self.valid(),
            other.valid(),
        ensures
            r@ == self.matched_pairs_spec(other),
    {
        let mut out: Vec<(DimWeight, DimWeight)> = Vec::new();
        let mut i: usize = 0;
        let mut j: usize = 0;
        let n = self.indices.len();
        let m = other.indices.len();
        while i < n
            invariant
                self.valid(),
                other.valid(),
                n == self.indices@.len(),
                m == other.indices@.len(),
                i <= n,
                j <= m,
                out@ == self.matched_prefix(other, i as int),
                i < n ==> forall|k: int| 0 <= k < j ==> other.indices@[k] < self.indices@[i as int],
            decreases n - i + m - j,
        {
            let x = self.indices[i];
            if j == m {
                proof {
                    assert(!(exists|k: int| 0 <= k < m && other.indices@[k] == x));
                }
                i = i + 1;
                proof {
                    if i < n {
                        assert forall|k: int| 0 <= k < j implies other.indices@[k] < self.indices@[i as int] by {
                            assert(self.indices@[i - 1] < self.indices@[i as int]);
                        }
                    }
                }
            } else {
                let y = other.indices[j];
                if x < y {
                    proof {
                        assert(!(exists|k: int| 0 <= k < m && other.indices@[k] == x)) by {
                            assert forall|k: int| j < k < m implies other.indices@[k] > x by {
                                assert(other.indices@[j as int] < other.indices@[k]);
                            }
                        }
                    }
                    i = i + 1;
                    proof {
                        if i < n {
                            assert forall|k: int| 0 <= k < j implies other.indices@[k] < self.indices@[i as int] by {
                                assert(self.indices@[i - 1] < self.indices@[i as int]);
                            }
                        }
                    }
                } else if x > y {
                    j = j + 1;
                } else {
                    proof {
                        lemma_prefix_weight_at(other.indices@, other.values@, m as int, j as int);
                    }
                    out.push((self.values[i], other.values[j]));
                    i = i + 1;
                    j = j + 1;
                    proof {
                        if i < n {
                            assert forall|k: int| 0 <= k < j implies other.indices@[k] < self.indices@[i as int] by {
                                assert(self.indices@[i - 1] < self.indices@[i as int]);
                                if k < j - 1 {
                                    assert(other.indices@[k] < other.indices@[j - 1]);
                                }
                            }
                        }
                    }
                }
            }
        }
        out
    }

    /// The vector's pairs, in order.
    pub open spec fn pairs(&self) -> Seq<(DimId, DimWeight)> {
        Seq::new(self.indices@.len(), |k: int| (self.indices@[k], self.values@[k]))
    }

    /// Builds a sparse vector from pairs in any order: they are sorted by dimension and then
    /// validated. A negative dimension identifier is refused.
    pub fn from_pairs(pairs: Vec<(i32, DimWeight)>) -> (r: Result<SparseVector, SparseVectorError>)
        ensures
            pairs@.len() == 0 ==> r == Err::<SparseVector, _>(SparseVectorError::Empty),
            pairs@.len() > 0 && has_negative(pairs@) ==> r == Err::<SparseVector, _>(SparseVectorError::NegativeIndex),
            pairs@.len() > 0 && !has_negative(pairs@) ==> exists|s: Seq<(DimId, DimWeight)>| {
                &&& by_dim(s)
                &&& s.to_multiset() == as_dims(pairs@).to_multiset()
                &&& s.len() == pairs@.len()
                &&& match validation(s.map_values(|p: (DimId, DimWeight)| p.0), s.map_values(|p: (DimId, DimWeight)| p.1)) {
                    Ok(()) => r matches Ok(v) && v.pairs() == s,
                    Err(e) => r == Err::<SparseVector, _>(e),
                }
            },
            r matches Ok(v) ==> v.valid(),
    {
        if pairs.len() == 0 {
            return Err(SparseVectorError::Empty);
        }
        let mut k: usize = 0;
        while k < pairs.len()
            invariant
                k <= pairs@.len(),
                forall|j: int| 0 <= j < k ==> !((#[trigger] pairs@[j]).0 < 0),
            decreases pairs@.len() - k,
        {
            if pairs[k].0 < 0 {
                assert(pairs@[k as int].0 < 0);
                return Err(SparseVectorError::NegativeIndex);
            }
            k = k + 1;
        }
        let sorted = sort_by_dim(&pairs);
        proof {
            vstd::seq_lib::to_multiset_len(sorted@);
            vstd::seq_lib::to_multiset_len(as_dims(pairs@));
        }
        let mut indices: Vec<DimId> = Vec::new();
        let mut values: Vec<DimWeight> = Vec::new();
        let mut j: usize = 0;
        while j < sorted.len()
            invariant
                j <= sorted@.len(),
                indices@.len() == j,
                values@.len() == j,
                forall|m: int| 0 <= m < j ==> indices@[m] == (#[trigger] sorted@[m]).0 && values@[m] == sorted@[m].1,
            decreases sorted@.len() - j,
        {
            indices.push(sorted[j].0);
            values.push(sorted[j].1);
            j = j + 1;
        }
        let ghost s = sorted@;
        proof {
            assert(indices@ =~= s.map_values(|p: (DimId, DimWeight)| p.0));
            assert(values@ =~= s.map_values(|p: (DimId, DimWeight)| p.1));
        }
        let r = SparseVector::new(indices, values);
        proof {
            if r is Ok {
                assert(r->Ok_0.pairs() =~= s);
            }
        }
        r
    }
}

/// The pairs of weights of the two vectors on the dimensions below `t` that both hold,
/// by ascending dimension.
pub open spec fn common_below(a: SparseVector, b: SparseVector, t: int) -> Seq<(DimWeight, DimWeight)>
    decreases t,
{
    if t <= 0 {
        Seq::empty()
    } else {
        let prev = common_below(a, b, t - 1);
        match (a.weight_of((t - 1) as DimId), b.weight_of((t - 1) as DimId)) {
            (Some(x), Some(y)) => prev.push((x, y)),
            _ => prev,
        }
    }
}

pub open spec fn swap_pairs(s: Seq<(DimWeight, DimWeight)>) -> Seq<(DimWeight, DimWeight)> {
    s.map_values(|p: (DimWeight, DimWeight)| (p.1, p.0))
}

proof fn lemma_common_below_swap(a: SparseVector, b: SparseVector, t: int)
    ensures
        common_below(b, a, t) == swap_pairs(common_below(a, b, t)),
    decreases t,
{
    if t > 0 {
        lemma_common_below_swap(a, b, t - 1);
        assert(common_below(b, a, t) =~= swap_pairs(common_below(a, b, t)));
    }
}

/// Dimensions in `[lo, hi)` that `a` lacks add nothing.
proof fn lemma_common_below_gap(a: SparseVector, b: SparseVector, lo: int, hi: int)
    requires
        0 <= lo <= hi <= u32::MAX as int + 1,
        forall|t: int| lo <= t < hi ==> (#[trigger] a.weight_of(t as DimId)) is None,
    ensures
        common_below(a, b, hi) == common_below(a, b, lo),
    decreases hi - lo,
{
    if lo < hi {
        lemma_common_below_gap(a, b, lo, hi - 1);
    }
}

proof fn lemma_absent_between(a: SparseVector, lo: int, hi: int, n: int)
    requires
        a.valid(),
        0 <= n <= a.indices@.len(),
        n > 0 ==> lo > a.indices@[n - 1],
        n < a.indices@.len() ==> hi <= a.indices@[n],
        0 <= lo,
        hi <= u32::MAX as int + 1,
    ensures
        forall|t: int| lo <= t < hi ==> (#[trigger] a.weight_of(t as DimId)) is None,
{
    assert forall|t: int| lo <= t < hi implies (#[trigger] a.weight_of(t as DimId)) is None by {
        if exists|i: int| 0 <= i < a.indices@.len() && a.indices@[i] == t as DimId {
            let i = choose|i: int| 0 <= i < a.indices@.len() && a.indices@[i] == t as DimId;
            if i < n {
                if i < n - 1 {
                    assert(a.indices@[i] < a.indices@[n - 1]);
                }
            } else if i > n {
                assert(a.indices@[n] < a.indices@[i]);
            }
        }
    }
}

proof fn lemma_matched_prefix_canonical(a: SparseVector, b: SparseVector, n: int)
    requires
        a.valid(),
        b.valid(),
        0 <= n <= a.indices@.len(),
    ensures
        a.matched_prefix(&b, n) == common_below(a, b, if n == 0 { 0 } else { a.indices@[n - 1] + 1 }),
    decreases n,
{
    if n > 0 {
        lemma_matched_prefix_canonical(a, b, n - 1);
        let d = a.indices@[n - 1];
        let lo: int = if n == 1 { 0 } else { a.indices@[n - 2] + 1 };
        if n > 1 {
            assert(a.indices@[n - 2] < a.indices@[n - 1]);
        }
        lemma_absent_between(a, lo, d as int, n - 1);
        lemma_common_below_gap(a, b, lo, d as int);
        lemma_prefix_weight_at(a.indices@, a.values@, a.indices@.len() as int, n - 1);
        assert(((d + 1) - 1) as DimId == d);
    }
}

/// The terms of the dot product are the same both ways round, each pair swapped: so a dot
/// product that sums their products in this order gives `a.dot(b) == b.dot(a)`.
pub proof fn dot_terms_symmetric(a: SparseVector, b: SparseVector)
    requires
        a.valid(),
        b.valid(),
    ensures
        b.matched_pairs_spec(&a) == swap_pairs(a.matched_pairs_spec(&b)),
{
    let top = u32::MAX as int + 1;
    let na = a.indices@.len() as int;
    let nb = b.indices@.len() as int;
    lemma_matched_prefix_canonical(a, b, na);
    lemma_matched_prefix_canonical(b, a, nb);
    lemma_absent_between(a, a.indices@[na - 1] + 1, top, na);
    lemma_common_below_gap(a, b, a.indices@[na - 1] + 1, top);
    lemma_absent_between(b, b.indices@[nb - 1] + 1, top, nb);
    lemma_common_below_gap(b, a, b.indices@[nb - 1] + 1, top);
    lemma_common_below_swap(a, b, top);
}

} // verus!
