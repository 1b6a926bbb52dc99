use vstd::prelude::*;

use crate::posting_list::PointOffset;
use crate::sparse_vector::{weight_key, weight_order_key, DimWeight};

verus! {

/// A record with its score, the score held as the bit pattern of a single-precision float.
#[derive(Debug, Clone, Copy, PartialEq, Eq, Structural)]
pub struct ScoredPointOffset {
    pub idx: PointOffset,
    pub score: DimWeight,
}

/// `a` comes before `b` in a result: a higher score, or an equal score and a smaller identifier.
pub open spec fn ranks_before(a: ScoredPointOffset, b: ScoredPointOffset) -> bool {
    weight_key(a.score) > weight_key(b.score) || (weight_key(a.score) == weight_key(b.score) && a.idx < b.idx)
}

pub open spec fn ids_distinct(s: Seq<ScoredPointOffset>) -> bool {
    forall|i: int, j: int| 0 <= i < j < s.len() ==> s[i].idx != s[j].idx
}

pub open spec fn ranked(s: Seq<ScoredPointOffset>) -> bool {
    forall|i: int, j: int| 0 <= i < j < s.len() ==> ranks_before(s[i], s[j])
}

pub open spec fn min_len(a: int, b: int) -> int {
    if a < b {
        a
    } else {
        b
    }
}

/// `r` is the best `top` of `candidates`, best first: every candidate that it leaves out
/// comes after every one that it holds.
pub open spec fn is_top(candidates: Seq<ScoredPointOffset>, top: int, r: Seq<ScoredPointOffset>) -> bool {
    &&& r.len() == min_len(top, candidates.len() as int)
    &&& ranked(r)
    &&& forall|i: int| 0 <= i < r.len() ==> candidates.contains(#[trigger] r[i])
    &&& forall|m: int| 0 <= m < candidates.len() ==> r.contains(#[trigger] candidates[m])
        || forall|i: int| 0 <= i < r.len() ==> ranks_before(#[trigger] r[i], candidates[m])
}

pub fn ranks_before_exec(a: &ScoredPointOffset, b: &ScoredPointOffset) -> (r: bool)
    ensures
        r == ranks_before(*a, *b),
{
    let ka = weight_order_key(a.score);
    let kb = weight_order_key(b.score);
    ka > kb || (ka == kb && a.idx < b.idx)
}

/// The `top` best of `candidates`, best first.
pub fn select_top(candidates: &Vec<ScoredPointOffset>, top: usize) -> (r: Vec<ScoredPointOffset>)
    requires
        ids_distinct(candidates@),
    ensures
        is_top(candidates@, top as int, r@),
{
    let mut out: Vec<ScoredPointOffset> = Vec::new();
    let mut i: usize = 0;
    while i < candidates.len()
        invariant
            i <= candidates@.len(),
            ids_distinct(candidates@),
            is_top(candidates@.subrange(0, i as int), top as int, out@),
            out@.len() < top ==> forall|m: int| 0 <= m < i ==> out@.contains(#[trigger] candidates@[m]),
        decreases candidates@.len() - i,
    {
        let c = candidates[i];
        let ghost o0 = out@;
        let ghost c0 = candidates@.subrange(0, i as int);
        let ghost c1 = candidates@.subrange(0, i + 1);
        proof {
            assert forall|q: int| 0 <= q < o0.len() implies (#[trigger] o0[q]).idx != c.idx by {
                assert(c0.contains(o0[q]));
                let m = choose|m: int| 0 <= m < c0.len() && c0[m] == o0[q];
                assert(candidates@[m] == o0[q]);
            }
        }
        let mut p: usize = 0;
        while p < out.len() && ranks_before_exec(&out[p], &c)
            invariant
                p <= out@.len(),
                out@ == o0,
                forall|q: int| 0 <= q < p ==> ranks_before(#[trigger] out@[q], c),
            decreases out@.len() - p,
        {
            p = p + 1;
        }
        proof {
            assert forall|q: int| p <= q < o0.len() implies ranks_before(c, #[trigger] o0[q]) by {
                assert(!ranks_before(o0[p as int], c));
                assert(o0[p as int].idx != c.idx);
                if q > p {
                    assert(ranks_before(o0[p as int], o0[q]));
                }
            }
            assert(c1 =~= c0.push(c));
        }
        if p < top {
            out.insert(p, c);
            let ghost o1 = out@;
            proof {
                assert forall|q: int| 0 <= q < o1.len() implies o1[q] == (if q < p { o0[q] } else if q == p { c } else { o0[q - 1] }) by {}
                assert(ranked(o1)) by {
                    assert forall|a: int, b: int| 0 <= a < b < o1.len() implies ranks_before(o1[a], o1[b]) by {
                        if b < p {
                        } else if b == p {
                        } else if a < p {
                            assert(ranks_before(o0[a], o0[b - 1]));
                        } else if a == p {
                        } else {
                            assert(ranks_before(o0[a - 1], o0[b - 1]));
                        }
                    }
                }
            }
            if out.len() > top {
                out.pop();
            }
            let ghost o2 = out@;
            proof {
                if o2.len() < top {
                    assert forall|m: int| 0 <= m < i + 1 implies o2.contains(#[trigger] candidates@[m]) by {
                        if m == i {
                            assert(o2[p as int] == c);
                        } else {
                            let k = choose|k: int| 0 <= k < o0.len() && o0[k] == candidates@[m];
                            let kk = if k < p { k } else { k + 1 };
                            assert(o2[kk] == o0[k]);
                        }
                    }
                }
                assert forall|q: int| 0 <= q < o2.len() implies o2[q] == o1[q] by {}
                assert(ranked(o2)) by {
                    assert forall|a: int, b: int| 0 <= a < b < o2.len() implies ranks_before(o2[a], o2[b]) by {
                        assert(o2[a] == o1[a] && o2[b] == o1[b]);
                    }
                }
                assert forall|q: int| 0 <= q < o2.len() implies c1.contains(#[trigger] o2[q]) by {
                    if q == p {
                        assert(c1[i as int] == c);
                    } else {
                        let qq = if q < p { q } else { q - 1 };
                        assert(o2[q] == o0[qq]);
                        assert(c0.contains(o0[qq]));
                        let m = choose|m: int| 0 <= m < c0.len() && c0[m] == o0[qq];
                        assert(c1[m] == c0[m]);
                    }
                }
                assert forall|m: int| 0 <= m < c1.len() implies o2.contains(#[trigger] c1[m])
                    || forall|q: int| 0 <= q < o2.len() ==> ranks_before(#[trigger] o2[q], c1[m]) by {
                    if m == i {
                        assert(o2[p as int] == c);
                    } else {
                        assert(c1[m] == c0[m]);
                        if o0.contains(c0[m]) {
                            let k = choose|k: int| 0 <= k < o0.len() && o0[k] == c0[m];
                            if o1.len() > top && k == o0.len() - 1 {
                                assert forall|q: int| 0 <= q < o2.len() implies ranks_before(#[trigger] o2[q], c1[m]) by {
                                    assert(o1[o1.len() - 1] == o0[k]);
                                    assert(ranks_before(o1[q], o1[o1.len() - 1]));
                                }
                            } else {
                                let kk = if k < p { k } else { k + 1 };
                                assert(o1[kk] == o0[k]);
                                assert(o2[kk] == o0[k]);
                            }
                        } else {
                            assert forall|q: int| 0 <= q < o2.len() implies ranks_before(#[trigger] o2[q], c1[m]) by {
                                assert(candidates@[m] == c0[m]);
                                assert(o0.len() >= top);
                                if q < p {
                                    assert(o2[q] == o0[q]);
                                } else if q == p {
                                    assert(ranks_before(c, o0[p as int]));
                                } else {
                                    assert(o2[q] == o0[q - 1]);
                                }
                            }
                        }
                    }
                }
            }
        } else {
            proof {
                assert forall|m: int| 0 <= m < c1.len() implies o0.contains(#[trigger] c1[m])
                    || forall|q: int| 0 <= q < o0.len() ==> ranks_before(#[trigger] o0[q], c1[m]) by {
                    if m < i {
                        assert(c1[m] == c0[m]);
                    }
                }
                assert forall|q: int| 0 <= q < o0.len() implies c1.contains(#[trigger] o0[q]) by {
                    let m = choose|m: int| 0 <= m < c0.len() && c0[m] == o0[q];
                    assert(c1[m] == c0[m]);
                }
            }
        }
        i = i + 1;
    }
    proof {
        assert(candidates@.subrange(0, candidates@.len() as int) =~= candidates@);
    }
    out
}

} // verus!
