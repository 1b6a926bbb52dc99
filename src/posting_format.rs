use vstd::prelude::*;

use crate::posting_list::{ids_ascending, PointOffset, PostingElement, PostingList};

verus! {

/// Bytes of one element in a posting block: the record identifier, then the weight, each a
/// little-endian `u32`.
pub const ELEMENT_SIZE: usize = 8;

/// Why a posting block cannot be read.
#[derive(Debug, Clone, Copy, PartialEq, Eq, Structural)]
pub enum PostingBlockError {
    /// The block holds no element.
    Empty,
    /// The block's length is not a whole number of elements.
    Truncated,
    /// Record identifiers do not strictly ascend.
    NotSorted,
}

pub open spec fn u32_le(x: u32) -> Seq<u8> {
    seq![(x & 0xff) as u8, ((x >> 8u32) & 0xff) as u8, ((x >> 16u32) & 0xff) as u8, ((x >> 24u32) & 0xff) as u8]
}

pub open spec fn read_u32_le(b: Seq<u8>, at: int) -> u32 {
    (b[at] as u32) | ((b[at + 1] as u32) << 8u32) | ((b[at + 2] as u32) << 16u32) | ((b[at + 3] as u32) << 24u32)
}

pub open spec fn element_bytes(e: PostingElement) -> Seq<u8> {
    u32_le(e.record_id) + u32_le(e.weight)
}

/// The posting block of a sequence of elements.
pub open spec fn encode_elements(s: Seq<PostingElement>) -> Seq<u8>
    decreases s.len(),
{
    if s.len() == 0 {
        Seq::empty()
    } else {
        encode_elements(s.drop_last()) + element_bytes(s.last())
    }
}

/// The elements that a block of whole elements holds.
pub open spec fn decode_elements(b: Seq<u8>) -> Seq<PostingElement> {
    Seq::new(
        b.len() / 8,
        |k: int| PostingElement { record_id: read_u32_le(b, 8 * k), weight: read_u32_le(b, 8 * k + 4) },
    )
}

pub(crate) proof fn lemma_u32_le_round_trip(x: u32)
    ensures
        read_u32_le(u32_le(x), 0) == x,
{
    let b0 = (x & 0xff) as u8;
    let b1 = ((x >> 8u32) & 0xff) as u8;
    let b2 = ((x >> 16u32) & 0xff) as u8;
    let b3 = ((x >> 24u32) & 0xff) as u8;
    assert((b0 as u32) | ((b1 as u32) << 8u32) | ((b2 as u32) << 16u32) | ((b3 as u32) << 24u32) == x) by (bit_vector)
        requires
            b0 == (x & 0xff) as u8,
            b1 == ((x >> 8u32) & 0xff) as u8,
            b2 == ((x >> 16u32) & 0xff) as u8,
            b3 == ((x >> 24u32) & 0xff) as u8,
    ;
}

pub(crate) proof fn lemma_encode_layout(s: Seq<PostingElement>)
    ensures
        encode_elements(s).len() == 8 * s.len(),
        forall|k: int, j: int| 0 <= k < s.len() && 0 <= j < 8 ==> encode_elements(s)[8 * k + j] == #[trigger] element_bytes(s[k])[j],
    decreases s.len(),
{
    if s.len() > 0 {
        let t = s.drop_last();
        lemma_encode_layout(t);
        assert forall|k: int, j: int| 0 <= k < s.len() && 0 <= j < 8 implies encode_elements(s)[8 * k + j] == #[trigger] element_bytes(s[k])[j] by {
            if k < s.len() - 1 {
                assert(s[k] == t[k]);
                assert(encode_elements(t)[8 * k + j] == element_bytes(t[k])[j]);
            }
        }
    }
}

/// Reading back the block of a sequence of elements gives the sequence.
pub proof fn posting_block_round_trip(s: Seq<PostingElement>)
    ensures
        decode_elements(encode_elements(s)) == s,
{
    let b = encode_elements(s);
    lemma_encode_layout(s);
    assert forall|k: int| 0 <= k < s.len() implies #[trigger] decode_elements(b)[k] == s[k] by {
        let eb = element_bytes(s[k]);
        assert(u32_le(s[k].record_id) =~= eb.subrange(0, 4));
        assert(u32_le(s[k].weight) =~= eb.subrange(4, 8));
        lemma_u32_le_round_trip(s[k].record_id);
        lemma_u32_le_round_trip(s[k].weight);
        assert(b[8 * k] == eb[0] && b[8 * k + 1] == eb[1] && b[8 * k + 2] == eb[2] && b[8 * k + 3] == eb[3]);
        assert(b[8 * k + 4] == eb[4] && b[8 * k + 5] == eb[5] && b[8 * k + 6] == eb[6] && b[8 * k + 7] == eb[7]);
    }
    assert(decode_elements(b) =~= s);
}

pub(crate) fn push_u32_le(out: &mut Vec<u8>, x: u32)
    ensures
        final(out)@ == old(out)@ + u32_le(x),
{
    out.push((x & 0xff) as u8);
    out.push(((x >> 8) & 0xff) as u8);
    out.push(((x >> 16) & 0xff) as u8);
    out.push(((x >> 24) & 0xff) as u8);
    assert(final(out)@ =~= old(out)@ + u32_le(x));
}

pub(crate) fn get_u32_le(b: &Vec<u8>, at: usize) -> (r: u32)
    requires
        at + 4 <= b.len(),
    ensures
        r == read_u32_le(b@, at as int),
{
    let x0 = b[at] as u32;
    let x1 = b[at + 1] as u32;
    let x2 = b[at + 2] as u32;
    let x3 = b[at + 3] as u32;
    proof {
        assert(x0 | (x1 << 8u32) | (x2 << 16u32) | (x3 << 24u32) == x0 | ((x1 * 256u32) as u32) | ((x2 * 65536u32) as u32) | ((x3 * 16777216u32) as u32)) by (bit_vector)
            requires
                x1 <= 0xff,
                x2 <= 0xff,
                x3 <= 0xff,
        ;
    }
    x0 | (x1 * 256) | (x2 * 65536) | (x3 * 16777216)
}

/// The posting block of a list: its elements in order.
pub fn encode_postings(list: &PostingList) -> (r: Vec<u8>)
    requires
        list.seq().len() * 8 <= usize::MAX,
    ensures
        r@ == encode_elements(list.seq()),
{
    let elements = list.elements();
    let mut out: Vec<u8> = Vec::new();
    let mut i: usize = 0;
    while i < elements.len()
        invariant
            i <= elements@.len(),
            elements@ == list.seq(),
            out@ == encode_elements(elements@.subrange(0, i as int)),
        decreases elements@.len() - i,
    {
        let e = elements[i];
        push_u32_le(&mut out, e.record_id);
        push_u32_le(&mut out, e.weight);
        proof {
            let t = elements@.subrange(0, i + 1);
            assert(t.drop_last() =~= elements@.subrange(0, i as int));
            assert(t.last() == e);
        }
        i = i + 1;
    }
    proof {
        assert(elements@.subrange(0, elements@.len() as int) =~= elements@);
    }
    out
}

/// Reads a posting list back from its block.
pub fn decode_postings(b: &Vec<u8>) -> (r: Result<PostingList, PostingBlockError>)
    ensures
        b@.len() == 0 ==> r == Err::<PostingList, _>(PostingBlockError::Empty),
        b@.len() > 0 && b@.len() % 8 != 0 ==> r == Err::<PostingList, _>(PostingBlockError::Truncated),
        b@.len() > 0 && b@.len() % 8 == 0 && !ids_ascending(decode_elements(b@))
            ==> r == Err::<PostingList, _>(PostingBlockError::NotSorted),
        b@.len() > 0 && b@.len() % 8 == 0 && ids_ascending(decode_elements(b@))
            ==> (r matches Ok(l) && l.wf() && l.seq() == decode_elements(b@)),
{
    if b.len() == 0 {
        return Err(PostingBlockError::Empty);
    }
    if b.len() % ELEMENT_SIZE != 0 {
        return Err(PostingBlockError::Truncated);
    }
    let n = b.len() / ELEMENT_SIZE;
    let ghost d = decode_elements(b@);
    let mut elements: Vec<PostingElement> = Vec::new();
    let mut k: usize = 0;
    while k < n
        invariant
            n == b@.len() / 8,
            8 * n == b.len(),
            b@.len() % 8 == 0,
            d == decode_elements(b@),
            k <= n,
            elements@ == d.subrange(0, k as int),
            ids_ascending(elements@),
        decreases n - k,
    {
        let rid: PointOffset = get_u32_le(b, 8 * k);
        let w = get_u32_le(b, 8 * k + 4);
        let e = PostingElement { record_id: rid, weight: w };
        assert(e == d[k as int]);
        if k > 0 && elements[k - 1].record_id >= rid {
            proof {
                assert(d[k - 1] == elements@[k - 1]);
                assert(!ids_ascending(d)) by {
                    assert(!(d[k - 1].record_id < d[k as int].record_id));
                }
            }
            return Err(PostingBlockError::NotSorted);
        }
        let ghost before = elements@;
        elements.push(e);
        proof {
            assert(elements@ =~= d.subrange(0, k + 1));
            assert forall|i: int, j: int| 0 <= i < j < elements@.len() implies elements@[i].record_id < elements@[j].record_id by {
                if j == k && i < k - 1 {
                    assert(before[i].record_id < before[k - 1].record_id);
                }
            }
        }
        k = k + 1;
    }
    proof {
        assert(d.subrange(0, n as int) =~= d);
    }
    let max_weight = PostingList::greatest_weight(&elements);
    Ok(PostingList { elements, max_weight })
}

} // verus!
