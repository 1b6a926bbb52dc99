use vstd::prelude::*;

use crate::inverted_index::{dims_unique, entry_of, lemma_entry_at, lists_wf, DimPostings, InvertedIndexRam};
use crate::posting_format::{
    decode_elements, decode_postings, encode_elements, encode_postings, get_u32_le, lemma_encode_layout,
    lemma_u32_le_round_trip, posting_block_round_trip, push_u32_le, read_u32_le, u32_le,
};
use crate::posting_list::{ids_ascending, PostingList};
use crate::sparse_index::{CorruptReason, SparseIndexError};
use crate::sparse_vector::DimId;

verus! {

/// First word of the header.
pub const MAGIC: u32 = 0x5850_5253;

/// The version of the layout that this library writes and reads.
pub const FORMAT_VERSION: u32 = 1;

/// Bytes of the header: magic, version, dimension count, then the element count as a `u64`.
pub const HEADER_SIZE: usize = 20;

/// Bytes of one entry of the offset table: dimension, first element as a `u64`, element count,
/// greatest weight.
pub const OFFSET_ENTRY_SIZE: usize = 20;

/// The three files of a stored index.
#[derive(Debug)]
pub struct IndexFiles {
    pub header: Vec<u8>,
    pub offsets: Vec<u8>,
    pub postings: Vec<u8>,
}

/// Elements in the lists before the `k`-th.
pub open spec fn total_before(s: Seq<DimPostings>, k: int) -> int
    decreases k,
{
    if k <= 0 {
        0
    } else {
        total_before(s, k - 1) + s[k - 1].list.seq().len()
    }
}

pub open spec fn header_bytes(dim_count: u32, total: u32) -> Seq<u8> {
    u32_le(MAGIC) + u32_le(FORMAT_VERSION) + u32_le(dim_count) + u32_le(total) + u32_le(0)
}

pub open spec fn offset_entry(x: DimPostings, start: u32) -> Seq<u8> {
    u32_le(x.dim) + u32_le(start) + u32_le(0) + u32_le(x.list.seq().len() as u32) + u32_le(x.list.max_weight)
}

pub open spec fn offsets_prefix(s: Seq<DimPostings>, n: int) -> Seq<u8>
    decreases n,
{
    if n <= 0 {
        Seq::empty()
    } else {
        offsets_prefix(s, n - 1) + offset_entry(s[n - 1], total_before(s, n - 1) as u32)
    }
}

pub open spec fn postings_prefix(s: Seq<DimPostings>, n: int) -> Seq<u8>
    decreases n,
{
    if n <= 0 {
        Seq::empty()
    } else {
        postings_prefix(s, n - 1) + encode_elements(s[n - 1].list.seq())
    }
}

/// The index is small enough for the layout's counts and for the machine.
pub open spec fn fits(s: Seq<DimPostings>) -> bool {
    &&& s.len() <= u32::MAX
    &&& total_before(s, s.len() as int) <= u32::MAX
    &&& 8 * total_before(s, s.len() as int) <= usize::MAX
    &&& 20 * s.len() <= usize::MAX
}

pub open spec fn word(b: Seq<u8>, at: int) -> int {
    read_u32_le(b, at) as int
}

pub open spec fn dim_count(h: Seq<u8>) -> int {
    word(h, 8)
}

pub open spec fn total_count(h: Seq<u8>) -> int {
    word(h, 12) + word(h, 16) * 0x1_0000_0000
}

pub open spec fn entry_dim(o: Seq<u8>, k: int) -> DimId {
    read_u32_le(o, 20 * k)
}

pub open spec fn entry_start(o: Seq<u8>, k: int) -> int {
    word(o, 20 * k + 4) + word(o, 20 * k + 8) * 0x1_0000_0000
}

pub open spec fn entry_len(o: Seq<u8>, k: int) -> int {
    word(o, 20 * k + 12)
}

pub open spec fn entry_block(o: Seq<u8>, p: Seq<u8>, k: int) -> Seq<u8> {
    p.subrange(8 * entry_start(o, k), 8 * (entry_start(o, k) + entry_len(o, k)))
}

pub open spec fn header_ok(h: Seq<u8>, o: Seq<u8>, p: Seq<u8>) -> bool {
    &&& h.len() == 20
    &&& read_u32_le(h, 0) == MAGIC
    &&& read_u32_le(h, 4) == FORMAT_VERSION
    &&& o.len() == 20 * dim_count(h)
    &&& p.len() == 8 * total_count(h)
}

pub open spec fn entry_ok(h: Seq<u8>, o: Seq<u8>, p: Seq<u8>, k: int) -> bool {
    &&& entry_start(o, k) + entry_len(o, k) <= total_count(h)
    &&& entry_len(o, k) > 0
    &&& ids_ascending(decode_elements(entry_block(o, p, k)))
}

/// The three files hold a well-formed index.
pub open spec fn files_valid(h: Seq<u8>, o: Seq<u8>, p: Seq<u8>) -> bool {
    &&& header_ok(h, o, p)
    &&& forall|k: int| 0 <= k < dim_count(h) ==> entry_ok(h, o, p, k)
    &&& forall|j: int, k: int| 0 <= j < k < dim_count(h) ==> entry_dim(o, j) != entry_dim(o, k)
}

/// `ix` is what the files say: one list per entry of the offset table, in its order.
pub open spec fn decoded_as(h: Seq<u8>, o: Seq<u8>, p: Seq<u8>, ix: InvertedIndexRam) -> bool {
    &&& ix.postings@.len() == dim_count(h)
    &&& forall|k: int| 0 <= k < ix.postings@.len() ==> (#[trigger] ix.postings@[k]).dim == entry_dim(o, k)
        && ix.postings@[k].list.seq() == decode_elements(entry_block(o, p, k))
}

proof fn lemma_total_monotone(s: Seq<DimPostings>, j: int, k: int)
    requires
        0 <= j <= k,
    ensures
        total_before(s, j) <= total_before(s, k),
    decreases k - j,
{
    if j < k {
        lemma_total_monotone(s, j, k - 1);
    }
}

proof fn lemma_concat_left(a: Seq<u8>, b: Seq<u8>, i: int, j: int)
    requires
        0 <= i <= j <= a.len(),
    ensures
        (a + b).subrange(i, j) == a.subrange(i, j),
{
    assert((a + b).subrange(i, j) =~= a.subrange(i, j));
}

proof fn lemma_concat_right(a: Seq<u8>, b: Seq<u8>)
    ensures
        (a + b).subrange(a.len() as int, (a.len() + b.len()) as int) == b,
{
    assert((a + b).subrange(a.len() as int, (a.len() + b.len()) as int) =~= b);
}

proof fn lemma_postings_len(s: Seq<DimPostings>, n: int)
    requires
        0 <= n <= s.len(),
    ensures
        postings_prefix(s, n).len() == 8 * total_before(s, n),
    decreases n,
{
    if n > 0 {
        lemma_postings_len(s, n - 1);
        lemma_encode_layout(s[n - 1].list.seq());
    }
}

proof fn lemma_postings_block(s: Seq<DimPostings>, n: int, k: int)
    requires
        0 <= k < n <= s.len(),
    ensures
        postings_prefix(s, n).subrange(8 * total_before(s, k), 8 * total_before(s, k + 1))
            == encode_elements(s[k].list.seq()),
    decreases n,
{
    let prev = postings_prefix(s, n - 1);
    let last = encode_elements(s[n - 1].list.seq());
    lemma_postings_len(s, n - 1);
    lemma_encode_layout(s[n - 1].list.seq());
    lemma_total_monotone(s, 0, k);
    if k < n - 1 {
        lemma_postings_block(s, n - 1, k);
        lemma_total_monotone(s, k + 1, n - 1);
        lemma_concat_left(prev, last, 8 * total_before(s, k), 8 * total_before(s, k + 1));
    } else {
        lemma_concat_right(prev, last);
    }
}

proof fn lemma_offsets_layout(s: Seq<DimPostings>, n: int)
    requires
        0 <= n <= s.len(),
    ensures
        offsets_prefix(s, n).len() == 20 * n,
        forall|k: int, i: int| 0 <= k < n && 0 <= i < 20 ==> offsets_prefix(s, n)[20 * k + i]
            == #[trigger] offset_entry(s[k], total_before(s, k) as u32)[i],
    decreases n,
{
    if n > 0 {
        lemma_offsets_layout(s, n - 1);
        assert forall|k: int, i: int| 0 <= k < n && 0 <= i < 20 implies offsets_prefix(s, n)[20 * k + i]
            == #[trigger] offset_entry(s[k], total_before(s, k) as u32)[i] by {
            if k < n - 1 {
                assert(offsets_prefix(s, n - 1)[20 * k + i] == offset_entry(s[k], total_before(s, k) as u32)[i]);
            }
        }
    }
}

/// Four bytes at `at` that spell `x` read back as `x`.
proof fn lemma_read_word(b: Seq<u8>, at: int, x: u32)
    requires
        0 <= at,
        at + 4 <= b.len(),
        b[at] == u32_le(x)[0],
        b[at + 1] == u32_le(x)[1],
        b[at + 2] == u32_le(x)[2],
        b[at + 3] == u32_le(x)[3],
    ensures
        read_u32_le(b, at) == x,
{
    lemma_u32_le_round_trip(x);
}

proof fn lemma_entry_fields(s: Seq<DimPostings>, k: int)
    requires
        0 <= k < s.len(),
        total_before(s, k) <= u32::MAX,
        s[k].list.seq().len() <= u32::MAX,
    ensures
        entry_dim(offsets_prefix(s, s.len() as int), k) == s[k].dim,
        entry_start(offsets_prefix(s, s.len() as int), k) == total_before(s, k),
        entry_len(offsets_prefix(s, s.len() as int), k) == s[k].list.seq().len(),
{
    let o = offsets_prefix(s, s.len() as int);
    lemma_total_monotone(s, 0, k);
    let start = total_before(s, k) as u32;
    let e = offset_entry(s[k], start);
    lemma_offsets_layout(s, s.len() as int);
    assert(o[20 * k] == e[0] && o[20 * k + 1] == e[1] && o[20 * k + 2] == e[2] && o[20 * k + 3] == e[3]);
    assert(o[20 * k + 4] == e[4] && o[20 * k + 5] == e[5] && o[20 * k + 6] == e[6] && o[20 * k + 7] == e[7]);
    assert(o[20 * k + 8] == e[8] && o[20 * k + 9] == e[9] && o[20 * k + 10] == e[10] && o[20 * k + 11] == e[11]);
    assert(o[20 * k + 12] == e[12] && o[20 * k + 13] == e[13] && o[20 * k + 14] == e[14] && o[20 * k + 15] == e[15]);
    lemma_read_word(o, 20 * k, s[k].dim);
    lemma_read_word(o, 20 * k + 4, start);
    lemma_read_word(o, 20 * k + 8, 0);
    lemma_read_word(o, 20 * k + 12, s[k].list.seq().len() as u32);
}

proof fn lemma_entry_decodes(s: Seq<DimPostings>, k: int)
    requires
        dims_unique(s),
        lists_wf(s),
        fits(s),
        0 <= k < s.len(),
    ensures
        entry_dim(offsets_prefix(s, s.len() as int), k) == s[k].dim,
        entry_start(offsets_prefix(s, s.len() as int), k) == total_before(s, k),
        entry_len(offsets_prefix(s, s.len() as int), k) == s[k].list.seq().len(),
        total_before(s, k) + s[k].list.seq().len() <= total_before(s, s.len() as int),
        decode_elements(entry_block(offsets_prefix(s, s.len() as int), postings_prefix(s, s.len() as int), k))
            == s[k].list.seq(),
{
    let n = s.len() as int;
    lemma_total_monotone(s, k + 1, n);
    lemma_total_monotone(s, 0, k);
    assert(s[k].list.wf());
    lemma_entry_fields(s, k);
    lemma_postings_block(s, n, k);
    posting_block_round_trip(s[k].list.seq());
}

proof fn lemma_header_reads(n: u32, total: u32)
    ensures
        read_u32_le(header_bytes(n, total), 0) == MAGIC,
        read_u32_le(header_bytes(n, total), 4) == FORMAT_VERSION,
        read_u32_le(header_bytes(n, total), 8) == n,
        read_u32_le(header_bytes(n, total), 12) == total,
        read_u32_le(header_bytes(n, total), 16) == 0,
        header_bytes(n, total).len() == 20,
{
    let h = header_bytes(n, total);
    lemma_read_word(h, 0, MAGIC);
    lemma_read_word(h, 4, FORMAT_VERSION);
    lemma_read_word(h, 8, n);
    lemma_read_word(h, 12, total);
    lemma_read_word(h, 16, 0);
}

/// Writing an index and reading the files back gives it again: the files are valid, and an
/// index that they decode to has the same weight for every dimension and record.
pub proof fn index_files_round_trip(index: InvertedIndexRam, ix: InvertedIndexRam)
    requires
        index.wf(),
        fits(index.postings@),
    ensures
        files_valid(
            header_bytes(index.postings@.len() as u32, total_before(index.postings@, index.postings@.len() as int) as u32),
            offsets_prefix(index.postings@, index.postings@.len() as int),
            postings_prefix(index.postings@, index.postings@.len() as int),
        ),
        decoded_as(
            header_bytes(index.postings@.len() as u32, total_before(index.postings@, index.postings@.len() as int) as u32),
            offsets_prefix(index.postings@, index.postings@.len() as int),
            postings_prefix(index.postings@, index.postings@.len() as int),
            ix,
        ) ==> forall|d: DimId, r: u32| #[trigger] ix.entry(d, r) == index.entry(d, r),
{
    let s = index.postings@;
    let n = s.len() as int;
    let total = total_before(s, n);
    let h = header_bytes(n as u32, total as u32);
    let o = offsets_prefix(s, n);
    let p = postings_prefix(s, n);
    lemma_total_monotone(s, 0, n);
    lemma_header_reads(n as u32, total as u32);
    lemma_offsets_layout(s, n);
    lemma_postings_len(s, n);
    assert forall|k: int| 0 <= k < dim_count(h) implies entry_ok(h, o, p, k) by {
        lemma_entry_decodes(s, k);
        assert(s[k].list.wf());
    }
    assert forall|j: int, k: int| 0 <= j < k < dim_count(h) implies entry_dim(o, j) != entry_dim(o, k) by {
        lemma_entry_decodes(s, j);
        lemma_entry_decodes(s, k);
    }
    if decoded_as(h, o, p, ix) {
        let t = ix.postings@;
        assert forall|k: int| 0 <= k < n implies (#[trigger] t[k]).dim == s[k].dim && t[k].list@ == s[k].list@ by {
            lemma_entry_decodes(s, k);
        }
        assert(dims_unique(t)) by {
            assert forall|i: int, j: int| 0 <= i < j < t.len() implies t[i].dim != t[j].dim by {
                assert(t[i].dim == s[i].dim && t[j].dim == s[j].dim);
            }
        }
        assert forall|d: DimId, r: u32| #[trigger] ix.entry(d, r) == index.entry(d, r) by {
            if exists|k: int| 0 <= k < n && s[k].dim == d {
                let k = choose|k: int| 0 <= k < n && s[k].dim == d;
                assert(t[k].dim == s[k].dim);
                lemma_entry_at(s, k, r);
                lemma_entry_at(t, k, r);
            } else {
                assert(!(exists|k: int| 0 <= k < t.len() && t[k].dim == d)) by {
                    if exists|k: int| 0 <= k < t.len() && t[k].dim == d {
                        let k = choose|k: int| 0 <= k < t.len() && t[k].dim == d;
                        assert(t[k].dim == s[k].dim);
                    }
                }
            }
        }
    }
}

/// The bytes of `p` from `from` up to `to`.
fn copy_range(p: &Vec<u8>, from: usize, to: usize) -> (r: Vec<u8>)
    requires
        from <= to <= p@.len(),
    ensures
        r@ == p@.subrange(from as int, to as int),
{
    let mut out: Vec<u8> = Vec::new();
    let mut i: usize = from;
    while i < to
        invariant
            from <= i <= to,
            to <= p@.len(),
            out@ == p@.subrange(from as int, i as int),
        decreases to - i,
    {
        out.push(p[i]);
        assert(out@ =~= p@.subrange(from as int, i + 1));
        i = i + 1;
    }
    out
}

/// Writes an index as its three files: the header, the offset table with one entry per
/// dimension, and the posting blocks one after the other, all little-endian.
pub fn encode_index(index: &InvertedIndexRam) -> (r: IndexFiles)
    requires
        index.wf(),
        fits(index.postings@),
    ensures
        r.header@ == header_bytes(index.postings@.len() as u32, total_before(index.postings@, index.postings@.len() as int) as u32),
        r.offsets@ == offsets_prefix(index.postings@, index.postings@.len() as int),
        r.postings@ == postings_prefix(index.postings@, index.postings@.len() as int),
{
    let ghost s = index.postings@;
    let n = index.postings.len();
    let mut offsets: Vec<u8> = Vec::new();
    let mut postings: Vec<u8> = Vec::new();
    let mut start: u32 = 0;
    let mut k: usize = 0;
    while k < n
        invariant
            index.wf(),
            fits(s),
            s == index.postings@,
            n == s.len(),
            k <= n,
            start as int == total_before(s, k as int),
            offsets@ == offsets_prefix(s, k as int),
            postings@ == postings_prefix(s, k as int),
        decreases n - k,
    {
        let x = &index.postings[k];
        proof {
            lemma_total_monotone(s, k + 1, n as int);
            assert(lists_wf(s));
            assert(s[k as int].list.wf());
        }
        let len = x.list.len();
        let ghost o0 = offsets@;
        push_u32_le(&mut offsets, x.dim);
        push_u32_le(&mut offsets, start);
        push_u32_le(&mut offsets, 0);
        push_u32_le(&mut offsets, len as u32);
        push_u32_le(&mut offsets, x.list.max_weight());
        assert(offsets@ =~= o0 + offset_entry(s[k as int], start));
        let mut block = encode_postings(&x.list);
        postings.append(&mut block);
        start = start + len as u32;
        k = k + 1;
    }
    let mut header: Vec<u8> = Vec::new();
    push_u32_le(&mut header, MAGIC);
    push_u32_le(&mut header, FORMAT_VERSION);
    push_u32_le(&mut header, n as u32);
    push_u32_le(&mut header, start);
    push_u32_le(&mut header, 0);
    assert(header@ =~= header_bytes(n as u32, start));
    IndexFiles { header, offsets, postings }
}

/// Reads an index back from its three files, refusing files that do not hold a well-formed one.
#[verifier::loop_isolation(false)]
pub fn decode_index(header: &Vec<u8>, offsets: &Vec<u8>, postings: &Vec<u8>) -> (r: Result<InvertedIndexRam, SparseIndexError>)
    ensures
        header@.len() != 20 ==> r == Err::<InvertedIndexRam, _>(SparseIndexError::IndexCorrupt(CorruptReason::Truncated)),
        header@.len() == 20 && read_u32_le(header@, 0) != MAGIC
            ==> r == Err::<InvertedIndexRam, _>(SparseIndexError::IndexCorrupt(CorruptReason::BadMagic)),
        header@.len() == 20 && read_u32_le(header@, 0) == MAGIC && read_u32_le(header@, 4) != FORMAT_VERSION
            ==> r == Err::<InvertedIndexRam, _>(SparseIndexError::IndexCorrupt(CorruptReason::BadVersion)),
        header@.len() == 20 && read_u32_le(header@, 0) == MAGIC && read_u32_le(header@, 4) == FORMAT_VERSION
            && !header_ok(header@, offsets@, postings@)
            ==> r == Err::<InvertedIndexRam, _>(SparseIndexError::IndexCorrupt(CorruptReason::Truncated)),
        r == Err::<InvertedIndexRam, _>(SparseIndexError::IndexCorrupt(CorruptReason::OffsetOutOfRange))
            ==> exists|k: int| 0 <= k < dim_count(header@)
                && #[trigger] entry_start(offsets@, k) + entry_len(offsets@, k) > total_count(header@),
        r matches Err(e) ==> e is IndexCorrupt,
        r matches Ok(ix) ==> ix.wf() && decoded_as(header@, offsets@, postings@, ix),
        files_valid(header@, offsets@, postings@) ==> r is Ok,
{
    if header.len() != HEADER_SIZE {
        return Err(SparseIndexError::IndexCorrupt(CorruptReason::Truncated));
    }
    if get_u32_le(header, 0) != MAGIC {
        return Err(SparseIndexError::IndexCorrupt(CorruptReason::BadMagic));
    }
    if get_u32_le(header, 4) != FORMAT_VERSION {
        return Err(SparseIndexError::IndexCorrupt(CorruptReason::BadVersion));
    }
    let count = get_u32_le(header, 8);
    let total: u64 = get_u32_le(header, 12) as u64 + get_u32_le(header, 16) as u64 * 0x1_0000_0000;
    if offsets.len() as u64 != 20 * (count as u64) || postings.len() % 8 != 0 || (postings.len() / 8) as u64 != total {
        return Err(SparseIndexError::IndexCorrupt(CorruptReason::Truncated));
    }
    let ghost h = header@;
    let ghost o = offsets@;
    let ghost p = postings@;
    let mut out: Vec<DimPostings> = Vec::new();
    let mut k: usize = 0;
    while k < count as usize
        invariant
            h == header@,
            o == offsets@,
            p == postings@,
            header_ok(h, o, p),
            count as int == dim_count(h),
            total as int == total_count(h),
            k <= count,
            out@.len() == k,
            dims_unique(out@),
            lists_wf(out@),
            forall|j: int| 0 <= j < k ==> #[trigger] entry_ok(h, o, p, j),
            forall|j: int| 0 <= j < k ==> (#[trigger] out@[j]).dim == entry_dim(o, j)
                && out@[j].list.seq() == decode_elements(entry_block(o, p, j)),
        decreases count - k,
    {
        let at = 20 * k;
        let dim = get_u32_le(offsets, at);
        let start: u64 = get_u32_le(offsets, at + 4) as u64 + get_u32_le(offsets, at + 8) as u64 * 0x1_0000_0000;
        let len: u64 = get_u32_le(offsets, at + 12) as u64;
        assert(start as int == entry_start(o, k as int));
        assert(len as int == entry_len(o, k as int));
        if start > total || len > total - start {
            assert(!entry_ok(h, o, p, k as int));
            return Err(SparseIndexError::IndexCorrupt(CorruptReason::OffsetOutOfRange));
        }
        assert(8 * (start + len) <= postings@.len());
        let from = (start as usize) * 8;
        let to = ((start + len) as usize) * 8;
        let block = copy_range(postings, from, to);
        assert(block@ == entry_block(o, p, k as int));
        let list = match decode_postings(&block) {
            Ok(list) => list,
            Err(_) => {
                assert(!entry_ok(h, o, p, k as int));
                return Err(SparseIndexError::IndexCorrupt(CorruptReason::BadPostings));
            },
        };
        let mut j: usize = 0;
        while j < out.len()
            invariant
                j <= out@.len(),
                forall|i: int| 0 <= i < j ==> out@[i].dim != dim,
            decreases out@.len() - j,
        {
            if out[j].dim == dim {
                assert(out@[j as int].dim == entry_dim(o, j as int));
                assert(dim == entry_dim(o, k as int));
                assert(entry_dim(o, j as int) == entry_dim(o, k as int) && j < k);
                assert(!files_valid(h, o, p));
                return Err(SparseIndexError::IndexCorrupt(CorruptReason::DuplicateDimension));
            }
            j = j + 1;
        }
        let ghost before = out@;
        out.push(DimPostings { dim, list });
        proof {
            assert(ids_ascending(decode_elements(entry_block(o, p, k as int))));
            assert(entry_ok(h, o, p, k as int));
            assert forall|a: int, b: int| 0 <= a < b < out@.len() implies out@[a].dim != out@[b].dim by {
                if b < k {
                    assert(before[a].dim != before[b].dim);
                }
            }
            assert forall|i: int| 0 <= i < out@.len() implies (#[trigger] out@[i]).list.wf() && out@[i].list.seq().len() > 0 by {
                if i < k {
                    assert(out@[i] == before[i]);
                }
            }
            assert forall|i: int| 0 <= i < k + 1 implies (#[trigger] out@[i]).dim == entry_dim(o, i)
                && out@[i].list.seq() == decode_elements(entry_block(o, p, i)) by {
                if i < k {
                    assert(out@[i] == before[i]);
                }
            }
        }
        k = k + 1;
    }
    Ok(InvertedIndexRam { postings: out })
}

} // verus!
