//! Content-defined chunking.
//!
//! A rolling hash runs over the bytes. A chunk ends where the hash of the
//! 64 bytes before a position matches a pattern, but not before the chunk
//! has its minimum size, and at the latest where it has its maximum size.
//! Whether a position matches depends on those 64 bytes alone, so an edit
//! moves the boundaries near it and leaves the others where they were in
//! the content.

use vstd::arithmetic::div_mod::*;
use vstd::arithmetic::power2::*;
use vstd::prelude::*;

verus! {

/// Bytes that the rolling hash looks back on.
pub const WINDOW: usize = 64;

/// The largest maximum chunk size: 1 GiB.
pub const MAX_CHUNK: usize = 0x4000_0000;

/// Sizes that steer the chunker.
#[derive(Clone, Copy, Debug, PartialEq, Eq, Structural)]
pub struct ChunkerParams {
    /// No chunk but the last of a stream is shorter.
    pub min_size: usize,
    /// One position in `avg_size` matches the pattern, on random data.
    pub avg_size: u32,
    /// No chunk is longer.
    pub max_size: usize,
}

impl ChunkerParams {
    /// The sizes that the chunker works with: the minimum covers the window
    /// of the rolling hash, and the maximum is no smaller than the minimum.
    pub open spec fn valid(self) -> bool {
        &&& WINDOW <= self.min_size <= self.max_size <= MAX_CHUNK
        &&& 1 <= self.avg_size
    }

    /// Whether the sizes are valid.
    pub fn is_valid(&self) -> (r: bool)
        ensures
            r == self.valid(),
    {
        WINDOW <= self.min_size && self.min_size <= self.max_size && self.max_size <= MAX_CHUNK
            && 1 <= self.avg_size
    }

    /// Chunks of 512 KiB to 8 MiB, 1 MiB on average beyond the minimum.
    pub fn standard() -> (r: ChunkerParams)
        ensures
            r.valid(),
            r == (ChunkerParams { min_size: 0x8_0000, avg_size: 0x10_0000, max_size: 0x80_0000 }),
    {
        ChunkerParams { min_size: 0x8_0000, avg_size: 0x10_0000, max_size: 0x80_0000 }
    }
}

/// The number that a byte adds to the rolling hash.
#[verifier::opaque]
pub open spec fn gear(b: u8) -> u64 {
    let z0 = ((b as u64 + 1) as u64).wrapping_mul(0x9E37_79B9_7F4A_7C15);
    let z1 = (z0 ^ (z0 >> 30)).wrapping_mul(0xBF58_476D_1CE4_E5B9);
    let z2 = (z1 ^ (z1 >> 27)).wrapping_mul(0x94D0_49BB_1331_11EB);
    z2 ^ (z2 >> 31)
}

fn gear_of(b: u8) -> (g: u64)
    ensures
        g == gear(b),
{
    reveal(gear);
    let z0 = (b as u64 + 1).wrapping_mul(0x9E37_79B9_7F4A_7C15);
    let z1 = (z0 ^ (z0 >> 30)).wrapping_mul(0xBF58_476D_1CE4_E5B9);
    let z2 = (z1 ^ (z1 >> 27)).wrapping_mul(0x94D0_49BB_1331_11EB);
    z2 ^ (z2 >> 31)
}

/// The hash after one more byte: twice the hash plus the byte's number,
/// modulo 2^64.
#[verifier::opaque]
pub open spec fn roll(h: u64, b: u8) -> u64 {
    h.wrapping_mul(2).wrapping_add(gear(b))
}

/// The rolling hash of a run of bytes, started from zero.
pub open spec fn fingerprint(bytes: Seq<u8>) -> u64
    decreases bytes.len(),
{
    if bytes.len() == 0 {
        0
    } else {
        roll(fingerprint(bytes.drop_last()), bytes.last())
    }
}

/// Whether a hash matches the pattern that ends a chunk.
pub open spec fn is_cut(h: u64, avg_size: u32) -> bool {
    (h >> 32) % (avg_size as u64) == 0
}

/// Whether a chunk may end before position `i`: the hash of the 64 bytes
/// before `i` matches the pattern.
pub open spec fn candidate(data: Seq<u8>, i: int, avg_size: u32) -> bool {
    i >= WINDOW && i <= data.len() && is_cut(
        fingerprint(data.subrange(i - WINDOW, i)),
        avg_size,
    )
}

/// The first candidate from `i` on that lies before `limit`, or `limit`.
pub open spec fn first_cut(data: Seq<u8>, i: int, limit: int, avg_size: u32) -> int
    decreases limit - i,
{
    if i >= limit {
        limit
    } else if candidate(data, i, avg_size) {
        i
    } else {
        first_cut(data, i + 1, limit, avg_size)
    }
}

/// Where the chunk that starts at `start` ends.
pub open spec fn chunk_end(data: Seq<u8>, start: int, p: ChunkerParams) -> int {
    let len = data.len() as int;
    if len - start <= p.min_size {
        len
    } else {
        let limit = if len - start > p.max_size {
            start + p.max_size
        } else {
            len
        };
        first_cut(data, start + p.min_size, limit, p.avg_size)
    }
}

/// The ends of the chunks of `data` from `start` on, in order.
pub open spec fn boundaries(data: Seq<u8>, start: int, p: ChunkerParams) -> Seq<int>
    decreases data.len() - start,
{
    let end = chunk_end(data, start, p);
    if start >= data.len() || end <= start || end > data.len() {
        Seq::empty()
    } else {
        seq![end] + boundaries(data, end, p)
    }
}

/// The chunks of `data` from `start` on, in order.
pub open spec fn pieces(data: Seq<u8>, start: int, p: ChunkerParams) -> Seq<Seq<u8>>
    decreases data.len() - start,
{
    let end = chunk_end(data, start, p);
    if start >= data.len() || end <= start || end > data.len() {
        Seq::empty()
    } else {
        seq![data.subrange(start, end)] + pieces(data, end, p)
    }
}

/// All of a sequence of byte strings, one after the other.
pub open spec fn concat(parts: Seq<Seq<u8>>) -> Seq<u8>
    decreases parts.len(),
{
    if parts.len() == 0 {
        Seq::empty()
    } else {
        concat(parts.drop_last()) + parts.last()
    }
}

/// The rolling hash as an unbounded number.
spec fn fp_int(bytes: Seq<u8>) -> int
    decreases bytes.len(),
{
    if bytes.len() == 0 {
        0
    } else {
        2 * fp_int(bytes.drop_last()) + gear(bytes.last()) as int
    }
}

proof fn lemma_roll_mod(f: int, h: u64, b: u8)
    requires
        0 <= f,
        h as int == f % 0x1_0000_0000_0000_0000,
    ensures
        roll(h, b) as int == (2 * f + gear(b) as int) % 0x1_0000_0000_0000_0000,
{
    reveal(roll);
    let r: int = 0x1_0000_0000_0000_0000;
    let g = gear(b) as int;
    let x = h.wrapping_mul(2);
    assert(x as int == (h as int * 2) % r);
    lemma_fundamental_div_mod(f, r);
    let q = f / r;
    assert(f == r * q + h as int);
    lemma_fundamental_div_mod(h as int * 2, r);
    let q2 = (h as int * 2) / r;
    assert(h as int * 2 == r * q2 + x as int);
    assert(2 * f + g == r * (2 * q + q2) + (x as int + g)) by (nonlinear_arith)
        requires
            f == r * q + h as int,
            h as int * 2 == r * q2 + x as int,
    ;
    lemma_mod_multiples_vanish(2 * q + q2, x as int + g, r);
    assert((2 * f + g) % r == (x as int + g) % r);
    if x as int + g > u64::MAX {
        lemma_mod_multiples_vanish(-1, x as int + g, r);
        assert((x as int + g) % r == (x as int + g - r) % r);
        lemma_small_mod((x as int + g - r) as nat, r as nat);
    } else {
        lemma_small_mod((x as int + g) as nat, r as nat);
    }
}

proof fn lemma_fp_int_nonneg(bytes: Seq<u8>)
    ensures
        fp_int(bytes) >= 0,
    decreases bytes.len(),
{
    if bytes.len() > 0 {
        lemma_fp_int_nonneg(bytes.drop_last());
    }
}

proof fn lemma_fingerprint_mod(bytes: Seq<u8>)
    ensures
        fingerprint(bytes) as int == fp_int(bytes) % 0x1_0000_0000_0000_0000,
    decreases bytes.len(),
{
    if bytes.len() == 0 {
    } else {
        lemma_fingerprint_mod(bytes.drop_last());
        lemma_fp_int_nonneg(bytes.drop_last());
        lemma_roll_mod(fp_int(bytes.drop_last()), fingerprint(bytes.drop_last()), bytes.last());
    }
}

proof fn lemma_fp_int_concat(a: Seq<u8>, b: Seq<u8>)
    ensures
        fp_int(a + b) == fp_int(a) * pow2(b.len()) + fp_int(b),
    decreases b.len(),
{
    if b.len() == 0 {
        assert(a + b =~= a);
        lemma2_to64();
        assert(fp_int(a) * 1 == fp_int(a)) by (nonlinear_arith);
    } else {
        assert((a + b).drop_last() =~= a + b.drop_last());
        assert((a + b).last() == b.last());
        lemma_fp_int_concat(a, b.drop_last());
        lemma_pow2_unfold(b.len());
        let x = fp_int(a);
        let k = pow2((b.len() - 1) as nat) as int;
        let y = fp_int(b.drop_last());
        let g = gear(b.last()) as int;
        assert(2 * (x * k + y) + g == x * (2 * k) + (2 * y + g)) by (nonlinear_arith);
        assert(pow2(b.len()) as int == 2 * k);
        assert(fp_int(a + b) == 2 * fp_int(a + b.drop_last()) + g);
        assert(fp_int(b) == 2 * y + g);
    }
}

/// The hash of a run of 64 bytes or more is the hash of its last 64 bytes.
pub proof fn lemma_fingerprint_local(bytes: Seq<u8>)
    requires
        bytes.len() >= WINDOW,
    ensures
        fingerprint(bytes) == fingerprint(bytes.subrange(bytes.len() - WINDOW, bytes.len() as int)),
{
    let n = bytes.len() as int;
    let a = bytes.subrange(0, n - 64);
    let b = bytes.subrange(n - 64, n);
    assert(bytes =~= a + b);
    lemma_fp_int_concat(a, b);
    lemma2_to64();
    lemma_fingerprint_mod(bytes);
    lemma_fingerprint_mod(b);
    lemma_fp_int_nonneg(a);
    assert(fp_int(a) * pow2(64) == 0x1_0000_0000_0000_0000 * fp_int(a)) by (nonlinear_arith)
        requires
            pow2(64) == 0x1_0000_0000_0000_0000,
    ;
    lemma_mod_multiples_vanish(fp_int(a), fp_int(b), 0x1_0000_0000_0000_0000);
}

/// Rolling one byte into the hash of a window gives the hash of the next
/// window.
proof fn lemma_window_step(data: Seq<u8>, i: int)
    requires
        WINDOW <= i < data.len(),
    ensures
        roll(fingerprint(data.subrange(i - WINDOW, i)), data[i]) == fingerprint(
            data.subrange(i + 1 - WINDOW, i + 1),
        ),
{
    let wide = data.subrange(i - WINDOW, i + 1);
    assert(wide.drop_last() =~= data.subrange(i - WINDOW, i));
    assert(wide.last() == data[i]);
    lemma_fingerprint_local(wide);
    assert(wide.subrange(wide.len() - WINDOW, wide.len() as int) =~= data.subrange(
        i + 1 - WINDOW,
        i + 1,
    ));
}

fn roll_byte(h: u64, b: u8) -> (r: u64)
    ensures
        r == roll(h, b),
{
    reveal(roll);
    h.wrapping_mul(2).wrapping_add(gear_of(b))
}

fn cut_here(h: u64, avg_size: u32) -> (r: bool)
    requires
        avg_size >= 1,
    ensures
        r == is_cut(h, avg_size),
{
    (h >> 32) % (avg_size as u64) == 0
}

proof fn lemma_first_cut_bounds(data: Seq<u8>, i: int, limit: int, avg_size: u32)
    requires
        i <= limit,
    ensures
        i <= first_cut(data, i, limit, avg_size) <= limit,
    decreases limit - i,
{
    if i < limit && !candidate(data, i, avg_size) {
        lemma_first_cut_bounds(data, i + 1, limit, avg_size);
    }
}

/// A chunk is not empty and ends within the data.
pub proof fn lemma_chunk_end_bounds(data: Seq<u8>, start: int, p: ChunkerParams)
    requires
        p.valid(),
        0 <= start < data.len(),
    ensures
        start < chunk_end(data, start, p) <= data.len(),
        chunk_end(data, start, p) - start <= p.max_size,
        chunk_end(data, start, p) < data.len() ==> chunk_end(data, start, p) - start
            >= p.min_size,
{
    let len = data.len() as int;
    if len - start > p.min_size {
        let limit = if len - start > p.max_size {
            start + p.max_size
        } else {
            len
        };
        lemma_first_cut_bounds(data, start + p.min_size, limit, p.avg_size);
    }
}

/// Where the chunk that starts at `start` ends.
pub fn next_cut(data: &[u8], start: usize, p: &ChunkerParams) -> (end: usize)
    requires
        p.valid(),
        start < data@.len(),
    ensures
        end == chunk_end(data@, start as int, *p),
        start < end <= data@.len(),
        end - start <= p.max_size,
{
    proof {
        lemma_chunk_end_bounds(data@, start as int, *p);
    }
    let len = data.len();
    if len - start <= p.min_size {
        return len;
    }
    let limit = if len - start > p.max_size {
        start + p.max_size
    } else {
        len
    };
    let first = start + p.min_size;
    let mut h: u64 = 0;
    let mut j: usize = first - WINDOW;
    assert(data@.subrange(first - WINDOW, j as int) =~= Seq::<u8>::empty());
    while j < first
        invariant
            first - WINDOW <= j <= first <= data@.len(),
            first >= WINDOW,
            h == fingerprint(data@.subrange(first - WINDOW, j as int)),
        decreases first - j,
    {
        proof {
            let next = data@.subrange(first - WINDOW, j + 1);
            assert(next.drop_last() =~= data@.subrange(first - WINDOW, j as int));
            assert(next.last() == data@[j as int]);
        }
        h = roll_byte(h, data[j]);
        j += 1;
    }
    let mut i: usize = first;
    while i < limit
        invariant
            WINDOW <= first <= i <= limit <= data@.len(),
            start < first,
            chunk_end(data@, start as int, *p) == first_cut(
                data@,
                first as int,
                limit as int,
                p.avg_size,
            ),
            limit - start <= p.max_size,
            p.avg_size >= 1,
            h == fingerprint(data@.subrange(i - WINDOW, i as int)),
            first_cut(data@, i as int, limit as int, p.avg_size) == first_cut(
                data@,
                first as int,
                limit as int,
                p.avg_size,
            ),
        decreases limit - i,
    {
        let cut = cut_here(h, p.avg_size);
        assert(cut == candidate(data@, i as int, p.avg_size));
        if cut {
            return i;
        }
        proof {
            lemma_window_step(data@, i as int);
        }
        h = roll_byte(h, data[i]);
        i += 1;
    }
    limit
}

/// The ends of the chunks of `data`, in order.
pub fn split(data: &[u8], p: &ChunkerParams) -> (ends: Vec<usize>)
    requires
        p.valid(),
    ensures
        ends@.map_values(|e: usize| e as int) == boundaries(data@, 0, *p),
{
    let mut ends: Vec<usize> = Vec::new();
    let mut start: usize = 0;
    assert(ends@.map_values(|e: usize| e as int) =~= Seq::<int>::empty());
    while start < data.len()
        invariant
            start <= data@.len(),
            p.valid(),
            ends@.map_values(|e: usize| e as int) + boundaries(data@, start as int, *p)
                == boundaries(data@, 0, *p),
        decreases data@.len() - start,
    {
        let end = next_cut(data, start, p);
        let ghost before = ends@;
        ends.push(end);
        proof {
            assert(ends@.map_values(|e: usize| e as int) =~= before.map_values(|e: usize| e as int)
                + seq![end as int]);
            assert(boundaries(data@, start as int, *p) == seq![end as int] + boundaries(
                data@,
                end as int,
                *p,
            ));
            assert(before.map_values(|e: usize| e as int) + (seq![end as int] + boundaries(
                data@,
                end as int,
                *p,
            )) =~= (before.map_values(|e: usize| e as int) + seq![end as int]) + boundaries(
                data@,
                end as int,
                *p,
            ));
        }
        start = end;
    }
    assert(boundaries(data@, start as int, *p) =~= Seq::<int>::empty());
    assert(ends@.map_values(|e: usize| e as int) + Seq::<int>::empty() =~= ends@.map_values(
        |e: usize| e as int,
    ));
    ends
}

proof fn lemma_concat_add(a: Seq<Seq<u8>>, b: Seq<Seq<u8>>)
    ensures
        concat(a + b) == concat(a) + concat(b),
    decreases b.len(),
{
    if b.len() == 0 {
        assert(a + b =~= a);
        assert(concat(a) + concat(b) =~= concat(a));
    } else {
        assert((a + b).drop_last() =~= a + b.drop_last());
        assert((a + b).last() == b.last());
        lemma_concat_add(a, b.drop_last());
        assert((concat(a) + concat(b.drop_last())) + b.last() =~= concat(a) + (concat(
            b.drop_last(),
        ) + b.last()));
    }
}

/// A single part is its own concatenation.
pub proof fn lemma_concat_one(x: Seq<u8>)
    ensures
        concat(seq![x]) == x,
{
    assert(seq![x].drop_last() =~= Seq::<Seq<u8>>::empty());
    assert(concat(seq![x].drop_last()) + x =~= x);
}

/// Appending a part appends its bytes.
pub proof fn lemma_concat_push(parts: Seq<Seq<u8>>, x: Seq<u8>)
    ensures
        concat(parts.push(x)) == concat(parts) + x,
{
    assert(parts.push(x).drop_last() =~= parts);
}

/// The chunks from `start` on, put together, are the data from `start` on.
pub proof fn lemma_pieces_concat(data: Seq<u8>, start: int, p: ChunkerParams)
    requires
        p.valid(),
        0 <= start <= data.len(),
    ensures
        concat(pieces(data, start, p)) == data.subrange(start, data.len() as int),
    decreases data.len() - start,
{
    if start >= data.len() {
        assert(data.subrange(start, data.len() as int) =~= Seq::<u8>::empty());
    } else {
        lemma_chunk_end_bounds(data, start, p);
        let end = chunk_end(data, start, p);
        lemma_pieces_concat(data, end, p);
        lemma_concat_add(seq![data.subrange(start, end)], pieces(data, end, p));
        lemma_concat_one(data.subrange(start, end));
        assert(data.subrange(start, end) + data.subrange(end, data.len() as int)
            =~= data.subrange(start, data.len() as int));
    }
}

/// There are as many chunks as boundaries; each chunk lies between two
/// neighbouring boundaries, all of which lie beyond `start` and within the
/// data.
pub proof fn lemma_boundaries(data: Seq<u8>, start: int, p: ChunkerParams)
    requires
        p.valid(),
        0 <= start <= data.len(),
    ensures
        pieces(data, start, p).len() == boundaries(data, start, p).len(),
        forall|k: int|
            0 <= k < boundaries(data, start, p).len() ==> start < #[trigger] boundaries(
                data,
                start,
                p,
            )[k] <= data.len(),
        forall|k: int|
            0 <= k < boundaries(data, start, p).len() ==> #[trigger] pieces(data, start, p)[k]
                == data.subrange(
                if k == 0 {
                    start
                } else {
                    boundaries(data, start, p)[k - 1]
                },
                boundaries(data, start, p)[k],
            ),
        forall|k: int|
            0 <= k < boundaries(data, start, p).len() ==> #[trigger] pieces(
                data,
                start,
                p,
            )[k].len() <= p.max_size,
    decreases data.len() - start,
{
    if start < data.len() {
        lemma_chunk_end_bounds(data, start, p);
        let end = chunk_end(data, start, p);
        lemma_boundaries(data, end, p);
        let b = boundaries(data, start, p);
        let q = pieces(data, start, p);
        assert forall|k: int| 0 <= k < b.len() implies start < #[trigger] b[k] <= data.len()
            && #[trigger] q[k] == data.subrange(
            if k == 0 {
                start
            } else {
                b[k - 1]
            },
            b[k],
        ) && q[k].len() <= p.max_size by {
            if k > 0 {
                assert(b[k] == boundaries(data, end, p)[k - 1]);
                assert(q[k] == pieces(data, end, p)[k - 1]);
                if k > 1 {
                    assert(b[k - 1] == boundaries(data, end, p)[k - 2]);
                }
            }
        }
    }
}

/// From any boundary on, the chunks are the chunks of the data that follows
/// the boundary.
pub proof fn lemma_pieces_from_boundary(data: Seq<u8>, start: int, p: ChunkerParams, k: int)
    requires
        p.valid(),
        0 <= start <= data.len(),
        0 <= k < boundaries(data, start, p).len(),
    ensures
        pieces(data, start, p) == pieces(data, start, p).take(k + 1) + pieces(
            data,
            boundaries(data, start, p)[k],
            p,
        ),
    decreases k,
{
    lemma_boundaries(data, start, p);
    lemma_chunk_end_bounds(data, start, p);
    let end = chunk_end(data, start, p);
    let q = pieces(data, start, p);
    if k == 0 {
        assert(q.take(1) =~= seq![data.subrange(start, end)]);
    } else {
        lemma_boundaries(data, end, p);
        lemma_pieces_from_boundary(data, end, p, k - 1);
        let rest = pieces(data, end, p);
        assert(boundaries(data, start, p)[k] == boundaries(data, end, p)[k - 1]);
        assert(q.take(k + 1) =~= seq![data.subrange(start, end)] + rest.take(k));
        assert(q =~= q.take(k + 1) + pieces(data, boundaries(data, start, p)[k], p));
    }
}

proof fn lemma_candidate_prefix(old: Seq<u8>, new: Seq<u8>, avg_size: u32, edit: int, j: int)
    requires
        0 <= edit <= old.len(),
        edit <= new.len(),
        old.subrange(0, edit) == new.subrange(0, edit),
        j <= edit,
    ensures
        candidate(old, j, avg_size) == candidate(new, j, avg_size),
{
    if j >= WINDOW {
        assert(old.subrange(j - WINDOW, j) =~= old.subrange(0, edit).subrange(j - WINDOW, j));
        assert(new.subrange(j - WINDOW, j) =~= new.subrange(0, edit).subrange(j - WINDOW, j));
    }
}

proof fn lemma_first_cut_prefix(
    old: Seq<u8>,
    new: Seq<u8>,
    avg_size: u32,
    edit: int,
    i: int,
    limit_old: int,
    limit_new: int,
)
    requires
        0 <= edit <= old.len(),
        edit <= new.len(),
        old.subrange(0, edit) == new.subrange(0, edit),
        i <= limit_old,
        i <= limit_new,
        first_cut(old, i, limit_old, avg_size) <= edit,
        first_cut(old, i, limit_old, avg_size) < limit_old ==> first_cut(
            old,
            i,
            limit_old,
            avg_size,
        ) < limit_new,
        first_cut(old, i, limit_old, avg_size) == limit_old ==> limit_new == limit_old,
    ensures
        first_cut(new, i, limit_new, avg_size) == first_cut(old, i, limit_old, avg_size),
    decreases limit_old - i,
{
    lemma_first_cut_bounds(old, i, limit_old, avg_size);
    if i < limit_old {
        lemma_candidate_prefix(old, new, avg_size, edit, i);
        if !candidate(old, i, avg_size) {
            lemma_first_cut_bounds(old, i + 1, limit_old, avg_size);
            lemma_first_cut_prefix(old, new, avg_size, edit, i + 1, limit_old, limit_new);
        }
    }
}

/// A chunk that ends at or before an edit ends at the same place after it.
pub proof fn lemma_chunk_end_prefix(
    old: Seq<u8>,
    new: Seq<u8>,
    p: ChunkerParams,
    edit: int,
    start: int,
)
    requires
        p.valid(),
        0 <= start < old.len(),
        0 <= edit < old.len(),
        edit < new.len(),
        old.subrange(0, edit) == new.subrange(0, edit),
        chunk_end(old, start, p) <= edit,
    ensures
        chunk_end(new, start, p) == chunk_end(old, start, p),
{
    lemma_chunk_end_bounds(old, start, p);
    let limit_old = if old.len() - start > p.max_size {
        start + p.max_size
    } else {
        old.len() as int
    };
    let limit_new = if new.len() - start > p.max_size {
        start + p.max_size
    } else {
        new.len() as int
    };
    lemma_first_cut_bounds(old, start + p.min_size, limit_old, p.avg_size);
    lemma_first_cut_prefix(
        old,
        new,
        p.avg_size,
        edit,
        start + p.min_size,
        limit_old,
        limit_new,
    );
}

/// Chunk stability before an edit: where two streams agree on their first
/// `edit` bytes, every chunk of the one that ends at or before `edit` is a
/// chunk of the other, with the same index and the same bytes.
pub proof fn law_prefix_stable(
    old: Seq<u8>,
    new: Seq<u8>,
    p: ChunkerParams,
    edit: int,
    start: int,
)
    requires
        p.valid(),
        0 <= start <= old.len(),
        0 <= edit < old.len(),
        edit < new.len(),
        old.subrange(0, edit) == new.subrange(0, edit),
    ensures
        forall|k: int|
            0 <= k < boundaries(old, start, p).len() && #[trigger] boundaries(old, start, p)[k]
                <= edit ==> {
                &&& k < boundaries(new, start, p).len()
                &&& boundaries(new, start, p)[k] == boundaries(old, start, p)[k]
                &&& pieces(new, start, p)[k] == pieces(old, start, p)[k]
            },
    decreases old.len() - start,
{
    lemma_boundaries(old, start, p);
    if start < old.len() {
        lemma_chunk_end_bounds(old, start, p);
        let end = chunk_end(old, start, p);
        lemma_boundaries(old, end, p);
        if end <= edit {
            lemma_chunk_end_prefix(old, new, p, edit, start);
            law_prefix_stable(old, new, p, edit, end);
            lemma_boundaries(new, start, p);
            assert forall|k: int|
                0 <= k < boundaries(old, start, p).len() && #[trigger] boundaries(
                    old,
                    start,
                    p,
                )[k] <= edit implies {
                &&& k < boundaries(new, start, p).len()
                &&& boundaries(new, start, p)[k] == boundaries(old, start, p)[k]
                &&& pieces(new, start, p)[k] == pieces(old, start, p)[k]
            } by {
                if k == 0 {
                    assert(old.subrange(start, end) =~= old.subrange(0, edit).subrange(
                        start,
                        end,
                    ));
                    assert(new.subrange(start, end) =~= new.subrange(0, edit).subrange(
                        start,
                        end,
                    ));
                } else {
                    assert(boundaries(old, start, p)[k] == boundaries(old, end, p)[k - 1]);
                    assert(pieces(old, start, p)[k] == pieces(old, end, p)[k - 1]);
                    assert(boundaries(new, start, p)[k] == boundaries(new, end, p)[k - 1]);
                    assert(pieces(new, start, p)[k] == pieces(new, end, p)[k - 1]);
                }
            }
        } else {
            assert forall|k: int|
                0 <= k < boundaries(old, start, p).len() implies #[trigger] boundaries(
                old,
                start,
                p,
            )[k] > edit by {
                if k > 0 {
                    assert(boundaries(old, start, p)[k] == boundaries(old, end, p)[k - 1]);
                }
            }
        }
    }
}

proof fn lemma_candidate_shift(a: Seq<u8>, b: Seq<u8>, avg_size: u32, sa: int, sb: int, j: int)
    requires
        0 <= sa <= a.len(),
        0 <= sb <= b.len(),
        a.subrange(sa, a.len() as int) == b.subrange(sb, b.len() as int),
        sa + WINDOW <= j,
    ensures
        candidate(a, j, avg_size) == candidate(b, j + (sb - sa), avg_size),
{
    let d = sb - sa;
    let tail_a = a.subrange(sa, a.len() as int);
    let tail_b = b.subrange(sb, b.len() as int);
    assert(tail_a.len() == a.len() - sa);
    assert(tail_b.len() == b.len() - sb);
    assert(tail_a.len() == tail_b.len());
    if j <= a.len() {
        assert(a.subrange(j - WINDOW, j) =~= a.subrange(sa, a.len() as int).subrange(
            j - WINDOW - sa,
            j - sa,
        ));
        assert(b.subrange(j + d - WINDOW, j + d) =~= b.subrange(sb, b.len() as int).subrange(
            j - WINDOW - sa,
            j - sa,
        ));
    }
}

proof fn lemma_first_cut_shift(
    a: Seq<u8>,
    b: Seq<u8>,
    avg_size: u32,
    sa: int,
    sb: int,
    i: int,
    limit: int,
)
    requires
        0 <= sa <= a.len(),
        0 <= sb <= b.len(),
        a.subrange(sa, a.len() as int) == b.subrange(sb, b.len() as int),
        sa + WINDOW <= i,
    ensures
        first_cut(b, i + (sb - sa), limit + (sb - sa), avg_size) == first_cut(
            a,
            i,
            limit,
            avg_size,
        ) + (sb - sa),
    decreases limit - i,
{
    if i < limit {
        lemma_candidate_shift(a, b, avg_size, sa, sb, i);
        if !candidate(a, i, avg_size) {
            lemma_first_cut_shift(a, b, avg_size, sa, sb, i + 1, limit);
        }
    }
}

/// Chunk stability after an edit: where what follows position `sa` in one
/// stream is what follows position `sb` in another, chunking from those
/// positions gives the same chunks, and boundaries that differ by
/// `sb - sa`.
pub proof fn law_suffix_stable(a: Seq<u8>, b: Seq<u8>, p: ChunkerParams, sa: int, sb: int)
    requires
        p.valid(),
        0 <= sa <= a.len(),
        0 <= sb <= b.len(),
        a.subrange(sa, a.len() as int) == b.subrange(sb, b.len() as int),
    ensures
        pieces(b, sb, p) == pieces(a, sa, p),
        boundaries(b, sb, p).len() == boundaries(a, sa, p).len(),
        forall|k: int|
            0 <= k < boundaries(a, sa, p).len() ==> #[trigger] boundaries(b, sb, p)[k]
                == boundaries(a, sa, p)[k] + (sb - sa),
    decreases a.len() - sa,
{
    let d = sb - sa;
    let tail_a = a.subrange(sa, a.len() as int);
    let tail_b = b.subrange(sb, b.len() as int);
    assert(tail_a.len() == a.len() - sa);
    assert(tail_b.len() == b.len() - sb);
    assert(tail_a.len() == tail_b.len());
    if sa < a.len() {
        lemma_chunk_end_bounds(a, sa, p);
        lemma_chunk_end_bounds(b, sb, p);
        let ea = chunk_end(a, sa, p);
        let eb = chunk_end(b, sb, p);
        if a.len() - sa > p.min_size {
            let limit = if a.len() - sa > p.max_size {
                sa + p.max_size
            } else {
                a.len() as int
            };
            lemma_first_cut_shift(a, b, p.avg_size, sa, sb, sa + p.min_size, limit);
        }
        assert(eb == ea + d);
        assert(a.subrange(ea, a.len() as int) =~= a.subrange(sa, a.len() as int).subrange(
            ea - sa,
            a.len() - sa,
        ));
        assert(b.subrange(eb, b.len() as int) =~= b.subrange(sb, b.len() as int).subrange(
            ea - sa,
            a.len() - sa,
        ));
        law_suffix_stable(a, b, p, ea, eb);
        assert(a.subrange(sa, ea) =~= a.subrange(sa, a.len() as int).subrange(0, ea - sa));
        assert(b.subrange(sb, eb) =~= b.subrange(sb, b.len() as int).subrange(0, ea - sa));
        assert forall|k: int| 0 <= k < boundaries(a, sa, p).len() implies #[trigger] boundaries(
            b,
            sb,
            p,
        )[k] == boundaries(a, sa, p)[k] + d by {
            if k > 0 {
                assert(boundaries(a, sa, p)[k] == boundaries(a, ea, p)[k - 1]);
                assert(boundaries(b, sb, p)[k] == boundaries(b, eb, p)[k - 1]);
            }
        }
    }
}

/// Chunk stability under an insertion. Let `ins` be inserted between `pre`
/// and `post`. Every chunk that ended at or before the insertion is still
/// there. And once a chunk of the edited stream starts where, in the
/// content, a chunk of the unedited stream started, both streams have the
/// same chunks from there on.
pub proof fn law_insert_stable(
    pre: Seq<u8>,
    ins: Seq<u8>,
    post: Seq<u8>,
    p: ChunkerParams,
    i: int,
    j: int,
)
    requires
        p.valid(),
        post.len() > 0,
        0 <= i < boundaries(pre + post, 0, p).len(),
        0 <= j < boundaries(pre + ins + post, 0, p).len(),
        boundaries(pre + post, 0, p)[i] >= pre.len(),
        boundaries(pre + ins + post, 0, p)[j] == boundaries(pre + post, 0, p)[i] + ins.len(),
    ensures
        forall|k: int|
            0 <= k < boundaries(pre + post, 0, p).len() && #[trigger] boundaries(
                pre + post,
                0,
                p,
            )[k] <= pre.len() ==> k < pieces(pre + ins + post, 0, p).len() && pieces(
                pre + ins + post,
                0,
                p,
            )[k] == pieces(pre + post, 0, p)[k],
        pieces(pre + ins + post, 0, p).skip(j + 1) == pieces(pre + post, 0, p).skip(i + 1),
{
    let old = pre + post;
    let new = pre + ins + post;
    let edit = pre.len() as int;
    assert(old.subrange(0, edit) =~= pre);
    assert(new.subrange(0, edit) =~= pre);
    law_prefix_stable(old, new, p, edit, 0);
    lemma_boundaries(new, 0, p);
    lemma_boundaries(old, 0, p);
    let qa = boundaries(old, 0, p)[i];
    let qb = boundaries(new, 0, p)[j];
    assert(old.subrange(qa, old.len() as int) =~= new.subrange(qb, new.len() as int));
    law_suffix_stable(old, new, p, qa, qb);
    lemma_pieces_from_boundary(old, 0, p, i);
    lemma_pieces_from_boundary(new, 0, p, j);
    let po = pieces(old, 0, p);
    let pn = pieces(new, 0, p);
    assert(po.skip(i + 1) =~= pieces(old, qa, p)) by {
        assert(po == po.take(i + 1) + pieces(old, qa, p));
        assert((po.take(i + 1) + pieces(old, qa, p)).skip(i + 1) =~= pieces(old, qa, p));
    }
    assert(pn.skip(j + 1) =~= pieces(new, qb, p)) by {
        assert(pn == pn.take(j + 1) + pieces(new, qb, p));
        assert((pn.take(j + 1) + pieces(new, qb, p)).skip(j + 1) =~= pieces(new, qb, p));
    }
}

} // verus!
