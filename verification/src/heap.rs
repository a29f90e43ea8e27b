//! The first-fit heap allocator. Each heap manages one address range as a
//! list of chunks laid end to end: a chunk is a metadata header followed by
//! its payload, and the most significant bit of its size word marks it as
//! allocated. Allocation searches the chunks round-robin from the one after
//! the last allocation, carves an aligned block out of the first chunk that
//! fits, and freeing merges the chunk with free neighbours.
use vstd::prelude::*;
use vstd::arithmetic::power2::{pow2, lemma_pow2_pos, lemma2_to64_rest, lemma_pow2_strictly_increases};
use vstd::bits::{lemma_u64_shl_is_mul, lemma_u64_shr_is_div, lemma_u64_pow2_no_overflow};
use vstd::std_specs::bits::{u64_trailing_zeros, axiom_u64_trailing_zeros};

verus! {

/// Backing memory kind: DDR.
pub const BACKING_MEMORY_DDR: u8 = 1;
/// Memory type: write-back.
pub const MEMORY_TYPE_WB: u8 = 3;
/// Memory type: write-combining.
pub const MEMORY_TYPE_WC: u8 = 1;
/// Memory type: uncached.
pub const MEMORY_TYPE_UC: u8 = 0;

/// The most significant bit of a chunk's size word marks it as allocated.
pub const MEMCHUNK_USED: u64 = 0x8000_0000_0000_0000;
/// Largest payload a chunk can describe.
pub const MEMCHUNK_MAX_SIZE: u64 = 0x7fff_ffff_ffff_ffff;
/// Allocation sizes are rounded up to a multiple of this.
pub const MIN_HEAP_ALLOCATION_SIZE: u64 = 8;
/// Size of a chunk header (a next pointer and a size word).
pub const PER_HEAP_ALLOCATION_METADATA_SIZE: u64 = 16;
/// Smallest chunk worth splitting off: a header and a minimal payload.
pub const MIN_HEAP_SEGMENT_BYTES: u64 = 24;
/// Number of heaps: one per memory type.
pub const NUM_HEAPS_SUPPORTED: usize = 3;

/// One chunk of a heap: the address of its header and its size word (the
/// payload size, with `MEMCHUNK_USED` set while it is allocated). The
/// chunk that follows it in the list is the next chunk in memory.
#[derive(Clone, Copy, Debug, PartialEq, Eq, Structural)]
pub struct MemChunk {
    pub addr: u64,
    pub size: u64,
}

/// Whether the chunk is allocated.
pub open spec fn chunk_used(c: MemChunk) -> bool {
    c.size >= MEMCHUNK_USED
}

/// Payload size of the chunk, without the allocated flag.
pub open spec fn chunk_size(c: MemChunk) -> nat {
    if chunk_used(c) { (c.size - MEMCHUNK_USED) as nat } else { c.size as nat }
}

/// First address of the chunk's payload.
pub open spec fn payload_start(c: MemChunk) -> nat {
    (c.addr + PER_HEAP_ALLOCATION_METADATA_SIZE) as nat
}

/// First address past the chunk's payload.
pub open spec fn chunk_end(c: MemChunk) -> nat {
    payload_start(c) + chunk_size(c)
}

/// The indices `lo..hi` in order.
pub open spec fn index_range(lo: int, hi: int) -> Seq<usize> {
    Seq::new((hi - lo) as nat, |k: int| (lo + k) as usize)
}

/// All chunk indices in round-robin order starting at `start`.
pub open spec fn rotation(n: nat, start: nat) -> Seq<usize> {
    index_range(start as int, n as int) + index_range(0, start as int)
}

/// Walks the chunk list round-robin: from a starting chunk to the end of the
/// list, then from the head up to the starting chunk. Chunks are named by
/// their index in the list.
pub struct ChunkIterator {
    current: Option<usize>,
    start: Option<usize>,
    head: Option<usize>,
    second_pass: bool,
    len: usize,
}

impl ChunkIterator {
    /// Number of chunks in the list being walked.
    pub closed spec fn num_chunks(self) -> nat {
        self.len as nat
    }

    /// The iterator's state is consistent.
    pub closed spec fn wf(self) -> bool {
        if self.len == 0 {
            &&& self.head is None
            &&& self.start is None
            &&& self.current is None
        } else {
            &&& self.head == Some(0usize)
            &&& self.start is Some
            &&& self.start.unwrap() < self.len
            &&& !self.second_pass ==> (self.current is Some ==> self.start.unwrap() <= self.current.unwrap() < self.len)
            &&& self.second_pass ==> (self.current is Some ==> self.current.unwrap() <= self.start.unwrap())
        }
    }

    /// The chunk indices the iterator has yet to hand out, in order.
    pub closed spec fn remaining(self) -> Seq<usize> {
        if self.len == 0 {
            Seq::empty()
        } else {
            let s = self.start.unwrap() as int;
            if !self.second_pass {
                match self.current {
                    Some(c) => index_range(c as int, self.len as int) + index_range(0, s),
                    None => index_range(0, s),
                }
            } else {
                match self.current {
                    Some(c) => index_range(c as int, s),
                    None => Seq::empty(),
                }
            }
        }
    }

    /// Index of the chunk after chunk `i`, if any.
    fn next_of(&self, i: usize) -> (r: Option<usize>)
        requires
            i < self.len,
        ensures
            r == (if i + 1 < self.len { Some((i + 1) as usize) } else { None::<usize> }),
    {
        if i + 1 < self.len {
            Some(i + 1)
        } else {
            None
        }
    }

    /// Starts a walk over a list of `num_chunks` chunks at the chunk after
    /// the last allocated one, or at the head when there is none.
    pub fn new(num_chunks: usize, last_allocated: Option<usize>) -> (r: Self)
        requires
            last_allocated matches Some(i) ==> i < num_chunks,
        ensures
            r.wf(),
            r.num_chunks() == num_chunks,
            r.remaining() == rotation(num_chunks as nat, start_index(num_chunks as nat, last_allocated)),
    {
        let head: Option<usize> = if num_chunks > 0 { Some(0) } else { None };
        let mut start: Option<usize> = match last_allocated {
            Some(i) => if i + 1 < num_chunks { Some(i + 1) } else { None },
            None => head,
        };
        if start.is_none() {
            start = head;
        }
        let r = ChunkIterator { current: start, start, head, second_pass: false, len: num_chunks };
        proof {
            if num_chunks > 0 {
                let s = start.unwrap() as int;
                assert(r.remaining() =~= rotation(num_chunks as nat, start_index(num_chunks as nat, last_allocated)));
            }
        }
        r
    }

    /// Hands out the next chunk index of the walk, or `None` once every
    /// chunk has been visited.
    pub fn next_chunk(&mut self) -> (r: Option<usize>)
        requires
            old(self).wf(),
        ensures
            chunk_step(*old(self), *final(self), r),
            r matches Some(i) ==> i < old(self).num_chunks(),
    {
        if self.current.is_none() {
            if !self.second_pass && self.start != self.head {
                self.second_pass = true;
                self.current = self.head;
            } else {
                return None;
            }
        }
        if self.second_pass && self.current == self.start {
            return None;
        }
        let result = self.current;
        let c = result.unwrap();
        self.current = self.next_of(c);
        proof {
            assert(self.remaining() =~= old(self).remaining().drop_first());
        }
        result
    }
}

/// One step of a chunk walk: `new` is `old` after handing out `r`, the
/// next chunk index of the walk, or `None` once the walk is over.
pub open spec fn chunk_step(old: ChunkIterator, new: ChunkIterator, r: Option<usize>) -> bool {
    &&& new.wf()
    &&& new.num_chunks() == old.num_chunks()
    &&& old.remaining().len() == 0 ==> r is None && new.remaining().len() == 0
    &&& old.remaining().len() > 0 ==> {
        &&& r == Some(old.remaining()[0])
        &&& new.remaining() == old.remaining().drop_first()
    }
}

/// The first `k` steps of a walk whose chunk indices to come were `rot`.
proof fn lemma_walk_prefix(its: Seq<ChunkIterator>, rs: Seq<Option<usize>>, rot: Seq<usize>, k: int)
    requires
        its.len() == rs.len() + 1,
        its[0].remaining() == rot,
        forall|t: int| 0 <= t < rs.len() ==> chunk_step(#[trigger] its[t], its[t + 1], rs[t]),
        0 <= k <= rs.len(),
    ensures
        its[k].remaining() == (if k <= rot.len() { rot.skip(k) } else { Seq::<usize>::empty() }),
        forall|t: int| 0 <= t < k ==> #[trigger] rs[t] == (if t < rot.len() { Some(rot[t]) } else { None::<usize> }),
    decreases k,
{
    if k == 0 {
        assert(rot.skip(0) =~= rot);
    } else {
        lemma_walk_prefix(its, rs, rot, k - 1);
        let t = k - 1;
        assert(chunk_step(its[t], its[t + 1], rs[t]));
        if t < rot.len() {
            assert(rot.skip(t)[0] == rot[t]);
            assert(rot.skip(t).drop_first() =~= rot.skip(k));
        }
    }
}

/// A walk started by `ChunkIterator::new(n, last_allocated)` hands out the
/// chunk indices from the one after the last allocated chunk to the end of
/// the list, then from the head up to that chunk (each index below `n`
/// exactly once), and `None` on every call after that.
pub proof fn lemma_chunk_walk(its: Seq<ChunkIterator>, rs: Seq<Option<usize>>, n: nat, last_allocated: Option<usize>)
    requires
        n <= usize::MAX,
        last_allocated matches Some(i) ==> i < n,
        its.len() == rs.len() + 1,
        its[0].remaining() == rotation(n, start_index(n, last_allocated)),
        forall|t: int| 0 <= t < rs.len() ==> chunk_step(#[trigger] its[t], its[t + 1], rs[t]),
    ensures
        forall|t: int|
            0 <= t < rs.len() ==> #[trigger] rs[t] == (if t < n {
                Some(rotation(n, start_index(n, last_allocated))[t])
            } else {
                None::<usize>
            }),
        rotation(n, start_index(n, last_allocated)) == index_range(start_index(n, last_allocated) as int, n as int)
            + index_range(0, start_index(n, last_allocated) as int),
        forall|i: int| 0 <= i < n ==> #[trigger] rotation(n, start_index(n, last_allocated)).contains(i as usize),
        forall|a: int, b: int|
            0 <= a < b < n ==> #[trigger] rotation(n, start_index(n, last_allocated))[a] != #[trigger] rotation(n, start_index(n, last_allocated))[b],
{
    let rot = rotation(n, start_index(n, last_allocated));
    lemma_rotation_visits_each_once(n, start_index(n, last_allocated));
    lemma_walk_prefix(its, rs, rot, rs.len() as int);
}

/// A round-robin walk over `n` chunks, from any starting chunk, hands out
/// every chunk index below `n` exactly once.
pub proof fn lemma_rotation_visits_each_once(n: nat, start: nat)
    requires
        start < n || (n == 0 && start == 0),
        n <= usize::MAX,
    ensures
        rotation(n, start).len() == n,
        forall|i: int| 0 <= i < n ==> #[trigger] rotation(n, start).contains(i as usize),
        forall|i: int, j: int|
            0 <= i < j < n ==> #[trigger] rotation(n, start)[i] != #[trigger] rotation(n, start)[j],
{
    let r = rotation(n, start);
    assert forall|k: int| 0 <= k < n implies #[trigger] r[k] == (if k < n - start {
        start + k
    } else {
        k - (n - start)
    }) as usize by {}
    assert forall|i: int| 0 <= i < n implies #[trigger] r.contains(i as usize) by {
        if i >= start {
            assert(r[i - start] == i as usize);
        } else {
            assert(r[i + (n - start)] == i as usize);
        }
    }
}

/// Index at which a walk starts: the chunk after the last allocated one,
/// or the head when there is none or it is the last chunk.
pub open spec fn start_index(n: nat, last_allocated: Option<usize>) -> nat {
    match last_allocated {
        Some(i) => if i + 1 < n { (i + 1) as nat } else { 0 },
        None => 0,
    }
}

/// Highest address a heap may reach: the end of the address space.
pub open spec fn heap_address_limit() -> nat {
    0xFFFF_FFFF_FFFF_FFFF
}

/// Largest number of bytes a heap may span, headers included: its single
/// first chunk's size word must hold the payload size below the allocated
/// flag.
pub open spec fn heap_span_limit() -> nat {
    (MEMCHUNK_MAX_SIZE + PER_HEAP_ALLOCATION_METADATA_SIZE) as nat
}

/// The chunks of `s` lie end to end and cover exactly `start..end`.
pub open spec fn tiles(s: Seq<MemChunk>, start: nat, end: nat) -> bool {
    &&& s.len() > 0
    &&& s[0].addr == start
    &&& forall|i: int| 0 <= i < s.len() - 1 ==> #[trigger] chunk_end(s[i]) == s[i + 1].addr
    &&& chunk_end(s.last()) == end
}

/// The allocated blocks of a chunk list: each allocated chunk's payload
/// address and payload size.
pub open spec fn used_blocks(s: Seq<MemChunk>) -> Set<(nat, nat)> {
    Set::new(
        |b: (nat, nat)|
            exists|i: int|
                0 <= i < s.len() && #[trigger] chunk_used(s[i]) && b == (
                    payload_start(s[i]),
                    chunk_size(s[i]),
                ),
    )
}

/// Along a chain of adjacent chunks, each chunk ends at or before the start
/// of every later one.
proof fn lemma_chain(s: Seq<MemChunk>, i: int, j: int)
    requires
        0 <= i < j < s.len(),
        forall|k: int| 0 <= k < s.len() - 1 ==> #[trigger] chunk_end(s[k]) == s[k + 1].addr,
    ensures
        chunk_end(s[i]) <= s[j].addr,
    decreases j - i,
{
    assert(chunk_end(s[j - 1]) == s[j].addr);
    if i < j - 1 {
        lemma_chain(s, i, j - 1);
    }
}

/// Chunks that tile a range are ordered by address and stay inside it.
pub proof fn lemma_tiles_ordered(s: Seq<MemChunk>, start: nat, end: nat)
    requires
        tiles(s, start, end),
    ensures
        forall|i: int| 0 <= i < s.len() ==> start <= #[trigger] s[i].addr && chunk_end(s[i]) <= end,
        forall|i: int, j: int| 0 <= i < j < s.len() ==> chunk_end(#[trigger] s[i]) <= #[trigger] s[j].addr,
{
    assert forall|i: int, j: int| 0 <= i < j < s.len() implies chunk_end(#[trigger] s[i]) <= #[trigger] s[j].addr by {
        lemma_chain(s, i, j);
    }
    assert forall|i: int| 0 <= i < s.len() implies start <= #[trigger] s[i].addr && chunk_end(s[i]) <= end by {
        if i > 0 {
            lemma_chain(s, 0, i);
        }
        if i < s.len() - 1 {
            lemma_chain(s, i, s.len() - 1);
        }
    }
}

/// Every chunk takes at least a header's worth of the range it tiles.
pub proof fn lemma_tiles_len(s: Seq<MemChunk>, start: nat, end: nat)
    requires
        tiles(s, start, end),
    ensures
        s.len() * PER_HEAP_ALLOCATION_METADATA_SIZE <= end - start,
    decreases s.len(),
{
    if s.len() > 1 {
        let t = s.drop_last();
        assert(chunk_end(s[s.len() - 2]) == s[s.len() - 1].addr);
        assert forall|i: int| 0 <= i < t.len() - 1 implies #[trigger] chunk_end(t[i]) == t[i + 1].addr by {
            assert(chunk_end(s[i]) == s[i + 1].addr);
        }
        lemma_tiles_len(t, start, s.last().addr as nat);
    }
}

/// Regrouping a five-part concatenation around its middle three parts.
proof fn lemma_seq_regroup<A>(all: Seq<A>, a: Seq<A>, b: Seq<A>, c: Seq<A>, d: Seq<A>, e: Seq<A>)
    requires
        all == a + b + c + d + e,
    ensures
        all == a + (b + c + d) + e,
{
    assert(a + b + c + d + e =~= a + (b + c + d) + e);
}

/// Replacing the chunks `k..k2` of a tiling by chunks that tile the same
/// span gives a tiling of the same range.
pub proof fn lemma_tiles_replace(s: Seq<MemChunk>, start: nat, end: nat, k: int, k2: int, parts: Seq<MemChunk>)
    requires
        tiles(s, start, end),
        0 <= k < k2 <= s.len(),
        tiles(parts, s[k].addr as nat, chunk_end(s[k2 - 1])),
    ensures
        tiles(s.take(k) + parts + s.skip(k2), start, end),
{
    let r = s.take(k) + parts + s.skip(k2);
    let pl = parts.len() as int;
    assert(r.len() == k + pl + s.len() - k2);
    assert forall|i: int| 0 <= i < r.len() - 1 implies #[trigger] chunk_end(r[i]) == r[i + 1].addr by {
        if i < k - 1 {
            assert(r[i] == s[i] && r[i + 1] == s[i + 1]);
            assert(chunk_end(s[i]) == s[i + 1].addr);
        } else if i == k - 1 {
            assert(r[i] == s[i] && r[i + 1] == parts[0]);
            assert(chunk_end(s[i]) == s[i + 1].addr);
        } else if i < k + pl - 1 {
            assert(r[i] == parts[i - k] && r[i + 1] == parts[i - k + 1]);
            assert(chunk_end(parts[i - k]) == parts[i - k + 1].addr);
        } else if i == k + pl - 1 {
            assert(r[i] == parts[pl - 1] && r[i + 1] == s[k2]);
            assert(chunk_end(s[k2 - 1]) == s[k2].addr);
        } else {
            let j = i - k - pl + k2;
            assert(r[i] == s[j] && r[i + 1] == s[j + 1]);
            assert(chunk_end(s[j]) == s[j + 1].addr);
        }
    }
    if k == 0 {
        assert(r[0] == parts[0]);
    } else {
        assert(r[0] == s[0]);
    }
    if k2 == s.len() {
        assert(r.last() == parts.last());
    } else {
        assert(r.last() == s.last());
    }
}

/// The allocated blocks of a concatenation are those of its parts.
pub proof fn lemma_used_blocks_concat(a: Seq<MemChunk>, b: Seq<MemChunk>)
    ensures
        used_blocks(a + b) == used_blocks(a).union(used_blocks(b)),
{
    let ab = a + b;
    assert forall|x: (nat, nat)| used_blocks(ab).contains(x) implies used_blocks(a).union(used_blocks(b)).contains(x) by {
        let i = choose|i: int| 0 <= i < ab.len() && #[trigger] chunk_used(ab[i]) && x == (payload_start(ab[i]), chunk_size(ab[i]));
        if i < a.len() {
            assert(ab[i] == a[i]);
            assert(chunk_used(a[i]));
        } else {
            assert(ab[i] == b[i - a.len()]);
            assert(chunk_used(b[i - a.len()]));
        }
    }
    assert forall|x: (nat, nat)| used_blocks(a).union(used_blocks(b)).contains(x) implies used_blocks(ab).contains(x) by {
        if used_blocks(a).contains(x) {
            let i = choose|i: int| 0 <= i < a.len() && #[trigger] chunk_used(a[i]) && x == (payload_start(a[i]), chunk_size(a[i]));
            assert(ab[i] == a[i]);
            assert(chunk_used(ab[i]));
        } else {
            let i = choose|i: int| 0 <= i < b.len() && #[trigger] chunk_used(b[i]) && x == (payload_start(b[i]), chunk_size(b[i]));
            assert(ab[i + a.len()] == b[i]);
            assert(chunk_used(ab[i + a.len()]));
        }
    }
    assert(used_blocks(ab) =~= used_blocks(a).union(used_blocks(b)));
}

/// `x` is a power of two that fits in 64 bits.
pub open spec fn power_of_two(x: u64) -> bool {
    exists|k: nat| k < 64 && pow2(k) == x
}

/// The smallest multiple of `align` that is at least `x` (for `x >= 1`).
pub open spec fn align_up_to(x: nat, align: nat) -> nat {
    (((x - 1) as nat / align) * align + align) as nat
}

/// Where a block of `alloc_size` bytes aligned to `align` would start in
/// chunk `c`, if `c` can hold it: at the chunk's own payload when that is
/// already aligned, otherwise at the first aligned address that leaves room
/// for a leading free chunk in front of it.
pub open spec fn placement(c: MemChunk, alloc_size: nat, align: nat) -> Option<nat> {
    if chunk_used(c) || chunk_size(c) < alloc_size {
        None
    } else {
        let start = payload_start(c);
        let end = chunk_end(c);
        if align_up_to(start, align) == start {
            Some(start)
        } else {
            let a = align_up_to((start + MIN_HEAP_SEGMENT_BYTES) as nat, align);
            if a >= end || a + alloc_size > end {
                None
            } else {
                Some(a)
            }
        }
    }
}

/// The first chunk, in the order `order`, that can hold the block.
pub open spec fn first_fit(s: Seq<MemChunk>, order: Seq<usize>, alloc_size: nat, align: nat) -> Option<usize>
    decreases order.len(),
{
    if order.len() == 0 {
        None
    } else if placement(s[order[0] as int], alloc_size, align) is Some {
        Some(order[0])
    } else {
        first_fit(s, order.drop_first(), alloc_size, align)
    }
}

/// Payload size of the block carved at `p` out of chunk `c`: the requested
/// size when the rest is big enough to become a chunk of its own, otherwise
/// everything up to the end of `c`.
pub open spec fn carved_size(c: MemChunk, p: nat, alloc_size: nat) -> nat {
    let avail = (chunk_end(c) - p) as nat;
    if avail >= alloc_size + MIN_HEAP_SEGMENT_BYTES { alloc_size } else { avail }
}

/// The free chunk left in front of the block, when the block does not start
/// at the chunk's own payload.
pub open spec fn carve_lead(c: MemChunk, p: nat) -> Seq<MemChunk> {
    if p == payload_start(c) {
        Seq::empty()
    } else {
        seq![MemChunk { addr: c.addr, size: (p - PER_HEAP_ALLOCATION_METADATA_SIZE - payload_start(c)) as u64 }]
    }
}

/// The chunks that replace chunk `c` when a block of `alloc_size` bytes is
/// allocated at `p`: an optional leading free chunk, the allocated block,
/// and an optional trailing free chunk.
pub open spec fn carve(c: MemChunk, p: nat, alloc_size: nat) -> Seq<MemChunk> {
    let avail = (chunk_end(c) - p) as nat;
    let tail = if avail >= alloc_size + MIN_HEAP_SEGMENT_BYTES {
        seq![MemChunk { addr: (p + alloc_size) as u64, size: (avail - alloc_size - PER_HEAP_ALLOCATION_METADATA_SIZE) as u64 }]
    } else {
        Seq::empty()
    };
    carve_lead(c, p) + seq![MemChunk { addr: (p - PER_HEAP_ALLOCATION_METADATA_SIZE) as u64, size: (carved_size(c, p, alloc_size) + MEMCHUNK_USED) as u64 }] + tail
}

/// State of one heap. Before set-up it holds no chunks; afterwards its
/// chunks tile `head..head + size`.
pub struct HeapInfo {
    pub backing_memory: u8,
    pub memory_type: u8,
    /// Address of the first chunk (0 before set-up).
    pub head: u64,
    /// The chunk list in address order.
    pub chunks: Vec<MemChunk>,
    /// Index of the chunk handed out last, where the next search resumes.
    pub last_allocated: Option<usize>,
    /// Bytes covered by the heap, headers included.
    pub size: u64,
    pub setup_done: bool,
}

impl HeapInfo {
    /// The heap's bookkeeping is consistent.
    pub open spec fn wf(self) -> bool {
        &&& self.last_allocated matches Some(i) ==> (i < self.chunks@.len() && chunk_used(self.chunks@[i as int]))
        &&& self.setup_done ==> {
            &&& self.head > 0
            &&& self.head + self.size <= heap_address_limit()
            &&& self.size <= heap_span_limit()
            &&& tiles(self.chunks@, self.head as nat, (self.head + self.size) as nat)
        }
        &&& !self.setup_done ==> self.chunks@.len() == 0 && self.last_allocated is None
    }

    /// The order in which the next allocation examines the chunks.
    pub open spec fn search_order(self) -> Seq<usize> {
        rotation(self.chunks@.len(), start_index(self.chunks@.len(), self.last_allocated))
    }
}

/// The allocated flag is the top bit of the size word.
proof fn lemma_used_bit(x: u64)
    ensures
        (x & MEMCHUNK_USED != 0) <==> x >= MEMCHUNK_USED,
        x < MEMCHUNK_USED ==> x | MEMCHUNK_USED == x + MEMCHUNK_USED,
        x >= MEMCHUNK_USED ==> x & !MEMCHUNK_USED == x - MEMCHUNK_USED,
{
    assert({
        &&& (x & 0x8000_0000_0000_0000u64 != 0) <==> x >= 0x8000_0000_0000_0000u64
        &&& x < 0x8000_0000_0000_0000u64 ==> x | 0x8000_0000_0000_0000u64 == x + 0x8000_0000_0000_0000u64
        &&& x >= 0x8000_0000_0000_0000u64 ==> x & !0x8000_0000_0000_0000u64 == x - 0x8000_0000_0000_0000u64
    }) by (bit_vector);
}

/// The trailing-zero count of a power of two is its exponent.
proof fn lemma_trailing_zeros_of_pow2(a: u64, k: nat)
    requires
        k < 64,
        pow2(k) == a,
    ensures
        u64_trailing_zeros(a) == k,
        a == 1u64 << (k as u64),
{
    lemma_u64_pow2_no_overflow(k);
    lemma_u64_shl_is_mul(1, k as u64);
    axiom_u64_trailing_zeros(a);
    let t = u64_trailing_zeros(a) as u64;
    let kk = k as u64;
    if t < kk {
        assert((a >> t) & 1 == 0) by (bit_vector)
            requires
                t < kk,
                kk < 64,
                a == 1u64 << kk,
        ;
    } else if t > kk {
        assert((a >> kk) & 1 == 1) by (bit_vector)
            requires
                kk < 64,
                a == 1u64 << kk,
        ;
        assert((a >> kk) & 1u64 == 0u64);
    }
}

/// The shift-based rounding used by the allocator: rounding `x - 1` down
/// to a multiple of `align` and adding `align` gives `align_up_to`.
proof fn lemma_align_up_exec(x: u64, align: u64, k: u32)
    requires
        1 <= x,
        k < 64,
        pow2(k as nat) == align,
    ensures
        (((x - 1) as u64) >> k) << k <= x - 1,
        ((((x - 1) as u64) >> k) << k) + align == align_up_to(x as nat, align as nat),
        align_up_to(x as nat, align as nat) % (align as nat) == 0,
        x <= align_up_to(x as nat, align as nat) < x + align,
{
    let y: u64 = (x - 1) as u64;
    lemma_u64_pow2_no_overflow(k as nat);
    lemma_pow2_pos(k as nat);
    lemma_u64_shr_is_div(y, k as u64);
    assert(y >> k == y >> (k as u64)) by (bit_vector);
    let q: u64 = y >> k;
    assert(q == y / align);
    let a = align as int;
    assert((y as int / a) * a <= y) by (nonlinear_arith)
        requires
            a > 0,
            y >= 0,
    ;
    assert(q * align <= u64::MAX);
    lemma_u64_shl_is_mul(q, k as u64);
    assert(q << k == q << (k as u64)) by (bit_vector);
    let yi = y as int;
    assert(0 <= yi - (yi / a) * a < a) by (nonlinear_arith)
        requires
            a > 0,
            yi >= 0,
    ;
    assert(((yi / a) * a + a) % a == 0) by (nonlinear_arith)
        requires
            a > 0,
    ;
}

/// Where a block could be placed in chunk `c`, computed as the allocator's
/// search does: `Some((start of the block, end of the chunk's payload,
/// whether the block starts at the payload itself))`. A rounded address
/// that would pass the end of the address space lies past the chunk.
fn chunk_placement(c: MemChunk, alloc_size: u64, alignment: u64, shift: u32, head: u64, limit_end: u64) -> (r: Option<(u64, u64, bool)>)
    requires
        shift < 64,
        pow2(shift as nat) == alignment,
        head <= c.addr,
        chunk_end(c) <= limit_end,
        limit_end <= heap_address_limit(),
    ensures
        r matches Some((p, end, aligned)) ==> {
            &&& placement(c, alloc_size as nat, alignment as nat) == Some(p as nat)
            &&& end == chunk_end(c)
            &&& aligned == (p == payload_start(c))
        },
        r is None ==> placement(c, alloc_size as nat, alignment as nat) is None,
{
    let c_size = c.size;
    proof {
        lemma_used_bit(c_size);
    }
    if (c_size & MEMCHUNK_USED) != 0 || c_size < alloc_size {
        return None;
    }
    let start: u64 = c.addr + PER_HEAP_ALLOCATION_METADATA_SIZE;
    let end: u64 = start + c_size;
    proof {
        lemma_align_up_exec(start, alignment, shift);
    }
    let base: u64 = (start.saturating_sub(1) >> shift) << shift;
    match base.checked_add(alignment) {
        Some(aligned_start) => {
            if start == aligned_start {
                return Some((aligned_start, end, true));
            }
        },
        None => {},
    }
    let with_header: u64 = match start.checked_add(MIN_HEAP_SEGMENT_BYTES) {
        Some(v) => v,
        None => {
            proof {
                lemma_align_up_to_bounds((start + MIN_HEAP_SEGMENT_BYTES) as nat, alignment as nat);
            }
            return None;
        },
    };
    proof {
        lemma_align_up_exec(with_header, alignment, shift);
    }
    let base_with_header: u64 = (with_header.saturating_sub(1) >> shift) << shift;
    let aligned_start_with_header: u64 = match base_with_header.checked_add(alignment) {
        Some(v) => v,
        None => {
            return None;
        },
    };
    if aligned_start_with_header >= end {
        return None;
    }
    if alloc_size > end - aligned_start_with_header {
        return None;
    }
    Some((aligned_start_with_header, end, false))
}

/// `align_up_to` rounds up to a multiple, by less than one step.
pub proof fn lemma_align_up_to_bounds(x: nat, align: nat)
    requires
        x >= 1,
        align >= 1,
    ensures
        align_up_to(x, align) % align == 0,
        x <= align_up_to(x, align) < x + align,
{
    let y = (x - 1) as int;
    let a = align as int;
    assert(0 <= y - (y / a) * a < a) by (nonlinear_arith)
        requires
            a > 0,
            y >= 0,
    ;
    assert(((y / a) * a + a) % a == 0) by (nonlinear_arith)
        requires
            a > 0,
    ;
}

/// Carving a placed block out of a free chunk tiles the chunk's span and
/// adds exactly one allocated block, aligned and at least as large as asked.
pub proof fn lemma_carve(c: MemChunk, p: nat, alloc_size: nat, align: nat)
    requires
        placement(c, alloc_size, align) == Some(p),
        align >= 1,
        chunk_end(c) <= heap_address_limit(),
        alloc_size <= MEMCHUNK_USED,
    ensures
        tiles(carve(c, p, alloc_size), c.addr as nat, chunk_end(c)),
        used_blocks(carve(c, p, alloc_size)) == set![(p, carved_size(c, p, alloc_size))],
        carved_size(c, p, alloc_size) >= alloc_size,
        p % align == 0,
        payload_start(c) <= p,
        p + carved_size(c, p, alloc_size) <= chunk_end(c),
        carve_lead(c, p).len() <= 1,
        ({
            let k = carve_lead(c, p).len() as int;
            let b = carve(c, p, alloc_size)[k];
            &&& chunk_used(b)
            &&& payload_start(b) == p
            &&& chunk_size(b) == carved_size(c, p, alloc_size)
        }),
{
    let start = payload_start(c);
    lemma_align_up_to_bounds(start, align);
    if align_up_to(start, align) != start {
        lemma_align_up_to_bounds((start + MIN_HEAP_SEGMENT_BYTES) as nat, align);
    }
    let parts = carve(c, p, alloc_size);
    let lead = carve_lead(c, p);
    let avail = (chunk_end(c) - p) as nat;
    let k = lead.len() as int;
    assert(parts[k].addr == p - PER_HEAP_ALLOCATION_METADATA_SIZE);
    assert(chunk_used(parts[k]));
    if k == 1 {
        assert(chunk_end(parts[0]) == parts[1].addr);
        assert(!chunk_used(parts[0]));
    }
    if avail >= alloc_size + MIN_HEAP_SEGMENT_BYTES {
        assert(chunk_end(parts[k]) == parts[k + 1].addr);
        assert(!chunk_used(parts[k + 1]));
        assert(parts.len() == k + 2);
    } else {
        assert(parts.len() == k + 1);
    }
    assert forall|i: int| 0 <= i < parts.len() - 1 implies #[trigger] chunk_end(parts[i]) == parts[i + 1].addr by {
    }
    assert forall|x: (nat, nat)| used_blocks(parts).contains(x) <==> x == (p, carved_size(c, p, alloc_size)) by {
        if used_blocks(parts).contains(x) {
            let i = choose|i: int| 0 <= i < parts.len() && #[trigger] chunk_used(parts[i]) && x == (payload_start(parts[i]), chunk_size(parts[i]));
            assert(i == k);
        }
        if x == (p, carved_size(c, p, alloc_size)) {
            assert(chunk_used(parts[k]));
        }
    }
    assert(used_blocks(parts) =~= set![(p, carved_size(c, p, alloc_size))]);
}

/// `new` is `old` after allocating a block of `alloc_size` bytes aligned to
/// `align` at address `r`: the first chunk in search order that can hold
/// the block is carved up (`r` is 0 and nothing changes when none can).
pub open spec fn block_allocated(old: HeapInfo, new: HeapInfo, alloc_size: nat, align: nat, r: u64) -> bool {
    &&& new.setup_done == old.setup_done
    &&& new.head == old.head
    &&& new.size == old.size
    &&& new.backing_memory == old.backing_memory
    &&& new.memory_type == old.memory_type
    &&& match first_fit(old.chunks@, old.search_order(), alloc_size, align) {
        None => {
            &&& r == 0
            &&& new.chunks@ == old.chunks@
            &&& new.last_allocated == old.last_allocated
        },
        Some(i) => {
            let c = old.chunks@[i as int];
            let p = placement(c, alloc_size, align).unwrap();
            &&& r == p
            &&& new.chunks@ == old.chunks@.take(i as int) + carve(c, p, alloc_size) + old.chunks@.skip(i + 1)
            &&& new.last_allocated == Some((i + carve_lead(c, p).len()) as usize)
        },
    }
}

/// `new` is `old` after freeing the block at `ptr`.
pub open spec fn block_freed(old: HeapInfo, new: HeapInfo, ptr: nat) -> bool {
    let i = chunk_index_of(old.chunks@, ptr);
    &&& new.setup_done == old.setup_done
    &&& new.head == old.head
    &&& new.size == old.size
    &&& new.backing_memory == old.backing_memory
    &&& new.memory_type == old.memory_type
    &&& new.chunks@ == free_result(old.chunks@, i)
    &&& new.last_allocated == resume_after_free(old.chunks@, i, old.last_allocated)
}

impl HeapInfo {
    /// Searches the chunks in search order for the first one that can hold
    /// the block: `Some((index, block address, end of the chunk's payload,
    /// whether the block starts at the payload itself))`.
    fn find_fit(&self, alloc_size: u64, alignment: u64) -> (r: Option<(usize, u64, u64, bool)>)
        requires
            self.wf(),
            self.setup_done,
            power_of_two(alignment),
        ensures
            r is None ==> first_fit(self.chunks@, self.search_order(), alloc_size as nat, alignment as nat) is None,
            r matches Some((i, p, end, aligned)) ==> {
                &&& i < self.chunks@.len()
                &&& first_fit(self.chunks@, self.search_order(), alloc_size as nat, alignment as nat) == Some(i)
                &&& placement(self.chunks@[i as int], alloc_size as nat, alignment as nat) == Some(p as nat)
                &&& end == chunk_end(self.chunks@[i as int])
                &&& aligned == (p == payload_start(self.chunks@[i as int]))
            },
    {
        let n = self.chunks.len();
        let ghost order = self.search_order();
        let ghost s0 = self.chunks@;
        let mut iter = ChunkIterator::new(n, self.last_allocated);
        let shift: u32 = alignment.trailing_zeros();
        proof {
            let k = choose|k: nat| k < 64 && pow2(k) == alignment;
            lemma_trailing_zeros_of_pow2(alignment, k);
            lemma_tiles_ordered(s0, self.head as nat, (self.head + self.size) as nat);
        }
        let limit_end: u64 = self.head + self.size;
        loop
            invariant
                iter.wf(),
                iter.num_chunks() == n,
                first_fit(s0, order, alloc_size as nat, alignment as nat)
                    == first_fit(s0, iter.remaining(), alloc_size as nat, alignment as nat),
                s0 == self.chunks@,
                order == self.search_order(),
                n == s0.len(),
                shift < 64,
                pow2(shift as nat) == alignment,
                limit_end == self.head + self.size,
                limit_end <= heap_address_limit(),
                forall|j: int| 0 <= j < s0.len() ==> self.head <= #[trigger] s0[j].addr && chunk_end(s0[j]) <= limit_end,
            decreases iter.remaining().len(),
        {
            let c = iter.next_chunk();
            match c {
                None => {
                    return None;
                },
                Some(i) => {
                    let placed = chunk_placement(self.chunks[i], alloc_size, alignment, shift, self.head, limit_end);
                    match placed {
                        None => {},
                        Some((p, e, a)) => {
                            return Some((i, p, e, a));
                        },
                    }
                },
            }
        }
    }

    /// Replaces free chunk `i` by the chunks of `carve`: splits off a
    /// leading free chunk when the block is not at the payload, splits off a
    /// trailing free chunk when enough room is left, and marks the block
    /// allocated. Returns the block's address.
    #[verifier::spinoff_prover]
    fn carve_chunk(&mut self, i0: usize, aligned_start: u64, end: u64, aligned: bool, alloc_size: u64, Ghost(align): Ghost<nat>) -> (r: u64)
        requires
            old(self).wf(),
            old(self).setup_done,
            i0 < old(self).chunks@.len(),
            align >= 1,
            alloc_size <= MEMCHUNK_USED,
            placement(old(self).chunks@[i0 as int], alloc_size as nat, align) == Some(aligned_start as nat),
            end == chunk_end(old(self).chunks@[i0 as int]),
            aligned == (aligned_start == payload_start(old(self).chunks@[i0 as int])),
        ensures
            final(self).wf(),
            final(self).setup_done,
            final(self).head == old(self).head,
            final(self).size == old(self).size,
            final(self).backing_memory == old(self).backing_memory,
            final(self).memory_type == old(self).memory_type,
            ({
                let c = old(self).chunks@[i0 as int];
                &&& r == aligned_start
                &&& final(self).chunks@ == old(self).chunks@.take(i0 as int) + carve(c, aligned_start as nat, alloc_size as nat)
                    + old(self).chunks@.skip(i0 + 1)
                &&& final(self).last_allocated == Some((i0 + carve_lead(c, aligned_start as nat).len()) as usize)
            }),
    {
        let ghost s0 = self.chunks@;
        let ghost c0 = s0[i0 as int];
        let ghost lim = (self.head + self.size) as nat;
        let ghost p = aligned_start as nat;
        let ghost parts = carve(c0, p, alloc_size as nat);
        assert(chunk_end(c0) <= lim && lim <= heap_address_limit()) by {
            lemma_tiles_ordered(s0, self.head as nat, lim);
        }
        proof {
            lemma_tiles_len(s0, self.head as nat, lim);
        }
        assert({
            &&& tiles(parts, c0.addr as nat, chunk_end(c0))
            &&& !chunk_used(c0)
            &&& payload_start(c0) <= p <= chunk_end(c0)
            &&& (!aligned ==> payload_start(c0) + MIN_HEAP_SEGMENT_BYTES <= p)
        }) by {
            lemma_carve(c0, p, alloc_size as nat, align);
            lemma_align_up_to_bounds(payload_start(c0), align);
            if !aligned {
                lemma_align_up_to_bounds((payload_start(c0) + MIN_HEAP_SEGMENT_BYTES) as nat, align);
            }
        }
        proof {
            lemma_used_bit(c0.size);
        }
        let mut i = i0;
        if !aligned {
            let c = self.chunks[i];
            let new_size: u64 = end - aligned_start;
            let new_chunk = MemChunk { addr: aligned_start - PER_HEAP_ALLOCATION_METADATA_SIZE, size: new_size };
            self.chunks.set(i, MemChunk { addr: c.addr, size: c.size - (new_size + PER_HEAP_ALLOCATION_METADATA_SIZE) });
            self.chunks.insert(i + 1, new_chunk);
            i = i + 1;
        }
        let ghost mid = MemChunk { addr: (aligned_start - PER_HEAP_ALLOCATION_METADATA_SIZE) as u64, size: (end - aligned_start) as u64 };
        let ghost lead = carve_lead(c0, p);
        assert(self.chunks@ =~= s0.take(i0 as int) + lead + seq![mid] + s0.skip(i0 + 1));
        assert(i == i0 + lead.len());
        assert(i < self.chunks.len());
        let ghost s1 = self.chunks@;
        let c = self.chunks[i];
        assert(c == mid);
        let ghost tail: Seq<MemChunk> = Seq::empty();
        if c.size >= alloc_size + MIN_HEAP_SEGMENT_BYTES {
            let rest = MemChunk {
                addr: c.addr + PER_HEAP_ALLOCATION_METADATA_SIZE + alloc_size,
                size: c.size - alloc_size - PER_HEAP_ALLOCATION_METADATA_SIZE,
            };
            self.chunks.insert(i + 1, rest);
            self.chunks.set(i, MemChunk { addr: c.addr, size: alloc_size });
            proof {
                tail = seq![rest];
            }
        }
        let c = self.chunks[i];
        proof {
            lemma_used_bit(c.size);
        }
        self.chunks.set(i, MemChunk { addr: c.addr, size: c.size | MEMCHUNK_USED });
        self.last_allocated = Some(i);
        proof {
            let block = MemChunk { addr: mid.addr, size: (carved_size(c0, p, alloc_size as nat) + MEMCHUNK_USED) as u64 };
            assert(self.chunks@ =~= s0.take(i0 as int) + lead + seq![block] + tail + s0.skip(i0 + 1));
            assert(parts =~= lead + seq![block] + tail);
            lemma_seq_regroup(self.chunks@, s0.take(i0 as int), lead, seq![block], tail, s0.skip(i0 + 1));
            lemma_tiles_replace(s0, self.head as nat, lim, i0 as int, i0 + 1, parts);
        }
        c.addr + PER_HEAP_ALLOCATION_METADATA_SIZE
    }

    /// Carves a block of `alloc_size` bytes aligned to `alignment` out of
    /// the first chunk, in search order, that can hold it, and returns the
    /// block's address; returns 0 and changes nothing when no chunk can.
    pub fn alloc_block(&mut self, alloc_size: u64, alignment: u64) -> (r: u64)
        requires
            old(self).wf(),
            old(self).setup_done,
            power_of_two(alignment),
            alloc_size <= MEMCHUNK_USED,
        ensures
            final(self).wf(),
            block_allocated(*old(self), *final(self), alloc_size as nat, alignment as nat, r),
    {
        match self.find_fit(alloc_size, alignment) {
            None => 0,
            Some((i, p, end, aligned)) => {
                proof {
                    let k = choose|k: nat| k < 64 && pow2(k) == alignment;
                    lemma_pow2_pos(k);
                }
                self.carve_chunk(i, p, end, aligned, alloc_size, Ghost(alignment as nat))
            },
        }
    }
}

/// `p` is the address of an allocated block of the chunk list.
pub open spec fn is_allocated(s: Seq<MemChunk>, p: nat) -> bool {
    exists|i: int| 0 <= i < s.len() && chunk_used(s[i]) && #[trigger] payload_start(s[i]) == p
}

/// Index of the chunk whose payload starts at `p`.
pub open spec fn chunk_index_of(s: Seq<MemChunk>, p: nat) -> int {
    choose|i: int| 0 <= i < s.len() && chunk_used(s[i]) && #[trigger] payload_start(s[i]) == p
}

/// The chunks `lo..hi` that freeing chunk `i` merges into one: the chunk
/// itself with its free neighbours.
pub open spec fn free_window(s: Seq<MemChunk>, i: int) -> (int, int) {
    let lo = if i > 0 && !chunk_used(s[i - 1]) { i - 1 } else { i };
    let hi = if i + 1 < s.len() && !chunk_used(s[i + 1]) { i + 2 } else { i + 1 };
    (lo, hi)
}

/// The free chunk spanning chunks `lo..hi`.
pub open spec fn merged_chunk(s: Seq<MemChunk>, lo: int, hi: int) -> MemChunk {
    MemChunk { addr: s[lo].addr, size: (chunk_end(s[hi - 1]) - payload_start(s[lo])) as u64 }
}

/// The chunk list after freeing chunk `i`.
pub open spec fn free_result(s: Seq<MemChunk>, i: int) -> Seq<MemChunk> {
    let (lo, hi) = free_window(s, i);
    s.take(lo) + seq![merged_chunk(s, lo, hi)] + s.skip(hi)
}

/// Where the resume point of the search lies after freeing chunk `i`: gone
/// if it was that chunk, otherwise the same chunk at its new index.
pub open spec fn resume_after_free(s: Seq<MemChunk>, i: int, last_allocated: Option<usize>) -> Option<usize> {
    let (lo, hi) = free_window(s, i);
    match last_allocated {
        None => None,
        Some(j) => if j == i {
            None
        } else if j < lo {
            Some(j)
        } else {
            Some((j - (hi - lo - 1)) as usize)
        },
    }
}

/// The resume index after chunk `removed` leaves the list.
fn shift_after_removal(last_allocated: Option<usize>, removed: usize) -> (r: Option<usize>)
    requires
        last_allocated != Some(removed),
    ensures
        r == (match last_allocated {
            None => None,
            Some(j) => if j < removed { Some(j) } else { Some((j - 1) as usize) },
        }),
{
    match last_allocated {
        None => None,
        Some(j) => if j < removed { Some(j) } else { Some(j - 1) },
    }
}

impl HeapInfo {
    /// Index of the chunk whose header is at `chunk_addr`.
    fn find_chunk(&self, chunk_addr: u64, Ghost(p): Ghost<nat>) -> (r: usize)
        requires
            self.wf(),
            self.setup_done,
            is_allocated(self.chunks@, p),
            chunk_addr + PER_HEAP_ALLOCATION_METADATA_SIZE == p,
        ensures
            r == chunk_index_of(self.chunks@, p),
            r < self.chunks@.len(),
            chunk_used(self.chunks@[r as int]),
            payload_start(self.chunks@[r as int]) == p,
    {
        let ghost s = self.chunks@;
        let ghost w = chunk_index_of(s, p);
        proof {
            lemma_tiles_ordered(s, self.head as nat, (self.head + self.size) as nat);
            assert forall|k: int| 0 <= k < s.len() && k != w implies #[trigger] s[k].addr != chunk_addr by {
                if k < w {
                    assert(chunk_end(s[k]) <= s[w].addr);
                } else {
                    assert(chunk_end(s[w]) <= s[k].addr);
                }
            }
        }
        let mut i: usize = 0;
        while self.chunks[i].addr != chunk_addr
            invariant
                0 <= w < s.len(),
                s == self.chunks@,
                s[w].addr == chunk_addr,
                i <= w,
                forall|k: int| 0 <= k < s.len() && k != w ==> #[trigger] s[k].addr != chunk_addr,
            decreases w - i,
        {
            assert(s[i as int].addr != chunk_addr);
            assert(i < w);
            assert(w < self.chunks.len());
            i = i + 1;
        }
        i
    }
}

/// The chunk list with the adjacent chunks `k` and `k + 1` merged into one
/// free chunk.
pub open spec fn merge_pair(s: Seq<MemChunk>, k: int) -> Seq<MemChunk> {
    s.take(k) + seq![merged_chunk(s, k, k + 2)] + s.skip(k + 2)
}

/// The resume index after the chunk at `removed` leaves the list.
pub open spec fn shifted(last_allocated: Option<usize>, removed: int) -> Option<usize> {
    match last_allocated {
        None => None,
        Some(j) => if j < removed { Some(j) } else { Some((j - 1) as usize) },
    }
}

/// Merging two adjacent free chunks keeps the tiling.
proof fn lemma_merge_pair_tiles(s: Seq<MemChunk>, start: nat, end: nat, k: int)
    requires
        tiles(s, start, end),
        0 <= k,
        k + 2 <= s.len(),
        end <= heap_address_limit(),
        start + heap_span_limit() >= end,
    ensures
        tiles(merge_pair(s, k), start, end),
        !chunk_used(merged_chunk(s, k, k + 2)),
        chunk_end(merged_chunk(s, k, k + 2)) == chunk_end(s[k + 1]),
        !chunk_used(s[k]) && !chunk_used(s[k + 1]) ==> {
            &&& s[k].size + s[k + 1].size + PER_HEAP_ALLOCATION_METADATA_SIZE <= MEMCHUNK_MAX_SIZE
            &&& merged_chunk(s, k, k + 2) == (MemChunk {
                addr: s[k].addr,
                size: (s[k].size + s[k + 1].size + PER_HEAP_ALLOCATION_METADATA_SIZE) as u64,
            })
        },
{
    lemma_tiles_ordered(s, start, end);
    assert(chunk_end(s[k]) == s[k + 1].addr);
    assert(chunk_end(s[k + 1]) <= end);
    let m = merged_chunk(s, k, k + 2);
    assert(tiles(seq![m], s[k].addr as nat, chunk_end(s[k + 1])));
    lemma_tiles_replace(s, start, end, k, k + 2, seq![m]);
}

impl HeapInfo {
    /// Merges chunk `i` with the chunk after it when that one is free.
    fn merge_next(&mut self, i: usize)
        requires
            old(self).wf(),
            old(self).setup_done,
            i < old(self).chunks@.len(),
            !chunk_used(old(self).chunks@[i as int]),
        ensures
            final(self).wf(),
            final(self).setup_done,
            final(self).head == old(self).head,
            final(self).size == old(self).size,
            final(self).backing_memory == old(self).backing_memory,
            final(self).memory_type == old(self).memory_type,
            i < final(self).chunks@.len(),
            !chunk_used(final(self).chunks@[i as int]),
            if i + 1 < old(self).chunks@.len() && !chunk_used(old(self).chunks@[i + 1]) {
                &&& final(self).chunks@ == merge_pair(old(self).chunks@, i as int)
                &&& final(self).last_allocated == shifted(old(self).last_allocated, i + 1)
            } else {
                &&& final(self).chunks@ == old(self).chunks@
                &&& final(self).last_allocated == old(self).last_allocated
            },
    {
        let ghost s0 = self.chunks@;
        let ghost lim = (self.head + self.size) as nat;
        let n = self.chunks.len();
        if i + 1 < n && (self.chunks[i + 1].size & MEMCHUNK_USED) == 0 {
            let c = self.chunks[i];
            let nx = self.chunks[i + 1];
            proof {
                lemma_used_bit(nx.size);
                lemma_used_bit(c.size);
                lemma_merge_pair_tiles(s0, self.head as nat, lim, i as int);
            }
            self.chunks.set(i, MemChunk { addr: c.addr, size: c.size + nx.size + PER_HEAP_ALLOCATION_METADATA_SIZE });
            self.chunks.remove(i + 1);
            self.last_allocated = shift_after_removal(self.last_allocated, i + 1);
            assert(self.chunks@ =~= merge_pair(s0, i as int));
        } else {
            proof {
                if i + 1 < s0.len() {
                    lemma_used_bit(s0[i + 1].size);
                }
            }
        }
    }

    /// Merges chunk `i` into the chunk in front of it when that one is free;
    /// the chunk in front is found by walking the list from the head.
    fn merge_prev(&mut self, i: usize)
        requires
            old(self).wf(),
            old(self).setup_done,
            i < old(self).chunks@.len(),
            !chunk_used(old(self).chunks@[i as int]),
        ensures
            final(self).wf(),
            final(self).setup_done,
            final(self).head == old(self).head,
            final(self).size == old(self).size,
            final(self).backing_memory == old(self).backing_memory,
            final(self).memory_type == old(self).memory_type,
            if i > 0 && !chunk_used(old(self).chunks@[i - 1]) {
                &&& final(self).chunks@ == merge_pair(old(self).chunks@, i - 1)
                &&& final(self).last_allocated == shifted(old(self).last_allocated, i as int)
            } else {
                &&& final(self).chunks@ == old(self).chunks@
                &&& final(self).last_allocated == old(self).last_allocated
            },
    {
        let ghost s0 = self.chunks@;
        let ghost lim = (self.head + self.size) as nat;
        let mut prev: Option<usize> = None;
        let mut curr: usize = 0;
        while curr < self.chunks.len() && curr != i
            invariant
                curr <= i,
                i < self.chunks.len(),
                prev == (if curr > 0 { Some((curr - 1) as usize) } else { None::<usize> }),
            decreases i - curr,
        {
            prev = Some(curr);
            curr = curr + 1;
        }
        match prev {
            Some(pi) => {
                proof {
                    lemma_used_bit(s0[pi as int].size);
                }
                if (self.chunks[pi].size & MEMCHUNK_USED) == 0 {
                    let pc = self.chunks[pi];
                    let c = self.chunks[i];
                    proof {
                        lemma_used_bit(c.size);
                        lemma_merge_pair_tiles(s0, self.head as nat, lim, pi as int);
                    }
                    self.chunks.set(pi, MemChunk { addr: pc.addr, size: pc.size + c.size + PER_HEAP_ALLOCATION_METADATA_SIZE });
                    self.chunks.remove(i);
                    self.last_allocated = shift_after_removal(self.last_allocated, i);
                    assert(self.chunks@ =~= merge_pair(s0, pi as int));
                }
            },
            None => {},
        }
    }
}

/// Clearing the allocated flag of a chunk keeps the tiling.
proof fn lemma_mark_free_tiles(s: Seq<MemChunk>, start: nat, end: nat, i: int)
    requires
        tiles(s, start, end),
        0 <= i < s.len(),
        chunk_used(s[i]),
    ensures
        tiles(s.update(i, MemChunk { addr: s[i].addr, size: chunk_size(s[i]) as u64 }), start, end),
{
    let f = MemChunk { addr: s[i].addr, size: chunk_size(s[i]) as u64 };
    let t = s.update(i, f);
    assert(chunk_end(f) == chunk_end(s[i]));
    assert forall|k: int| 0 <= k < t.len() - 1 implies #[trigger] chunk_end(t[k]) == t[k + 1].addr by {
        assert(chunk_end(s[k]) == s[k + 1].addr);
    }
}

/// Marking chunk `i` free, then merging it with a free successor, then with
/// a free predecessor, yields `free_result` and `resume_after_free`.
#[verifier::spinoff_prover]
#[verifier::rlimit(40)]
proof fn lemma_free_steps(
    base: nat,
    s0: Seq<MemChunk>,
    i: int,
    la0: Option<usize>,
    s1: Seq<MemChunk>,
    la1: Option<usize>,
    s2: Seq<MemChunk>,
    la2: Option<usize>,
    s3: Seq<MemChunk>,
    la3: Option<usize>,
)
    requires
        0 <= i < s0.len(),
        chunk_used(s0[i]),
        forall|k: int| 0 <= k < s0.len() - 1 ==> #[trigger] chunk_end(s0[k]) == s0[k + 1].addr,
        la0 matches Some(j) ==> j < s0.len() && chunk_used(s0[j as int]),
        s1 == s0.update(i, MemChunk { addr: s0[i].addr, size: chunk_size(s0[i]) as u64 }),
        la1 == (match la0 {
            Some(j) => if j as int == i { None::<usize> } else { la0 },
            None => None::<usize>,
        }),
        forall|k: int| 0 <= k < s0.len() ==> chunk_end(#[trigger] s0[k]) <= heap_address_limit(),
        forall|k: int| 0 <= k < s0.len() ==> base <= #[trigger] s0[k].addr && chunk_end(s0[k]) <= base + heap_span_limit(),
        i < s2.len(),
        if i + 1 < s1.len() && !chunk_used(s1[i + 1]) {
            s2 == merge_pair(s1, i) && la2 == shifted(la1, i + 1)
        } else {
            s2 == s1 && la2 == la1
        },
        if i > 0 && !chunk_used(s2[i - 1]) {
            s3 == merge_pair(s2, i - 1) && la3 == shifted(la2, i)
        } else {
            s3 == s2 && la3 == la2
        },
    ensures
        s3 == free_result(s0, i),
        la3 == resume_after_free(s0, i, la0),
{
    let (lo, hi) = free_window(s0, i);
    let m = merged_chunk(s0, lo, hi);
    let next_merged = i + 1 < s0.len() && !chunk_used(s0[i + 1]);
    let prev_merged = i > 0 && !chunk_used(s0[i - 1]);
    if i + 1 < s0.len() {
        assert(chunk_end(s0[i]) == s0[i + 1].addr);
        assert(s1[i + 1] == s0[i + 1]);
        assert(chunk_end(s0[i + 1]) <= heap_address_limit());
    }
    assert(chunk_end(s1[i]) == chunk_end(s0[i]));
    if next_merged {
        assert(s2 == merge_pair(s1, i));
        assert(s2[i] == merged_chunk(s1, i, i + 2));
        assert(payload_start(s1[i]) <= s0[i + 1].addr <= chunk_end(s1[i + 1]) <= 0xFFFF_FFFF_FFFF_FFFF);
        assert(base <= s0[i].addr && chunk_end(s0[i + 1]) <= base + heap_span_limit());
        assert(chunk_end(s2[i]) == chunk_end(s0[i + 1]));
        assert(s2 =~= s0.take(i) + seq![merged_chunk(s0, i, i + 2)] + s0.skip(i + 2));
    } else {
        assert(s2 == s1);
        assert(chunk_end(s2[i]) == chunk_end(s0[i]));
    }
    assert(chunk_end(s2[i]) == chunk_end(s0[hi - 1]));
    if i > 0 {
        assert(chunk_end(s0[i - 1]) == s0[i].addr);
        assert(s2[i - 1] == s0[i - 1]);
    }
    if prev_merged {
        assert(s3 == merge_pair(s2, i - 1));
        assert(merged_chunk(s2, i - 1, i + 1) == m);
        assert(s3 =~= s0.take(lo) + seq![m] + s0.skip(hi));
    } else {
        assert(s3 == s2);
        if next_merged {
            assert(s3 =~= s0.take(lo) + seq![m] + s0.skip(hi));
        } else {
            assert(m == s1[i]);
            assert(s3 =~= s0.take(lo) + seq![m] + s0.skip(hi));
        }
    }
    match la0 {
        None => {},
        Some(j) => {
            if j as int != i {
                if next_merged {
                    assert(j as int != i + 1);
                }
                if prev_merged {
                    assert(j as int != i - 1);
                }
            }
        },
    }
}

impl HeapInfo {
    /// Frees the block at `ptr` and merges its chunk with free neighbours.
    pub fn free_block(&mut self, ptr: u64)
        requires
            old(self).wf(),
            old(self).setup_done,
            is_allocated(old(self).chunks@, ptr as nat),
        ensures
            final(self).wf(),
            block_freed(*old(self), *final(self), ptr as nat),
    {
        let ghost s0 = self.chunks@;
        let ghost la0 = self.last_allocated;
        let chunk_addr: u64 = ptr - PER_HEAP_ALLOCATION_METADATA_SIZE;
        let i = self.find_chunk(chunk_addr, Ghost(ptr as nat));
        match self.last_allocated {
            Some(j) => {
                if j == i {
                    self.last_allocated = None;
                }
            },
            None => {},
        }
        let c = self.chunks[i];
        proof {
            lemma_used_bit(c.size);
        }
        self.chunks.set(i, MemChunk { addr: c.addr, size: c.size & !MEMCHUNK_USED });
        proof {
            lemma_mark_free_tiles(s0, self.head as nat, (self.head + self.size) as nat, i as int);
            lemma_tiles_ordered(s0, self.head as nat, (self.head + self.size) as nat);
            assert(self.chunks@ == s0.update(i as int, MemChunk { addr: s0[i as int].addr, size: chunk_size(s0[i as int]) as u64 }));
        }
        let ghost s1 = self.chunks@;
        let ghost la1 = self.last_allocated;
        self.merge_next(i);
        let ghost s2 = self.chunks@;
        let ghost la2 = self.last_allocated;
        self.merge_prev(i);
        proof {
            lemma_free_steps(self.head as nat, s0, i as int, la0, s1, la1, s2, la2, self.chunks@, self.last_allocated);
        }
    }
}

/// Payload size of the block that an allocation of `alloc_size` bytes
/// aligned to `align` receives in `heap` (0 when none fits).
pub open spec fn granted_size(heap: HeapInfo, alloc_size: nat, align: nat) -> nat {
    match first_fit(heap.chunks@, heap.search_order(), alloc_size, align) {
        Some(i) => {
            let c = heap.chunks@[i as int];
            carved_size(c, placement(c, alloc_size, align).unwrap(), alloc_size)
        },
        None => 0,
    }
}

/// Payload size of the allocated block at `p`.
pub open spec fn block_size_at(s: Seq<MemChunk>, p: nat) -> nat {
    chunk_size(s[chunk_index_of(s, p)])
}

/// The search order lists chunk indices only.
proof fn lemma_rotation_bounded(n: nat, start: nat)
    requires
        start < n || start == 0,
        n <= usize::MAX,
    ensures
        forall|k: int| 0 <= k < rotation(n, start).len() ==> #[trigger] rotation(n, start)[k] < n,
{
    let a = index_range(start as int, n as int);
    let b = index_range(0, start as int);
    let r = rotation(n, start);
    assert(a.len() == n - start);
    assert(b.len() == start);
    assert forall|k: int| 0 <= k < r.len() implies #[trigger] r[k] < n by {
        if k < a.len() {
            assert(r[k] == a[k]);
            assert(a[k] == (start + k) as usize);
        } else {
            assert(r[k] == b[k - a.len()]);
            assert(b[k - a.len()] == (k - a.len()) as usize);
        }
    }
}

/// What `first_fit` finds is in the order and can hold the block.
proof fn lemma_first_fit_found(s: Seq<MemChunk>, order: Seq<usize>, alloc_size: nat, align: nat, i: usize)
    requires
        first_fit(s, order, alloc_size, align) == Some(i),
    ensures
        placement(s[i as int], alloc_size, align) is Some,
        exists|k: int| 0 <= k < order.len() && order[k] == i,
    decreases order.len(),
{
    if placement(s[order[0] as int], alloc_size, align) is Some {
        assert(order[0] == i);
    } else {
        lemma_first_fit_found(s, order.drop_first(), alloc_size, align, i);
        let k = choose|k: int| 0 <= k < order.drop_first().len() && order.drop_first()[k] == i;
        assert(order[k + 1] == i);
    }
}

/// A lone free chunk holds no allocated block.
proof fn lemma_used_blocks_free_single(c: MemChunk)
    requires
        !chunk_used(c),
    ensures
        used_blocks(seq![c]) == Set::<(nat, nat)>::empty(),
{
    assert forall|x: (nat, nat)| !used_blocks(seq![c]).contains(x) by {
        if used_blocks(seq![c]).contains(x) {
            let k = choose|k: int| 0 <= k < 1 && #[trigger] chunk_used(seq![c][k]) && x == (payload_start(seq![c][k]), chunk_size(seq![c][k]));
            assert(seq![c][k] == c);
        }
    }
    assert(used_blocks(seq![c]) =~= Set::empty());
}

/// The chunks `lo..hi` freed together hold exactly the one block at `i`.
proof fn lemma_used_blocks_window(s: Seq<MemChunk>, i: int)
    requires
        0 <= i < s.len(),
        chunk_used(s[i]),
    ensures
        ({
            let (lo, hi) = free_window(s, i);
            used_blocks(s.subrange(lo, hi)) == set![(payload_start(s[i]), chunk_size(s[i]))]
        }),
{
    let (lo, hi) = free_window(s, i);
    let w = s.subrange(lo, hi);
    let b = (payload_start(s[i]), chunk_size(s[i]));
    assert forall|x: (nat, nat)| used_blocks(w).contains(x) <==> x == b by {
        if used_blocks(w).contains(x) {
            let k = choose|k: int| 0 <= k < w.len() && #[trigger] chunk_used(w[k]) && x == (payload_start(w[k]), chunk_size(w[k]));
            assert(w[k] == s[lo + k]);
            assert(lo + k == i);
        }
        if x == b {
            assert(w[i - lo] == s[i]);
            assert(chunk_used(w[i - lo]));
        }
    }
    assert(used_blocks(w) =~= set![b]);
}

/// A block at chunk `i` is not among the blocks of chunks wholly before
/// `lo` or wholly from `hi` on.
proof fn lemma_block_not_outside(s: Seq<MemChunk>, i: int, lo: int, hi: int)
    requires
        0 <= lo <= i < hi <= s.len(),
        forall|a: int, b: int| 0 <= a < b < s.len() ==> chunk_end(#[trigger] s[a]) <= #[trigger] s[b].addr,
    ensures
        !used_blocks(s.take(lo)).contains((payload_start(s[i]), chunk_size(s[i]))),
        !used_blocks(s.skip(hi)).contains((payload_start(s[i]), chunk_size(s[i]))),
{
    let b = (payload_start(s[i]), chunk_size(s[i]));
    if used_blocks(s.take(lo)).contains(b) {
        let k = choose|k: int| 0 <= k < s.take(lo).len() && #[trigger] chunk_used(s.take(lo)[k]) && b == (payload_start(s.take(lo)[k]), chunk_size(s.take(lo)[k]));
        assert(s.take(lo)[k] == s[k]);
        assert(chunk_end(s[k]) <= s[i].addr);
    }
    if used_blocks(s.skip(hi)).contains(b) {
        let k = choose|k: int| 0 <= k < s.skip(hi).len() && #[trigger] chunk_used(s.skip(hi)[k]) && b == (payload_start(s.skip(hi)[k]), chunk_size(s.skip(hi)[k]));
        assert(s.skip(hi)[k] == s[hi + k]);
        assert(chunk_end(s[i]) <= s[hi + k].addr);
    }
}

/// Allocation adds exactly one allocated block, aligned, at least as large
/// as asked and inside the heap, to the heap's allocated blocks; a failed
/// allocation leaves them as they were.
#[verifier::spinoff_prover]
#[verifier::rlimit(40)]
pub proof fn lemma_alloc_adds_block(old: HeapInfo, new: HeapInfo, alloc_size: nat, align: nat, r: u64)
    requires
        old.wf(),
        old.setup_done,
        align >= 1,
        alloc_size <= MEMCHUNK_USED,
        block_allocated(old, new, alloc_size, align, r),
    ensures
        r == 0 ==> used_blocks(new.chunks@) == used_blocks(old.chunks@),
        r != 0 ==> {
            &&& used_blocks(new.chunks@) == used_blocks(old.chunks@).insert((r as nat, granted_size(old, alloc_size, align)))
            &&& !used_blocks(old.chunks@).contains((r as nat, granted_size(old, alloc_size, align)))
            &&& granted_size(old, alloc_size, align) >= alloc_size
            &&& (r as nat) % align == 0
            &&& old.head + PER_HEAP_ALLOCATION_METADATA_SIZE <= r
            &&& r + granted_size(old, alloc_size, align) <= old.head + old.size
        },
{
    let s = old.chunks@;
    match first_fit(s, old.search_order(), alloc_size, align) {
        None => {},
        Some(i) => {
            assert(s.len() == old.chunks.len());
            lemma_rotation_bounded(s.len(), start_index(s.len(), old.last_allocated));
            lemma_first_fit_found(s, old.search_order(), alloc_size, align, i);
            let c = s[i as int];
            let p = placement(c, alloc_size, align).unwrap();
            lemma_tiles_ordered(s, old.head as nat, (old.head + old.size) as nat);
            lemma_carve(c, p, alloc_size, align);
            let parts = carve(c, p, alloc_size);
            lemma_used_blocks_concat(s.take(i as int) + parts, s.skip(i + 1));
            lemma_used_blocks_concat(s.take(i as int), parts);
            assert(s =~= s.take(i as int) + seq![c] + s.skip(i + 1));
            lemma_used_blocks_concat(s.take(i as int) + seq![c], s.skip(i + 1));
            lemma_used_blocks_concat(s.take(i as int), seq![c]);
            lemma_used_blocks_free_single(c);
            let sz = carved_size(c, p, alloc_size);
            assert(!used_blocks(s).contains((p, sz))) by {
                if used_blocks(s).contains((p, sz)) {
                    let k = choose|k: int| 0 <= k < s.len() && #[trigger] chunk_used(s[k]) && (p, sz) == (payload_start(s[k]), chunk_size(s[k]));
                    if k < i {
                        assert(chunk_end(s[k]) <= c.addr);
                    } else if k > i {
                        assert(chunk_end(c) <= s[k].addr);
                    }
                }
            }
            assert(used_blocks(new.chunks@) =~= used_blocks(s).insert((p, sz)));
        },
    }
}

/// Freeing the block at `ptr` removes exactly that block from the heap's
/// allocated blocks.
pub proof fn lemma_free_removes_block(old: HeapInfo, new: HeapInfo, ptr: nat)
    requires
        old.wf(),
        old.setup_done,
        is_allocated(old.chunks@, ptr),
        block_freed(old, new, ptr),
    ensures
        used_blocks(new.chunks@) == used_blocks(old.chunks@).remove((ptr, block_size_at(old.chunks@, ptr))),
{
    let s = old.chunks@;
    let i = chunk_index_of(s, ptr);
    let (lo, hi) = free_window(s, i);
    let m = merged_chunk(s, lo, hi);
    let b = (ptr, block_size_at(s, ptr));
    assert(chunk_end(s[hi - 1]) <= old.head + old.size && !chunk_used(m)) by {
        lemma_tiles_ordered(s, old.head as nat, (old.head + old.size) as nat);
    }
    let w = s.subrange(lo, hi);
    assert(s =~= s.take(lo) + w + s.skip(hi));
    lemma_used_blocks_concat(s.take(lo) + w, s.skip(hi));
    lemma_used_blocks_concat(s.take(lo), w);
    lemma_used_blocks_concat(s.take(lo) + seq![m], s.skip(hi));
    lemma_used_blocks_concat(s.take(lo), seq![m]);
    lemma_used_blocks_free_single(m);
    lemma_used_blocks_window(s, i);
    assert(!used_blocks(s.take(lo)).contains(b) && !used_blocks(s.skip(hi)).contains(b)) by {
        lemma_tiles_ordered(s, old.head as nat, (old.head + old.size) as nat);
        lemma_block_not_outside(s, i, lo, hi);
    }
    assert(used_blocks(new.chunks@) =~= used_blocks(s).remove(b));
}

/// No two neighbouring chunks of the list are both free.
pub open spec fn no_adjacent_free(s: Seq<MemChunk>) -> bool {
    forall|i: int, j: int|
        0 <= i && j == i + 1 && j < s.len() ==> chunk_used(#[trigger] s[i]) || chunk_used(#[trigger] s[j])
}

/// A freshly set-up heap, a single chunk, has no two neighbouring free
/// chunks.
pub proof fn lemma_single_chunk_no_adjacent_free(c: MemChunk)
    ensures
        no_adjacent_free(seq![c]),
{
}

/// Allocation keeps the heap free of neighbouring free chunks: the chunk
/// it carves up was free, so its neighbours were allocated, and every
/// piece it leaves free sits next to the new block or to those neighbours.
#[verifier::spinoff_prover]
#[verifier::rlimit(30)]
pub proof fn lemma_alloc_keeps_no_adjacent_free(old: HeapInfo, new: HeapInfo, alloc_size: nat, align: nat, r: u64)
    requires
        old.wf(),
        old.setup_done,
        align >= 1,
        alloc_size <= MEMCHUNK_USED,
        block_allocated(old, new, alloc_size, align, r),
        no_adjacent_free(old.chunks@),
    ensures
        no_adjacent_free(new.chunks@),
{
    let s = old.chunks@;
    match first_fit(s, old.search_order(), alloc_size, align) {
        None => {},
        Some(i) => {
            assert(s.len() == old.chunks.len());
            lemma_rotation_bounded(s.len(), start_index(s.len(), old.last_allocated));
            lemma_first_fit_found(s, old.search_order(), alloc_size, align, i);
            let k = choose|k: int| 0 <= k < old.search_order().len() && old.search_order()[k] == i;
            assert(i < s.len());
            let c = s[i as int];
            assert(!chunk_used(c));
            let p = placement(c, alloc_size, align).unwrap();
            lemma_tiles_ordered(s, old.head as nat, (old.head + old.size) as nat);
            lemma_carve(c, p, alloc_size, align);
            let parts = carve(c, p, alloc_size);
            let lead = carve_lead(c, p).len() as int;
            assert(parts.len() <= lead + 2);
            assert(chunk_used(parts[lead]));
            let t = new.chunks@;
            let ii = i as int;
            let m = parts.len() as int;
            assert(t == s.take(ii) + parts + s.skip(ii + 1));
            assert(t.len() == s.len() + m - 1);
            assert forall|x: int, y: int| 0 <= x && y == x + 1 && y < t.len() implies chunk_used(#[trigger] t[x]) || chunk_used(#[trigger] t[y]) by {
                if y < ii {
                    assert(t[x] == s[x] && t[y] == s[y]);
                    assert(chunk_used(s[x]) || chunk_used(s[y]));
                } else if y == ii {
                    assert(t[x] == s[x]);
                    assert(chunk_used(s[x]) || chunk_used(s[ii]));
                } else if y < ii + m {
                    assert(t[x] == parts[x - ii] && t[y] == parts[y - ii]);
                    assert(x - ii == lead || y - ii == lead);
                } else if y == ii + m {
                    assert(t[y] == s[ii + 1]);
                    assert(chunk_used(s[ii]) || chunk_used(s[ii + 1]));
                } else {
                    assert(t[x] == s[x - m + 1] && t[y] == s[y - m + 1]);
                    assert(chunk_used(s[x - m + 1]) || chunk_used(s[y - m + 1]));
                }
            }
        },
    }
}

/// Freeing keeps the heap free of neighbouring free chunks: the freed
/// block is merged with every free neighbour, and the chunks beyond those
/// were allocated.
#[verifier::spinoff_prover]
pub proof fn lemma_free_keeps_no_adjacent_free(old: HeapInfo, new: HeapInfo, ptr: nat)
    requires
        old.wf(),
        old.setup_done,
        is_allocated(old.chunks@, ptr),
        block_freed(old, new, ptr),
        no_adjacent_free(old.chunks@),
    ensures
        no_adjacent_free(new.chunks@),
{
    let s = old.chunks@;
    let i = chunk_index_of(s, ptr);
    assert(0 <= i < s.len() && chunk_used(s[i]));
    let (lo, hi) = free_window(s, i);
    let mc = merged_chunk(s, lo, hi);
    assert(chunk_end(s[hi - 1]) <= old.head + old.size && !chunk_used(mc)) by {
        lemma_tiles_ordered(s, old.head as nat, (old.head + old.size) as nat);
    }
    let t = new.chunks@;
    assert(t == s.take(lo) + seq![mc] + s.skip(hi));
    assert(t.len() == s.len() - (hi - lo) + 1);
    assert forall|x: int, y: int| 0 <= x && y == x + 1 && y < t.len() implies chunk_used(#[trigger] t[x]) || chunk_used(#[trigger] t[y]) by {
        if y < lo {
            assert(t[x] == s[x] && t[y] == s[y]);
            assert(chunk_used(s[x]) || chunk_used(s[y]));
        } else if y == lo {
            assert(t[x] == s[x]);
            if lo == i {
                assert(chunk_used(s[i - 1]));
            } else {
                assert(chunk_used(s[i - 2]) || chunk_used(s[i - 1]));
            }
        } else if x == lo {
            assert(t[y] == s[hi]);
            if hi == i + 1 {
                assert(chunk_used(s[i + 1]));
            } else {
                assert(chunk_used(s[i + 1]) || chunk_used(s[i + 2]));
            }
        } else {
            assert(t[x] == s[x + (hi - lo) - 1] && t[y] == s[y + (hi - lo) - 1]);
            assert(chunk_used(s[x + (hi - lo) - 1]) || chunk_used(s[y + (hi - lo) - 1]));
        }
    }
}

/// The allocated blocks of a heap lie inside it and never overlap.
pub proof fn lemma_blocks_disjoint(heap: HeapInfo)
    requires
        heap.wf(),
        heap.setup_done,
    ensures
        forall|b: (nat, nat)| #[trigger] used_blocks(heap.chunks@).contains(b) ==> heap.head + PER_HEAP_ALLOCATION_METADATA_SIZE <= b.0 && b.0 + b.1 <= heap.head + heap.size,
        forall|b1: (nat, nat), b2: (nat, nat)|
            #[trigger] used_blocks(heap.chunks@).contains(b1) && #[trigger] used_blocks(heap.chunks@).contains(b2) && b1 != b2
                ==> b1.0 + b1.1 <= b2.0 || b2.0 + b2.1 <= b1.0,
{
    let s = heap.chunks@;
    lemma_tiles_ordered(s, heap.head as nat, (heap.head + heap.size) as nat);
    assert forall|b: (nat, nat)| #[trigger] used_blocks(s).contains(b) implies heap.head + PER_HEAP_ALLOCATION_METADATA_SIZE <= b.0 && b.0 + b.1 <= heap.head + heap.size by {
        let k = choose|k: int| 0 <= k < s.len() && #[trigger] chunk_used(s[k]) && b == (payload_start(s[k]), chunk_size(s[k]));
        assert(heap.head <= s[k].addr);
    }
    assert forall|b1: (nat, nat), b2: (nat, nat)|
        #[trigger] used_blocks(s).contains(b1) && #[trigger] used_blocks(s).contains(b2) && b1 != b2
        implies b1.0 + b1.1 <= b2.0 || b2.0 + b2.1 <= b1.0 by {
        let k1 = choose|k: int| 0 <= k < s.len() && #[trigger] chunk_used(s[k]) && b1 == (payload_start(s[k]), chunk_size(s[k]));
        let k2 = choose|k: int| 0 <= k < s.len() && #[trigger] chunk_used(s[k]) && b2 == (payload_start(s[k]), chunk_size(s[k]));
        if k1 < k2 {
            assert(chunk_end(s[k1]) <= s[k2].addr);
        } else if k2 < k1 {
            assert(chunk_end(s[k2]) <= s[k1].addr);
        }
    }
}

/// Name of a backing-memory kind.
pub fn backing_memory_to_string(mem: u8) -> (r: &'static str)
    ensures
        mem == BACKING_MEMORY_DDR ==> r@ == "DDR"@,
        mem != BACKING_MEMORY_DDR ==> r@ == "UNKNOWN"@,
{
    match mem {
        BACKING_MEMORY_DDR => "DDR",
        _ => "UNKNOWN",
    }
}

/// Name of a memory type.
pub fn memory_type_to_string(mem: u8) -> (r: &'static str)
    ensures
        mem == MEMORY_TYPE_WB ==> r@ == "WB"@,
        mem == MEMORY_TYPE_WC ==> r@ == "WC"@,
        mem == MEMORY_TYPE_UC ==> r@ == "UC"@,
        mem != MEMORY_TYPE_WB && mem != MEMORY_TYPE_WC && mem != MEMORY_TYPE_UC ==> r@ == "UNKNOWN"@,
{
    match mem {
        MEMORY_TYPE_WB => "WB",
        MEMORY_TYPE_WC => "WC",
        MEMORY_TYPE_UC => "UC",
        _ => "UNKNOWN",
    }
}

/// A requested size rounded up to a multiple of `MIN_HEAP_ALLOCATION_SIZE`.
pub open spec fn request_size(size: nat) -> nat {
    ((size + 7) / 8) * 8
}

/// Largest value of the signed pointer-sized integer type.
pub open spec fn isize_max() -> nat {
    0x7fff_ffff_ffff_ffff
}

/// A size fits a memory layout with the power-of-two alignment `align`:
/// rounded up to a multiple of `align` it does not exceed `isize_max`.
pub open spec fn layout_fits(size: nat, align: nat) -> bool {
    size + (align - 1) <= isize_max()
}

/// `new` is `old` after `alloc_from_memory(size, align, backing_memory,
/// memory_type)` returned `r`.
pub open spec fn alloc_outcome(old: Seq<HeapInfo>, new: Seq<HeapInfo>, size: u64, align: u64, backing_memory: u8, memory_type: u8, r: u64) -> bool {
    match heap_for(backing_memory, memory_type) {
        Some(h) if size != 0 && size <= MEMCHUNK_MAX_SIZE && old[h].setup_done => {
            &&& new == old.update(h, new[h])
            &&& block_allocated(old[h], new[h], request_size(size as nat), align as nat, r)
        },
        _ => r == 0 && new == old,
    }
}

/// The heap index that serves a backing-memory kind and memory type.
pub open spec fn heap_for(backing_memory: u8, memory_type: u8) -> Option<int> {
    if backing_memory != BACKING_MEMORY_DDR {
        None
    } else if memory_type == MEMORY_TYPE_WB {
        Some(0)
    } else if memory_type == MEMORY_TYPE_WC {
        Some(1)
    } else if memory_type == MEMORY_TYPE_UC {
        Some(2)
    } else {
        None
    }
}

/// `x & (x - 1) == 0` for non-zero `x` is the power-of-two test.
proof fn lemma_power_of_two_bits(x: u64)
    ensures
        (x != 0 && x & ((x - 1) as u64) == 0) <==> power_of_two(x),
{
    if x != 0 && x & ((x - 1) as u64) == 0 {
        axiom_u64_trailing_zeros(x);
        let t: u64 = u64_trailing_zeros(x) as u64;
        let m: u64 = (x - 1) as u64;
        assert(x == 1u64 << t) by (bit_vector)
            requires
                x != 0,
                m == (x - 1) as u64,
                x & m == 0,
                t < 64,
                (x >> t) & 1 == 1,
        ;
        lemma_u64_pow2_no_overflow(t as nat);
        lemma_u64_shl_is_mul(1, t);
        assert(pow2(t as nat) == x);
    }
    if power_of_two(x) {
        let k = choose|k: nat| k < 64 && pow2(k) == x;
        lemma_trailing_zeros_of_pow2(x, k);
        let kk = k as u64;
        let m: u64 = (x - 1) as u64;
        assert(x != 0 && x & m == 0) by (bit_vector)
            requires
                kk < 64,
                x == 1u64 << kk,
                m == (x - 1) as u64,
        ;
    }
}

impl HeapInfo {
    /// Whether `ptr` is the address of an allocated block of this heap.
    pub fn owns_block(&self, ptr: u64) -> (r: bool)
        requires
            self.wf(),
        ensures
            r == (self.setup_done && is_allocated(self.chunks@, ptr as nat)),
    {
        if !self.setup_done {
            return false;
        }
        let mut k: usize = 0;
        while k < self.chunks.len()
            invariant
                self.setup_done,
                k <= self.chunks@.len(),
                forall|j: int| 0 <= j < k ==> !(chunk_used(self.chunks@[j]) && #[trigger] payload_start(self.chunks@[j]) == ptr),
            decreases self.chunks@.len() - k,
        {
            let c = self.chunks[k];
            proof {
                lemma_used_bit(c.size);
            }
            if (c.size & MEMCHUNK_USED) != 0 && c.addr as u128 + PER_HEAP_ALLOCATION_METADATA_SIZE as u128 == ptr as u128 {
                assert(chunk_used(self.chunks@[k as int]) && payload_start(self.chunks@[k as int]) == ptr);
                assert(is_allocated(self.chunks@, ptr as nat));
                return true;
            }
            k = k + 1;
        }
        false
    }
}

impl HeapInfo {
    /// Sets the heap up over `heap_start..heap_end` as one free chunk; a heap
    /// that is already set up at `heap_start` is left as it is.
    pub fn setup(&mut self, heap_start: u64, heap_end: u64)
        requires
            old(self).wf(),
            old(self).setup_done ==> old(self).head == heap_start,
            !old(self).setup_done ==> {
                &&& 0 < heap_start
                &&& heap_start + PER_HEAP_ALLOCATION_METADATA_SIZE <= heap_end
                &&& heap_end - heap_start <= heap_span_limit()
            },
        ensures
            final(self).wf(),
            final(self).setup_done,
            final(self).backing_memory == old(self).backing_memory,
            final(self).memory_type == old(self).memory_type,
            old(self).setup_done ==> *final(self) == *old(self),
            !old(self).setup_done ==> {
                &&& final(self).head == heap_start
                &&& final(self).size == heap_end - heap_start
                &&& final(self).chunks@ == seq![MemChunk { addr: heap_start, size: (heap_end - heap_start - PER_HEAP_ALLOCATION_METADATA_SIZE) as u64 }]
                &&& final(self).last_allocated is None
            },
    {
        if self.setup_done {
            return;
        }
        self.head = heap_start;
        self.last_allocated = None;
        let mut chunks: Vec<MemChunk> = Vec::new();
        chunks.push(MemChunk { addr: heap_start, size: heap_end - heap_start - PER_HEAP_ALLOCATION_METADATA_SIZE });
        self.chunks = chunks;
        self.size = heap_end - heap_start;
        self.setup_done = true;
    }
}

/// The three heaps, one per memory type, all backed by DDR.
pub struct JumpStartHeaps {
    heaps: Vec<HeapInfo>,
}

impl View for JumpStartHeaps {
    type V = Seq<HeapInfo>;

    closed spec fn view(&self) -> Seq<HeapInfo> {
        self.heaps@
    }
}

/// The heaps are consistent and serve write-back, write-combining and
/// uncached DDR in that order.
pub open spec fn heaps_wf(v: Seq<HeapInfo>) -> bool {
    &&& v.len() == NUM_HEAPS_SUPPORTED
    &&& forall|k: int| 0 <= k < v.len() ==> (#[trigger] v[k]).wf()
    &&& forall|k: int| 0 <= k < v.len() ==> (#[trigger] v[k]).backing_memory == BACKING_MEMORY_DDR
    &&& v[0].memory_type == MEMORY_TYPE_WB
    &&& v[1].memory_type == MEMORY_TYPE_WC
    &&& v[2].memory_type == MEMORY_TYPE_UC
}

/// A heap of the given memory type that is not set up yet.
fn empty_heap(memory_type: u8) -> (r: HeapInfo)
    ensures
        r.wf(),
        !r.setup_done,
        r.backing_memory == BACKING_MEMORY_DDR,
        r.memory_type == memory_type,
        r.head == 0,
        r.size == 0,
{
    HeapInfo {
        backing_memory: BACKING_MEMORY_DDR,
        memory_type,
        head: 0,
        chunks: Vec::new(),
        last_allocated: None,
        size: 0,
        setup_done: false,
    }
}

impl JumpStartHeaps {
    /// The three heaps, none of them set up: no start address, no size.
    pub fn new() -> (r: Self)
        ensures
            heaps_wf(r@),
            forall|k: int| 0 <= k < r@.len() ==> !(#[trigger] r@[k]).setup_done,
            forall|k: int| 0 <= k < r@.len() ==> (#[trigger] r@[k]).head == 0 && r@[k].size == 0,
    {
        let mut heaps: Vec<HeapInfo> = Vec::new();
        heaps.push(empty_heap(MEMORY_TYPE_WB));
        heaps.push(empty_heap(MEMORY_TYPE_WC));
        heaps.push(empty_heap(MEMORY_TYPE_UC));
        JumpStartHeaps { heaps }
    }

    /// Index of the heap that serves the given kinds, found the way the
    /// heaps are searched: the first whose kinds match.
    fn find_heap(&self, backing_memory: u8, memory_type: u8) -> (r: Option<usize>)
        requires
            heaps_wf(self@),
        ensures
            r == (match heap_for(backing_memory, memory_type) {
                Some(h) => Some(h as usize),
                None => None::<usize>,
            }),
    {
        let mut k: usize = 0;
        while k < self.heaps.len()
            invariant
                heaps_wf(self@),
                k <= self.heaps@.len(),
                forall|j: int| 0 <= j < k ==> !(self@[j].backing_memory == backing_memory && self@[j].memory_type == memory_type),
            decreases self.heaps@.len() - k,
        {
            if self.heaps[k].backing_memory == backing_memory && self.heaps[k].memory_type == memory_type {
                return Some(k);
            }
            k = k + 1;
        }
        None
    }

    /// Sets up the heap serving the given kinds over `heap_start..heap_end`.
    /// A heap already set up at the same start is left alone; kinds that no
    /// heap serves change nothing.
    pub fn setup_heap(&mut self, heap_start: u64, heap_end: u64, backing_memory: u8, memory_type: u8)
        requires
            heaps_wf(old(self)@),
            heap_for(backing_memory, memory_type) matches Some(h) ==> {
                let heap = old(self)@[h];
                &&& heap.setup_done ==> heap.head == heap_start
                &&& !heap.setup_done ==> {
                    &&& 0 < heap_start
                    &&& heap_start + PER_HEAP_ALLOCATION_METADATA_SIZE <= heap_end
                    &&& heap_end - heap_start <= heap_span_limit()
                }
            },
        ensures
            heaps_wf(final(self)@),
            match heap_for(backing_memory, memory_type) {
                None => final(self)@ == old(self)@,
                Some(h) => {
                    let old_heap = old(self)@[h];
                    let heap = final(self)@[h];
                    &&& final(self)@ == old(self)@.update(h, heap)
                    &&& heap.setup_done
                    &&& old_heap.setup_done ==> heap == old_heap
                    &&& !old_heap.setup_done ==> {
                        &&& heap.head == heap_start
                        &&& heap.size == heap_end - heap_start
                        &&& heap.chunks@ == seq![MemChunk { addr: heap_start, size: (heap_end - heap_start - PER_HEAP_ALLOCATION_METADATA_SIZE) as u64 }]
                        &&& heap.last_allocated is None
                    }
                },
            },
    {
        match self.find_heap(backing_memory, memory_type) {
            None => {},
            Some(h) => {
                self.heaps[h].setup(heap_start, heap_end);
                proof {
                    assert forall|k: int| 0 <= k < self@.len() implies (#[trigger] self@[k]).wf() by {
                        if k != h {
                            assert(self@[k] == old(self)@[k]);
                        }
                    }
                }
            },
        }
    }

    /// Allocates `size` bytes aligned to `alignment` from the heap serving
    /// the given kinds; returns the block's address, or 0 when the size is
    /// zero or too large, no heap serves the kinds, that heap is not set up,
    /// or no chunk can hold the block.
    pub fn alloc_from_memory(&mut self, size: u64, alignment: u64, backing_memory: u8, memory_type: u8) -> (r: u64)
        requires
            heaps_wf(old(self)@),
            power_of_two(alignment),
        ensures
            heaps_wf(final(self)@),
            alloc_outcome(old(self)@, final(self)@, size, alignment, backing_memory, memory_type, r),
    {
        if size == 0 || size > MEMCHUNK_MAX_SIZE {
            return 0;
        }
        let alloc_size: u64 = (size + (MIN_HEAP_ALLOCATION_SIZE - 1)) & !(MIN_HEAP_ALLOCATION_SIZE - 1);
        assert(alloc_size == ((size + 7) / 8) * 8 && alloc_size <= MEMCHUNK_USED) by (bit_vector)
            requires
                1 <= size <= 0x7fff_ffff_ffff_ffffu64,
                alloc_size == (((size + 7) as u64) & !7u64),
        ;
        match self.find_heap(backing_memory, memory_type) {
            None => 0,
            Some(h) => {
                if !self.heaps[h].setup_done {
                    return 0;
                }
                let r = self.heaps[h].alloc_block(alloc_size, alignment);
                proof {
                    assert forall|k: int| 0 <= k < self@.len() implies (#[trigger] self@[k]).wf() by {
                        if k != h {
                            assert(self@[k] == old(self)@[k]);
                        }
                    }
                }
                r
            },
        }
    }

    /// Frees the block at `ptr` in the heap serving the given kinds. A null
    /// pointer, or kinds that no heap serves, change nothing.
    pub fn dealloc_from_memory(&mut self, ptr: u64, backing_memory: u8, memory_type: u8)
        requires
            heaps_wf(old(self)@),
            ptr != 0 ==> (heap_for(backing_memory, memory_type) matches Some(h) ==> {
                &&& old(self)@[h].setup_done
                &&& is_allocated(old(self)@[h].chunks@, ptr as nat)
            }),
        ensures
            heaps_wf(final(self)@),
            match heap_for(backing_memory, memory_type) {
                Some(h) if ptr != 0 => {
                    &&& final(self)@ == old(self)@.update(h, final(self)@[h])
                    &&& block_freed(old(self)@[h], final(self)@[h], ptr as nat)
                },
                _ => final(self)@ == old(self)@,
            },
    {
        if ptr == 0 {
            return;
        }
        match self.find_heap(backing_memory, memory_type) {
            None => {},
            Some(h) => {
                self.heaps[h].free_block(ptr);
                proof {
                    assert forall|k: int| 0 <= k < self@.len() implies (#[trigger] self@[k]).wf() by {
                        if k != h {
                            assert(self@[k] == old(self)@[k]);
                        }
                    }
                }
            },
        }
    }

    /// Allocates `size` bytes aligned to `MIN_HEAP_ALLOCATION_SIZE` from the
    /// heap serving the given kinds; 0 when that layout is invalid.
    pub fn malloc_from_memory(&mut self, size: u64, backing_memory: u8, memory_type: u8) -> (r: u64)
        requires
            heaps_wf(old(self)@),
        ensures
            heaps_wf(final(self)@),
            layout_fits(size as nat, MIN_HEAP_ALLOCATION_SIZE as nat) ==> alloc_outcome(old(self)@, final(self)@, size, MIN_HEAP_ALLOCATION_SIZE, backing_memory, memory_type, r),
            !layout_fits(size as nat, MIN_HEAP_ALLOCATION_SIZE as nat) ==> r == 0 && final(self)@ == old(self)@,
    {
        if size <= 0x7fff_ffff_ffff_ffff - (MIN_HEAP_ALLOCATION_SIZE - 1) {
            proof {
                vstd::arithmetic::power2::lemma2_to64();
            }
            self.alloc_from_memory(size, MIN_HEAP_ALLOCATION_SIZE, backing_memory, memory_type)
        } else {
            0
        }
    }

    /// `malloc_from_memory` on the write-back heap.
    pub fn malloc(&mut self, size: u64) -> (r: u64)
        requires
            heaps_wf(old(self)@),
        ensures
            heaps_wf(final(self)@),
            layout_fits(size as nat, MIN_HEAP_ALLOCATION_SIZE as nat) ==> alloc_outcome(old(self)@, final(self)@, size, MIN_HEAP_ALLOCATION_SIZE, BACKING_MEMORY_DDR, MEMORY_TYPE_WB, r),
            !layout_fits(size as nat, MIN_HEAP_ALLOCATION_SIZE as nat) ==> r == 0 && final(self)@ == old(self)@,
    {
        self.malloc_from_memory(size, BACKING_MEMORY_DDR, MEMORY_TYPE_WB)
    }

    /// Allocates room for `nmemb` elements of `size` bytes (the product
    /// saturating at the largest value) from the heap serving the given
    /// kinds. The caller clears the block it gets.
    pub fn calloc_from_memory(&mut self, nmemb: u64, size: u64, backing_memory: u8, memory_type: u8) -> (r: u64)
        requires
            heaps_wf(old(self)@),
        ensures
            heaps_wf(final(self)@),
            ({
                let total = if nmemb * size > u64::MAX { u64::MAX } else { (nmemb * size) as u64 };
                &&& layout_fits(total as nat, MIN_HEAP_ALLOCATION_SIZE as nat) ==> alloc_outcome(old(self)@, final(self)@, total, MIN_HEAP_ALLOCATION_SIZE, backing_memory, memory_type, r)
                &&& !layout_fits(total as nat, MIN_HEAP_ALLOCATION_SIZE as nat) ==> r == 0 && final(self)@ == old(self)@
            }),
    {
        let total: u64 = match nmemb.checked_mul(size) {
            Some(t) => t,
            None => u64::MAX,
        };
        self.malloc_from_memory(total, backing_memory, memory_type)
    }

    /// `calloc_from_memory` on the write-back heap.
    pub fn calloc(&mut self, nmemb: u64, size: u64) -> (r: u64)
        requires
            heaps_wf(old(self)@),
        ensures
            heaps_wf(final(self)@),
            ({
                let total = if nmemb * size > u64::MAX { u64::MAX } else { (nmemb * size) as u64 };
                &&& layout_fits(total as nat, MIN_HEAP_ALLOCATION_SIZE as nat) ==> alloc_outcome(old(self)@, final(self)@, total, MIN_HEAP_ALLOCATION_SIZE, BACKING_MEMORY_DDR, MEMORY_TYPE_WB, r)
                &&& !layout_fits(total as nat, MIN_HEAP_ALLOCATION_SIZE as nat) ==> r == 0 && final(self)@ == old(self)@
            }),
    {
        self.calloc_from_memory(nmemb, size, BACKING_MEMORY_DDR, MEMORY_TYPE_WB)
    }

    /// Allocates `size` bytes aligned to `alignment` from the heap serving
    /// the given kinds; 0 when `alignment` is not a power of two or the
    /// layout is invalid.
    pub fn memalign_from_memory(&mut self, alignment: u64, size: u64, backing_memory: u8, memory_type: u8) -> (r: u64)
        requires
            heaps_wf(old(self)@),
        ensures
            heaps_wf(final(self)@),
            power_of_two(alignment) && layout_fits(size as nat, alignment as nat) ==> alloc_outcome(old(self)@, final(self)@, size, alignment, backing_memory, memory_type, r),
            !(power_of_two(alignment) && layout_fits(size as nat, alignment as nat)) ==> r == 0 && final(self)@ == old(self)@,
    {
        proof {
            lemma_power_of_two_bits(alignment);
        }
        if !(alignment != 0 && alignment & (alignment - 1) == 0) {
            return 0;
        }
        assert(alignment <= 0x8000_0000_0000_0000) by (bit_vector)
            requires
                alignment != 0,
                alignment & ((alignment - 1) as u64) == 0,
        ;
        if size <= 0x7fff_ffff_ffff_ffff - (alignment - 1) {
            self.alloc_from_memory(size, alignment, backing_memory, memory_type)
        } else {
            0
        }
    }

    /// `memalign_from_memory` on the write-back heap.
    pub fn memalign(&mut self, alignment: u64, size: u64) -> (r: u64)
        requires
            heaps_wf(old(self)@),
        ensures
            heaps_wf(final(self)@),
            power_of_two(alignment) && layout_fits(size as nat, alignment as nat) ==> alloc_outcome(old(self)@, final(self)@, size, alignment, BACKING_MEMORY_DDR, MEMORY_TYPE_WB, r),
            !(power_of_two(alignment) && layout_fits(size as nat, alignment as nat)) ==> r == 0 && final(self)@ == old(self)@,
    {
        self.memalign_from_memory(alignment, size, BACKING_MEMORY_DDR, MEMORY_TYPE_WB)
    }

    /// Frees a block of the heap serving the given kinds.
    pub fn free_from_memory(&mut self, ptr: u64, backing_memory: u8, memory_type: u8)
        requires
            heaps_wf(old(self)@),
            ptr != 0 ==> (heap_for(backing_memory, memory_type) matches Some(h) ==> {
                &&& old(self)@[h].setup_done
                &&& is_allocated(old(self)@[h].chunks@, ptr as nat)
            }),
        ensures
            heaps_wf(final(self)@),
            match heap_for(backing_memory, memory_type) {
                Some(h) if ptr != 0 => {
                    &&& final(self)@ == old(self)@.update(h, final(self)@[h])
                    &&& block_freed(old(self)@[h], final(self)@[h], ptr as nat)
                },
                _ => final(self)@ == old(self)@,
            },
    {
        self.dealloc_from_memory(ptr, backing_memory, memory_type)
    }

    /// Frees a block of the write-back heap; a null pointer is ignored.
    pub fn free(&mut self, ptr: u64)
        requires
            heaps_wf(old(self)@),
            ptr != 0 ==> old(self)@[0].setup_done && is_allocated(old(self)@[0].chunks@, ptr as nat),
        ensures
            heaps_wf(final(self)@),
            ptr == 0 ==> final(self)@ == old(self)@,
            ptr != 0 ==> {
                &&& final(self)@ == old(self)@.update(0, final(self)@[0])
                &&& block_freed(old(self)@[0], final(self)@[0], ptr as nat)
            },
    {
        if ptr == 0 {
            return;
        }
        self.dealloc_from_memory(ptr, BACKING_MEMORY_DDR, MEMORY_TYPE_WB)
    }

    /// Whether the heap serving the given kinds is set up, and where it
    /// starts; `None` when no heap serves them.
    pub fn heap_state(&self, backing_memory: u8, memory_type: u8) -> (r: Option<(bool, u64)>)
        requires
            heaps_wf(self@),
        ensures
            r == (match heap_for(backing_memory, memory_type) {
                Some(h) => Some((self@[h].setup_done, self@[h].head)),
                None => None::<(bool, u64)>,
            }),
    {
        match self.find_heap(backing_memory, memory_type) {
            None => None,
            Some(h) => Some((self.heaps[h].setup_done, self.heaps[h].head)),
        }
    }

    /// Whether `ptr` is an allocated block of the heap serving the given
    /// kinds (the condition under which freeing it is valid).
    pub fn owns_block(&self, ptr: u64, backing_memory: u8, memory_type: u8) -> (r: bool)
        requires
            heaps_wf(self@),
        ensures
            r == (heap_for(backing_memory, memory_type) matches Some(h) && self@[h].setup_done && is_allocated(self@[h].chunks@, ptr as nat)),
    {
        match self.find_heap(backing_memory, memory_type) {
            None => false,
            Some(h) => self.heaps[h].owns_block(ptr),
        }
    }

}

/// Allocating a block and then freeing it gives back the allocated blocks
/// the heap had before.
pub proof fn lemma_free_undoes_alloc(h0: HeapInfo, h1: HeapInfo, h2: HeapInfo, alloc_size: nat, align: nat, r: u64)
    requires
        h0.wf(),
        h0.setup_done,
        align >= 1,
        alloc_size <= MEMCHUNK_USED,
        block_allocated(h0, h1, alloc_size, align, r),
        h1.wf(),
        r != 0,
        block_freed(h1, h2, r as nat),
    ensures
        is_allocated(h1.chunks@, r as nat),
        used_blocks(h2.chunks@) == used_blocks(h0.chunks@),
{
    lemma_alloc_adds_block(h0, h1, alloc_size, align, r);
    let b = (r as nat, granted_size(h0, alloc_size, align));
    assert(used_blocks(h1.chunks@).contains(b));
    let k = choose|k: int| 0 <= k < h1.chunks@.len() && #[trigger] chunk_used(h1.chunks@[k]) && b == (payload_start(h1.chunks@[k]), chunk_size(h1.chunks@[k]));
    assert(payload_start(h1.chunks@[k]) == r);
    assert(is_allocated(h1.chunks@, r as nat));
    lemma_free_removes_block(h1, h2, r as nat);
    let i = chunk_index_of(h1.chunks@, r as nat);
    lemma_tiles_ordered(h1.chunks@, h1.head as nat, (h1.head + h1.size) as nat);
    if i != k {
        if i < k {
            assert(chunk_end(h1.chunks@[i]) <= h1.chunks@[k].addr);
        } else {
            assert(chunk_end(h1.chunks@[k]) <= h1.chunks@[i].addr);
        }
    }
    assert(block_size_at(h1.chunks@, r as nat) == b.1);
    assert(used_blocks(h2.chunks@) =~= used_blocks(h0.chunks@));
}

/// Sets the first `n` bytes of `s` to the low byte of `c`.
pub fn memset(s: &mut Vec<u8>, c: i32, n: usize)
    requires
        n <= old(s)@.len(),
    ensures
        final(s)@.len() == old(s)@.len(),
        forall|k: int| 0 <= k < n ==> #[trigger] final(s)@[k] == c as u8,
        forall|k: int| n <= k < old(s)@.len() ==> #[trigger] final(s)@[k] == old(s)@[k],
{
    let byte: u8 = c as u8;
    let mut i: usize = 0;
    while i < n
        invariant
            i <= n,
            n <= s@.len(),
            s@.len() == old(s)@.len(),
            byte == c as u8,
            forall|k: int| 0 <= k < i ==> #[trigger] s@[k] == byte,
            forall|k: int| n <= k < old(s)@.len() ==> #[trigger] s@[k] == old(s)@[k],
        decreases n - i,
    {
        s.set(i, byte);
        i = i + 1;
    }
}

/// Copies the first `n` bytes of `src` over the first `n` bytes of `dest`.
pub fn memcpy(dest: &mut Vec<u8>, src: &[u8], n: usize)
    requires
        n <= old(dest)@.len(),
        n <= src@.len(),
    ensures
        final(dest)@.len() == old(dest)@.len(),
        forall|k: int| 0 <= k < n ==> #[trigger] final(dest)@[k] == src@[k],
        forall|k: int| n <= k < old(dest)@.len() ==> #[trigger] final(dest)@[k] == old(dest)@[k],
{
    let mut i: usize = 0;
    while i < n
        invariant
            i <= n,
            n <= dest@.len(),
            n <= src@.len(),
            dest@.len() == old(dest)@.len(),
            forall|k: int| 0 <= k < i ==> #[trigger] dest@[k] == src@[k],
            forall|k: int| n <= k < old(dest)@.len() ==> #[trigger] dest@[k] == old(dest)@[k],
        decreases n - i,
    {
        dest.set(i, src[i]);
        i = i + 1;
    }
}

} // verus!
