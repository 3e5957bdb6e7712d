//! A header-based, first-fit heap allocator over one fixed range of memory.
//!
//! The heap is held as a byte buffer: address `heap_start + k` is byte `k`.
//! A block is a header followed by its payload. Free blocks are kept in an
//! address-ordered free list of (address, size) entries. An allocated block
//! is tracked by nothing but its header, whose eight bytes hold the block's
//! total size (header included), little-endian; it is found again through the
//! payload address handed to the caller, which lies `HEADER_SIZE` bytes after
//! the block's start. A payload is placed on the requested alignment (at
//! least `MIN_ALIGN`) whatever the heap's start; the bytes that this skips in
//! front of the header stay free as a block of their own.
//!
//! `HeapModel` is the allocator's state as mathematics. Each operation's
//! contract states the model after the call as a function of the model before
//! it, and keeps `HeapModel::inv`: blocks inside the heap and apart from each
//! other, every heap byte in exactly one of them, the free list strictly
//! address-ordered with no two free blocks touching.

use vstd::prelude::*;

verus! {

/// Bytes in front of every payload.
pub const HEADER_SIZE: usize = 8;

/// Every request is aligned to at least this many bytes.
pub const MIN_ALIGN: usize = 4;

/// A remainder smaller than this is never split off as a free block.
pub const MIN_BLOCK_SIZE: usize = HEADER_SIZE + MIN_ALIGN;

/// One entry of the free list: a free block at `addr` spanning `size` bytes.
#[derive(Clone, Copy, Debug, PartialEq, Eq)]
pub struct FreeBlock {
    pub addr: usize,
    pub size: usize,
}

impl FreeBlock {
    pub open spec fn end(self) -> int {
        self.addr + self.size
    }
}

/// `n` is a power of two that a `usize` can hold: 1, 2, 4, ..., 2^63.
pub open spec fn is_power_of_two(n: int) -> bool {
    n == 0x1 || n == 0x2 || n == 0x4 || n == 0x8
        || n == 0x10 || n == 0x20 || n == 0x40 || n == 0x80
        || n == 0x100 || n == 0x200 || n == 0x400 || n == 0x800
        || n == 0x1000 || n == 0x2000 || n == 0x4000 || n == 0x8000
        || n == 0x10000 || n == 0x20000 || n == 0x40000 || n == 0x80000
        || n == 0x100000 || n == 0x200000 || n == 0x400000 || n == 0x800000
        || n == 0x1000000 || n == 0x2000000 || n == 0x4000000 || n == 0x8000000
        || n == 0x10000000 || n == 0x20000000 || n == 0x40000000 || n == 0x80000000
        || n == 0x100000000 || n == 0x200000000 || n == 0x400000000 || n == 0x800000000
        || n == 0x1000000000 || n == 0x2000000000 || n == 0x4000000000 || n == 0x8000000000
        || n == 0x10000000000 || n == 0x20000000000 || n == 0x40000000000 || n == 0x80000000000
        || n == 0x100000000000 || n == 0x200000000000 || n == 0x400000000000 || n == 0x800000000000
        || n == 0x1000000000000 || n == 0x2000000000000 || n == 0x4000000000000 || n == 0x8000000000000
        || n == 0x10000000000000 || n == 0x20000000000000 || n == 0x40000000000000 || n == 0x80000000000000
        || n == 0x100000000000000 || n == 0x200000000000000 || n == 0x400000000000000 || n == 0x800000000000000
        || n == 0x1000000000000000 || n == 0x2000000000000000 || n == 0x4000000000000000 || n == 0x8000000000000000
}

/// The smallest multiple of `align` that is at least `x`.
pub open spec fn round_up(x: int, align: int) -> int {
    if x % align == 0 {
        x
    } else {
        x + (align - x % align)
    }
}

/// The alignment actually used for a request.
pub open spec fn effective_align(align: int) -> int {
    if align > MIN_ALIGN {
        align
    } else {
        MIN_ALIGN as int
    }
}

/// Where the payload of a request aligned to `a` lands in free block `b`:
/// the first address that is a multiple of `a` and leaves room for the
/// header in front of it, such that the bytes of `b` before the header are
/// either none or enough to stand as a free block of their own.
pub open spec fn place(b: FreeBlock, a: int) -> int {
    let d = round_up(b.addr + HEADER_SIZE, a);
    if d - HEADER_SIZE == b.addr || d - HEADER_SIZE - b.addr >= MIN_BLOCK_SIZE {
        d
    } else {
        round_up(b.addr + HEADER_SIZE + MIN_BLOCK_SIZE, a)
    }
}

/// A request of `size` bytes aligned to `align` fits in free block `b`.
pub open spec fn fits(b: FreeBlock, size: int, align: int) -> bool {
    let a = effective_align(align);
    place(b, a) + round_up(size, a) <= b.end()
}

/// Byte `k` (0 to 7) of `v`, least significant first.
pub open spec fn size_byte(v: u64, k: int) -> u8 {
    ((v >> (8 * k) as u64) & 0xff) as u8
}

/// The size recorded in the header at offset `off` of `m`.
pub open spec fn header_value(m: Seq<u8>, off: int) -> u64 {
    (m[off] as u64) | ((m[off + 1] as u64) << 8u64) | ((m[off + 2] as u64) << 16u64) | ((m[off
        + 3] as u64) << 24u64) | ((m[off + 4] as u64) << 32u64) | ((m[off + 5] as u64) << 40u64)
        | ((m[off + 6] as u64) << 48u64) | ((m[off + 7] as u64) << 56u64)
}

/// `m` with the size `v` recorded in the header at offset `off`.
pub open spec fn write_header(m: Seq<u8>, off: int, v: u64) -> Seq<u8> {
    Seq::new(
        m.len(),
        |j: int|
            if off <= j < off + 8 {
                size_byte(v, j - off)
            } else {
                m[j]
            },
    )
}

/// `x` lies in the `size` bytes from `addr` on.
pub open spec fn in_range(addr: int, size: int, x: int) -> bool {
    addr <= x < addr + size
}

/// The two byte ranges do not meet.
pub open spec fn disjoint(a: int, sa: int, b: int, sb: int) -> bool {
    a + sa <= b || b + sb <= a
}

/// Strictly address-ordered, and no block touches the next one.
pub open spec fn ordered_apart(s: Seq<FreeBlock>) -> bool {
    forall|i: int, j: int| 0 <= i < j < s.len() ==> #[trigger] s[i].end() < #[trigger] s[j].addr
}

/// Address-ordered and non-overlapping; neighbours may touch.
pub open spec fn ordered(s: Seq<FreeBlock>) -> bool {
    forall|i: int, j: int| 0 <= i < j < s.len() ==> #[trigger] s[i].end() <= #[trigger] s[j].addr
}

/// Some block of `s` holds byte `x`.
pub open spec fn covers(s: Seq<FreeBlock>, x: int) -> bool {
    exists|i: int| 0 <= i < s.len() && in_range(#[trigger] s[i].addr as int, s[i].size as int, x)
}

/// Block `i` of `s` is the first one that the request fits in.
pub open spec fn is_first_fit(s: Seq<FreeBlock>, size: int, align: int, i: int) -> bool {
    &&& 0 <= i < s.len()
    &&& fits(s[i], size, align)
    &&& forall|j: int| 0 <= j < i ==> !fits(#[trigger] s[j], size, align)
}

/// Index of the first block of `s` that the request fits in, or -1.
pub open spec fn first_fit(s: Seq<FreeBlock>, size: int, align: int) -> int {
    if exists|i: int| is_first_fit(s, size, align, i) {
        choose|i: int| is_first_fit(s, size, align, i)
    } else {
        -1
    }
}

/// The allocator's state as mathematics.
pub struct HeapModel {
    pub initialized: bool,
    pub heap_start: int,
    pub heap_end: int,
    /// The free list, in list order.
    pub free: Seq<FreeBlock>,
    /// Live allocated blocks: start address to total size.
    pub used: Map<int, int>,
    /// The heap's bytes.
    pub mem: Seq<u8>,
}

impl HeapModel {
    /// A block may stand at `a` with `size` bytes.
    pub open spec fn block_ok(self, a: int, size: int) -> bool {
        &&& self.heap_start <= a
        &&& a + size <= self.heap_end
        &&& size >= HEADER_SIZE
    }

    /// The whole heap as one block.
    pub open spec fn whole(self) -> FreeBlock {
        FreeBlock { addr: self.heap_start as usize, size: (self.heap_end - self.heap_start) as usize }
    }

    /// Some live allocated block holds byte `x`.
    pub open spec fn used_covers(self, x: int) -> bool {
        exists|a: int| #[trigger] self.used.contains_key(a) && in_range(a, self.used[a], x)
    }

    /// Free blocks lie in the heap, address-ordered, none touching the next.
    pub open spec fn free_ok(self) -> bool {
        &&& forall|i: int|
            0 <= i < self.free.len() ==> self.block_ok(
                #[trigger] self.free[i].addr as int,
                self.free[i].size as int,
            )
        &&& ordered_apart(self.free)
    }

    /// Live blocks lie in the heap with their size in their header, apart
    /// from each other and from every free block.
    pub open spec fn used_ok(self) -> bool {
        &&& forall|a: int| #[trigger]
            self.used.contains_key(a) ==> self.block_ok(a, self.used[a]) && header_value(
                self.mem,
                a - self.heap_start,
            ) == self.used[a]
        &&& forall|a: int, b: int|
            #[trigger] self.used.contains_key(a) && #[trigger] self.used.contains_key(b) && a != b
                ==> disjoint(a, self.used[a], b, self.used[b])
        &&& forall|a: int, i: int|
            #[trigger] self.used.contains_key(a) && 0 <= i < self.free.len() ==> disjoint(
                a,
                self.used[a],
                #[trigger] self.free[i].addr as int,
                self.free[i].size as int,
            )
    }

    /// Every byte of the heap is in a free block or in a live block.
    pub open spec fn tiled(self) -> bool {
        forall|x: int|
            self.heap_start <= x < self.heap_end ==> covers(self.free, x) || self.used_covers(x)
    }

    /// The allocator's invariant: empty before `init`, and afterwards a heap
    /// of at least `MIN_BLOCK_SIZE` bytes tiled by free and live blocks.
    pub open spec fn inv(self) -> bool {
        &&& 0 <= self.heap_start <= self.heap_end <= usize::MAX
        &&& if !self.initialized {
            &&& self.free.len() == 0
            &&& self.used == Map::<int, int>::empty()
            &&& self.mem.len() == 0
        } else {
            &&& self.heap_end - self.heap_start >= MIN_BLOCK_SIZE
            &&& self.mem.len() == self.heap_end - self.heap_start
            &&& self.free_ok()
            &&& self.used_ok()
            &&& self.tiled()
        }
    }

    /// What `init` leaves.
    pub open spec fn init_spec(self, heap_start: int, heap_end: int) -> HeapModel {
        if self.initialized {
            self
        } else {
            HeapModel {
                initialized: true,
                heap_start,
                heap_end,
                free: seq![FreeBlock { addr: heap_start as usize, size: (heap_end - heap_start) as usize }],
                used: Map::empty(),
                mem: Seq::new((heap_end - heap_start) as nat, |k: int| 0u8),
            }
        }
    }

    /// What `allocate(size, align)` leaves, and the address it returns (0 for
    /// failure). The first free block that the request fits in is used: the
    /// payload goes at `place`, the bytes before its header stay free, and
    /// the bytes after it are split off as a free block, or taken along where
    /// they would be too few to stand as one.
    pub open spec fn alloc_spec(self, size: int, align: int) -> (HeapModel, int) {
        let i = first_fit(self.free, size, align);
        if !self.initialized || i < 0 {
            (self, 0)
        } else {
            let b = self.free[i];
            let a = effective_align(align);
            let d = place(b, a);
            let start = d - HEADER_SIZE;
            let end = d + round_up(size, a);
            let split = b.end() - end >= MIN_BLOCK_SIZE;
            let head = if start > b.addr {
                seq![FreeBlock { addr: b.addr, size: (start - b.addr) as usize }]
            } else {
                Seq::<FreeBlock>::empty()
            };
            let tail = if split {
                seq![FreeBlock { addr: end as usize, size: (b.end() - end) as usize }]
            } else {
                Seq::<FreeBlock>::empty()
            };
            let total = if split {
                end - start
            } else {
                b.end() - start
            };
            (
                HeapModel {
                    initialized: true,
                    heap_start: self.heap_start,
                    heap_end: self.heap_end,
                    free: self.free.subrange(0, i) + head + tail + self.free.subrange(
                        i + 1,
                        self.free.len() as int,
                    ),
                    used: self.used.insert(start, total),
                    mem: write_header(self.mem, start - self.heap_start, total as u64),
                },
                d,
            )
        }
    }

    /// `ptr` is the payload address of a live allocated block.
    pub open spec fn is_live(self, ptr: int) -> bool {
        self.used.contains_key(ptr - HEADER_SIZE)
    }

    /// Payload bytes of the live block at payload address `ptr`.
    pub open spec fn payload_size(self, ptr: int) -> int {
        self.used[ptr - HEADER_SIZE] - HEADER_SIZE
    }

    /// The same state with other bytes.
    pub open spec fn with_mem(self, mem: Seq<u8>) -> HeapModel {
        HeapModel {
            initialized: self.initialized,
            heap_start: self.heap_start,
            heap_end: self.heap_end,
            free: self.free,
            used: self.used,
            mem,
        }
    }

    /// Offset in `mem` of the address `addr`.
    pub open spec fn offset(self, addr: int) -> int {
        addr - self.heap_start
    }

    /// The payload bytes of the live block at payload address `ptr`.
    pub open spec fn payload(self, ptr: int) -> Seq<u8> {
        self.mem.subrange(self.offset(ptr), self.offset(ptr) + self.payload_size(ptr))
    }

    /// What `allocate_zeroed(size, align)` leaves, and the address it returns.
    pub open spec fn alloc_zeroed_spec(self, size: int, align: int) -> (HeapModel, int) {
        let (m, r) = self.alloc_spec(size, align);
        if r == 0 {
            (m, r)
        } else {
            (m.with_mem(overwrite(m.mem, m.offset(r), Seq::new(size as nat, |k: int| 0u8))), r)
        }
    }

    /// `post` and `r` are what `resize(ptr, align, new_size)` leaves and returns.
    pub open spec fn resize_post(self, ptr: int, align: int, new_size: int, post: HeapModel, r: int) -> bool {
        if new_size == 0 {
            r == 0 && self.dealloc_post(ptr, post)
        } else if ptr == 0 {
            (post, r) == self.alloc_spec(new_size, align)
        } else if new_size <= self.payload_size(ptr) {
            r == ptr && post == self
        } else {
            let (mid, q) = self.alloc_spec(new_size, align);
            if q == 0 {
                r == 0 && post == self
            } else {
                let moved = mid.with_mem(
                    overwrite(mid.mem, mid.offset(q), self.payload(ptr)),
                );
                r == q && moved.dealloc_post(ptr, post)
            }
        }
    }

    /// `post` is what `deallocate(ptr)` leaves: the block is no longer live,
    /// its bytes are free, and the free list is again address-ordered with no
    /// two free blocks touching. Memory contents are untouched.
    pub open spec fn dealloc_post(self, ptr: int, post: HeapModel) -> bool {
        if ptr == 0 || !self.initialized {
            post == self
        } else {
            let h = ptr - HEADER_SIZE;
            &&& post.initialized
            &&& post.heap_start == self.heap_start
            &&& post.heap_end == self.heap_end
            &&& post.mem == self.mem
            &&& post.used == self.used.remove(h)
            &&& ordered_apart(post.free)
            &&& forall|x: int|
                covers(post.free, x) <==> covers(self.free, x) || in_range(h, self.used[h], x)
        }
    }
}

/// `m` with `data` written from offset `off` on.
pub open spec fn overwrite(m: Seq<u8>, off: int, data: Seq<u8>) -> Seq<u8> {
    Seq::new(
        m.len(),
        |k: int|
            if off <= k < off + data.len() {
                data[k - off]
            } else {
                m[k]
            },
    )
}

/// A successful allocation is live, aligned, and its payload holds the
/// request.
proof fn lemma_alloc_fits(pre: HeapModel, size: int, align: int)
    requires
        pre.inv(),
        size >= 0,
        pre.alloc_spec(size, align).1 != 0,
    ensures
        pre.alloc_spec(size, align).0.is_live(pre.alloc_spec(size, align).1),
        pre.alloc_spec(size, align).0.payload_size(pre.alloc_spec(size, align).1) >= size,
        pre.alloc_spec(size, align).1 >= pre.heap_start + HEADER_SIZE,
        pre.alloc_spec(size, align).1 % effective_align(align) == 0,
{
    let i = first_fit(pre.free, size, align);
    assert(is_first_fit(pre.free, size, align, i));
    let a = effective_align(align);
    let b = pre.free[i];
    lemma_place(b, a);
    lemma_round_up(size, a);
    assert(pre.block_ok(b.addr as int, b.size as int));
}

/// A live block stays live, with the same size and payload, across an
/// allocation, and the new block lies apart from it.
proof fn lemma_alloc_keeps_live(pre: HeapModel, size: int, align: int, ptr: int)
    requires
        pre.inv(),
        size >= 0,
        pre.is_live(ptr),
    ensures
        pre.alloc_spec(size, align).0.is_live(ptr),
        pre.alloc_spec(size, align).0.payload_size(ptr) == pre.payload_size(ptr),
        pre.alloc_spec(size, align).0.payload(ptr) == pre.payload(ptr),
        pre.alloc_spec(size, align).1 != 0 ==> disjoint(
            pre.alloc_spec(size, align).1 - HEADER_SIZE,
            pre.alloc_spec(size, align).0.used[pre.alloc_spec(size, align).1 - HEADER_SIZE],
            ptr - HEADER_SIZE,
            pre.used[ptr - HEADER_SIZE],
        ),
{
    let (post, r) = pre.alloc_spec(size, align);
    if r != 0 {
        let i = first_fit(pre.free, size, align);
        assert(is_first_fit(pre.free, size, align, i));
        let a = effective_align(align);
        let b = pre.free[i];
        lemma_place(b, a);
        lemma_round_up(size, a);
        let h = ptr - HEADER_SIZE;
        assert(disjoint(h, pre.used[h], b.addr as int, b.size as int));
        assert(pre.block_ok(h, pre.used[h]));
        assert(pre.block_ok(b.addr as int, b.size as int));
        assert(post.payload(ptr) =~= pre.payload(ptr));
    }
}

/// Merging block `i` with the touching block after it keeps the list ordered
/// and in the heap, and covers the same bytes.
proof fn lemma_merge_step(s0: Seq<FreeBlock>, s: Seq<FreeBlock>, i: int, hs: int, he: int)
    requires
        0 <= i < i + 1 < s0.len(),
        0 <= hs <= he <= usize::MAX,
        ordered(s0),
        blocks_within(s0, hs, he),
        s0[i].end() == s0[i + 1].addr,
        s == s0.update(i, FreeBlock { addr: s0[i].addr, size: (s0[i].size + s0[i + 1].size) as usize }).remove(i + 1),
    ensures
        ordered(s),
        blocks_within(s, hs, he),
        forall|x: int| covers(s, x) <==> covers(s0, x),
{
    let cur = s0[i];
    let merged = FreeBlock { addr: s0[i].addr, size: (s0[i].size + s0[i + 1].size) as usize };
    assert(block_within(s0[i], hs, he));
    assert(block_within(s0[i + 1], hs, he));
    assert(merged.size == s0[i].size + s0[i + 1].size);
    assert(block_within(merged, hs, he));
    assert forall|k: int| 0 <= k < s.len() implies #[trigger] s[k] == if k < i {
        s0[k]
    } else if k == i {
        merged
    } else {
        s0[k + 1]
    } by {}
    assert forall|k: int, l: int| 0 <= k < l < s.len() implies #[trigger] s[k].end()
        <= #[trigger] s[l].addr by {
        if k < i {
            if l == i {
                assert(s0[k].end() <= s0[i].addr);
            } else {
                assert(s0[k].end() <= s0[l + 1].addr);
            }
        } else if k == i {
            assert(s0[i + 1].end() <= s0[l + 1].addr);
        } else {
            assert(s0[k + 1].end() <= s0[l + 1].addr);
        }
    }
    assert forall|k: int| 0 <= k < s.len() implies block_within(s[k], hs, he) by {
        if k < i {
            assert(block_within(s0[k], hs, he));
        } else if k > i {
            assert(block_within(s0[k + 1], hs, he));
        }
    }
    assert forall|x: int| covers(s, x) <==> covers(s0, x) by {
        if covers(s, x) {
            let k = choose|k: int| 0 <= k < s.len() && in_range(#[trigger] s[k].addr as int, s[k].size as int, x);
            if k < i {
                assert(in_range(s0[k].addr as int, s0[k].size as int, x));
            } else if k > i {
                assert(in_range(s0[k + 1].addr as int, s0[k + 1].size as int, x));
            } else if x < cur.addr + cur.size {
                assert(in_range(s0[k].addr as int, s0[k].size as int, x));
            } else {
                assert(in_range(s0[k + 1].addr as int, s0[k + 1].size as int, x));
            }
        }
        if covers(s0, x) {
            let k = choose|k: int| 0 <= k < s0.len() && in_range(#[trigger] s0[k].addr as int, s0[k].size as int, x);
            if k < i {
                assert(in_range(s[k].addr as int, s[k].size as int, x));
            } else if k <= i + 1 {
                assert(in_range(s[i].addr as int, s[i].size as int, x));
            } else {
                assert(in_range(s[k - 1].addr as int, s[k - 1].size as int, x));
            }
        }
    }
}

/// Writing inside a live block's payload keeps the invariant.
proof fn lemma_payload_write(pre: HeapModel, ptr: int, off: int, data: Seq<u8>)
    requires
        pre.inv(),
        pre.is_live(ptr),
        pre.offset(ptr) <= off,
        off + data.len() <= pre.offset(ptr) + pre.payload_size(ptr),
    ensures
        pre.with_mem(overwrite(pre.mem, off, data)).inv(),
{
    let post = pre.with_mem(overwrite(pre.mem, off, data));
    let h = ptr - HEADER_SIZE;
    let hs = pre.heap_start;
    assert(pre.block_ok(h, pre.used[h]));
    assert forall|a: int| #[trigger] post.used.contains_key(a) implies post.block_ok(a, post.used[a])
        && header_value(post.mem, a - hs) == post.used[a] by {
        assert(pre.block_ok(a, pre.used[a]));
        if a != h {
            assert(disjoint(a, pre.used[a], h, pre.used[h]));
        }
        assert forall|k: int| 0 <= k < 8 implies #[trigger] post.mem[a - hs + k] == pre.mem[a - hs + k] by {}
        lemma_header_frame(post.mem, pre.mem, a - hs);
    }
    assert forall|x: int| pre.used_covers(x) implies post.used_covers(x) by {
        let a = choose|a: int| #[trigger] pre.used.contains_key(a) && in_range(a, pre.used[a], x);
        assert(post.used.contains_key(a));
    }
}

/// Every block of `s` lies in `[hs, he)` and holds a header.
pub open spec fn blocks_within(s: Seq<FreeBlock>, hs: int, he: int) -> bool {
    forall|k: int| 0 <= k < s.len() ==> block_within(#[trigger] s[k], hs, he)
}

/// One block of `blocks_within`.
pub open spec fn block_within(b: FreeBlock, hs: int, he: int) -> bool {
    &&& hs <= b.addr
    &&& b.end() <= he
    &&& b.size >= HEADER_SIZE
}

/// A deallocation keeps the invariant.
proof fn lemma_dealloc_inv(pre: HeapModel, ptr: int, post: HeapModel)
    requires
        pre.inv(),
        pre.initialized,
        ptr != 0,
        pre.is_live(ptr),
        pre.dealloc_post(ptr, post),
        blocks_within(post.free, pre.heap_start, pre.heap_end),
    ensures
        post.inv(),
{
    let h = ptr - HEADER_SIZE;
    assert forall|k: int| 0 <= k < post.free.len() implies post.block_ok(
        #[trigger] post.free[k].addr as int,
        post.free[k].size as int,
    ) by {}
    assert forall|a: int, k: int|
        #[trigger] post.used.contains_key(a) && 0 <= k < post.free.len() implies disjoint(
        a,
        post.used[a],
        #[trigger] post.free[k].addr as int,
        post.free[k].size as int,
    ) by {
        let f = post.free[k];
        if !disjoint(a, post.used[a], f.addr as int, f.size as int) {
            let x = if a > f.addr { a } else { f.addr as int };
            assert(pre.block_ok(a, pre.used[a]));
            assert(in_range(f.addr as int, f.size as int, x));
            assert(covers(post.free, x));
            if covers(pre.free, x) {
                let j = choose|j: int|
                    0 <= j < pre.free.len() && in_range(#[trigger] pre.free[j].addr as int, pre.free[j].size as int, x);
                assert(disjoint(a, pre.used[a], pre.free[j].addr as int, pre.free[j].size as int));
            } else {
                assert(pre.used.contains_key(h) && pre.used.contains_key(a) && a != h);
                assert(disjoint(a, pre.used[a], h, pre.used[h]));
            }
        }
    }
    assert forall|x: int| post.heap_start <= x < post.heap_end implies covers(post.free, x)
        || post.used_covers(x) by {
        if pre.used_covers(x) {
            let a = choose|a: int| #[trigger] pre.used.contains_key(a) && in_range(a, pre.used[a], x);
            if a != h {
                assert(post.used.contains_key(a));
            }
        }
    }
}

/// `round_up(x, a)` is the least multiple of `a` from `x` on.
proof fn lemma_round_up(x: int, a: int)
    requires
        a > 0,
    ensures
        x <= round_up(x, a) < x + a,
        round_up(x, a) % a == 0,
{
    let q = x / a;
    let r = x % a;
    assert(x == a * q + r && 0 <= r < a) by (nonlinear_arith)
        requires
            a > 0,
            q == x / a,
            r == x % a,
    ;
    if r == 0 {
        assert(round_up(x, a) == q * a);
    } else {
        assert(round_up(x, a) == (q + 1) * a) by (nonlinear_arith)
            requires
                round_up(x, a) == x + (a - r),
                x == a * q + r,
        ;
        vstd::arithmetic::div_mod::lemma_mod_multiples_basic(q + 1, a);
    }
    vstd::arithmetic::div_mod::lemma_mod_multiples_basic(q, a);
}

/// No multiple of `a` from `x` on is smaller than `round_up(x, a)`.
proof fn lemma_round_up_least(x: int, a: int, m: int)
    requires
        a > 0,
        m % a == 0,
        m >= x,
    ensures
        m >= round_up(x, a),
{
    lemma_round_up(x, a);
    let k = m / a;
    let q = x / a;
    assert(m == a * k) by (nonlinear_arith)
        requires
            a > 0,
            m % a == 0,
            k == m / a,
    ;
    assert(x == a * q + x % a && 0 <= x % a < a) by (nonlinear_arith)
        requires
            a > 0,
            q == x / a,
    ;
    if x % a == 0 {
    } else {
        assert(k >= q + 1) by (nonlinear_arith)
            requires
                a * k >= a * q + x % a,
                x % a > 0,
                a > 0,
        ;
        assert(a * k >= a * (q + 1)) by (nonlinear_arith)
            requires
                k >= q + 1,
                a > 0,
        ;
        assert(a * (q + 1) == a * q + a) by (nonlinear_arith);
        assert(round_up(x, a) == a * q + a);
    }
}

/// The payload's place in a free block is aligned, leaves room for the
/// header, and leaves before the header nothing or at least a minimal block.
proof fn lemma_place(b: FreeBlock, a: int)
    requires
        a >= MIN_ALIGN,
    ensures
        place(b, a) % a == 0,
        place(b, a) >= b.addr + HEADER_SIZE,
        place(b, a) - HEADER_SIZE == b.addr || place(b, a) - HEADER_SIZE - b.addr >= MIN_BLOCK_SIZE,
        place(b, a) >= round_up(b.addr + HEADER_SIZE, a),
{
    lemma_round_up(b.addr + HEADER_SIZE, a);
    lemma_round_up(b.addr + HEADER_SIZE + MIN_BLOCK_SIZE, a);
    lemma_round_up_least(
        b.addr + HEADER_SIZE,
        a,
        round_up(b.addr + HEADER_SIZE + MIN_BLOCK_SIZE, a),
    );
}

/// Reading a header back gives the size written into it.
proof fn lemma_header_round_trip(m: Seq<u8>, off: int, v: u64)
    requires
        0 <= off,
        off + 8 <= m.len(),
    ensures
        header_value(write_header(m, off, v), off) == v,
{
    let w = write_header(m, off, v);
    assert(v == (v & 0xff) | (((v >> 8u64) & 0xff) << 8u64) | (((v >> 16u64) & 0xff) << 16u64) | (
    ((v >> 24u64) & 0xff) << 24u64) | (((v >> 32u64) & 0xff) << 32u64) | (((v >> 40u64) & 0xff)
        << 40u64) | (((v >> 48u64) & 0xff) << 48u64) | (((v >> 56u64) & 0xff) << 56u64))
        by (bit_vector);
    assert((v & 0xff) < 256 && ((v >> 8u64) & 0xff) < 256 && ((v >> 16u64) & 0xff) < 256 && ((v
        >> 24u64) & 0xff) < 256 && ((v >> 32u64) & 0xff) < 256 && ((v >> 40u64) & 0xff) < 256 && ((v
        >> 48u64) & 0xff) < 256 && ((v >> 56u64) & 0xff) < 256) by (bit_vector);
    assert(v >> 0u64 == v) by (bit_vector);
    assert(w[off] as u64 == v & 0xff);
    assert(w[off + 1] as u64 == (v >> 8u64) & 0xff);
    assert(w[off + 2] as u64 == (v >> 16u64) & 0xff);
    assert(w[off + 3] as u64 == (v >> 24u64) & 0xff);
    assert(w[off + 4] as u64 == (v >> 32u64) & 0xff);
    assert(w[off + 5] as u64 == (v >> 40u64) & 0xff);
    assert(w[off + 6] as u64 == (v >> 48u64) & 0xff);
    assert(w[off + 7] as u64 == (v >> 56u64) & 0xff);
}

/// A header reads the same in two buffers that agree on its eight bytes.
proof fn lemma_header_frame(m1: Seq<u8>, m2: Seq<u8>, off: int)
    requires
        forall|k: int| 0 <= k < 8 ==> #[trigger] m1[off + k] == m2[off + k],
    ensures
        header_value(m1, off) == header_value(m2, off),
{
    assert(m1[off + 0] == m2[off + 0]);
    assert(m1[off + 1] == m2[off + 1]);
    assert(m1[off + 2] == m2[off + 2]);
    assert(m1[off + 3] == m2[off + 3]);
    assert(m1[off + 4] == m2[off + 4]);
    assert(m1[off + 5] == m2[off + 5]);
    assert(m1[off + 6] == m2[off + 6]);
    assert(m1[off + 7] == m2[off + 7]);
    assert(off + 0 == off);
}

/// The first fit, once found, is what `first_fit` names.
proof fn lemma_first_fit_is(s: Seq<FreeBlock>, size: int, align: int, i: int)
    requires
        is_first_fit(s, size, align, i),
    ensures
        first_fit(s, size, align) == i,
{
    let k = choose|k: int| is_first_fit(s, size, align, k);
    if k < i {
        assert(!fits(s[k], size, align));
    } else if k > i {
        assert(!fits(s[i], size, align));
    }
}

/// Where the request fits no block, `first_fit` is -1.
proof fn lemma_first_fit_none(s: Seq<FreeBlock>, size: int, align: int)
    requires
        forall|j: int| 0 <= j < s.len() ==> !fits(#[trigger] s[j], size, align),
    ensures
        first_fit(s, size, align) == -1,
{
}

/// An allocation keeps the invariant.
proof fn lemma_alloc_inv(pre: HeapModel, size: int, align: int)
    requires
        pre.inv(),
        pre.initialized,
        size >= 0,
        first_fit(pre.free, size, align) >= 0,
    ensures
        pre.alloc_spec(size, align).0.inv(),
{
    let i = first_fit(pre.free, size, align);
    assert(is_first_fit(pre.free, size, align, i));
    let b = pre.free[i];
    let a = effective_align(align);
    let d = place(b, a);
    lemma_place(b, a);
    lemma_round_up(size, a);
    let start = d - HEADER_SIZE;
    let end = d + round_up(size, a);
    let split = b.end() - end >= MIN_BLOCK_SIZE;
    let gap = start > b.addr;
    let post = pre.alloc_spec(size, align).0;
    let total = post.used[start];
    let hs = pre.heap_start;
    let head = FreeBlock { addr: b.addr, size: (start - b.addr) as usize };
    let tail = FreeBlock { addr: end as usize, size: (b.end() - end) as usize };
    let nh: int = if gap { 1 } else { 0 };
    let nt: int = if split { 1 } else { 0 };
    assert(pre.block_ok(b.addr as int, b.size as int));
    assert(total >= HEADER_SIZE && start + total <= b.end());
    assert(gap ==> head.size >= MIN_BLOCK_SIZE && head.end() == start);
    assert(split ==> tail.size >= MIN_BLOCK_SIZE && tail.addr == start + total && tail.end() == b.end());
    assert(post.free.len() == pre.free.len() - 1 + nh + nt);
    assert forall|k: int| 0 <= k < post.free.len() implies #[trigger] post.free[k] == (if k < i {
        pre.free[k]
    } else if gap && k == i {
        head
    } else if split && k == i + nh {
        tail
    } else {
        pre.free[k - nh - nt + 1]
    }) by {}
    // The free list.
    assert forall|k: int| 0 <= k < post.free.len() implies post.block_ok(
        #[trigger] post.free[k].addr as int,
        post.free[k].size as int,
    ) by {
        if k < i {
            assert(pre.block_ok(pre.free[k].addr as int, pre.free[k].size as int));
        } else if k >= i + nh + nt {
            let j = k - nh - nt + 1;
            assert(pre.block_ok(pre.free[j].addr as int, pre.free[j].size as int));
        }
    }
    assert forall|k: int, l: int| 0 <= k < l < post.free.len() implies #[trigger] post.free[k].end()
        < #[trigger] post.free[l].addr by {
        let kk = k - nh - nt + 1;
        let ll = l - nh - nt + 1;
        if k < i {
            if l < i {
                assert(pre.free[k].end() < pre.free[l].addr);
            } else if l >= i + nh + nt {
                assert(pre.free[k].end() < pre.free[ll].addr);
            } else {
                assert(pre.free[k].end() < b.addr);
            }
        } else if k >= i + nh + nt {
            assert(pre.free[kk].end() < pre.free[ll].addr);
        } else if l >= i + nh + nt {
            assert(b.end() < pre.free[ll].addr);
        }
    }
    // Live blocks.
    assert forall|x: int| #[trigger] post.used.contains_key(x) implies post.block_ok(x, post.used[x])
        && header_value(post.mem, x - hs) == post.used[x] by {
        if x == start {
            lemma_header_round_trip(pre.mem, x - hs, total as u64);
        } else {
            assert(pre.used.contains_key(x));
            assert(pre.block_ok(x, pre.used[x]));
            assert(disjoint(x, pre.used[x], b.addr as int, b.size as int));
            assert forall|k: int| 0 <= k < 8 implies #[trigger] post.mem[x - hs + k] == pre.mem[x - hs + k] by {}
            lemma_header_frame(post.mem, pre.mem, x - hs);
        }
    }
    assert forall|x: int, c: int|
        #[trigger] post.used.contains_key(x) && #[trigger] post.used.contains_key(c) && x != c
            implies disjoint(x, post.used[x], c, post.used[c]) by {
        if x == start {
            assert(disjoint(c, pre.used[c], b.addr as int, b.size as int));
        } else if c == start {
            assert(disjoint(x, pre.used[x], b.addr as int, b.size as int));
        }
    }
    assert forall|x: int, k: int|
        #[trigger] post.used.contains_key(x) && 0 <= k < post.free.len() implies disjoint(
        x,
        post.used[x],
        #[trigger] post.free[k].addr as int,
        post.free[k].size as int,
    ) by {
        let piece = i <= k < i + nh + nt;
        let j = if k < i {
            k
        } else {
            k - nh - nt + 1
        };
        if x == start {
            if !piece {
                if j < i {
                    assert(pre.free[j].end() < pre.free[i].addr);
                } else {
                    assert(pre.free[i].end() < pre.free[j].addr);
                }
            }
        } else {
            assert(pre.used.contains_key(x));
            assert(disjoint(x, pre.used[x], b.addr as int, b.size as int));
        }
    }
    // Every byte is still accounted for.
    assert forall|x: int| post.heap_start <= x < post.heap_end implies covers(post.free, x)
        || post.used_covers(x) by {
        if pre.used_covers(x) {
            let c = choose|c: int| #[trigger] pre.used.contains_key(c) && in_range(c, pre.used[c], x);
            assert(disjoint(c, pre.used[c], b.addr as int, b.size as int));
            assert(post.used.contains_key(c));
        } else {
            let j = choose|j: int|
                0 <= j < pre.free.len() && in_range(#[trigger] pre.free[j].addr as int, pre.free[j].size as int, x);
            if j == i {
                if x < start {
                    assert(post.free[i] == head);
                    assert(in_range(post.free[i].addr as int, post.free[i].size as int, x));
                } else if x < start + total {
                    assert(post.used.contains_key(start));
                } else {
                    assert(post.free[i + nh] == tail);
                    assert(in_range(post.free[i + nh].addr as int, post.free[i + nh].size as int, x));
                }
            } else if j < i {
                assert(post.free[j] == pre.free[j]);
                assert(in_range(post.free[j].addr as int, post.free[j].size as int, x));
            } else {
                let k = j + nh + nt - 1;
                assert(post.free[k] == pre.free[j]);
                assert(in_range(post.free[k].addr as int, post.free[k].size as int, x));
            }
        }
    }
}

/// Between operations the free list is strictly address-ordered and no two
/// free blocks touch: every operation keeps `inv`, and `inv` says so.
pub proof fn lemma_free_list_canonical(m: HeapModel)
    requires
        m.inv(),
    ensures
        forall|i: int, j: int| 0 <= i < j < m.free.len() ==> m.free[i].end() < m.free[j].addr,
{
    assert forall|i: int, j: int| 0 <= i < j < m.free.len() implies m.free[i].end()
        < m.free[j].addr by {
        assert(m.free[i].end() < m.free[j].addr);
    }
}

/// An allocation keeps the invariant.
pub proof fn lemma_alloc_keeps_invariant(m: HeapModel, size: int, align: int)
    requires
        m.inv(),
        size >= 0,
    ensures
        m.alloc_spec(size, align).0.inv(),
{
    if m.alloc_spec(size, align).1 != 0 {
        lemma_alloc_inv(m, size, align);
    }
}

/// A successful allocation returns a non-null address aligned to `align`
/// (and to `MIN_ALIGN`), whose `size` bytes lie in the new block's payload
/// and apart from the payload of every other live block.
pub proof fn lemma_allocation_placed(m: HeapModel, size: int, align: int)
    requires
        m.inv(),
        size >= 0,
    ensures
        ({
            let (post, r) = m.alloc_spec(size, align);
            r != 0 ==> {
                &&& r > 0
                &&& r % effective_align(align) == 0
                &&& is_power_of_two(align) ==> r % align == 0
                &&& post.is_live(r)
                &&& post.payload_size(r) >= size
                &&& forall|p: int|
                    #[trigger] post.is_live(p) && p != r ==> disjoint(r, size, p, post.payload_size(p))
            }
        }),
{
    let (post, r) = m.alloc_spec(size, align);
    if r != 0 {
        lemma_alloc_fits(m, size, align);
        let i = first_fit(m.free, size, align);
        assert(is_first_fit(m.free, size, align, i));
        let b = m.free[i];
        let a = effective_align(align);
        lemma_place(b, a);
        lemma_round_up(size, a);
        assert(m.block_ok(b.addr as int, b.size as int));
        assert forall|p: int| #[trigger] post.is_live(p) && p != r implies disjoint(
            r,
            size,
            p,
            post.payload_size(p),
        ) by {
            let h = p - HEADER_SIZE;
            assert(m.used.contains_key(h));
            assert(m.block_ok(h, m.used[h]));
            assert(disjoint(h, m.used[h], b.addr as int, b.size as int));
        }
        if is_power_of_two(align) && align <= MIN_ALIGN {
            assert(align == 1 || align == 2 || align == 4);
            let k = r / 4;
            assert(r == 4 * k) by (nonlinear_arith)
                requires
                    r % 4 == 0,
                    k == r / 4,
            ;
            if align == 1 {
                vstd::arithmetic::div_mod::lemma_mod_multiples_basic(r, 1);
            } else if align == 2 {
                vstd::arithmetic::div_mod::lemma_mod_multiples_basic(2 * k, 2);
            }
        }
    }
}

/// Allocating leaves the payload bytes of every live block as they were.
pub proof fn lemma_alloc_keeps_payload(m: HeapModel, size: int, align: int, p: int)
    requires
        m.inv(),
        size >= 0,
        m.is_live(p),
    ensures
        m.alloc_spec(size, align).0.is_live(p),
        m.alloc_spec(size, align).0.payload(p) == m.payload(p),
{
    lemma_alloc_keeps_live(m, size, align, p);
}

/// Freeing one block leaves the payload bytes of every other live block as
/// they were.
pub proof fn lemma_free_keeps_payload(m: HeapModel, q: int, post: HeapModel, p: int)
    requires
        m.inv(),
        m.is_live(p),
        q != p,
        m.dealloc_post(q, post),
    ensures
        post.is_live(p),
        post.payload(p) == m.payload(p),
{
}

/// Bytes written at the start of a payload read back as written.
pub proof fn lemma_write_read_back(m: HeapModel, ptr: int, data: Seq<u8>)
    requires
        m.inv(),
        m.is_live(ptr),
        data.len() <= m.payload_size(ptr),
    ensures
        ({
            let w = m.with_mem(overwrite(m.mem, m.offset(ptr), data));
            w.mem.subrange(w.offset(ptr), w.offset(ptr) + data.len()) == data
        }),
{
    let h = ptr - HEADER_SIZE;
    assert(m.block_ok(h, m.used[h]));
    let w = m.with_mem(overwrite(m.mem, m.offset(ptr), data));
    assert(w.mem.subrange(w.offset(ptr), w.offset(ptr) + data.len()) =~= data);
}

/// A second `init` changes nothing.
pub proof fn lemma_init_idempotent(m: HeapModel, s1: int, e1: int, s2: int, e2: int)
    ensures
        m.init_spec(s1, e1).init_spec(s2, e2) == m.init_spec(s1, e1),
{
}

/// With no live block, the free list is one block spanning the whole heap.
pub proof fn lemma_no_live_blocks_whole_heap(m: HeapModel)
    requires
        m.inv(),
        m.initialized,
        m.used.dom() == Set::<int>::empty(),
    ensures
        m.free == seq![FreeBlock { addr: m.heap_start as usize, size: (m.heap_end - m.heap_start) as usize }],
{
    let hs = m.heap_start;
    let he = m.heap_end;
    assert(!m.used_covers(hs)) by {
        if m.used_covers(hs) {
            let a = choose|a: int| #[trigger] m.used.contains_key(a) && in_range(a, m.used[a], hs);
            assert(m.used.dom().contains(a));
        }
    }
    assert(covers(m.free, hs));
    let j = choose|j: int| 0 <= j < m.free.len() && in_range(#[trigger] m.free[j].addr as int, m.free[j].size as int, hs);
    assert(m.block_ok(m.free[j].addr as int, m.free[j].size as int));
    if j > 0 {
        assert(m.block_ok(m.free[0].addr as int, m.free[0].size as int));
        assert(m.free[0].end() < m.free[j].addr);
    }
    assert(m.free[0].addr == hs);
    let x = m.free[0].end();
    if m.free.len() > 1 || x < he {
        if m.free.len() > 1 {
            assert(m.free[0].end() < m.free[1].addr);
            assert(m.block_ok(m.free[1].addr as int, m.free[1].size as int));
        }
        assert(hs <= x < he);
        assert(!m.used_covers(x)) by {
            if m.used_covers(x) {
                let a = choose|a: int| #[trigger] m.used.contains_key(a) && in_range(a, m.used[a], x);
                assert(m.used.dom().contains(a));
            }
        }
        let k = choose|k: int| 0 <= k < m.free.len() && in_range(#[trigger] m.free[k].addr as int, m.free[k].size as int, x);
        if k > 0 {
            assert(m.free[0].end() < m.free[k].addr);
        }
        assert(false);
    }
    assert(m.free =~= seq![FreeBlock { addr: hs as usize, size: (he - hs) as usize }]);
}

/// With no live block, a request that fits in the heap taken as one block
/// succeeds, at its place in that block.
pub proof fn lemma_whole_heap_allocates(m: HeapModel, size: int, align: int)
    requires
        m.inv(),
        m.initialized,
        m.used.dom() == Set::<int>::empty(),
        size >= 0,
        fits(m.whole(), size, align),
    ensures
        m.alloc_spec(size, align).1 == place(m.whole(), effective_align(align)),
{
    lemma_no_live_blocks_whole_heap(m);
    assert(m.free[0] == m.whole());
    lemma_first_fit_is(m.free, size, align, 0);
}

/// Allocating a request, freeing it, and allocating it again gives the same
/// address, and the free list is back to what it was: one cycle leaves no
/// fragment behind.
pub proof fn lemma_full_circle(m: HeapModel, size: int, align: int, post: HeapModel)
    requires
        m.inv(),
        m.initialized,
        m.used.dom() == Set::<int>::empty(),
        size >= 0,
        fits(m.whole(), size, align),
        m.alloc_spec(size, align).0.dealloc_post(m.alloc_spec(size, align).1, post),
        post.inv(),
    ensures
        post.free == m.free,
        post.alloc_spec(size, align).1 == m.alloc_spec(size, align).1,
{
    let (mid, r) = m.alloc_spec(size, align);
    lemma_whole_heap_allocates(m, size, align);
    lemma_no_live_blocks_whole_heap(m);
    assert(post.used.dom() =~= Set::<int>::empty());
    lemma_no_live_blocks_whole_heap(post);
    assert(post.whole() == m.whole());
    lemma_whole_heap_allocates(post, size, align);
}

/// The allocator: a heap range, its free list, and its bytes.
pub struct GlobalAllocator {
    heap_start: usize,
    heap_end: usize,
    initialized: bool,
    free_list: Vec<FreeBlock>,
    mem: Vec<u8>,
    used: Ghost<Map<int, int>>,
}

impl View for GlobalAllocator {
    type V = HeapModel;

    closed spec fn view(&self) -> HeapModel {
        HeapModel {
            initialized: self.initialized,
            heap_start: self.heap_start as int,
            heap_end: self.heap_end as int,
            free: self.free_list@,
            used: self.used@,
            mem: self.mem@,
        }
    }
}

impl GlobalAllocator {
    /// An allocator with no heap yet: every request fails until `init`.
    pub fn new() -> (r: Self)
        ensures
            r@.inv(),
            !r@.initialized,
    {
        GlobalAllocator {
            heap_start: 0,
            heap_end: 0,
            initialized: false,
            free_list: Vec::new(),
            mem: Vec::new(),
            used: Ghost(Map::empty()),
        }
    }

    /// Takes `[heap_start, heap_end)` as the heap, one free block spanning it.
    /// A second call is a no-op.
    pub fn init(&mut self, heap_start: usize, heap_end: usize)
        requires
            old(self)@.inv(),
            old(self)@.initialized || (heap_start < heap_end && heap_end - heap_start >= MIN_BLOCK_SIZE),
        ensures
            final(self)@.inv(),
            final(self)@ == old(self)@.init_spec(heap_start as int, heap_end as int),
    {
        if self.initialized {
            return ;
        }
        let heap_size = heap_end - heap_start;
        self.mem = vec![0u8; heap_size];
        self.free_list = Vec::new();
        self.free_list.push(FreeBlock { addr: heap_start, size: heap_size });
        self.heap_start = heap_start;
        self.heap_end = heap_end;
        self.initialized = true;
        self.used = Ghost(Map::empty());
        proof {
            let m = self@;
            assert(m.mem =~= Seq::new((heap_end - heap_start) as nat, |k: int| 0u8));
            assert(m.free =~= seq![FreeBlock { addr: heap_start, size: heap_size }]);
            assert forall|x: int| m.heap_start <= x < m.heap_end implies covers(m.free, x) by {
                assert(in_range(m.free[0].addr as int, m.free[0].size as int, x));
            }
        }
    }

    /// Returns the payload address of `size` bytes aligned to `align` (at
    /// least to `MIN_ALIGN`), in the first free block that holds them, or 0
    /// where no free block does.
    pub fn allocate(&mut self, size: usize, align: usize) -> (r: usize)
        requires
            old(self)@.inv(),
        ensures
            final(self)@.inv(),
            (final(self)@, r as int) == old(self)@.alloc_spec(size as int, align as int),
            r != 0 ==> (r as int) % effective_align(align as int) == 0,
    {
        if !self.initialized {
            return 0;
        }
        let a = if align > MIN_ALIGN {
            align
        } else {
            MIN_ALIGN
        };
        let rounded = match align_up(size, a) {
            Some(v) => v,
            None => {
                proof {
                    assert forall|j: int| 0 <= j < self.free_list@.len() implies !fits(
                        #[trigger] self.free_list@[j],
                        size as int,
                        align as int,
                    ) by {
                        lemma_place(self.free_list@[j], a as int);
                        assert(self@.block_ok(self.free_list@[j].addr as int, self.free_list@[j].size as int));
                    }
                    lemma_first_fit_none(self.free_list@, size as int, align as int);
                }
                return 0;
            },
        };
        let ghost pre = self@;
        let mut i: usize = 0;
        while i < self.free_list.len()
            invariant
                self@ == old(self)@,
                pre == old(self)@,
                self@.inv(),
                self.initialized,
                a == effective_align(align as int),
                rounded == round_up(size as int, a as int),
                i <= self.free_list@.len(),
                forall|j: int| 0 <= j < i ==> !fits(#[trigger] self.free_list@[j], size as int, align as int),
            decreases self.free_list@.len() - i,
        {
            let b = self.free_list[i];
            proof {
                assert(self@.block_ok(b.addr as int, b.size as int));
            }
            if let Some(d) = place_in(b, a, rounded) {
                proof {
                    lemma_first_fit_is(self.free_list@, size as int, align as int, i as int);
                    lemma_alloc_inv(self@, size as int, align as int);
                    lemma_alloc_fits(self@, size as int, align as int);
                    lemma_place(b, a as int);
                }
                let start = d - HEADER_SIZE;
                let end = d + rounded;
                let b_end = b.addr + b.size;
                let split = b_end - end >= MIN_BLOCK_SIZE;
                let total = if split {
                    end - start
                } else {
                    b_end - start
                };
                let gap = start > b.addr;
                if gap {
                    self.free_list.set(i, FreeBlock { addr: b.addr, size: start - b.addr });
                    if split {
                        self.free_list.insert(i + 1, FreeBlock { addr: end, size: b_end - end });
                    }
                } else if split {
                    self.free_list.set(i, FreeBlock { addr: end, size: b_end - end });
                } else {
                    self.free_list.remove(i);
                }
                proof {
                    let head = if gap {
                        seq![FreeBlock { addr: b.addr, size: (start - b.addr) as usize }]
                    } else {
                        Seq::<FreeBlock>::empty()
                    };
                    let tail = if split {
                        seq![FreeBlock { addr: end, size: (b_end - end) as usize }]
                    } else {
                        Seq::<FreeBlock>::empty()
                    };
                    assert(self.free_list@ =~= pre.free.subrange(0, i as int) + head + tail
                        + pre.free.subrange(i + 1, pre.free.len() as int));
                }
                store_size(&mut self.mem, start - self.heap_start, total);
                self.used = Ghost(self.used@.insert(start as int, total as int));
                return d;
            }
            i += 1;
        }
        proof {
            lemma_first_fit_none(self.free_list@, size as int, align as int);
        }
        0
    }

    /// Frees the live block whose payload starts at `ptr`: it goes into the
    /// free list in address order, and touching free blocks are merged. A
    /// null `ptr`, or any `ptr` before `init`, is a no-op.
    pub fn deallocate(&mut self, ptr: usize)
        requires
            old(self)@.inv(),
            ptr == 0 || !old(self)@.initialized || old(self)@.is_live(ptr as int),
        ensures
            final(self)@.inv(),
            old(self)@.dealloc_post(ptr as int, final(self)@),
    {
        if ptr == 0 || !self.initialized {
            return ;
        }
        let ghost pre = self@;
        let h = ptr - HEADER_SIZE;
        proof {
            assert(pre.block_ok(h as int, pre.used[h as int]));
        }
        let size = load_size(&self.mem, h - self.heap_start) as usize;
        let mut j: usize = 0;
        while j < self.free_list.len() && self.free_list[j].addr < h
            invariant
                self@ == pre,
                j <= self.free_list@.len(),
                forall|k: int| 0 <= k < j ==> #[trigger] self.free_list@[k].addr < h,
            decreases self.free_list@.len() - j,
        {
            j += 1;
        }
        let block = FreeBlock { addr: h, size };
        self.free_list.insert(j, block);
        self.used = Ghost(self.used@.remove(h as int));
        proof {
            let s = self.free_list@;
            let o = pre.free;
            assert(ordered(s)) by {
                assert forall|k: int, l: int| 0 <= k < l < s.len() implies #[trigger] s[k].end()
                    <= #[trigger] s[l].addr by {
                    if k < j && l == j {
                        assert(disjoint(h as int, size as int, o[k].addr as int, o[k].size as int));
                    } else if k == j {
                        assert(disjoint(h as int, size as int, o[l - 1].addr as int, o[l - 1].size as int));
                        if l - 1 > j {
                            assert(o[j as int].end() < o[l - 1].addr);
                        }
                    } else if l < j {
                        assert(o[k].end() < o[l].addr);
                    } else if k < j {
                        assert(o[k].end() < o[l - 1].addr);
                    } else {
                        assert(o[k - 1].end() < o[l - 1].addr);
                    }
                }
            }
            assert(blocks_within(s, pre.heap_start, pre.heap_end)) by {
                assert forall|k: int| 0 <= k < s.len() implies block_within(s[k], pre.heap_start, pre.heap_end) by {
                    if k < j {
                        assert(pre.block_ok(o[k].addr as int, o[k].size as int));
                    } else if k > j {
                        assert(pre.block_ok(o[k - 1].addr as int, o[k - 1].size as int));
                    }
                }
            }
            assert forall|x: int| covers(s, x) <==> covers(o, x) || in_range(h as int, size as int, x) by {
                if covers(s, x) {
                    let k = choose|k: int| 0 <= k < s.len() && in_range(#[trigger] s[k].addr as int, s[k].size as int, x);
                    if k < j {
                        assert(in_range(o[k].addr as int, o[k].size as int, x));
                    } else if k > j {
                        assert(in_range(o[k - 1].addr as int, o[k - 1].size as int, x));
                    }
                }
                if covers(o, x) {
                    let k = choose|k: int| 0 <= k < o.len() && in_range(#[trigger] o[k].addr as int, o[k].size as int, x);
                    if k < j {
                        assert(in_range(s[k].addr as int, s[k].size as int, x));
                    } else {
                        assert(in_range(s[k + 1].addr as int, s[k + 1].size as int, x));
                    }
                }
                if in_range(h as int, size as int, x) {
                    assert(in_range(s[j as int].addr as int, s[j as int].size as int, x));
                }
            }
        }
        self.coalesce();
        proof {
            lemma_dealloc_inv(pre, ptr as int, self@);
        }
    }

    /// Writes `data` at the start of the payload of the live block `ptr`.
    pub fn write(&mut self, ptr: usize, data: &[u8])
        requires
            old(self)@.inv(),
            old(self)@.is_live(ptr as int),
            data@.len() <= old(self)@.payload_size(ptr as int),
        ensures
            final(self)@.inv(),
            final(self)@ == old(self)@.with_mem(
                overwrite(old(self)@.mem, old(self)@.offset(ptr as int), data@),
            ),
    {
        proof {
            let h = ptr - HEADER_SIZE;
            assert(self@.block_ok(h, self@.used[h]));
            lemma_payload_write(self@, ptr as int, self@.offset(ptr as int), data@);
        }
        put_bytes(&mut self.mem, ptr - self.heap_start, data);
    }

    /// The first `len` payload bytes of the live block `ptr`.
    pub fn read(&self, ptr: usize, len: usize) -> (r: Vec<u8>)
        requires
            self@.inv(),
            self@.is_live(ptr as int),
            len <= self@.payload_size(ptr as int),
        ensures
            r@ == self@.mem.subrange(self@.offset(ptr as int), self@.offset(ptr as int) + len),
    {
        proof {
            let h = ptr - HEADER_SIZE;
            assert(self@.block_ok(h, self@.used[h]));
        }
        get_bytes(&self.mem, ptr - self.heap_start, len)
    }

    /// `allocate`, with the `size` bytes of the payload set to zero.
    pub fn allocate_zeroed(&mut self, size: usize, align: usize) -> (r: usize)
        requires
            old(self)@.inv(),
        ensures
            final(self)@.inv(),
            (final(self)@, r as int) == old(self)@.alloc_zeroed_spec(size as int, align as int),
            r != 0 ==> (r as int) % effective_align(align as int) == 0,
    {
        let r = self.allocate(size, align);
        if r != 0 {
            proof {
                lemma_alloc_fits(old(self)@, size as int, align as int);
            }
            let zeros = vec![0u8; size];
            proof {
                assert(zeros@ =~= Seq::new(size as nat, |k: int| 0u8));
            }
            self.write(r, zeros.as_slice());
        }
        r
    }

    /// Payload bytes of the live block `ptr`.
    pub fn payload_size(&self, ptr: usize) -> (r: usize)
        requires
            self@.inv(),
            self@.is_live(ptr as int),
        ensures
            r == self@.payload_size(ptr as int),
    {
        let h = ptr - HEADER_SIZE;
        proof {
            assert(self@.block_ok(h as int, self@.used[h as int]));
        }
        load_size(&self.mem, h - self.heap_start) as usize - HEADER_SIZE
    }

    /// Makes the live block `ptr` hold `new_size` bytes. A size of zero frees
    /// it; a null `ptr` is a plain allocation; a size that the payload already
    /// holds keeps the block as it is. Otherwise a new block is allocated, the
    /// old payload copied into it and the old block freed; where no new block
    /// can be had, 0 is returned and the old block stays as it was.
    pub fn resize(&mut self, ptr: usize, align: usize, new_size: usize) -> (r: usize)
        requires
            old(self)@.inv(),
            ptr == 0 || old(self)@.is_live(ptr as int),
        ensures
            final(self)@.inv(),
            old(self)@.resize_post(ptr as int, align as int, new_size as int, final(self)@, r as int),
            r != 0 && r != ptr ==> (r as int) % effective_align(align as int) == 0,
    {
        if new_size == 0 {
            self.deallocate(ptr);
            return 0;
        }
        if ptr == 0 {
            return self.allocate(new_size, align);
        }
        let old_size = self.payload_size(ptr);
        if new_size <= old_size {
            return ptr;
        }
        let ghost pre = self@;
        let q = self.allocate(new_size, align);
        if q == 0 {
            return 0;
        }
        proof {
            lemma_alloc_fits(pre, new_size as int, align as int);
            lemma_alloc_keeps_live(pre, new_size as int, align as int, ptr as int);
        }
        let content = self.read(ptr, old_size);
        proof {
            assert(content@ =~= pre.payload(ptr as int));
        }
        self.write(q, content.as_slice());
        self.deallocate(ptr);
        q
    }

    pub fn is_initialized(&self) -> (r: bool)
        ensures
            r == self@.initialized,
    {
        self.initialized
    }

    /// The free list, in order.
    pub fn free_blocks(&self) -> (r: &Vec<FreeBlock>)
        ensures
            r@ == self@.free,
    {
        &self.free_list
    }

    /// Merges every run of touching free blocks into one, in a single pass.
    fn coalesce(&mut self)
        requires
            ordered(old(self).free_list@),
            blocks_within(old(self).free_list@, old(self).heap_start as int, old(self).heap_end as int),
        ensures
            final(self).heap_start == old(self).heap_start,
            final(self).heap_end == old(self).heap_end,
            final(self).initialized == old(self).initialized,
            final(self).mem == old(self).mem,
            final(self).used == old(self).used,
            ordered_apart(final(self).free_list@),
            blocks_within(final(self).free_list@, old(self).heap_start as int, old(self).heap_end as int),
            forall|x: int| covers(final(self).free_list@, x) <==> covers(old(self).free_list@, x),
    {
        let ghost hs = self.heap_start as int;
        let ghost he = self.heap_end as int;
        let mut i: usize = 0;
        while i < self.free_list.len() && i + 1 < self.free_list.len()
            invariant
                self.heap_start == old(self).heap_start,
                self.heap_end == old(self).heap_end,
                self.initialized == old(self).initialized,
                self.mem == old(self).mem,
                self.used == old(self).used,
                hs == self.heap_start,
                he == self.heap_end,
                he <= usize::MAX,
                ordered(self.free_list@),
                blocks_within(self.free_list@, hs, he),
                forall|k: int|
                    0 <= k < i && k + 1 < self.free_list@.len() ==> #[trigger] self.free_list@[k].end()
                        < self.free_list@[k + 1].addr,
                forall|x: int| covers(self.free_list@, x) <==> covers(old(self).free_list@, x),
            decreases 2 * self.free_list@.len() - i,
        {
            let cur = self.free_list[i];
            let next = self.free_list[i + 1];
            proof {
                assert(block_within(cur, hs, he));
                assert(block_within(next, hs, he));
            }
            if cur.addr + cur.size == next.addr {
                let ghost s0 = self.free_list@;
                let merged = FreeBlock { addr: cur.addr, size: cur.size + next.size };
                self.free_list.set(i, merged);
                self.free_list.remove(i + 1);
                proof {
                    lemma_merge_step(s0, self.free_list@, i as int, hs, he);
                }
            } else {
                i += 1;
            }
        }
        proof {
            let s = self.free_list@;
            assert forall|k: int, l: int| 0 <= k < l < s.len() implies #[trigger] s[k].end()
                < #[trigger] s[l].addr by {
                assert(s[k].end() < s[k + 1].addr);
                assert(block_within(s[k + 1], hs, he));
                if k + 1 < l {
                    assert(s[k + 1].end() <= s[l].addr);
                }
            }
        }
    }
}

/// The smallest multiple of `align` that is at least `addr`, where it fits.
fn align_up(addr: usize, align: usize) -> (r: Option<usize>)
    requires
        align > 0,
    ensures
        r matches Some(v) ==> v == round_up(addr as int, align as int),
        r is None ==> round_up(addr as int, align as int) > usize::MAX,
{
    let rem = addr % align;
    if rem == 0 {
        Some(addr)
    } else if addr > usize::MAX - (align - rem) {
        None
    } else {
        Some(addr + (align - rem))
    }
}

/// The payload's place in `b` for a request of `rounded` bytes aligned to
/// `a`, where the request fits.
fn place_in(b: FreeBlock, a: usize, rounded: usize) -> (r: Option<usize>)
    requires
        a >= MIN_ALIGN,
        b.end() <= usize::MAX,
    ensures
        r matches Some(d) ==> d == place(b, a as int) && d + rounded <= b.end(),
        r is None ==> place(b, a as int) + rounded > b.end(),
{
    proof {
        lemma_place(b, a as int);
    }
    let b_end = b.addr + b.size;
    if b.addr > usize::MAX - HEADER_SIZE {
        return None;
    }
    let x = b.addr + HEADER_SIZE;
    let d0 = match align_up(x, a) {
        Some(v) => v,
        None => return None,
    };
    let d = if d0 - HEADER_SIZE == b.addr || d0 - HEADER_SIZE - b.addr >= MIN_BLOCK_SIZE {
        d0
    } else {
        if x > usize::MAX - MIN_BLOCK_SIZE {
            return None;
        }
        match align_up(x + MIN_BLOCK_SIZE, a) {
            Some(v) => v,
            None => return None,
        }
    };
    if d > b_end || rounded > b_end - d {
        None
    } else {
        Some(d)
    }
}

/// Writes `data` into `mem` from offset `off` on.
fn put_bytes(mem: &mut Vec<u8>, off: usize, data: &[u8])
    requires
        off + data@.len() <= old(mem)@.len(),
    ensures
        final(mem)@ == overwrite(old(mem)@, off as int, data@),
{
    let mut k: usize = 0;
    while k < data.len()
        invariant
            k <= data@.len(),
            off + data@.len() <= mem.len(),
            mem@.len() == old(mem)@.len(),
            forall|j: int|
                0 <= j < mem@.len() ==> #[trigger] mem@[j] == if off <= j < off + k {
                    data@[j - off]
                } else {
                    old(mem)@[j]
                },
        decreases data@.len() - k,
    {
        mem.set(off + k, data[k]);
        k += 1;
    }
    assert(mem@ =~= overwrite(old(mem)@, off as int, data@));
}

/// The `n` bytes of `mem` from offset `off` on.
fn get_bytes(mem: &Vec<u8>, off: usize, n: usize) -> (r: Vec<u8>)
    requires
        off + n <= mem@.len(),
    ensures
        r@ == mem@.subrange(off as int, off + n),
{
    let mut r: Vec<u8> = Vec::with_capacity(n);
    let mut k: usize = 0;
    while k < n
        invariant
            k <= n,
            off + n <= mem.len(),
            r@ == mem@.subrange(off as int, off + k),
        decreases n - k,
    {
        r.push(mem[off + k]);
        k += 1;
        assert(r@ =~= mem@.subrange(off as int, off + k));
    }
    r
}

/// The size recorded in the header at offset `off` of the heap's bytes.
fn load_size(mem: &Vec<u8>, off: usize) -> (r: u64)
    requires
        off + 8 <= mem.len(),
    ensures
        r == header_value(mem@, off as int),
{
    (mem[off] as u64) | ((mem[off + 1] as u64) << 8u64) | ((mem[off + 2] as u64) << 16u64) | ((mem[off
        + 3] as u64) << 24u64) | ((mem[off + 4] as u64) << 32u64) | ((mem[off + 5] as u64) << 40u64)
        | ((mem[off + 6] as u64) << 48u64) | ((mem[off + 7] as u64) << 56u64)
}

/// Records `v` in the header at offset `off` of the heap's bytes.
fn store_size(mem: &mut Vec<u8>, off: usize, v: usize)
    requires
        off + 8 <= old(mem).len(),
    ensures
        final(mem)@ == write_header(old(mem)@, off as int, v as u64),
{
    let x = v as u64;
    let mut k: usize = 0;
    while k < 8
        invariant
            k <= 8,
            off + 8 <= mem.len(),
            mem@.len() == old(mem)@.len(),
            forall|j: int|
                0 <= j < mem@.len() ==> #[trigger] mem@[j] == if off <= j < off + k {
                    size_byte(x, j - off)
                } else {
                    old(mem)@[j]
                },
        decreases 8 - k,
    {
        let byte = (#[verifier::truncate] (((x >> ((8 * k) as u64)) & 0xff) as u8));
        mem.set(off + k, byte);
        k += 1;
    }
    assert(mem@ =~= write_header(old(mem)@, off as int, x));
}

} // verus!
