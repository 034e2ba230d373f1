//! The guest heap manager: a block allocator over the flat byte buffer that
//! stands for a plugin's linear memory.
//!
//! Host and guest exchange variable-length data only through integer offsets
//! into this buffer. The allocator keeps a block table; every other component
//! validates an offset against that table before touching memory, which is
//! what keeps a hostile guest from turning an integer into an out-of-bounds
//! host access.

use vstd::prelude::*;

use crate::error::RuntimeError;

verus! {

/// Largest admissible size of a linear memory: the range of a 32-bit guest
/// pointer. Every block offset and length fits in `usize` and in `i64`.
pub const MEMORY_LIMIT: usize = 0xffff_ffff;

/// One allocation inside the guest's linear memory.
///
/// Offset 0 is never a valid allocation; it is the universal "absent"
/// sentinel across every host function that takes or returns an offset.
#[derive(Clone, Copy, Debug, PartialEq, Eq, Structural)]
pub struct MemoryBlock {
    pub offset: usize,
    pub length: usize,
}

/// One row of the allocator's block table. Rows are never removed: freeing a
/// block clears `live`, and a later allocation of the same length reclaims
/// the row, so alloc/free cycles of one size do not grow the table.
#[derive(Clone, Copy)]
struct BlockEntry {
    offset: usize,
    length: usize,
    live: bool,
}

/// Bytes a block occupies in the buffer: a zero-length block still holds a
/// one-byte slot, so that every live block has a distinct offset.
pub open spec fn slot_size(length: int) -> int {
    if length == 0 {
        1
    } else {
        length
    }
}

spec fn seq_is_live(t: Seq<BlockEntry>, off: int) -> bool {
    exists|i: int| 0 <= i < t.len() && (#[trigger] t[i]).live && t[i].offset == off
}

spec fn seq_live_idx(t: Seq<BlockEntry>, off: int) -> int {
    choose|i: int| 0 <= i < t.len() && (#[trigger] t[i]).live && t[i].offset == off
}

spec fn seq_has_free(t: Seq<BlockEntry>, size: int) -> bool {
    exists|i: int| 0 <= i < t.len() && !(#[trigger] t[i]).live && t[i].length == size
}

spec fn seq_entries_wf(t: Seq<BlockEntry>, size: int) -> bool {
    &&& (forall|i: int|
        0 <= i < t.len() ==> 1 <= (#[trigger] t[i]).offset && t[i].offset + slot_size(
            t[i].length as int,
        ) <= size)
    &&& (forall|i: int, j: int|
        #![trigger t[i], t[j]]
        0 <= i < j < t.len() ==> t[i].offset + slot_size(t[i].length as int) <= t[j].offset)
}

/// `m` with `bs` written at `off`, all other bytes unchanged.
pub open spec fn written(m: Seq<u8>, off: int, bs: Seq<u8>) -> Seq<u8> {
    Seq::new(
        m.len(),
        |k: int|
            if off <= k < off + bs.len() {
                bs[k - off]
            } else {
                m[k]
            },
    )
}

/// The little-endian bytes of a 32-bit value.
pub open spec fn le_bytes_u32(v: u32) -> Seq<u8> {
    seq![v as u8, (v >> 8) as u8, (v >> 16) as u8, (v >> 24) as u8]
}

/// The 32-bit value read little-endian from four bytes.
pub open spec fn le_u32(b: Seq<u8>) -> u32
    recommends
        b.len() == 4,
{
    (b[0] as u32) | ((b[1] as u32) << 8) | ((b[2] as u32) << 16) | ((b[3] as u32) << 24)
}

/// The little-endian bytes of a 64-bit value.
pub open spec fn le_bytes_u64(v: u64) -> Seq<u8> {
    seq![
        v as u8,
        (v >> 8) as u8,
        (v >> 16) as u8,
        (v >> 24) as u8,
        (v >> 32) as u8,
        (v >> 40) as u8,
        (v >> 48) as u8,
        (v >> 56) as u8,
    ]
}

/// The 64-bit value read little-endian from eight bytes.
pub open spec fn le_u64(b: Seq<u8>) -> u64
    recommends
        b.len() == 8,
{
    (b[0] as u64) | ((b[1] as u64) << 8) | ((b[2] as u64) << 16) | ((b[3] as u64) << 24) | ((b[4]
        as u64) << 32) | ((b[5] as u64) << 40) | ((b[6] as u64) << 48) | ((b[7] as u64) << 56)
}

/// Encoding and decoding a 32-bit value little-endian are inverses: a
/// typed store followed by a typed load of the same offset yields the
/// stored value.
pub proof fn lemma_le32_round_trip(v: u32)
    ensures
        le_u32(le_bytes_u32(v)) == v,
{
    assert(((v as u8) as u32) | ((((v >> 8) as u8) as u32) << 8) | ((((v >> 16) as u8) as u32)
        << 16) | ((((v >> 24) as u8) as u32) << 24) == v) by (bit_vector);
}

/// Encoding and decoding a 64-bit value little-endian are inverses.
pub proof fn lemma_le64_round_trip(v: u64)
    ensures
        le_u64(le_bytes_u64(v)) == v,
{
    assert(((v as u8) as u64) | ((((v >> 8) as u8) as u64) << 8) | ((((v >> 16) as u8) as u64)
        << 16) | ((((v >> 24) as u8) as u64) << 24) | ((((v >> 32) as u8) as u64) << 32) | ((((v
        >> 40) as u8) as u64) << 40) | ((((v >> 48) as u8) as u64) << 48) | ((((v >> 56) as u8)
        as u64) << 56) == v) by (bit_vector);
}

/// Reading back the range just written sees exactly the written bytes.
pub proof fn lemma_written_read(m: Seq<u8>, off: int, bs: Seq<u8>)
    requires
        0 <= off,
        off + bs.len() <= m.len(),
    ensures
        written(m, off, bs).subrange(off, off + bs.len() as int) == bs,
{
    assert(written(m, off, bs).subrange(off, off + bs.len() as int) =~= bs);
}

/// The allocator and the linear memory it manages.
pub struct PluginMemory {
    data: Vec<u8>,
    table: Vec<BlockEntry>,
}

impl PluginMemory {
    /// The linear memory's bytes.
    pub closed spec fn mem(self) -> Seq<u8> {
        self.data@
    }

    /// Current size of the linear memory.
    pub open spec fn size(self) -> int {
        self.mem().len() as int
    }

    pub closed spec fn is_live(self, off: int) -> bool {
        seq_is_live(self.table@, off)
    }

    pub closed spec fn live_len(self, off: int) -> int {
        self.table@[seq_live_idx(self.table@, off)].length as int
    }

    /// The live block table: each live block's offset, mapped to its length.
    pub open spec fn live_map(self) -> Map<int, int> {
        Map::new(|off: int| self.is_live(off), |off: int| self.live_len(off))
    }

    /// The bytes of the live block at `off`.
    pub open spec fn live_bytes(self, off: int) -> Seq<u8> {
        self.mem().subrange(off, off + self.live_map()[off])
    }

    /// `width` bytes starting at `off` lie inside a single live block.
    pub open spec fn in_live_block(self, off: int, width: int) -> bool {
        exists|b: int|
            (#[trigger] self.live_map().dom().contains(b)) && b <= off && off + width <= b
                + self.live_map()[b]
    }

    pub closed spec fn has_free_entry(self, size: int) -> bool {
        seq_has_free(self.table@, size)
    }

    /// When an allocation of `size` bytes succeeds: a freed row of the exact
    /// length can be reclaimed, or the buffer can still grow by one slot.
    pub open spec fn can_alloc(self, size: int) -> bool {
        self.has_free_entry(size) || self.size() + slot_size(size) <= MEMORY_LIMIT as int
    }

    /// Every block lies in the buffer past offset 0, and blocks are disjoint.
    pub closed spec fn wf(self) -> bool {
        &&& 1 <= self.size() <= MEMORY_LIMIT as int
        &&& seq_entries_wf(self.table@, self.size())
    }

    proof fn lemma_entry_unique(self, i: int, j: int)
        requires
            self.wf(),
            0 <= i < self.table@.len(),
            0 <= j < self.table@.len(),
            self.table@[i].offset == self.table@[j].offset,
        ensures
            i == j,
    {
        if i < j {
            assert(self.table@[i].offset + slot_size(self.table@[i].length as int)
                <= self.table@[j].offset);
            assert(false);
        }
        if j < i {
            assert(self.table@[j].offset + slot_size(self.table@[j].length as int)
                <= self.table@[i].offset);
            assert(false);
        }
    }

    /// A live table row is what the live map reports at its offset.
    proof fn lemma_entry_live(self, i: int)
        requires
            self.wf(),
            0 <= i < self.table@.len(),
            self.table@[i].live,
        ensures
            self.live_map().dom().contains(self.table@[i].offset as int),
            self.live_map()[self.table@[i].offset as int] == self.table@[i].length as int,
    {
        let off = self.table@[i].offset as int;
        assert(seq_is_live(self.table@, off));
        let j = seq_live_idx(self.table@, off);
        assert(0 <= j < self.table@.len() && self.table@[j].live && self.table@[j].offset == off);
        self.lemma_entry_unique(i, j);
    }

    /// The live map's entry at `off` comes from one live table row.
    proof fn lemma_live_entry(self, off: int) -> (i: int)
        requires
            self.wf(),
            self.live_map().dom().contains(off),
        ensures
            0 <= i < self.table@.len(),
            self.table@[i].live,
            self.table@[i].offset == off,
            self.live_map()[off] == self.table@[i].length as int,
    {
        let i = seq_live_idx(self.table@, off);
        assert(0 <= i < self.table@.len() && self.table@[i].live && self.table@[i].offset == off);
        i
    }

    /// A live block lies wholly inside the buffer, past the sentinel offset.
    pub proof fn lemma_live_block_bounds(self, off: int)
        requires
            self.wf(),
            self.live_map().dom().contains(off),
        ensures
            1 <= off,
            0 <= self.live_map()[off],
            off + self.live_map()[off] <= self.size(),
            self.size() <= MEMORY_LIMIT as int,
    {
        let i = self.lemma_live_entry(off);
        assert(1 <= self.table@[i].offset && self.table@[i].offset + slot_size(
            self.table@[i].length as int,
        ) <= self.size());
    }

    /// Allocator correctness: two distinct live blocks never overlap.
    pub proof fn lemma_live_blocks_disjoint(self, a: int, b: int)
        requires
            self.wf(),
            self.live_map().dom().contains(a),
            self.live_map().dom().contains(b),
            a != b,
        ensures
            a + self.live_map()[a] <= b || b + self.live_map()[b] <= a,
    {
        let i = self.lemma_live_entry(a);
        let j = self.lemma_live_entry(b);
        if i == j {
            assert(false);
        }
        if i < j {
            assert(self.table@[i].offset + slot_size(self.table@[i].length as int)
                <= self.table@[j].offset);
        } else {
            assert(self.table@[j].offset + slot_size(self.table@[j].length as int)
                <= self.table@[i].offset);
        }
    }

    /// Offset 0 never names a live block: it is the "absent" sentinel.
    pub proof fn lemma_zero_never_live(self)
        requires
            self.wf(),
        ensures
            !self.live_map().dom().contains(0),
    {
        if self.live_map().dom().contains(0) {
            let i = self.lemma_live_entry(0);
            assert(1 <= self.table@[i].offset);
        }
    }

    /// Any in-bounds access through a live block stays inside the buffer.
    pub proof fn lemma_access_in_range(self, off: int, width: int)
        requires
            self.wf(),
            self.in_live_block(off, width),
            0 <= width,
        ensures
            1 <= off,
            off + width <= self.size(),
            self.size() <= MEMORY_LIMIT as int,
    {
        let b = choose|b: int|
            (#[trigger] self.live_map().dom().contains(b)) && b <= off && off + width <= b
                + self.live_map()[b];
        self.lemma_live_block_bounds(b);
    }

    /// A fresh linear memory: one reserved sentinel byte, no blocks.
    pub fn new() -> (r: Self)
        ensures
            r.wf(),
            r.live_map() == Map::<int, int>::empty(),
            r.size() == 1,
    {
        let mut data: Vec<u8> = Vec::new();
        data.push(0);
        let r = PluginMemory { data, table: Vec::new() };
        proof {
            assert(r.live_map() =~= Map::<int, int>::empty());
        }
        r
    }

    /// Drop every block and shrink the buffer back to its fresh state.
    pub fn reset(&mut self)
        ensures
            final(self).wf(),
            final(self).live_map() == Map::<int, int>::empty(),
            final(self).size() == 1,
    {
        self.data.clear();
        self.data.push(0);
        self.table.clear();
        proof {
            assert(self.live_map() =~= Map::<int, int>::empty());
        }
    }

    /// The live block's length at `offset`, or `None` for any offset that
    /// names no live block — freed, never allocated, or the sentinel 0. This
    /// is the single source of truth every component uses to validate an
    /// offset before touching memory.
    pub fn block_length(&self, offset: usize) -> (r: Option<usize>)
        requires
            self.wf(),
        ensures
            match r {
                Some(l) => self.live_map().dom().contains(offset as int) && l
                    == self.live_map()[offset as int],
                None => !self.live_map().dom().contains(offset as int),
            },
    {
        let n = self.table.len();
        let mut i: usize = 0;
        while i < n
            invariant
                self.wf(),
                n == self.table@.len(),
                i <= n,
                forall|k: int|
                    0 <= k < i ==> !((#[trigger] self.table@[k]).live && self.table@[k].offset
                        == offset),
            decreases n - i,
        {
            let e = self.table[i];
            if e.live && e.offset == offset {
                proof {
                    self.lemma_entry_live(i as int);
                }
                return Some(e.length);
            }
            i += 1;
        }
        proof {
            if self.live_map().dom().contains(offset as int) {
                let j = self.lemma_live_entry(offset as int);
            }
        }
        None
    }

    /// Reserve a block of `size` bytes. The new block is disjoint from every
    /// live block, whose bytes it leaves untouched. Fails exactly when no
    /// freed row of this length exists and the buffer cannot grow.
    pub fn allocate(&mut self, size: usize) -> (r: Result<MemoryBlock, RuntimeError>)
        requires
            old(self).wf(),
        ensures
            final(self).wf(),
            r is Ok <==> old(self).can_alloc(size as int),
            match r {
                Ok(b) => {
                    &&& b.length == size
                    &&& 1 <= b.offset
                    &&& b.offset + size <= final(self).size()
                    &&& !old(self).live_map().dom().contains(b.offset as int)
                    &&& final(self).live_map() == old(self).live_map().insert(
                        b.offset as int,
                        size as int,
                    )
                    &&& final(self).size() >= old(self).size()
                    &&& forall|off: int|
                        old(self).live_map().dom().contains(off) ==> final(self).live_bytes(off)
                            == old(self).live_bytes(off)
                },
                Err(e) => e == RuntimeError::AllocationFailed && *final(self) == *old(self),
            },
    {
        let n = self.table.len();
        let mut i: usize = 0;
        while i < n
            invariant
                *self == *old(self),
                old(self).wf(),
                n == self.table@.len(),
                i <= n,
                forall|k: int|
                    0 <= k < i ==> ((#[trigger] self.table@[k]).live || self.table@[k].length
                        != size),
            decreases n - i,
        {
            let e = self.table[i];
            if !e.live && e.length == size {
                self.table[i] = BlockEntry { offset: e.offset, length: e.length, live: true };
                proof {
                    self.lemma_after_revive(*old(self), i as int);
                }
                return Ok(MemoryBlock { offset: e.offset, length: e.length });
            }
            i += 1;
        }
        // no reusable row: place a fresh block at the end of the buffer
        proof {
            assert(!old(self).has_free_entry(size as int));
        }
        let offset = self.data.len();
        if size > MEMORY_LIMIT {
            return Err(RuntimeError::AllocationFailed);
        }
        let slot: usize = if size == 0 {
            1
        } else {
            size
        };
        if offset > MEMORY_LIMIT - slot {
            return Err(RuntimeError::AllocationFailed);
        }
        let new_size = offset + slot;
        self.data.resize(new_size, 0u8);
        self.table.push(BlockEntry { offset, length: size, live: true });
        proof {
            self.lemma_after_push(*old(self), offset as int, size as int);
        }
        Ok(MemoryBlock { offset, length: size })
    }

    /// After reviving the freed row `i`, the live map gains that block and
    /// nothing else changes.
    proof fn lemma_after_revive(self, pre: Self, i: int)
        requires
            pre.wf(),
            0 <= i < pre.table@.len(),
            !pre.table@[i].live,
            self.data == pre.data,
            self.table@ == pre.table@.update(
                i,
                BlockEntry {
                    offset: pre.table@[i].offset,
                    length: pre.table@[i].length,
                    live: true,
                },
            ),
        ensures
            self.wf(),
            !pre.live_map().dom().contains(pre.table@[i].offset as int),
            self.live_map() == pre.live_map().insert(
                pre.table@[i].offset as int,
                pre.table@[i].length as int,
            ),
            forall|off: int|
                pre.live_map().dom().contains(off) ==> self.live_bytes(off) == pre.live_bytes(off),
    {
        let e = pre.table@[i];
        let off_i = e.offset as int;
        assert(seq_entries_wf(self.table@, self.size())) by {
            assert forall|k: int| 0 <= k < self.table@.len() implies 1 <= (
            #[trigger] self.table@[k]).offset && self.table@[k].offset + slot_size(
                self.table@[k].length as int,
            ) <= self.size() by {
                assert(self.table@[k].offset == pre.table@[k].offset && self.table@[k].length
                    == pre.table@[k].length);
            }
            assert forall|k: int, j: int|
                #![trigger self.table@[k], self.table@[j]]
                0 <= k < j < self.table@.len() implies self.table@[k].offset + slot_size(
                self.table@[k].length as int,
            ) <= self.table@[j].offset by {
                assert(pre.table@[k].offset + slot_size(pre.table@[k].length as int)
                    <= pre.table@[j].offset);
            }
        }
        if pre.live_map().dom().contains(off_i) {
            let j = pre.lemma_live_entry(off_i);
            pre.lemma_entry_unique(i, j);
            assert(false);
        }
        self.lemma_entry_live(i);
        let m1 = self.live_map();
        let m2 = pre.live_map().insert(off_i, e.length as int);
        assert forall|off: int| #[trigger] m1.dom().contains(off) implies m2.dom().contains(off)
            && m1[off] == m2[off] by {
            if off != off_i {
                let k = self.lemma_live_entry(off);
                assert(pre.table@[k].live && pre.table@[k].offset == off);
                pre.lemma_entry_live(k);
            }
        }
        assert forall|off: int| #[trigger] m2.dom().contains(off) implies m1.dom().contains(
            off,
        ) by {
            if off != off_i {
                let k = pre.lemma_live_entry(off);
                assert(self.table@[k].live && self.table@[k].offset == off);
                self.lemma_entry_live(k);
            }
        }
        assert(m1 =~= m2);
        assert forall|off: int| pre.live_map().dom().contains(off) implies self.live_bytes(off) == pre.live_bytes(
            off,
        ) by {
            assert(self.mem() == pre.mem());
        }
    }

    /// After appending a fresh live row at the old end of the buffer, the
    /// live map gains that block and every old block keeps its bytes.
    proof fn lemma_after_push(self, pre: Self, offset: int, size: int)
        requires
            pre.wf(),
            !pre.has_free_entry(size),
            offset == pre.size(),
            0 <= size,
            self.size() == offset + slot_size(size),
            self.size() <= MEMORY_LIMIT as int,
            self.mem().subrange(0, pre.size()) == pre.mem(),
            self.table@ == pre.table@.push(
                BlockEntry { offset: offset as usize, length: size as usize, live: true },
            ),
        ensures
            self.wf(),
            !pre.live_map().dom().contains(offset),
            self.live_map() == pre.live_map().insert(offset, size),
            forall|off: int|
                pre.live_map().dom().contains(off) ==> self.live_bytes(off) == pre.live_bytes(off),
    {
        let n = pre.table@.len() as int;
        assert(seq_entries_wf(self.table@, self.size())) by {
            assert forall|k: int| 0 <= k < self.table@.len() implies 1 <= (
            #[trigger] self.table@[k]).offset && self.table@[k].offset + slot_size(
                self.table@[k].length as int,
            ) <= self.size() by {
                if k < n {
                    assert(pre.table@[k].offset + slot_size(pre.table@[k].length as int)
                        <= pre.size());
                }
            }
            assert forall|k: int, j: int|
                #![trigger self.table@[k], self.table@[j]]
                0 <= k < j < self.table@.len() implies self.table@[k].offset + slot_size(
                self.table@[k].length as int,
            ) <= self.table@[j].offset by {
                if j < n {
                    assert(pre.table@[k].offset + slot_size(pre.table@[k].length as int)
                        <= pre.table@[j].offset);
                } else {
                    assert(pre.table@[k].offset + slot_size(pre.table@[k].length as int)
                        <= pre.size());
                }
            }
        }
        if pre.live_map().dom().contains(offset) {
            let j = pre.lemma_live_entry(offset);
            assert(pre.table@[j].offset + slot_size(pre.table@[j].length as int) <= pre.size());
            assert(false);
        }
        self.lemma_entry_live(n);
        let m1 = self.live_map();
        let m2 = pre.live_map().insert(offset, size);
        assert forall|off: int| #[trigger] m1.dom().contains(off) implies m2.dom().contains(off)
            && m1[off] == m2[off] by {
            if off != offset {
                let k = self.lemma_live_entry(off);
                assert(k < n);
                assert(pre.table@[k].live && pre.table@[k].offset == off);
                pre.lemma_entry_live(k);
            }
        }
        assert forall|off: int| #[trigger] m2.dom().contains(off) implies m1.dom().contains(
            off,
        ) by {
            if off != offset {
                let k = pre.lemma_live_entry(off);
                assert(self.table@[k].live && self.table@[k].offset == off);
                self.lemma_entry_live(k);
            }
        }
        assert(m1 =~= m2);
        assert forall|off: int| pre.live_map().dom().contains(off) implies self.live_bytes(off) == pre.live_bytes(
            off,
        ) by {
            pre.lemma_live_block_bounds(off);
            assert(self.live_bytes(off) =~= pre.live_bytes(off));
        }
    }

    /// Release the block at `offset`. Freeing the sentinel 0 or an offset
    /// that names no live block is a no-op, never a fault. The freed row
    /// stays reclaimable for an allocation of the same length.
    pub fn free(&mut self, offset: usize)
        requires
            old(self).wf(),
        ensures
            final(self).wf(),
            final(self).live_map() == old(self).live_map().remove(offset as int),
            final(self).mem() == old(self).mem(),
            old(self).live_map().dom().contains(offset as int) ==> final(self).has_free_entry(
                old(self).live_map()[offset as int],
            ),
            forall|s: int| old(self).can_alloc(s) ==> final(self).can_alloc(s),
            forall|off: int|
                final(self).live_map().dom().contains(off) ==> final(self).live_bytes(off) == old(
                    self,
                ).live_bytes(off),
    {
        let n = self.table.len();
        let mut i: usize = 0;
        while i < n
            invariant
                *self == *old(self),
                old(self).wf(),
                n == self.table@.len(),
                i <= n,
                forall|k: int|
                    0 <= k < i ==> !((#[trigger] self.table@[k]).live && self.table@[k].offset
                        == offset),
            decreases n - i,
        {
            let e = self.table[i];
            if e.live && e.offset == offset {
                self.table[i] = BlockEntry { offset: e.offset, length: e.length, live: false };
                proof {
                    old(self).lemma_entry_live(i as int);
                    self.lemma_after_free(*old(self), i as int);
                }
                return ;
            }
            i += 1;
        }
        proof {
            assert(self.table@ == old(self).table@);
            if old(self).live_map().dom().contains(offset as int) {
                let j = old(self).lemma_live_entry(offset as int);
            }
            assert(self.live_map() =~= old(self).live_map().remove(offset as int));
        }
    }

    /// After clearing the live flag of row `i`, the live map loses that
    /// block, its row becomes reclaimable, and nothing else changes.
    proof fn lemma_after_free(self, pre: Self, i: int)
        requires
            pre.wf(),
            0 <= i < pre.table@.len(),
            pre.table@[i].live,
            self.data == pre.data,
            self.table@ == pre.table@.update(
                i,
                BlockEntry {
                    offset: pre.table@[i].offset,
                    length: pre.table@[i].length,
                    live: false,
                },
            ),
        ensures
            self.wf(),
            self.live_map() == pre.live_map().remove(pre.table@[i].offset as int),
            self.has_free_entry(pre.table@[i].length as int),
            forall|s: int| pre.can_alloc(s) ==> self.can_alloc(s),
            forall|off: int|
                self.live_map().dom().contains(off) ==> self.live_bytes(off) == pre.live_bytes(
                    off,
                ),
    {
        let e = pre.table@[i];
        let off_i = e.offset as int;
        assert(seq_entries_wf(self.table@, self.size())) by {
            assert forall|k: int| 0 <= k < self.table@.len() implies 1 <= (
            #[trigger] self.table@[k]).offset && self.table@[k].offset + slot_size(
                self.table@[k].length as int,
            ) <= self.size() by {
                assert(self.table@[k].offset == pre.table@[k].offset && self.table@[k].length
                    == pre.table@[k].length);
            }
            assert forall|k: int, j: int|
                #![trigger self.table@[k], self.table@[j]]
                0 <= k < j < self.table@.len() implies self.table@[k].offset + slot_size(
                self.table@[k].length as int,
            ) <= self.table@[j].offset by {
                assert(pre.table@[k].offset + slot_size(pre.table@[k].length as int)
                    <= pre.table@[j].offset);
            }
        }
        if self.live_map().dom().contains(off_i) {
            let j = self.lemma_live_entry(off_i);
            self.lemma_entry_unique(i, j);
            assert(false);
        }
        let m1 = self.live_map();
        let m2 = pre.live_map().remove(off_i);
        assert forall|off: int| #[trigger] m1.dom().contains(off) implies m2.dom().contains(off)
            && m1[off] == m2[off] by {
            let k = self.lemma_live_entry(off);
            assert(k != i);
            assert(pre.table@[k].live && pre.table@[k].offset == off);
            pre.lemma_entry_live(k);
        }
        assert forall|off: int| #[trigger] m2.dom().contains(off) implies m1.dom().contains(
            off,
        ) by {
            let k = pre.lemma_live_entry(off);
            assert(k != i);
            assert(self.table@[k].live && self.table@[k].offset == off);
            self.lemma_entry_live(k);
        }
        assert(m1 =~= m2);
        assert(!self.table@[i].live && self.table@[i].length == e.length);
        assert forall|s: int| pre.can_alloc(s) implies self.can_alloc(s) by {
            if pre.has_free_entry(s) {
                let k = choose|k: int|
                    0 <= k < pre.table@.len() && !(#[trigger] pre.table@[k]).live
                        && pre.table@[k].length == s;
                if k == i {
                    assert(false);
                } else {
                    assert(!self.table@[k].live && self.table@[k].length == s);
                }
            }
        }
        assert forall|off: int| self.live_map().dom().contains(off) implies self.live_bytes(off) == pre.live_bytes(
            off,
        ) by {
            assert(self.mem() == pre.mem());
        }
    }

    /// Index of the live table row containing `width` bytes at `offset`.
    fn find_containing(&self, offset: usize, width: usize) -> (r: Option<usize>)
        requires
            self.wf(),
            1 <= width,
        ensures
            match r {
                Some(i) => {
                    &&& i < self.table@.len()
                    &&& self.table@[i as int].live
                    &&& self.table@[i as int].offset <= offset
                    &&& offset + width <= self.table@[i as int].offset
                        + self.table@[i as int].length
                    &&& self.in_live_block(offset as int, width as int)
                },
                None => !self.in_live_block(offset as int, width as int),
            },
    {
        let n = self.table.len();
        let mut i: usize = 0;
        while i < n
            invariant
                self.wf(),
                1 <= width,
                n == self.table@.len(),
                i <= n,
                forall|k: int|
                    0 <= k < i ==> !((#[trigger] self.table@[k]).live && self.table@[k].offset
                        <= offset && offset + width <= self.table@[k].offset
                        + self.table@[k].length),
            decreases n - i,
        {
            let e = self.table[i];
            if e.live && e.offset <= offset && width <= e.length && offset - e.offset <= e.length
                - width {
                proof {
                    self.lemma_entry_live(i as int);
                    assert(self.in_live_block(offset as int, width as int));
                }
                return Some(i);
            }
            i += 1;
        }
        proof {
            if self.in_live_block(offset as int, width as int) {
                let b = choose|b: int|
                    (#[trigger] self.live_map().dom().contains(b)) && b <= offset && offset + width
                        <= b + self.live_map()[b];
                let k = self.lemma_live_entry(b);
            }
        }
        None
    }

    /// Store one byte at `offset`. Fails with a write error, and changes
    /// nothing, unless the byte lies inside a live block.
    pub fn store_u8(&mut self, offset: usize, value: u8) -> (r: Result<(), RuntimeError>)
        requires
            old(self).wf(),
        ensures
            final(self).wf(),
            final(self).live_map() == old(self).live_map(),
            final(self).size() == old(self).size(),
            r is Ok <==> old(self).in_live_block(offset as int, 1),
            r is Ok ==> final(self).mem() == written(
                old(self).mem(),
                offset as int,
                seq![value],
            ),
            r is Err ==> *final(self) == *old(self) && r == Err::<(), RuntimeError>(
                RuntimeError::WriteFailed,
            ),
    {
        match self.find_containing(offset, 1) {
            Some(i) => {
                proof {
                    self.lemma_live_block_bounds(self.table@[i as int].offset as int);
                    self.lemma_entry_live(i as int);
                }
                self.data[offset] = value;
                proof {
                    assert(self.live_map() =~= old(self).live_map());
                    assert(self.mem() =~= written(old(self).mem(), offset as int, seq![value]));
                }
                Ok(())
            },
            None => Err(RuntimeError::WriteFailed),
        }
    }

    /// Load one byte from `offset`. Fails with a read error unless the byte
    /// lies inside a live block.
    pub fn load_u8(&self, offset: usize) -> (r: Result<u8, RuntimeError>)
        requires
            self.wf(),
        ensures
            r is Ok <==> self.in_live_block(offset as int, 1),
            r matches Ok(v) ==> v == self.mem()[offset as int],
            r is Err ==> r == Err::<u8, RuntimeError>(RuntimeError::ReadFailed),
    {
        match self.find_containing(offset, 1) {
            Some(i) => {
                proof {
                    self.lemma_entry_live(i as int);
                    self.lemma_live_block_bounds(self.table@[i as int].offset as int);
                }
                Ok(self.data[offset])
            },
            None => Err(RuntimeError::ReadFailed),
        }
    }

    /// Store a 32-bit value little-endian at `offset`. Fails with a write
    /// error, and changes nothing, unless all four bytes lie inside one live
    /// block.
    pub fn store_u32(&mut self, offset: usize, value: u32) -> (r: Result<(), RuntimeError>)
        requires
            old(self).wf(),
        ensures
            final(self).wf(),
            final(self).live_map() == old(self).live_map(),
            final(self).size() == old(self).size(),
            r is Ok <==> old(self).in_live_block(offset as int, 4),
            r is Ok ==> final(self).mem() == written(
                old(self).mem(),
                offset as int,
                le_bytes_u32(value),
            ),
            r is Err ==> *final(self) == *old(self) && r == Err::<(), RuntimeError>(
                RuntimeError::WriteFailed,
            ),
    {
        match self.find_containing(offset, 4) {
            Some(i) => {
                proof {
                    self.lemma_entry_live(i as int);
                    self.lemma_live_block_bounds(self.table@[i as int].offset as int);
                }
                self.data[offset] = value as u8;
                self.data[offset + 1] = (value >> 8) as u8;
                self.data[offset + 2] = (value >> 16) as u8;
                self.data[offset + 3] = (value >> 24) as u8;
                proof {
                    assert(self.live_map() =~= old(self).live_map());
                    assert(self.mem() =~= written(
                        old(self).mem(),
                        offset as int,
                        le_bytes_u32(value),
                    ));
                }
                Ok(())
            },
            None => Err(RuntimeError::WriteFailed),
        }
    }

    /// Load a 32-bit little-endian value from `offset`. Fails with a read
    /// error unless all four bytes lie inside one live block: a partial or
    /// out-of-bounds read never returns data.
    pub fn load_u32(&self, offset: usize) -> (r: Result<u32, RuntimeError>)
        requires
            self.wf(),
        ensures
            r is Ok <==> self.in_live_block(offset as int, 4),
            r matches Ok(v) ==> v == le_u32(self.mem().subrange(offset as int, offset as int + 4)),
            r is Err ==> r == Err::<u32, RuntimeError>(RuntimeError::ReadFailed),
    {
        match self.find_containing(offset, 4) {
            Some(i) => {
                proof {
                    self.lemma_entry_live(i as int);
                    self.lemma_live_block_bounds(self.table@[i as int].offset as int);
                }
                let b0 = self.data[offset];
                let b1 = self.data[offset + 1];
                let b2 = self.data[offset + 2];
                let b3 = self.data[offset + 3];
                let v = (b0 as u32) | ((b1 as u32) << 8) | ((b2 as u32) << 16) | ((b3 as u32)
                    << 24);
                proof {
                    let s = self.mem().subrange(offset as int, offset as int + 4);
                    assert(s[0] == b0 && s[1] == b1 && s[2] == b2 && s[3] == b3);
                }
                Ok(v)
            },
            None => Err(RuntimeError::ReadFailed),
        }
    }

    /// Store a 64-bit value little-endian at `offset`. Fails with a write
    /// error, and changes nothing, unless all eight bytes lie inside one
    /// live block.
    pub fn store_u64(&mut self, offset: usize, value: u64) -> (r: Result<(), RuntimeError>)
        requires
            old(self).wf(),
        ensures
            final(self).wf(),
            final(self).live_map() == old(self).live_map(),
            final(self).size() == old(self).size(),
            r is Ok <==> old(self).in_live_block(offset as int, 8),
            r is Ok ==> final(self).mem() == written(
                old(self).mem(),
                offset as int,
                le_bytes_u64(value),
            ),
            r is Err ==> *final(self) == *old(self) && r == Err::<(), RuntimeError>(
                RuntimeError::WriteFailed,
            ),
    {
        match self.find_containing(offset, 8) {
            Some(i) => {
                proof {
                    self.lemma_entry_live(i as int);
                    self.lemma_live_block_bounds(self.table@[i as int].offset as int);
                }
                self.data[offset] = value as u8;
                self.data[offset + 1] = (value >> 8) as u8;
                self.data[offset + 2] = (value >> 16) as u8;
                self.data[offset + 3] = (value >> 24) as u8;
                self.data[offset + 4] = (value >> 32) as u8;
                self.data[offset + 5] = (value >> 40) as u8;
                self.data[offset + 6] = (value >> 48) as u8;
                self.data[offset + 7] = (value >> 56) as u8;
                proof {
                    assert(self.live_map() =~= old(self).live_map());
                    assert(self.mem() =~= written(
                        old(self).mem(),
                        offset as int,
                        le_bytes_u64(value),
                    ));
                }
                Ok(())
            },
            None => Err(RuntimeError::WriteFailed),
        }
    }

    /// Load a 64-bit little-endian value from `offset`. Fails with a read
    /// error unless all eight bytes lie inside one live block.
    pub fn load_u64(&self, offset: usize) -> (r: Result<u64, RuntimeError>)
        requires
            self.wf(),
        ensures
            r is Ok <==> self.in_live_block(offset as int, 8),
            r matches Ok(v) ==> v == le_u64(self.mem().subrange(offset as int, offset as int + 8)),
            r is Err ==> r == Err::<u64, RuntimeError>(RuntimeError::ReadFailed),
    {
        match self.find_containing(offset, 8) {
            Some(i) => {
                proof {
                    self.lemma_entry_live(i as int);
                    self.lemma_live_block_bounds(self.table@[i as int].offset as int);
                }
                let b0 = self.data[offset];
                let b1 = self.data[offset + 1];
                let b2 = self.data[offset + 2];
                let b3 = self.data[offset + 3];
                let b4 = self.data[offset + 4];
                let b5 = self.data[offset + 5];
                let b6 = self.data[offset + 6];
                let b7 = self.data[offset + 7];
                let v = (b0 as u64) | ((b1 as u64) << 8) | ((b2 as u64) << 16) | ((b3 as u64)
                    << 24) | ((b4 as u64) << 32) | ((b5 as u64) << 40) | ((b6 as u64) << 48) | ((b7
                    as u64) << 56);
                proof {
                    let s = self.mem().subrange(offset as int, offset as int + 8);
                    assert(s[0] == b0 && s[1] == b1 && s[2] == b2 && s[3] == b3);
                    assert(s[4] == b4 && s[5] == b5 && s[6] == b6 && s[7] == b7);
                }
                Ok(v)
            },
            None => Err(RuntimeError::ReadFailed),
        }
    }

    /// Reserve a block and copy `bytes` into it: the way the host hands a
    /// buffer to the guest. The new block holds exactly `bytes`; every live
    /// block keeps its bytes.
    pub fn alloc_bytes(&mut self, bytes: &[u8]) -> (r: Result<MemoryBlock, RuntimeError>)
        requires
            old(self).wf(),
        ensures
            final(self).wf(),
            r is Ok <==> old(self).can_alloc(bytes@.len() as int),
            match r {
                Ok(b) => {
                    &&& b.length == bytes@.len()
                    &&& 1 <= b.offset
                    &&& !old(self).live_map().dom().contains(b.offset as int)
                    &&& final(self).live_map() == old(self).live_map().insert(
                        b.offset as int,
                        bytes@.len() as int,
                    )
                    &&& final(self).live_bytes(b.offset as int) == bytes@
                    &&& final(self).size() >= old(self).size()
                    &&& forall|off: int|
                        old(self).live_map().dom().contains(off) ==> final(self).live_bytes(off)
                            == old(self).live_bytes(off)
                },
                Err(e) => e == RuntimeError::AllocationFailed && *final(self) == *old(self),
            },
    {
        let b = match self.allocate(bytes.len()) {
            Ok(b) => b,
            Err(e) => {
                return Err(e);
            },
        };
        let ghost mid = *self;
        proof {
            mid.lemma_live_block_bounds(b.offset as int);
        }
        let mut i: usize = 0;
        while i < bytes.len()
            invariant
                mid.wf(),
                b.length == bytes@.len(),
                mid.live_map().dom().contains(b.offset as int),
                mid.live_map()[b.offset as int] == b.length as int,
                b.offset + b.length <= mid.size(),
                i <= bytes@.len(),
                self.table@ == mid.table@,
                self.mem().len() == mid.mem().len(),
                forall|k: int|
                    0 <= k < self.mem().len() ==> #[trigger] self.mem()[k] == if b.offset <= k
                        < b.offset + i {
                        bytes@[k - b.offset]
                    } else {
                        mid.mem()[k]
                    },
            decreases bytes@.len() - i,
        {
            self.data[b.offset + i] = bytes[i];
            i += 1;
        }
        proof {
            self.lemma_after_fill(mid, *old(self), b, bytes@);
        }
        Ok(b)
    }

    /// Writing only inside the freshly allocated block `b` keeps every other
    /// live block's bytes, and leaves `b` holding exactly `bytes`.
    proof fn lemma_after_fill(self, mid: Self, pre: Self, b: MemoryBlock, bytes: Seq<u8>)
        requires
            pre.wf(),
            mid.wf(),
            b.length == bytes.len(),
            !pre.live_map().dom().contains(b.offset as int),
            mid.live_map() == pre.live_map().insert(b.offset as int, bytes.len() as int),
            forall|off: int|
                pre.live_map().dom().contains(off) ==> mid.live_bytes(off) == pre.live_bytes(off),
            self.table@ == mid.table@,
            self.mem().len() == mid.mem().len(),
            forall|k: int|
                0 <= k < self.mem().len() ==> #[trigger] self.mem()[k] == if b.offset <= k
                    < b.offset + bytes.len() {
                    bytes[k - b.offset]
                } else {
                    mid.mem()[k]
                },
        ensures
            self.wf(),
            self.live_map() == mid.live_map(),
            self.live_bytes(b.offset as int) == bytes,
            self.size() == mid.size(),
            forall|off: int|
                pre.live_map().dom().contains(off) ==> self.live_bytes(off) == pre.live_bytes(off),
    {
        assert(self.live_map() =~= mid.live_map());
        mid.lemma_live_block_bounds(b.offset as int);
        assert(self.live_bytes(b.offset as int) =~= bytes);
        assert forall|off: int| pre.live_map().dom().contains(off) implies self.live_bytes(off) == pre.live_bytes(
            off,
        ) by {
            assert(mid.live_map().dom().contains(off));
            assert(off != b.offset as int);
            mid.lemma_live_blocks_disjoint(off, b.offset as int);
            mid.lemma_live_block_bounds(off);
            assert(self.live_bytes(off) =~= mid.live_bytes(off));
        }
    }

    /// The buffer's current size in bytes.
    pub fn current_size(&self) -> (r: usize)
        ensures
            r as int == self.size(),
    {
        self.data.len()
    }

    /// A bounds-checked copy of a raw byte range, for the host's lazy read
    /// of guest-declared output: the range is validated against the buffer,
    /// not the block table.
    pub fn read_range(&self, offset: usize, length: usize) -> (r: Vec<u8>)
        requires
            self.wf(),
            offset + length <= self.size(),
        ensures
            r@ == self.mem().subrange(offset as int, offset as int + length as int),
    {
        let mut out: Vec<u8> = Vec::new();
        let mut i: usize = 0;
        while i < length
            invariant
                self.wf(),
                offset + length <= self.mem().len(),
                i <= length,
                out@.len() == i,
                forall|k: int| 0 <= k < i ==> #[trigger] out@[k] == self.mem()[offset + k],
            decreases length - i,
        {
            out.push(self.data[offset + i]);
            i += 1;
        }
        proof {
            assert(out@ =~= self.mem().subrange(offset as int, offset as int + length as int));
        }
        out
    }

    /// A read-only copy of a live block's bytes for host-side consumption.
    /// The caller must have validated the block against the live table; a
    /// call on any other block is excluded rather than left undefined.
    pub fn get(&self, block: MemoryBlock) -> (r: Vec<u8>)
        requires
            self.wf(),
            self.live_map().dom().contains(block.offset as int),
            self.live_map()[block.offset as int] == block.length as int,
        ensures
            r@ == self.live_bytes(block.offset as int),
    {
        proof {
            self.lemma_live_block_bounds(block.offset as int);
        }
        let mut out: Vec<u8> = Vec::new();
        let mut i: usize = 0;
        while i < block.length
            invariant
                self.wf(),
                block.offset + block.length <= self.mem().len(),
                i <= block.length,
                out@.len() == i,
                forall|k: int| 0 <= k < i ==> #[trigger] out@[k] == self.mem()[block.offset + k],
            decreases block.length - i,
        {
            out.push(self.data[block.offset + i]);
            i += 1;
        }
        proof {
            assert(out@ =~= self.live_bytes(block.offset as int));
        }
        out
    }
}

} // verus!
