//! A bit-indexed array over borrowed bytes, and the physical frame allocator
//! that keeps one bit per 4 KiB frame in it.

use vstd::prelude::*;

verus! {

/// Size in bytes of a frame and of a page.
pub const PAGE_SIZE: usize = 0x1000;

/// Bytes of memory that one byte of bitmap stands for: eight frames.
pub const FRAME_BYTES_PER_BITMAP_BYTE: usize = 0x8000;

/// The mask that selects bit `offset` of a byte, counting from the most
/// significant bit.
pub open spec fn bit_mask(offset: int) -> u8 {
    0x80u8 >> (offset as u8)
}

/// Whether bit `index` is set in `bytes`: byte `index / 8`, mask
/// `0x80 >> (index % 8)`.
pub open spec fn bit_at(bytes: Seq<u8>, index: int) -> bool {
    bytes[index / 8] & bit_mask(index % 8) != 0
}

/// `bytes` with bit `index` set and nothing else changed.
pub open spec fn set_bit(bytes: Seq<u8>, index: int) -> Seq<u8> {
    bytes.update(index / 8, bytes[index / 8] | bit_mask(index % 8))
}

/// `bytes` with bit `index` cleared and nothing else changed.
pub open spec fn clear_bit(bytes: Seq<u8>, index: int) -> Seq<u8> {
    bytes.update(index / 8, bytes[index / 8] & !bit_mask(index % 8))
}

/// `bytes` with bit `index` made equal to `value`.
pub open spec fn cfg_bit(bytes: Seq<u8>, index: int, value: bool) -> Seq<u8> {
    if value {
        set_bit(bytes, index)
    } else {
        clear_bit(bytes, index)
    }
}

/// The bits that `bytes` holds, one `bool` per bit, in index order.
pub open spec fn bits_of(bytes: Seq<u8>) -> Seq<bool> {
    Seq::new(bytes.len() * 8, |i: int| bit_at(bytes, i))
}

proof fn lemma_mask_or(b: u8, o: u8, p: u8)
    by (bit_vector)
    requires
        o < 8,
        p < 8,
    ensures
        (b | (0x80u8 >> o)) & (0x80u8 >> o) != 0,
        o != p ==> (b | (0x80u8 >> o)) & (0x80u8 >> p) == b & (0x80u8 >> p),
{
}

proof fn lemma_mask_and_not(b: u8, o: u8, p: u8)
    by (bit_vector)
    requires
        o < 8,
        p < 8,
    ensures
        (b & !(0x80u8 >> o)) & (0x80u8 >> o) == 0,
        o != p ==> (b & !(0x80u8 >> o)) & (0x80u8 >> p) == b & (0x80u8 >> p),
{
}

/// Setting a bit makes it read as set.
pub proof fn lemma_set_then_get(bytes: Seq<u8>, index: int)
    requires
        0 <= index < bytes.len() * 8,
    ensures
        bit_at(set_bit(bytes, index), index),
{
    lemma_mask_or(bytes[index / 8], (index % 8) as u8, (index % 8) as u8);
}

/// Clearing a bit makes it read as clear, whatever it held before.
pub proof fn lemma_clear_then_get(bytes: Seq<u8>, index: int)
    requires
        0 <= index < bytes.len() * 8,
    ensures
        !bit_at(clear_bit(bytes, index), index),
{
    lemma_mask_and_not(bytes[index / 8], (index % 8) as u8, (index % 8) as u8);
}

/// Configuring a bit changes that bit alone: every other bit reads as before,
/// every other byte is untouched, and the length stays.
pub proof fn lemma_cfg_touches_one_bit(bytes: Seq<u8>, index: int, value: bool, other: int)
    requires
        0 <= index < bytes.len() * 8,
        0 <= other < bytes.len() * 8,
        other != index,
    ensures
        cfg_bit(bytes, index, value).len() == bytes.len(),
        bit_at(cfg_bit(bytes, index, value), other) == bit_at(bytes, other),
        other / 8 != index / 8 ==> cfg_bit(bytes, index, value)[other / 8] == bytes[other / 8],
{
    if other / 8 == index / 8 {
        lemma_mask_or(bytes[index / 8], (index % 8) as u8, (other % 8) as u8);
        lemma_mask_and_not(bytes[index / 8], (index % 8) as u8, (other % 8) as u8);
    }
}

/// Over the bits, configuring a bit is a point update.
pub proof fn lemma_cfg_bits(bytes: Seq<u8>, index: int, value: bool)
    requires
        0 <= index < bytes.len() * 8,
    ensures
        bits_of(cfg_bit(bytes, index, value)) == bits_of(bytes).update(index, value),
{
    let after = cfg_bit(bytes, index, value);
    assert forall|j: int| 0 <= j < bytes.len() * 8 implies bit_at(after, j) == bits_of(
        bytes,
    ).update(index, value)[j] by {
        if j == index {
            lemma_set_then_get(bytes, index);
            lemma_clear_then_get(bytes, index);
        } else {
            lemma_cfg_touches_one_bit(bytes, index, value, j);
        }
    }
    assert(bits_of(after) =~= bits_of(bytes).update(index, value));
}

/// A bit-indexed array over a borrowed byte sequence. Bit `i` lives in byte
/// `i / 8` under the mask `0x80 >> (i % 8)`; a set bit means "in use".
pub struct BitMap<'a> {
    bitmap: &'a mut [u8],
}

impl<'a> BitMap<'a> {
    /// The bytes behind the bitmap.
    pub closed spec fn bytes(&self) -> Seq<u8> {
        self.bitmap@
    }

    /// The bits of the bitmap, in index order.
    pub open spec fn view(&self) -> Seq<bool> {
        bits_of(self.bytes())
    }

    /// Number of addressable bits: eight per byte.
    pub open spec fn capacity(&self) -> nat {
        self.bytes().len() * 8
    }

    /// Wraps `bitmap` without touching its contents.
    pub fn new(bitmap: &'a mut [u8]) -> (map: Self)
        ensures
            map.bytes() == old(bitmap)@,
    {
        Self { bitmap }
    }

    /// Sets bit `index` to `value`. Returns `false`, changing nothing, when
    /// `index` is out of range.
    pub fn try_cfg(&mut self, index: usize, value: bool) -> (ok: bool)
        ensures
            ok == (index < old(self).capacity()),
            !ok ==> final(self).bytes() == old(self).bytes(),
            ok ==> final(self).bytes() == cfg_bit(old(self).bytes(), index as int, value),
            ok ==> final(self)@ == old(self)@.update(index as int, value),
    {
        let div_index: usize = index / 8;
        if self.bitmap.len() <= div_index {
            return false;
        }
        let offset: u8 = (index % 8) as u8;
        let byte: u8 = self.bitmap[div_index];
        let mask: u8 = 0x80u8 >> offset;
        self.bitmap[div_index] = if value {
            byte | mask
        } else {
            byte & !mask
        };
        proof {
            lemma_cfg_bits(old(self).bytes(), index as int, value);
        }
        true
    }

    /// Sets bit `index`. Returns `false`, changing nothing, when `index` is out
    /// of range.
    pub fn try_set(&mut self, index: usize) -> (ok: bool)
        ensures
            ok == (index < old(self).capacity()),
            !ok ==> final(self).bytes() == old(self).bytes(),
            ok ==> final(self).bytes() == set_bit(old(self).bytes(), index as int),
            ok ==> final(self)@ == old(self)@.update(index as int, true),
    {
        self.try_cfg(index, true)
    }

    /// Clears bit `index`. Returns `false`, changing nothing, when `index` is
    /// out of range.
    pub fn try_clear(&mut self, index: usize) -> (ok: bool)
        ensures
            ok == (index < old(self).capacity()),
            !ok ==> final(self).bytes() == old(self).bytes(),
            ok ==> final(self).bytes() == clear_bit(old(self).bytes(), index as int),
            ok ==> final(self)@ == old(self)@.update(index as int, false),
    {
        self.try_cfg(index, false)
    }

    /// Sets bit `index`, which must be in range, to `value`.
    pub fn cfg(&mut self, index: usize, value: bool)
        requires
            index < old(self).capacity(),
        ensures
            final(self).bytes() == cfg_bit(old(self).bytes(), index as int, value),
            final(self)@ == old(self)@.update(index as int, value),
    {
        self.try_cfg(index, value);
    }

    /// Sets bit `index`, which must be in range.
    pub fn set(&mut self, index: usize)
        requires
            index < old(self).capacity(),
        ensures
            final(self).bytes() == set_bit(old(self).bytes(), index as int),
            final(self)@ == old(self)@.update(index as int, true),
    {
        self.try_set(index);
    }

    /// Clears bit `index`, which must be in range.
    pub fn clear(&mut self, index: usize)
        requires
            index < old(self).capacity(),
        ensures
            final(self).bytes() == clear_bit(old(self).bytes(), index as int),
            final(self)@ == old(self)@.update(index as int, false),
    {
        self.try_clear(index);
    }

    /// Reads bit `index`, which must be in range.
    pub fn get(&self, index: usize) -> (bit: bool)
        requires
            index < self.capacity(),
        ensures
            bit == bit_at(self.bytes(), index as int),
            bit == self@[index as int],
    {
        let byte: u8 = self.bitmap[index / 8];
        let offset: u8 = (index % 8) as u8;
        (byte & (0x80u8 >> offset)) >= 1
    }

    /// Reads bit `index`, or returns `None` when `index` is out of range.
    pub fn try_get(&self, index: usize) -> (bit: Option<bool>)
        ensures
            bit.is_some() == (index < self.capacity()),
            bit.is_some() ==> bit.unwrap() == bit_at(self.bytes(), index as int),
            bit.is_some() ==> bit.unwrap() == self@[index as int],
    {
        if index / 8 < self.bitmap.len() {
            Some(self.get(index))
        } else {
            None
        }
    }
}


/// Entry type of a boot memory-map entry that may be used as ordinary RAM.
pub const ENTRY_USABLE: u64 = 0;

/// One entry of the boot memory map.
#[derive(Clone, Copy, Debug)]
pub struct MemoryMapEntry {
    pub base: u64,
    pub length: u64,
    pub entry_type: u64,
}

impl MemoryMapEntry {
    pub open spec fn is_usable(&self) -> bool {
        self.entry_type == ENTRY_USABLE
    }
}

/// Whether entry `k` of `entries` is the usable entry with the greatest
/// length, the last one where several share it.
pub open spec fn is_largest_usable(entries: Seq<MemoryMapEntry>, k: int) -> bool {
    &&& 0 <= k < entries.len()
    &&& entries[k].is_usable()
    &&& forall|j: int|
        0 <= j < entries.len() && entries[j].is_usable() ==> entries[j].length <= entries[k].length
    &&& forall|j: int|
        k < j < entries.len() && entries[j].is_usable() ==> entries[j].length < entries[k].length
}

/// Whether the region of `entry` can be managed with a bitmap of
/// `bitmap_len` bytes: it lies in the address space, starts at a frame
/// boundary, and the bitmap has the size that the region asks for.
pub open spec fn region_fits(entry: MemoryMapEntry, bitmap_len: int) -> bool {
    &&& entry.base + entry.length <= usize::MAX
    &&& entry.base % (PAGE_SIZE as u64) == 0
    &&& bitmap_len == bitmap_bytes_for(entry.length as int)
}

/// Index of the usable entry with the greatest length, the last one where
/// several share it; `None` when no entry is usable.
pub fn largest_usable(entries: &[MemoryMapEntry]) -> (found: Option<usize>)
    ensures
        found.is_none() <==> forall|j: int| 0 <= j < entries@.len() ==> !entries@[j].is_usable(),
        found.is_some() ==> is_largest_usable(entries@, found.unwrap() as int),
        found.is_some() ==> {
            let k = found.unwrap() as int;
            &&& k < entries@.len()
            &&& entries@[k].is_usable()
            &&& forall|j: int|
                0 <= j < entries@.len() && entries@[j].is_usable() ==> entries@[j].length
                    <= entries@[k].length
            &&& forall|j: int|
                k < j < entries@.len() && entries@[j].is_usable() ==> entries@[j].length
                    < entries@[k].length
        },
{
    let mut found: Option<usize> = None;
    let mut i: usize = 0;
    while i < entries.len()
        invariant
            i <= entries@.len(),
            found.is_none() <==> forall|j: int| 0 <= j < i ==> !entries@[j].is_usable(),
            found.is_some() ==> {
                let k = found.unwrap() as int;
                &&& k < i
                &&& entries@[k].is_usable()
                &&& forall|j: int|
                    0 <= j < i && entries@[j].is_usable() ==> entries@[j].length
                        <= entries@[k].length
                &&& forall|j: int|
                    k < j < i && entries@[j].is_usable() ==> entries@[j].length
                        < entries@[k].length
            },
        decreases entries@.len() - i,
    {
        if entries[i].entry_type == ENTRY_USABLE {
            let better: bool = match found {
                None => true,
                Some(k) => entries[k].length <= entries[i].length,
            };
            if better {
                found = Some(i);
            }
        }
        i += 1;
    }
    found
}

/// Bytes of bitmap needed for a region of `length` bytes: one bit per frame,
/// rounded up to whole bytes.
pub open spec fn bitmap_bytes_for(length: int) -> int {
    (length + (FRAME_BYTES_PER_BITMAP_BYTE - 1)) / (FRAME_BYTES_PER_BITMAP_BYTE as int)
}

/// Number of frames that cover `bytes` bytes from the start of a region.
pub open spec fn frames_covering(bytes: int) -> int {
    (bytes + PAGE_SIZE - 1) / (PAGE_SIZE as int)
}

/// Bytes of bitmap needed for a region of `length` bytes.
pub fn bitmap_bytes(length: usize) -> (n: usize)
    ensures
        n == bitmap_bytes_for(length as int),
{
    let per_byte: usize = FRAME_BYTES_PER_BITMAP_BYTE;
    if length % per_byte == 0 {
        length / per_byte
    } else {
        length / per_byte + 1
    }
}

/// First frame touched by the byte range that starts `rel` bytes into the
/// region.
pub open spec fn first_page(rel: int) -> int {
    rel / (PAGE_SIZE as int)
}

/// One past the last frame of the range of `size` bytes that starts `rel`
/// bytes into the region, rounded outward to whole frames: the end of the
/// range rounded up. An empty range on a frame boundary holds no frame; one
/// inside a frame holds that frame.
pub open spec fn end_page(rel: int, size: int) -> int {
    (rel + size + PAGE_SIZE - 1) / (PAGE_SIZE as int)
}

/// `bits` with every index in `[lo, hi)` made equal to `value`.
pub open spec fn mark(bits: Seq<bool>, lo: int, hi: int, value: bool) -> Seq<bool> {
    Seq::new(
        bits.len(),
        |i: int|
            if lo <= i < hi {
                value
            } else {
                bits[i]
            },
    )
}

/// Steps from `cursor` forward to `index` in a ring of `n` frames.
pub open spec fn ring_distance(cursor: int, index: int, n: int) -> int {
    if index >= cursor {
        index - cursor
    } else {
        index + n - cursor
    }
}

/// Number of clear bits among the first `n` of `bits`.
pub open spec fn count_free(bits: Seq<bool>, n: int) -> nat
    decreases n,
{
    if n <= 0 {
        0
    } else {
        count_free(bits, n - 1) + if bits[n - 1] {
            0nat
        } else {
            1nat
        }
    }
}

/// Setting a clear bit among the first `n` leaves one clear bit fewer.
pub proof fn lemma_count_free_take(bits: Seq<bool>, n: int, index: int)
    requires
        0 <= index < n <= bits.len(),
        !bits[index],
    ensures
        count_free(bits.update(index, true), n) == count_free(bits, n) - 1,
    decreases n,
{
    if index < n - 1 {
        lemma_count_free_take(bits, n - 1, index);
    } else {
        lemma_count_free_same(bits, bits.update(index, true), n - 1);
    }
}

/// The count of clear bits among the first `n` depends on those bits alone.
pub proof fn lemma_count_free_same(a: Seq<bool>, b: Seq<bool>, n: int)
    requires
        n <= a.len(),
        n <= b.len(),
        forall|j: int| 0 <= j < n ==> a[j] == b[j],
    ensures
        count_free(a, n) == count_free(b, n),
    decreases n,
{
    if n > 0 {
        lemma_count_free_same(a, b, n - 1);
    }
}

/// No bit among the first `n` is clear exactly when all of them are set.
pub proof fn lemma_count_free_zero(bits: Seq<bool>, n: int)
    requires
        n <= bits.len(),
    ensures
        count_free(bits, n) == 0 <==> forall|j: int| 0 <= j < n ==> bits[j],
    decreases n,
{
    if n > 0 {
        lemma_count_free_zero(bits, n - 1);
        if count_free(bits, n) == 0 {
            assert forall|j: int| 0 <= j < n implies bits[j] by {
                if j < n - 1 {
                    assert(bits[j]);
                }
            }
        }
    }
}

/// Hands out and reclaims the 4 KiB frames of one contiguous physical region,
/// with one bit per frame in a bitmap.
pub struct BitmapAllocator<'a> {
    bitmap: BitMap<'a>,
    memory_region_start: usize,
    memory_region_size: usize,
    last_allocated_page_index: usize,
}

impl<'a> BitmapAllocator<'a> {
    /// One `bool` per bit of the bitmap; `true` means the frame is in use.
    pub closed spec fn view(&self) -> Seq<bool> {
        self.bitmap@
    }

    /// Physical address of the first byte of the managed region.
    pub closed spec fn region_start(&self) -> int {
        self.memory_region_start as int
    }

    /// Length of the managed region in bytes.
    pub closed spec fn region_size(&self) -> int {
        self.memory_region_size as int
    }

    /// Frame index at which the next search starts.
    pub closed spec fn cursor(&self) -> int {
        self.last_allocated_page_index as int
    }

    /// Number of whole frames in the managed region.
    pub open spec fn pages(&self) -> int {
        self.region_size() / (PAGE_SIZE as int)
    }

    /// The invariant of the allocator: the region fits the address space and
    /// starts at a frame boundary, the bitmap has a bit for every frame, the
    /// cursor names a frame, and the frames that hold the bitmap are in use.
    pub open spec fn wf(&self) -> bool {
        &&& 0 <= self.region_start()
        &&& 0 <= self.region_size()
        &&& self.region_start() + self.region_size() <= usize::MAX
        &&& self.region_start() % (PAGE_SIZE as int) == 0
        &&& self.pages() <= self@.len()
        &&& 0 <= self.cursor()
        &&& self.cursor() < self.pages() || self.cursor() == 0
        &&& forall|i: int| 0 <= i < self.reserved() && i < self@.len() ==> self@[i]
    }

    /// Number of frames at the start of the region that hold the bitmap.
    /// They are in use for good.
    pub open spec fn reserved(&self) -> int {
        frames_covering(bitmap_bytes_for(self.region_size()))
    }

    /// Number of frames of the region that are free.
    pub open spec fn free_count(&self) -> nat {
        count_free(self@, self.pages())
    }

    /// Index of the frame that contains the physical address `addr`.
    pub open spec fn frame_index(&self, addr: int) -> int {
        (addr - self.region_start()) / (PAGE_SIZE as int)
    }

    /// Physical address of frame `index`.
    pub open spec fn frame_address(&self, index: int) -> int {
        self.region_start() + index * PAGE_SIZE
    }

    /// Whether frame `index` is the free frame that a search from the cursor
    /// meets first.
    pub open spec fn is_next_free(&self, index: int) -> bool {
        &&& 0 <= index < self.pages()
        &&& !self@[index]
        &&& forall|j: int|
            0 <= j < self.pages() && !self@[j] ==> ring_distance(
                self.cursor(),
                index,
                self.pages(),
            ) <= ring_distance(self.cursor(), j, self.pages())
    }

    /// Number of whole frames in the managed region.
    pub fn number_of_pages(&self) -> (n: usize)
        ensures
            n == self.pages(),
    {
        self.memory_region_size / PAGE_SIZE
    }

    /// Whether frame `index` is marked in use, or `None` where the bitmap has
    /// no bit for it.
    pub fn page_in_use(&self, index: usize) -> (in_use: Option<bool>)
        ensures
            in_use.is_some() == (index < self@.len()),
            in_use.is_some() ==> in_use.unwrap() == self@[index as int],
    {
        self.bitmap.try_get(index)
    }

    /// Physical address of the first byte of the managed region.
    pub fn memory_region_start(&self) -> (start: usize)
        ensures
            start == self.region_start(),
    {
        self.memory_region_start
    }

    /// Frame index at which the next search starts.
    pub fn last_allocated_page_index(&self) -> (index: usize)
        ensures
            index == self.cursor(),
    {
        self.last_allocated_page_index
    }

    /// Builds the allocator of the largest usable region of the boot memory
    /// map `entries`, with its bitmap in `bitmap`, which the caller has laid
    /// at the base of that region. The frames that hold the bitmap are in
    /// use, and every other frame of the region is free. Returns `None`
    /// where no entry is usable, and where the region cannot be managed with
    /// that bitmap.
    pub fn from_memory_map(entries: &[MemoryMapEntry], bitmap: &'a mut [u8]) -> (allocator: Option<
        Self,
    >)
        ensures
            (forall|k: int| !is_largest_usable(entries@, k)) ==> allocator.is_none(),
            forall|k: int| #[trigger]
                is_largest_usable(entries@, k) ==> {
                    &&& allocator.is_some() == region_fits(entries@[k], old(bitmap)@.len() as int)
                    &&& allocator.is_some() ==> {
                        let a = allocator.unwrap();
                        &&& a.wf()
                        &&& a.region_start() == entries@[k].base
                        &&& a.region_size() == entries@[k].length
                        &&& a.cursor() == 0
                        &&& a@.len() == 8 * old(bitmap)@.len()
                        &&& forall|i: int|
                            0 <= i < a@.len() ==> a@[i] == (i < a.reserved())
                    }
                },
    {
        let found: usize = match largest_usable(entries) {
            Some(found) => found,
            None => {
                return None;
            },
        };
        proof {
            assert forall|k: int| #[trigger] is_largest_usable(entries@, k) implies k == found by {
                if k < found {
                    assert(entries@[found as int].length < entries@[k].length);
                } else if k > found {
                    assert(entries@[k].length < entries@[found as int].length);
                }
            }
        }
        let entry: MemoryMapEntry = entries[found];
        if entry.base > usize::MAX as u64 || entry.length > usize::MAX as u64 {
            return None;
        }
        let base: usize = entry.base as usize;
        let length: usize = entry.length as usize;
        if length > usize::MAX - base || base % PAGE_SIZE != 0 || bitmap.len() != bitmap_bytes(
            length,
        ) {
            return None;
        }
        Some(Self::from_mmap(base, length, bitmap))
    }

    /// Builds the allocator of the region `[base, base + length)` with its
    /// bitmap in `bitmap`, which the caller has laid at the base of that
    /// region. The bitmap is zeroed and the frames that it covers itself are
    /// marked in use; every other frame is free.
    pub fn from_mmap(base: usize, length: usize, bitmap: &'a mut [u8]) -> (allocator: Self)
        requires
            base + length <= usize::MAX,
            base % PAGE_SIZE == 0,
            old(bitmap)@.len() == bitmap_bytes_for(length as int),
        ensures
            allocator.wf(),
            allocator.region_start() == base,
            allocator.region_size() == length,
            allocator.cursor() == 0,
            allocator@.len() == 8 * bitmap_bytes_for(length as int),
            forall|i: int|
                0 <= i < allocator@.len() ==> allocator@[i] == (i < frames_covering(
                    bitmap_bytes_for(length as int),
                )),
    {
        let len: usize = bitmap.len();
        clear_page(bitmap);
        let mut allocator = BitmapAllocator {
            bitmap: BitMap::new(bitmap),
            memory_region_start: base,
            memory_region_size: length,
            last_allocated_page_index: 0,
        };
        proof {
            assert forall|j: int| 0 <= j < allocator@.len() implies !allocator@[j] by {
                lemma_zero_has_no_bit((j % 8) as u8);
            }
            assert(allocator@.len() == 8 * len);
            assert(len == (length + 32767) / 32768);
            assert(length as int / 4096 <= 8 * ((length + 32767) / 32768));
            assert(allocator.pages() == length as int / 4096);
        }
        let reserved: usize = allocator.reserved_pages();
        allocator.mark_range(0, reserved, true);
        allocator
    }

    /// Marks in use every frame of the range `[addr, addr + size)` rounded
    /// outward to whole frames: from the frame that holds `addr` to the end of
    /// the range rounded up. Frames beyond the bitmap are ignored. The cursor moves to the first of
    /// these frames where it lies in the region.
    pub fn lock_pages(&mut self, addr: usize, size: usize)
        requires
            old(self).wf(),
            old(self).region_start() <= addr,
            addr - old(self).region_start() + size <= usize::MAX,
        ensures
            final(self).wf(),
            final(self).region_start() == old(self).region_start(),
            final(self).region_size() == old(self).region_size(),
            final(self)@ == mark(
                old(self)@,
                first_page(addr - old(self).region_start()),
                end_page(addr - old(self).region_start(), size as int),
                true,
            ),
            final(self).cursor() == if first_page(addr - old(self).region_start()) < old(
                self,
            ).pages() {
                first_page(addr - old(self).region_start())
            } else {
                old(self).cursor()
            },
    {
        let rel_addr: usize = addr - self.memory_region_start;
        let page: usize = rel_addr / PAGE_SIZE;
        let end: usize = rel_addr + size;
        let page_end: usize = if end % PAGE_SIZE == 0 {
            end / PAGE_SIZE
        } else {
            end / PAGE_SIZE + 1
        };
        self.mark_range(page, page_end, true);
        if page < self.number_of_pages() {
            self.last_allocated_page_index = page;
        }
    }

    /// Marks free every frame of the range `[addr, addr + size)` rounded
    /// outward to whole frames, from the frame that holds `addr` to the end of
    /// the range rounded up, whether or not it was in use, but for the frames
    /// that hold the bitmap:
    /// these stay in use. Frames beyond the bitmap are ignored. The cursor
    /// moves to the first frame that the bytes touch where it lies in the
    /// region.
    pub fn free_pages(&mut self, addr: usize, size: usize)
        requires
            old(self).wf(),
            old(self).region_start() <= addr,
            addr - old(self).region_start() + size <= usize::MAX,
        ensures
            final(self).wf(),
            final(self).region_start() == old(self).region_start(),
            final(self).region_size() == old(self).region_size(),
            final(self)@ == mark(
                old(self)@,
                vstd::math::max(first_page(addr - old(self).region_start()), old(self).reserved()),
                end_page(addr - old(self).region_start(), size as int),
                false,
            ),
            final(self).cursor() == if first_page(addr - old(self).region_start()) < old(
                self,
            ).pages() {
                first_page(addr - old(self).region_start())
            } else {
                old(self).cursor()
            },
    {
        let rel_addr: usize = addr - self.memory_region_start;
        let page: usize = rel_addr / PAGE_SIZE;
        let end: usize = rel_addr + size;
        let page_end: usize = if end % PAGE_SIZE == 0 {
            end / PAGE_SIZE
        } else {
            end / PAGE_SIZE + 1
        };
        let reserved: usize = self.reserved_pages();
        let first: usize = if page < reserved {
            reserved
        } else {
            page
        };
        self.mark_range(first, page_end, false);
        if page < self.number_of_pages() {
            self.last_allocated_page_index = page;
        }
    }

    /// Number of frames at the start of the region that hold the bitmap.
    pub fn reserved_pages(&self) -> (pages: usize)
        ensures
            pages == self.reserved(),
    {
        let bytes: usize = bitmap_bytes(self.memory_region_size);
        if bytes % PAGE_SIZE == 0 {
            bytes / PAGE_SIZE
        } else {
            bytes / PAGE_SIZE + 1
        }
    }

    /// Makes every bit in `[lo, hi)` that the bitmap has equal to `value`.
    fn mark_range(&mut self, lo: usize, hi: usize, value: bool)
        ensures
            final(self).region_start() == old(self).region_start(),
            final(self).region_size() == old(self).region_size(),
            final(self).cursor() == old(self).cursor(),
            final(self)@ == mark(old(self)@, lo as int, hi as int, value),
    {
        let mut i: usize = lo;
        let mut in_range: bool = true;
        proof {
            assert(self@ =~= mark(old(self)@, lo as int, lo as int, value));
        }
        while in_range && i < hi
            invariant
                lo <= i,
                i <= hi || i == lo,
                self.memory_region_start == old(self).memory_region_start,
                self.memory_region_size == old(self).memory_region_size,
                self.last_allocated_page_index == old(self).last_allocated_page_index,
                self@.len() == old(self)@.len(),
                in_range ==> self@ == mark(old(self)@, lo as int, i as int, value),
                !in_range ==> self@ == mark(old(self)@, lo as int, hi as int, value),
            decreases hi - i + if in_range { 1int } else { 0int },
        {
            in_range = self.bitmap.try_cfg(i, value);
            proof {
                if in_range {
                    assert(self@ =~= mark(old(self)@, lo as int, i + 1, value));
                } else {
                    assert(self@ =~= mark(old(self)@, lo as int, hi as int, value));
                }
            }
            if in_range {
                i += 1;
            }
        }
        proof {
            if in_range {
                assert(mark(old(self)@, lo as int, i as int, value) =~= mark(
                    old(self)@,
                    lo as int,
                    hi as int,
                    value,
                ));
            }
        }
    }

    /// Takes the free frame that a search from the cursor meets first, going
    /// round once: marks it in use, moves the cursor to it and returns its
    /// physical address. Returns `None`, changing nothing, when every frame is
    /// in use.
    pub fn request_page(&mut self) -> (page: Option<usize>)
        requires
            old(self).wf(),
        ensures
            final(self).wf(),
            final(self).region_start() == old(self).region_start(),
            final(self).region_size() == old(self).region_size(),
            page.is_none() <==> forall|j: int| 0 <= j < old(self).pages() ==> old(self)@[j],
            page.is_none() <==> old(self).free_count() == 0,
            page.is_some() ==> final(self).free_count() == old(self).free_count() - 1,
            page.is_none() ==> final(self)@ == old(self)@ && final(self).cursor() == old(
                self,
            ).cursor(),
            page.is_some() ==> page.unwrap() % PAGE_SIZE == 0,
            page.is_some() ==> page.unwrap() != 0,
            page.is_some() ==> {
                let index = old(self).frame_index(page.unwrap() as int);
                &&& old(self).is_next_free(index)
                &&& page.unwrap() == old(self).frame_address(index)
                &&& final(self)@ == old(self)@.update(index, true)
                &&& final(self).cursor() == index
            },
    {
        let n: usize = self.number_of_pages();
        let cursor: usize = self.last_allocated_page_index;
        let mut k: usize = 0;
        proof {
            lemma_count_free_zero(self@, n as int);
        }
        while k < n
            invariant
                self.wf(),
                n == self.pages(),
                cursor == self.cursor(),
                k <= n,
                *self == *old(self),
                forall|j: int|
                    0 <= j < n && ring_distance(cursor as int, j, n as int) < k ==> self@[j],
            decreases n - k,
        {
            let i: usize = if k < n - cursor {
                cursor + k
            } else {
                k - (n - cursor)
            };
            if !self.bitmap.get(i) {
                let addr: usize = self.memory_region_start + i * PAGE_SIZE;
                self.bitmap.set(i);
                self.last_allocated_page_index = i;
                proof {
                    assert(i * PAGE_SIZE / (PAGE_SIZE as int) == i) by (nonlinear_arith);
                    lemma_count_free_take(old(self)@, n as int, i as int);
                }
                return Some(addr);
            }
            k += 1;
        }
        None
    }
}

/// Fills `page`, the bytes of a frame that was handed out, with zero bytes,
/// so that nothing of what the frame held before can be read from it.
pub fn clear_page(page: &mut [u8])
    ensures
        final(page)@.len() == old(page)@.len(),
        forall|i: int| 0 <= i < final(page)@.len() ==> final(page)@[i] == 0u8,
{
    let len: usize = page.len();
    let mut i: usize = 0;
    while i < len
        invariant
            i <= len,
            page@.len() == len,
            forall|j: int| 0 <= j < i ==> page@[j] == 0u8,
        decreases len - i,
    {
        page[i] = 0;
        i += 1;
    }
}

/// What a caller's frame allocator keeps across a walk that may take frames
/// from it: its region, the length of its bitmap, and every frame that was in
/// use.
pub open spec fn frames_only_taken(before: &BitmapAllocator, after: &BitmapAllocator) -> bool {
    &&& after.wf()
    &&& after.region_start() == before.region_start()
    &&& after.region_size() == before.region_size()
    &&& after@.len() == before@.len()
    &&& forall|i: int| 0 <= i < before@.len() && before@[i] ==> after@[i]
}

/// What a caller's frame allocator keeps across a pass that may give frames
/// back to it: its region, the length of its bitmap, and every frame that was
/// free.
pub open spec fn frames_only_freed(before: &BitmapAllocator, after: &BitmapAllocator) -> bool {
    &&& after.wf()
    &&& after.region_start() == before.region_start()
    &&& after.region_size() == before.region_size()
    &&& after@.len() == before@.len()
    &&& forall|i: int| 0 <= i < before@.len() && !before@[i] ==> !after@[i]
}

/// Where bits are only ever set, no more of them are clear afterwards.
pub proof fn lemma_count_free_shrinks(before: Seq<bool>, after: Seq<bool>, n: int)
    requires
        n <= before.len(),
        n <= after.len(),
        forall|j: int| 0 <= j < n && before[j] ==> after[j],
    ensures
        count_free(after, n) <= count_free(before, n),
    decreases n,
{
    if n > 0 {
        lemma_count_free_shrinks(before, after, n - 1);
    }
}

/// An allocator from which frames were only taken has no more free frames
/// than before.
pub proof fn lemma_only_taken_counts(before: &BitmapAllocator, after: &BitmapAllocator)
    requires
        before.wf(),
        frames_only_taken(before, after),
    ensures
        after.free_count() <= before.free_count(),
{
    lemma_count_free_shrinks(before@, after@, before.pages());
}

proof fn lemma_zero_has_no_bit(o: u8)
    by (bit_vector)
    requires
        o < 8,
    ensures
        0u8 & (0x80u8 >> o) == 0,
{
}

/// Taking a free frame and then freeing the page at its address gives back
/// the bits as they were before. `reserved` is the number of frames that hold
/// the bitmap, which are never free.
pub proof fn lemma_request_then_free(bits: Seq<bool>, reserved: int, index: int)
    requires
        0 <= index < bits.len(),
        !bits[index],
        forall|i: int| 0 <= i < reserved && i < bits.len() ==> bits[i],
    ensures
        first_page(index * PAGE_SIZE) == index,
        end_page(index * PAGE_SIZE, PAGE_SIZE as int) == index + 1,
        mark(bits.update(index, true), vstd::math::max(index, reserved), index + 1, false) == bits,
{
    assert(mark(bits.update(index, true), vstd::math::max(index, reserved), index + 1, false)
        =~= bits);
}

} // verus!
