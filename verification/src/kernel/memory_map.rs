//! The architecture-neutral view of an address space.

use crate::bitmap_allocator::{frames_only_taken, BitmapAllocator};
use vstd::prelude::*;

verus! {

/// Attributes of a mapping, as a set of flags over the bits below.
#[derive(Clone, Copy, Debug, PartialEq, Eq, Structural, Hash)]
pub struct MemoryFlags {
    bits: u8,
}

impl MemoryFlags {
    /// Writes to the mapped frame are allowed.
    pub const WRITABLE: u8 = 0x01;

    /// Accesses from user mode are allowed.
    pub const USER_ACCESSIBLE: u8 = 0x02;

    /// Writes go through the cache to memory at once.
    pub const WRITE_THROUGH: u8 = 0x04;

    /// The mapped frame is not cached.
    pub const NO_CACHE: u8 = 0x08;

    /// Code in the mapped frame cannot be executed.
    pub const NO_EXECUTE: u8 = 0x10;

    /// Every bit that a flag set may hold.
    pub const ALL: u8 = 0x1f;

    #[verifier::type_invariant]
    spec fn known_bits_only(self) -> bool {
        self.bits & !MemoryFlags::ALL == 0
    }

    /// The bits of the set.
    pub closed spec fn view(&self) -> u8 {
        self.bits
    }

    /// The set without any flag.
    pub fn empty() -> (flags: Self)
        ensures
            flags@ == 0,
    {
        assert(0u8 & !0x1fu8 == 0) by (bit_vector);
        MemoryFlags { bits: 0 }
    }

    /// The set that holds the known flags among `bits`; unknown bits are
    /// dropped.
    pub fn from_bits_truncate(bits: u8) -> (flags: Self)
        ensures
            flags@ == bits & MemoryFlags::ALL,
    {
        assert((bits & 0x1fu8) & !0x1fu8 == 0) by (bit_vector);
        MemoryFlags { bits: bits & MemoryFlags::ALL }
    }

    /// The bits of the set.
    pub fn bits(&self) -> (bits: u8)
        ensures
            bits == self@,
            bits & !MemoryFlags::ALL == 0,
    {
        proof {
            use_type_invariant(self);
        }
        self.bits
    }

    /// Whether every flag of `other` is in this set.
    pub fn contains(&self, other: u8) -> (all: bool)
        ensures
            all == (self@ & other == other),
    {
        self.bits & other == other
    }

    /// The flags of this set together with those of `other`.
    pub fn union(self, other: MemoryFlags) -> (flags: Self)
        ensures
            flags@ == self@ | other@,
    {
        proof {
            use_type_invariant(self);
            use_type_invariant(other);
            let a = self.bits;
            let b = other.bits;
            assert(a & !0x1fu8 == 0 && b & !0x1fu8 == 0 ==> (a | b) & !0x1fu8 == 0)
                by (bit_vector);
        }
        MemoryFlags { bits: self.bits | other.bits }
    }
}

impl Default for MemoryFlags {
    /// The flags of a kernel heap page: writable and user accessible.
    fn default() -> (flags: Self)
        ensures
            flags@ == MemoryFlags::WRITABLE | MemoryFlags::USER_ACCESSIBLE,
    {
        assert((0x01u8 | 0x02u8) & !0x1fu8 == 0) by (bit_vector);
        MemoryFlags { bits: MemoryFlags::WRITABLE | MemoryFlags::USER_ACCESSIBLE }
    }
}


/// An address space that pages can be mapped into and removed from. Each
/// architecture says by `page_key` which addresses share a page.
pub trait MemoryMap {
    /// The invariant of the address space.
    spec fn wf(&self) -> bool;

    /// A number that two virtual addresses share exactly when they lie in the
    /// same page.
    spec fn page_key(virt: usize) -> int;

    /// Base address of the frame that contains the physical address `phys`.
    spec fn frame_base(phys: usize) -> int;

    /// The frame base and the flag bits that the page with key `key` is mapped
    /// to, if it is mapped.
    spec fn translate(&self, key: int) -> Option<(int, u8)>;

    /// Whether `virt` is a virtual address that the architecture translates.
    spec fn addressable(virt: usize) -> bool;

    /// Whether `phys` is a physical address that the architecture can map to.
    spec fn physical(phys: usize) -> bool;

    /// Whether the page of `from` can take a mapping: `from` is addressable,
    /// the page has no mapping, and nothing that covers it is in the way.
    spec fn mappable(&self, from: usize) -> bool;

    /// Number of frames that mapping the page of `from` takes for the tables
    /// that are missing on the way to it.
    spec fn tables_needed(&self, from: usize) -> nat;

    /// Number of tables on the way to the page of `b` that the way to the page
    /// of `a` does not pass.
    spec fn tables_apart(a: usize, b: usize) -> nat;

    /// Maps the page of `from` to the frame of `to` with `flags`, taking a
    /// frame from `frames` for each table that is missing on the way. Every
    /// frame of `frames` must be a physical address of the architecture.
    /// Succeeds exactly when the page can take a mapping, `to` is a physical
    /// address and `frames` has these frames; otherwise every translation is
    /// left as it was, and the tables made before the frames ran out stay. Frames are only ever taken, never given
    /// back. A mapping leaves every other page as mappable as it was, and
    /// leaves for it the tables to make that it does not share with this one.
    fn map_memory<'a>(
        &mut self,
        from: usize,
        to: usize,
        flags: MemoryFlags,
        frames: &mut BitmapAllocator<'a>,
    ) -> (ok: bool)
        requires
            old(self).wf(),
            old(frames).wf(),
            forall|j: int|
                0 <= j < old(frames).pages() ==> Self::physical(
                    (#[trigger] old(frames).frame_address(j)) as usize,
                ),
        ensures
            final(self).wf(),
            frames_only_taken(old(frames), final(frames)),
            ok <==> old(self).mappable(from) && Self::physical(to) && old(self).tables_needed(from)
                <= old(frames).free_count(),
            ok ==> Self::addressable(from),
            Self::physical(to) ==> final(frames).free_count() == old(frames).free_count()
                - vstd::math::min(
                old(self).tables_needed(from) as int,
                old(frames).free_count() as int,
            ),
            !Self::physical(to) ==> *final(frames) == *old(frames),
            ok ==> forall|other: usize|
                (#[trigger] final(self).mappable(other)) == (old(self).mappable(other)
                    && Self::page_key(other) != Self::page_key(from)),
            ok ==> forall|other: usize|
                (#[trigger] final(self).tables_needed(other)) == vstd::math::min(
                    old(self).tables_needed(other) as int,
                    Self::tables_apart(from, other) as int,
                ),
            old(self).translate(Self::page_key(from)).is_some() ==> !ok,
            ok ==> final(self).translate(Self::page_key(from)) == Some(
                (Self::frame_base(to), flags@),
            ),
            !ok ==> final(self).translate(Self::page_key(from)) == old(self).translate(
                Self::page_key(from),
            ),
            forall|key: int|
                key != Self::page_key(from) ==> final(self).translate(key) == old(self).translate(
                    key,
                ),
    ;

    /// Removes the mapping of the page of `from`. Returns `false`, changing
    /// nothing, when `from` is not addressable and when the page was not
    /// mapped. No frame is freed.
    fn unmap_memory(&mut self, from: usize) -> (ok: bool)
        requires
            old(self).wf(),
        ensures
            final(self).wf(),
            ok == (Self::addressable(from) && old(self).translate(Self::page_key(from)).is_some()),
            ok ==> final(self).translate(Self::page_key(from)).is_none(),
            !ok ==> final(self).translate(Self::page_key(from)) == old(self).translate(
                Self::page_key(from),
            ),
            forall|key: int|
                key != Self::page_key(from) ==> final(self).translate(key) == old(self).translate(
                    key,
                ),
    ;

    /// The value that selects this address space when it is written to the
    /// translation-root register.
    spec fn root_register(&self) -> u64;

    /// Returns the value to write to the translation-root register in order
    /// to install this address space on the current core.
    fn load_memory_map(&self) -> (value: u64)
        requires
            self.wf(),
        ensures
            value == self.root_register(),
    ;
}


/// Whether every frame of `frames` lies at a physical address of the
/// architecture of `M`.
pub open spec fn frames_physical<M: MemoryMap>(frames: &BitmapAllocator) -> bool {
    forall|j: int|
        0 <= j < frames.pages() ==> M::physical((#[trigger] frames.frame_address(j)) as usize)
}

/// An allocator of the same region has physical frames as before.
pub proof fn lemma_frames_stay_physical<M: MemoryMap>(
    before: &BitmapAllocator,
    after: &BitmapAllocator,
)
    requires
        frames_physical::<M>(before),
        after.region_start() == before.region_start(),
        after.region_size() == before.region_size(),
    ensures
        frames_physical::<M>(after),
{
    assert forall|j: int| 0 <= j < after.pages() implies M::physical(
        (#[trigger] after.frame_address(j)) as usize,
    ) by {
        assert(before.frame_address(j) == after.frame_address(j));
    }
}

/// Whether every page that was mapped in `before` is mapped in `after` to
/// the same frame with the same flags.
pub open spec fn mappings_kept<M: MemoryMap>(before: &M, after: &M) -> bool {
    forall|key: int|
        (#[trigger] before.translate(key)).is_some() ==> after.translate(key) == before.translate(
            key,
        )
}

} // verus!
