//! The word of a page entry: its flags, and the address between them.

use crate::kernel::memory_map::MemoryFlags;
use vstd::prelude::*;

verus! {

/// The flags of a page entry, in the bit layout of the architecture.
#[derive(Clone, Copy, Debug, PartialEq, Eq, Structural)]
pub struct PageTableFlags {
    bits: u64,
}

impl PageTableFlags {
    /// The entry is honoured by the processor.
    pub const PRESENT: u64 = 0x1;

    /// Writes are allowed.
    pub const WRITABLE: u64 = 0x2;

    /// Accesses from user mode are allowed.
    pub const USER_ACCESSIBLE: u64 = 0x4;

    /// Writes go through the cache to memory at once.
    pub const WRITE_THROUGH: u64 = 0x8;

    /// The memory is not cached.
    pub const NO_CACHE: u64 = 0x10;

    /// Set by the processor when the entry is used.
    pub const ACCESSED: u64 = 0x20;

    /// The entry maps a larger page instead of pointing to a table.
    pub const LARGER_PAGES: u64 = 0x80;

    /// Code cannot be executed from the memory.
    pub const NO_EXECUTE: u64 = 0x8000_0000_0000_0000;

    /// Every flag bit.
    pub const ALL: u64 = 0x8000_0000_0000_00bf;

    #[verifier::type_invariant]
    spec fn known_bits_only(self) -> bool {
        self.bits & !PageTableFlags::ALL == 0
    }

    /// The bits of the flags.
    pub closed spec fn view(&self) -> u64 {
        self.bits
    }

    /// The flags among `bits`; bits that are no flag are dropped.
    pub fn from_bits_truncate(bits: u64) -> (flags: Self)
        ensures
            flags@ == bits & PageTableFlags::ALL,
    {
        assert((bits & 0x8000_0000_0000_00bfu64) & !0x8000_0000_0000_00bfu64 == 0) by (bit_vector);
        PageTableFlags { bits: bits & PageTableFlags::ALL }
    }

    /// The bits of the flags.
    pub fn bits(&self) -> (bits: u64)
        ensures
            bits == self@,
            bits & !PageTableFlags::ALL == 0,
    {
        proof {
            use_type_invariant(self);
        }
        self.bits
    }

    /// Whether every flag of `other` is set.
    pub fn contains(&self, other: u64) -> (all: bool)
        ensures
            all == (self@ & other == other),
    {
        self.bits & other == other
    }
}

/// The architectural flag bits for the portable flag bits `portable`:
/// `PRESENT` always, and each portable flag as its architectural flag. A flag
/// that is absent leaves the architecture's default: read-only, supervisor,
/// cached, executable.
pub open spec fn arch_flag_bits(portable: u8) -> u64 {
    PageTableFlags::PRESENT | (if portable & MemoryFlags::WRITABLE == MemoryFlags::WRITABLE {
        PageTableFlags::WRITABLE
    } else {
        0
    }) | (if portable & MemoryFlags::USER_ACCESSIBLE == MemoryFlags::USER_ACCESSIBLE {
        PageTableFlags::USER_ACCESSIBLE
    } else {
        0
    }) | (if portable & MemoryFlags::WRITE_THROUGH == MemoryFlags::WRITE_THROUGH {
        PageTableFlags::WRITE_THROUGH
    } else {
        0
    }) | (if portable & MemoryFlags::NO_CACHE == MemoryFlags::NO_CACHE {
        PageTableFlags::NO_CACHE
    } else {
        0
    }) | (if portable & MemoryFlags::NO_EXECUTE == MemoryFlags::NO_EXECUTE {
        PageTableFlags::NO_EXECUTE
    } else {
        0
    })
}

/// The portable flag bits that the architectural flag bits `arch` stand for.
pub open spec fn portable_flag_bits(arch: u64) -> u8 {
    (if arch & PageTableFlags::WRITABLE != 0 {
        MemoryFlags::WRITABLE
    } else {
        0
    }) | (if arch & PageTableFlags::USER_ACCESSIBLE != 0 {
        MemoryFlags::USER_ACCESSIBLE
    } else {
        0
    }) | (if arch & PageTableFlags::WRITE_THROUGH != 0 {
        MemoryFlags::WRITE_THROUGH
    } else {
        0
    }) | (if arch & PageTableFlags::NO_CACHE != 0 {
        MemoryFlags::NO_CACHE
    } else {
        0
    }) | (if arch & PageTableFlags::NO_EXECUTE != 0 {
        MemoryFlags::NO_EXECUTE
    } else {
        0
    })
}

/// Translating portable flags to the architecture and back gives them back,
/// and the translation always holds `PRESENT` and only flag bits.
pub proof fn lemma_flags_round_trip(portable: u8)
    by (bit_vector)
    requires
        portable & !0x1fu8 == 0,
    ensures
        portable_flag_bits(arch_flag_bits(portable)) == portable,
        arch_flag_bits(portable) & 0x1 == 0x1,
        arch_flag_bits(portable) & !0x8000_0000_0000_00bfu64 == 0,
{
}

impl From<MemoryFlags> for PageTableFlags {
    fn from(value: MemoryFlags) -> (flags: PageTableFlags) {
        let writable: u64 = if value.contains(MemoryFlags::WRITABLE) {
            PageTableFlags::WRITABLE
        } else {
            0
        };
        let user: u64 = if value.contains(MemoryFlags::USER_ACCESSIBLE) {
            PageTableFlags::USER_ACCESSIBLE
        } else {
            0
        };
        let write_through: u64 = if value.contains(MemoryFlags::WRITE_THROUGH) {
            PageTableFlags::WRITE_THROUGH
        } else {
            0
        };
        let no_cache: u64 = if value.contains(MemoryFlags::NO_CACHE) {
            PageTableFlags::NO_CACHE
        } else {
            0
        };
        let no_execute: u64 = if value.contains(MemoryFlags::NO_EXECUTE) {
            PageTableFlags::NO_EXECUTE
        } else {
            0
        };
        let portable: u8 = value.bits();
        proof {
            lemma_flags_round_trip(portable);
        }
        PageTableFlags {
            bits: PageTableFlags::PRESENT | writable | user | write_through | no_cache | no_execute,
        }
    }
}

impl vstd::std_specs::convert::FromSpecImpl<MemoryFlags> for PageTableFlags {
    open spec fn obeys_from_spec() -> bool {
        true
    }

    open spec fn from_spec(value: MemoryFlags) -> PageTableFlags {
        PageTableFlags::of_bits(arch_flag_bits(value@))
    }
}

impl PageTableFlags {
    /// The flags with exactly the bits `bits`.
    pub closed spec fn of_bits(bits: u64) -> PageTableFlags {
        PageTableFlags { bits }
    }

    /// Flags are what their bits are.
    pub proof fn lemma_of_bits(bits: u64)
        ensures
            PageTableFlags::of_bits(bits)@ == bits,
    {
    }
}

/// A page entry: a machine word with the flags in its low bits and in its top
/// bit, and a 4 KiB-aligned physical address in between. The address means
/// something only where `PRESENT` is set.
#[derive(Clone, Copy, Debug, PartialEq, Eq, Structural)]
pub struct PageEntry {
    bits: u64,
}

impl PageEntry {
    /// The bits of an entry that hold the physical address.
    pub const ADDRESS_MASK: u64 = 0x000f_ffff_ffff_f000;

    /// The word of the entry.
    pub closed spec fn view(&self) -> u64 {
        self.bits
    }

    /// Whether `PRESENT` is set.
    pub open spec fn present(&self) -> bool {
        self@ & PageTableFlags::PRESENT == PageTableFlags::PRESENT
    }

    /// Whether `LARGER_PAGES` is set: above level 1 the entry, where it is
    /// present, maps a larger page instead of pointing to a table.
    pub open spec fn larger(&self) -> bool {
        self@ & PageTableFlags::LARGER_PAGES == PageTableFlags::LARGER_PAGES
    }

    /// Whether the entry, in a table above level 1, points to a table: it is
    /// present and maps no larger page.
    pub open spec fn links(&self) -> bool {
        self.present() && !self.larger()
    }

    /// The physical address that the entry holds.
    pub open spec fn addr(&self) -> u64 {
        self@ & PageEntry::ADDRESS_MASK
    }

    /// The flag bits that the entry holds.
    pub open spec fn flag_bits(&self) -> u64 {
        self@ & PageTableFlags::ALL
    }

    /// The entry that holds nothing: every bit clear.
    pub fn unused() -> (entry: Self)
        ensures
            entry@ == 0,
            !entry.present(),
    {
        assert(0u64 & 0x1u64 != 0x1u64) by (bit_vector);
        PageEntry { bits: 0 }
    }

    /// The entry for the frame that contains `address`, with `flags`.
    pub fn new(address: u64, flags: PageTableFlags) -> (entry: Self)
        ensures
            entry@ == (address & PageEntry::ADDRESS_MASK) | flags@,
            entry.addr() == address & PageEntry::ADDRESS_MASK,
            entry.flag_bits() == flags@,
    {
        let f: u64 = flags.bits();
        proof {
            assert(f & !0x8000_0000_0000_00bfu64 == 0 ==> ((address & 0x000f_ffff_ffff_f000u64) | f)
                & 0x000f_ffff_ffff_f000u64 == address & 0x000f_ffff_ffff_f000u64 && ((address
                & 0x000f_ffff_ffff_f000u64) | f) & 0x8000_0000_0000_00bfu64 == f) by (bit_vector);
        }
        PageEntry { bits: (address & PageEntry::ADDRESS_MASK) | f }
    }

    /// The word of the entry.
    pub fn bits(&self) -> (bits: u64)
        ensures
            bits == self@,
    {
        self.bits
    }

    /// Whether `PRESENT` is set.
    pub fn is_present(&self) -> (present: bool)
        ensures
            present == self.present(),
    {
        self.bits & PageTableFlags::PRESENT == PageTableFlags::PRESENT
    }

    /// Whether `LARGER_PAGES` is set.
    pub fn is_larger_page(&self) -> (larger: bool)
        ensures
            larger == self.larger(),
    {
        self.bits & PageTableFlags::LARGER_PAGES == PageTableFlags::LARGER_PAGES
    }

    /// Whether the entry, in a table above level 1, points to a table.
    pub fn is_link(&self) -> (links: bool)
        ensures
            links == self.links(),
    {
        self.is_present() && !self.is_larger_page()
    }

    /// The entry that is the word `bits`.
    pub fn from_bits(bits: u64) -> (entry: Self)
        ensures
            entry@ == bits,
    {
        PageEntry { bits }
    }

    /// The physical address that the entry holds.
    pub fn address(&self) -> (address: u64)
        ensures
            address == self.addr(),
    {
        self.bits & PageEntry::ADDRESS_MASK
    }

    /// The flags that the entry holds.
    pub fn flags(&self) -> (flags: PageTableFlags)
        ensures
            flags@ == self.flag_bits(),
    {
        PageTableFlags::from_bits_truncate(self.bits)
    }
}

} // verus!
