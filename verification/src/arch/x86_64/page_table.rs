//! Page tables and the walks over the 4-level tree.
//!
//! A table owns the tables that its entries point to, so the tree of an
//! address space is one value, and a copy of it shares no table with it.

use crate::arch::x86_64::page_entry::{PageEntry, PageTableFlags};
use crate::bitmap_allocator::{frames_only_freed, frames_only_taken, BitmapAllocator, PAGE_SIZE};
use vstd::prelude::*;

verus! {

/// Number of entries in a page table.
pub const ENTRY_COUNT: usize = 512;

/// Number of levels of the tree; the root is at this level, and the tables
/// of level 1 hold the mappings of pages.
pub const LEVELS: usize = 4;

/// The flags of an entry that points to a table made on the way to a new
/// mapping.
pub const LINK_FLAGS: u64 = 0x7;

/// The index into the table of `level` that the virtual address `virt`
/// selects: nine bits, those of level 1 from bit 12 on.
pub open spec fn level_index(virt: u64, level: int) -> usize {
    if level == 1 {
        ((virt >> 12) & 0x1ff) as usize
    } else if level == 2 {
        ((virt >> 21) & 0x1ff) as usize
    } else if level == 3 {
        ((virt >> 30) & 0x1ff) as usize
    } else {
        ((virt >> 39) & 0x1ff) as usize
    }
}

/// The four indices of a virtual address, level 1 first.
pub open spec fn page_indices(virt: u64) -> Seq<usize> {
    seq![level_index(virt, 1), level_index(virt, 2), level_index(virt, 3), level_index(virt, 4)]
}

/// Whether `indices` names an entry at each of the four levels.
pub open spec fn valid_indices(indices: Seq<usize>) -> bool {
    &&& indices.len() == LEVELS
    &&& forall|k: int| 0 <= k < indices.len() ==> indices[k] < ENTRY_COUNT
}

/// Whether two index sequences agree at the levels `1 ..= level`.
pub open spec fn same_path(a: Seq<usize>, b: Seq<usize>, level: nat) -> bool
    decreases level,
{
    level == 0 || (a[level - 1] == b[level - 1] && same_path(a, b, (level - 1) as nat))
}

/// Number of tables on the walk along `b`, from a table of `level` down,
/// that the walk along `a` does not pass: those below the highest level at
/// which the two differ, and none where they agree.
pub open spec fn apart(a: Seq<usize>, b: Seq<usize>, level: nat) -> nat
    decreases level,
{
    if level == 0 {
        0
    } else if a[level - 1] != b[level - 1] {
        (level - 1) as nat
    } else {
        apart(a, b, (level - 1) as nat)
    }
}

/// Walks from a table of `level` have at most `level - 1` tables apart.
pub proof fn lemma_apart_bound(a: Seq<usize>, b: Seq<usize>, level: nat)
    requires
        level >= 1,
    ensures
        apart(a, b, level) <= level - 1,
    decreases level,
{
    if level > 1 && a[level - 1] == b[level - 1] {
        lemma_apart_bound(a, b, (level - 1) as nat);
    } else {
        assert(apart(a, b, 0) == 0);
    }
}

/// Walks that agree at every level have no table apart, and walks that do not
/// agree are not the same path.
pub proof fn lemma_apart_same(a: Seq<usize>, b: Seq<usize>, level: nat)
    ensures
        same_path(a, b, level) ==> apart(a, b, level) == 0,
    decreases level,
{
    if level > 0 {
        lemma_apart_same(a, b, (level - 1) as nat);
    }
}

/// The four indices of the virtual address `virt`, level 1 first.
pub fn get_page_index(virt: u64) -> (indices: [usize; 4])
    ensures
        indices@ == page_indices(virt),
        valid_indices(indices@),
{
    let l1: u64 = (virt >> 12) & 0x1ff;
    let l2: u64 = (virt >> 21) & 0x1ff;
    let l3: u64 = (virt >> 30) & 0x1ff;
    let l4: u64 = (virt >> 39) & 0x1ff;
    proof {
        assert((virt >> 12) & 0x1ff < 512 && (virt >> 21) & 0x1ff < 512 && (virt >> 30) & 0x1ff
            < 512 && (virt >> 39) & 0x1ff < 512) by (bit_vector);
    }
    let indices: [usize; 4] = [l1 as usize, l2 as usize, l3 as usize, l4 as usize];
    proof {
        assert(indices@ =~= page_indices(virt));
    }
    indices
}

/// Whether `link` is an entry that points to a table in a frame that `after`
/// has taken since `before`, with the flags `PRESENT | WRITABLE |
/// USER_ACCESSIBLE`.
pub open spec fn links_fresh_table(
    link: PageEntry,
    before: &BitmapAllocator,
    after: &BitmapAllocator,
) -> bool {
    link.flag_bits() == LINK_FLAGS && taken_frame(before, after, link.addr())
}

/// Whether the walk from `table` of `level` along `indices` finds a present
/// entry in the table of level `at`.
pub open spec fn links_at(table: &PageTable, level: nat, indices: Seq<usize>, at: nat) -> bool {
    match table.walk_entry(level, indices, at) {
        Some(entry) => entry.present(),
        None => false,
    }
}

/// Physical address of frame `index` of `frames`, as a page entry holds it.
pub open spec fn frame_at(frames: &BitmapAllocator, index: int) -> u64 {
    frames.frame_address(index) as u64
}

/// Whether `frame` is the base of the frame that contains the physical
/// address `address`.
pub open spec fn holds_frame(frame: u64, address: int) -> bool {
    0 <= address <= usize::MAX && frame == (address as usize as u64) & PageEntry::ADDRESS_MASK
}

/// Whether the frame at `frame` was free in `before` and is taken in `after`.
pub open spec fn taken_frame(before: &BitmapAllocator, after: &BitmapAllocator, frame: u64) -> bool {
    exists|j: int|
        0 <= j < before.pages() && !before@[j] && after@[j] && #[trigger] holds_frame(
            frame,
            before.frame_address(j),
        )
}

/// A frame that was taken stays taken while frames are only taken, and was
/// free in every allocator from which frames were only taken since.
pub proof fn lemma_taken_frame_lasts(
    first: &BitmapAllocator,
    before: &BitmapAllocator,
    after: &BitmapAllocator,
    last: &BitmapAllocator,
    frame: u64,
)
    requires
        first.wf(),
        frames_only_taken(first, before),
        frames_only_taken(before, after),
        frames_only_taken(after, last),
        taken_frame(before, after, frame),
    ensures
        taken_frame(first, last, frame),
{
    let j = choose|j: int|
        0 <= j < before.pages() && !before@[j] && after@[j] && #[trigger] holds_frame(
            frame,
            before.frame_address(j),
        );
    assert(holds_frame(frame, first.frame_address(j)));
}

/// Whether the frame at `frame`, where it is a frame of `frames` that does
/// not hold the bitmap, is free.
pub open spec fn frame_free(frames: &BitmapAllocator, frame: u64) -> bool {
    forall|j: int|
        frames.reserved() <= j < frames.pages() && frames.frame_address(j) == frame ==> !(
        #[trigger] frames@[j])
}

/// Whether `entries` and `children` make up a table of `level` in the frame
/// at `frame` that meets the invariant.
pub open spec fn parts_fit(
    level: nat,
    frame: u64,
    entries: Seq<PageEntry>,
    children: Seq<Option<PageTable>>,
) -> bool {
    &&& 1 <= level <= LEVELS
    &&& entries.len() == ENTRY_COUNT
    &&& children.len() == ENTRY_COUNT
    &&& frame & PageEntry::ADDRESS_MASK == frame
    &&& forall|i: int|
        0 <= i < ENTRY_COUNT ==> if level > 1 && entries[i].links() {
            &&& (#[trigger] children[i]).is_some()
            &&& children[i].unwrap().wf((level - 1) as nat)
            &&& children[i].unwrap().frame() == entries[i].addr()
        } else {
            children[i].is_none()
        }
}

/// Marks the frame at `frame` free in `frames`, where `frame` is the address
/// of one of its frames and holds no part of the bitmap.
pub fn release_frame<'a>(frames: &mut BitmapAllocator<'a>, frame: u64)
    requires
        old(frames).wf(),
    ensures
        frames_only_freed(old(frames), final(frames)),
        forall|i: int|
            0 <= i < old(frames).pages() ==> (#[trigger] final(frames)@[i]) == (old(frames)@[i]
                && !(old(frames).frame_address(i) == frame && old(frames).reserved() <= i)),
        frame_free(final(frames), frame),
{
    let start: usize = frames.memory_region_start();
    if frame <= usize::MAX as u64 {
        let addr: usize = frame as usize;
        if addr >= start && addr - start <= usize::MAX - PAGE_SIZE && (addr - start) % PAGE_SIZE
            == 0 {
            frames.free_pages(addr, PAGE_SIZE);
            proof {
                let rel = addr - start;
                let j = rel / (PAGE_SIZE as int);
                assert(rel == j * PAGE_SIZE);
                assert forall|i: int| 0 <= i < old(frames).pages() implies frames@[i] == (old(
                    frames,
                )@[i] && !(old(frames).frame_address(i) == frame && old(frames).reserved()
                    <= i)) by {
                    if i != j {
                        assert(i * PAGE_SIZE != j * PAGE_SIZE);
                    }
                }
            }
            return ;
        }
    }
    proof {
        assert forall|i: int| 0 <= i < frames.pages() implies frames.frame_address(i) != frame by {
            if frames.frame_address(i) == frame {
                assert((i + 1) * PAGE_SIZE <= frames.region_size());
                assert((i * PAGE_SIZE) % (PAGE_SIZE as int) == 0) by (nonlinear_arith)
                    requires
                        0 <= i,
                ;
            }
        }
    }
}

/// A page table: 512 entries, and for each present entry above level 1 the
/// table that it points to.
pub struct PageTable {
    frame: u64,
    entries: Vec<PageEntry>,
    children: Vec<Option<Box<PageTable>>>,
}

impl PageTable {
    /// Physical address of the frame that holds the table.
    pub closed spec fn frame(&self) -> u64 {
        self.frame
    }

    /// The entries of the table.
    pub closed spec fn entries(&self) -> Seq<PageEntry> {
        self.entries@
    }

    /// The table that entry `index` points to, where it points to one.
    pub closed spec fn child(&self, index: int) -> Option<PageTable> {
        if 0 <= index < self.children@.len() {
            match self.children@[index] {
                Some(table) => Some(*table),
                None => None,
            }
        } else {
            None
        }
    }

    spec fn slots(&self) -> int {
        self.children@.len() as int
    }

    /// The invariant of a table of `level`: it has 512 entries; above level
    /// 1 each present entry points to a table of the level below, which it
    /// owns and which meets the invariant; no other entry has a table.
    pub closed spec fn wf(&self, level: nat) -> bool
        decreases level,
    {
        &&& 1 <= level <= LEVELS
        &&& self.entries().len() == ENTRY_COUNT
        &&& self.slots() == ENTRY_COUNT
        &&& self.frame() & PageEntry::ADDRESS_MASK == self.frame()
        &&& forall|i: int|
            0 <= i < ENTRY_COUNT ==> if level > 1 && self.entries()[i].links() {
                &&& (#[trigger] self.child(i)).is_some()
                &&& self.child(i).unwrap().wf((level - 1) as nat)
                &&& self.child(i).unwrap().frame() == self.entries()[i].addr()
            } else {
                self.child(i).is_none()
            }
    }

    /// The entry of level 1 that the walk from this table of `level` along
    /// `indices` ends at, or `None` where the walk meets an entry that is not
    /// present.
    pub open spec fn lookup(&self, level: nat, indices: Seq<usize>) -> Option<PageEntry>
        decreases level,
    {
        if level == 0 {
            None
        } else {
            let index = indices[level - 1] as int;
            let entry = self.entries()[index];
            if !entry.present() {
                None
            } else if level == 1 {
                Some(entry)
            } else {
                match self.child(index) {
                    Some(table) => table.lookup((level - 1) as nat, indices),
                    None => None,
                }
            }
        }
    }

    /// The entry that the walk from this table of `level` along `indices`
    /// reads in the table of level `at`, or `None` where the walk does not
    /// get that far.
    pub open spec fn walk_entry(&self, level: nat, indices: Seq<usize>, at: nat) -> Option<
        PageEntry,
    >
        decreases level,
    {
        if level == 0 || at == 0 || at > level {
            None
        } else {
            let index = indices[level - 1] as int;
            let entry = self.entries()[index];
            if at == level {
                Some(entry)
            } else if !entry.present() {
                None
            } else {
                match self.child(index) {
                    Some(table) => table.walk_entry((level - 1) as nat, indices, at),
                    None => None,
                }
            }
        }
    }

    /// Whether the walk from this table of `level` along `indices` meets,
    /// above level 1, an entry that maps a larger page.
    pub open spec fn blocked(&self, level: nat, indices: Seq<usize>) -> bool
        decreases level,
    {
        if level <= 1 {
            false
        } else {
            let index = indices[level - 1] as int;
            let entry = self.entries()[index];
            if !entry.present() {
                false
            } else if entry.larger() {
                true
            } else {
                match self.child(index) {
                    Some(table) => table.blocked((level - 1) as nat, indices),
                    None => false,
                }
            }
        }
    }

    /// Number of tables that are missing on the walk from this table of
    /// `level` along `indices` down to level 1.
    pub open spec fn missing_tables(&self, level: nat, indices: Seq<usize>) -> nat
        decreases level,
    {
        if level == 0 {
            0
        } else {
            let index = indices[level - 1] as int;
            if !self.entries()[index].present() {
                (level - 1) as nat
            } else if level == 1 {
                0
            } else {
                match self.child(index) {
                    Some(table) => table.missing_tables((level - 1) as nat, indices),
                    None => 0,
                }
            }
        }
    }

    /// Number of tables below this table of `level` that its first `n`
    /// entries lead to.
    pub open spec fn tables_under(&self, level: nat, n: nat) -> nat
        decreases level, n,
    {
        if n == 0 || level <= 1 {
            0
        } else {
            self.tables_under(level, (n - 1) as nat) + if self.entries()[n - 1].present() {
                match self.child(n - 1) {
                    Some(table) => table.table_count((level - 1) as nat),
                    None => 0,
                }
            } else {
                0
            }
        }
    }

    /// Number of tables in the tree under this table of `level`, itself
    /// included.
    pub open spec fn table_count(&self, level: nat) -> nat
        decreases level, ENTRY_COUNT + 1,
    {
        1 + self.tables_under(level, ENTRY_COUNT as nat)
    }

    proof fn lemma_tables_under_grows(&self, level: nat, a: nat, b: nat)
        requires
            a <= b,
        ensures
            self.tables_under(level, a) <= self.tables_under(level, b),
        decreases b,
    {
        if a < b {
            self.lemma_tables_under_grows(level, a, (b - 1) as nat);
        }
    }

    /// The walk from a table of `level` misses at most the tables of all
    /// levels below.
    pub proof fn lemma_missing_bound(&self, level: nat, indices: Seq<usize>)
        requires
            level >= 1,
        ensures
            self.missing_tables(level, indices) <= level - 1,
        decreases level,
    {
        let index = indices[level - 1] as int;
        if self.entries()[index].present() && level > 1 {
            match self.child(index) {
                Some(table) => {
                    table.lemma_missing_bound((level - 1) as nat, indices);
                },
                None => {},
            }
        }
    }

    /// An empty table in the frame that contains `frame`: every entry clear,
    /// as in a zeroed frame.
    pub fn new(frame: u64) -> (table: Self)
        ensures
            table.frame() == frame & PageEntry::ADDRESS_MASK,
            table.entries().len() == ENTRY_COUNT,
            forall|i: int| 0 <= i < ENTRY_COUNT ==> table.entries()[i]@ == 0,
            forall|i: int| 0 <= i < ENTRY_COUNT ==> !(#[trigger] table.entries()[i]).present(),
            forall|level: nat| 1 <= level <= LEVELS ==> #[trigger] table.wf(level),
            forall|level: nat, indices: Seq<usize>|
                level <= LEVELS && valid_indices(indices) ==> (#[trigger] table.lookup(
                    level,
                    indices,
                )).is_none(),
    {
        let mut entries: Vec<PageEntry> = Vec::new();
        let mut children: Vec<Option<Box<PageTable>>> = Vec::new();
        let mut i: usize = 0;
        while i < ENTRY_COUNT
            invariant
                i <= ENTRY_COUNT,
                entries@.len() == i,
                children@.len() == i,
                forall|k: int| 0 <= k < i ==> entries@[k]@ == 0 && !entries@[k].present(),
                forall|k: int| 0 <= k < i ==> (#[trigger] children@[k]).is_none(),
            decreases ENTRY_COUNT - i,
        {
            entries.push(PageEntry::unused());
            children.push(None);
            i += 1;
        }
        proof {
            assert((frame & 0x000f_ffff_ffff_f000u64) & 0x000f_ffff_ffff_f000u64 == frame
                & 0x000f_ffff_ffff_f000u64) by (bit_vector);
        }
        let table = PageTable { frame: frame & PageEntry::ADDRESS_MASK, entries, children };
        proof {
            assert forall|level: nat| 1 <= level <= LEVELS implies #[trigger] table.wf(level) by {
                assert forall|k: int| 0 <= k < ENTRY_COUNT implies (#[trigger] table.child(
                    k,
                )).is_none() by {
                    assert(table.children@[k].is_none());
                }
            }
            assert forall|level: nat, indices: Seq<usize>|
                level <= LEVELS && valid_indices(indices) implies (#[trigger] table.lookup(
                level,
                indices,
            )).is_none() by {
                if level > 0 {
                    assert(!table.entries()[indices[level - 1] as int].present());
                }
            }
        }
        table
    }

    /// Entry `index` of the table, or `None` where the table has no such
    /// entry.
    pub fn entry(&self, index: usize) -> (entry: Option<PageEntry>)
        ensures
            entry.is_some() == (index < self.entries().len()),
            entry.is_some() ==> entry.unwrap() == self.entries()[index as int],
    {
        if index < self.entries.len() {
            Some(self.entries[index])
        } else {
            None
        }
    }

    /// The table that entry `index` points to, where it points to one.
    pub fn table_at(&self, index: usize) -> (table: Option<&PageTable>)
        ensures
            match table {
                Some(t) => self.child(index as int) == Some(*t),
                None => self.child(index as int).is_none(),
            },
    {
        if index < self.children.len() {
            match &self.children[index] {
                Some(table) => Some(&**table),
                None => None,
            }
        } else {
            None
        }
    }

    /// Physical address of the frame that holds the table.
    pub fn frame_address(&self) -> (frame: u64)
        ensures
            frame == self.frame(),
    {
        self.frame
    }

    /// The entry of level 1 that the walk from this table of `level` along
    /// `indices` ends at, or `None` where the walk meets an entry that is not
    /// present. Nothing is allocated.
    pub fn get_page(&self, level: usize, indices: [usize; 4]) -> (entry: Option<PageEntry>)
        requires
            self.wf(level as nat),
            valid_indices(indices@),
        ensures
            entry == self.lookup(level as nat, indices@),
        decreases level,
    {
        let index: usize = indices[level - 1];
        let entry: PageEntry = self.entries[index];
        proof {
            assert(self.child(index as int).is_some() == self.children@[index as int].is_some());
        }
        if !entry.is_present() {
            None
        } else if level == 1 {
            Some(entry)
        } else {
            match &self.children[index] {
                Some(table) => table.get_page(level - 1, indices),
                None => None,
            }
        }
    }
}

impl PageTable {
    /// Installs `leaf` as the entry of level 1 that the walk from this table
    /// of `level` along `indices` ends at. Where the walk meets an entry that
    /// is not present, it takes a frame from `frames`, makes it an empty table
    /// and lets the entry point to it with `PRESENT | WRITABLE |
    /// USER_ACCESSIBLE`. Returns `false` where the entry of level 1 is already
    /// present, where the walk meets an entry that maps a larger page, and
    /// where a frame could not be had; tables made before that stay. Every
    /// walk along other indices ends as before.
    pub fn map_page<'a>(
        &mut self,
        level: usize,
        indices: [usize; 4],
        leaf: PageEntry,
        frames: &mut BitmapAllocator<'a>,
    ) -> (ok: bool)
        requires
            old(self).wf(level as nat),
            valid_indices(indices@),
            leaf.present(),
            old(frames).wf(),
        ensures
            final(self).wf(level as nat),
            final(self).frame() == old(self).frame(),
            frames_only_taken(old(frames), final(frames)),
            ok <==> old(self).lookup(level as nat, indices@).is_none() && !old(self).blocked(
                level as nat,
                indices@,
            ) && old(self).missing_tables(level as nat, indices@) <= old(frames).free_count(),
            final(frames).free_count() == old(frames).free_count() - vstd::math::min(
                old(self).missing_tables(level as nat, indices@) as int,
                old(frames).free_count() as int,
            ),
            ok ==> final(self).lookup(level as nat, indices@) == Some(leaf),
            !ok ==> final(self).lookup(level as nat, indices@) == old(self).lookup(
                level as nat,
                indices@,
            ),
            forall|other: Seq<usize>|
                valid_indices(other) && !same_path(indices@, other, level as nat) ==> (
                #[trigger] final(self).lookup(level as nat, other)) == old(self).lookup(
                    level as nat,
                    other,
                ),
            forall|at: nat|
                1 < at <= level && links_at(old(self), level as nat, indices@, at) ==> (
                #[trigger] final(self).walk_entry(level as nat, indices@, at)) == old(
                    self,
                ).walk_entry(level as nat, indices@, at),
            forall|at: nat|
                1 < at <= level && !links_at(old(self), level as nat, indices@, at) && links_at(
                    final(self),
                    level as nat,
                    indices@,
                    at,
                ) ==> links_fresh_table(
                    (#[trigger] final(self).walk_entry(level as nat, indices@, at)).unwrap(),
                    old(frames),
                    final(frames),
                ),
            ok ==> forall|other: Seq<usize>|
                valid_indices(other) ==> (#[trigger] final(self).blocked(level as nat, other))
                    == old(self).blocked(level as nat, other),
            ok ==> forall|other: Seq<usize>|
                valid_indices(other) ==> (#[trigger] final(self).missing_tables(
                    level as nat,
                    other,
                )) == vstd::math::min(
                    old(self).missing_tables(level as nat, other) as int,
                    apart(indices@, other, level as nat) as int,
                ),
        decreases level,
    {
        let index: usize = indices[level - 1];
        let entry: PageEntry = self.entries[index];
        proof {
            assert(self.child(index as int).is_some() == self.children@[index as int].is_some());
        }
        if level == 1 {
            if entry.is_present() {
                return false;
            }
            self.entries[index] = leaf;
            proof {
                assert forall|i: int| 0 <= i < ENTRY_COUNT implies (#[trigger] self.child(
                    i,
                )).is_none() by {
                    assert(old(self).child(i).is_none());
                }
                assert forall|other: Seq<usize>|
                    valid_indices(other) && !same_path(indices@, other, level as nat) implies (
                #[trigger] self.lookup(level as nat, other)) == old(self).lookup(
                    level as nat,
                    other,
                ) by {
                    assert(same_path(indices@, other, 0));
                }
                assert forall|other: Seq<usize>| valid_indices(other) implies (
                #[trigger] self.missing_tables(level as nat, other)) == vstd::math::min(
                    old(self).missing_tables(level as nat, other) as int,
                    apart(indices@, other, level as nat) as int,
                ) by {
                    assert(apart(indices@, other, 0) == 0);
                }
            }
            return true;
        }
        if entry.is_present() && entry.is_larger_page() {
            return false;
        }
        let ghost mut made: bool = false;
        if !entry.is_present() {
            let frame: usize = match frames.request_page() {
                Some(frame) => frame,
                None => {
                    return false;
                },
            };
            let ghost slot = old(frames).frame_index(frame as int);
            let link = PageEntry::new(
                frame as u64,
                PageTableFlags::from_bits_truncate(
                    PageTableFlags::PRESENT | PageTableFlags::WRITABLE
                        | PageTableFlags::USER_ACCESSIBLE,
                ),
            );
            let table = PageTable::new(link.address());
            proof {
                let a = frame as u64;
                assert((a & 0x000f_ffff_ffff_f000u64) & 0x000f_ffff_ffff_f000u64 == a
                    & 0x000f_ffff_ffff_f000u64) by (bit_vector);
                assert(((0x1u64 | 0x2u64 | 0x4u64) & 0x8000_0000_0000_00bfu64) & 0x1u64 == 0x1u64)
                    by (bit_vector);
                let w = link@;
                assert(w & 0x8000_0000_0000_00bfu64 == (0x1u64 | 0x2u64 | 0x4u64)
                    & 0x8000_0000_0000_00bfu64 ==> w & 0x1u64 == 0x1u64 && w & 0x80u64 != 0x80u64)
                    by (bit_vector);
            }
            self.entries[index] = link;
            self.children[index] = Some(Box::new(table));
            proof {
                assert forall|i: int| 0 <= i < ENTRY_COUNT implies if level > 1
                    && self.entries()[i].links() {
                    &&& (#[trigger] self.child(i)).is_some()
                    &&& self.child(i).unwrap().wf((level - 1) as nat)
                    &&& self.child(i).unwrap().frame() == self.entries()[i].addr()
                } else {
                    self.child(i).is_none()
                } by {
                    if i != index {
                        assert(self.child(i) == old(self).child(i));
                    }
                }
                assert(self.wf(level as nat));
                assert forall|other: Seq<usize>| valid_indices(other) implies (
                #[trigger] self.lookup(level as nat, other)) == old(self).lookup(
                    level as nat,
                    other,
                ) by {
                    let at = other[level - 1] as int;
                    if at != index {
                        assert(self.child(at) == old(self).child(at));
                    } else {
                        assert(self.child(at) == Some(table));
                        assert(table.lookup((level - 1) as nat, other).is_none());
                    }
                }
                assert(self.child(index as int) == Some(table));
                assert(table.lookup((level - 1) as nat, indices@).is_none());
                assert(!table.entries()[indices@[level - 2] as int].present());
                assert(table.missing_tables((level - 1) as nat, indices@) == level - 2);
                assert forall|other: Seq<usize>| valid_indices(other) implies !(
                #[trigger] table.blocked((level - 1) as nat, other)) && table.missing_tables(
                    (level - 1) as nat,
                    other,
                ) == level - 2 by {
                    assert(!table.entries()[other[level - 2] as int].present());
                }
                made = true;
                assert((0x1u64 | 0x2u64 | 0x4u64) & 0x8000_0000_0000_00bfu64 == 0x7u64)
                    by (bit_vector);
                assert(link.flag_bits() == LINK_FLAGS);
                assert(link.links());
                assert(old(frames).is_next_free(slot));
                assert(frames@[slot]);
                assert(old(frames).frame_address(slot) == frame);
                assert(holds_frame(link.addr(), old(frames).frame_address(slot)));
                assert(links_fresh_table(link, old(frames), frames));
                assert forall|at: nat| 1 <= at < level implies !(#[trigger] links_at(
                    &table,
                    (level - 1) as nat,
                    indices@,
                    at,
                )) by {
                    if at == level - 1 {
                        assert(!table.entries()[indices@[level - 2] as int].present());
                    }
                }
            }
        }
        let ghost middle = *self;
        let ghost taken = *frames;
        let ok: bool = match &mut self.children[index] {
            Some(table) => table.map_page(level - 1, indices, leaf, frames),
            None => false,
        };
        proof {
            assert forall|i: int| 0 <= i < ENTRY_COUNT implies if level > 1
                && self.entries()[i].links() {
                &&& (#[trigger] self.child(i)).is_some()
                &&& self.child(i).unwrap().wf((level - 1) as nat)
                &&& self.child(i).unwrap().frame() == self.entries()[i].addr()
            } else {
                self.child(i).is_none()
            } by {
                if i != index {
                    assert(self.child(i) == middle.child(i));
                }
            }
            assert forall|other: Seq<usize>|
                valid_indices(other) && !same_path(indices@, other, level as nat) implies (
            #[trigger] self.lookup(level as nat, other)) == middle.lookup(level as nat, other) by {
                let at = other[level - 1] as int;
                if at != index {
                    assert(self.child(at) == middle.child(at));
                } else {
                    assert(!same_path(indices@, other, (level - 1) as nat));
                    assert(middle.child(at).is_some());
                    assert(self.child(at).is_some());
                    assert(self.child(at).unwrap().lookup((level - 1) as nat, other)
                        == middle.child(at).unwrap().lookup((level - 1) as nat, other));
                }
            }
            let below_before = middle.child(index as int).unwrap();
            let below_after = self.child(index as int).unwrap();
            assert forall|at: nat|
                1 < at <= level && links_at(old(self), level as nat, indices@, at) implies (
            #[trigger] self.walk_entry(level as nat, indices@, at)) == old(self).walk_entry(
                level as nat,
                indices@,
                at,
            ) by {
                if at < level {
                    assert(!made);
                    assert(below_after.walk_entry((level - 1) as nat, indices@, at)
                        == below_before.walk_entry((level - 1) as nat, indices@, at));
                }
            }
            assert forall|at: nat|
                1 < at <= level && !links_at(old(self), level as nat, indices@, at) && links_at(
                    self,
                    level as nat,
                    indices@,
                    at,
                ) implies links_fresh_table(
                (#[trigger] self.walk_entry(level as nat, indices@, at)).unwrap(),
                old(frames),
                frames,
            ) by {
                let link = self.walk_entry(level as nat, indices@, at).unwrap();
                if at == level {
                    assert(made);
                    let j = choose|j: int|
                        0 <= j < old(frames).pages() && !old(frames)@[j] && taken@[j]
                            && #[trigger] holds_frame(link.addr(), old(frames).frame_address(j));
                    assert(holds_frame(link.addr(), old(frames).frame_address(j)));
                } else {
                    assert(link == below_after.walk_entry((level - 1) as nat, indices@, at).unwrap());
                    assert(!links_at(&below_before, (level - 1) as nat, indices@, at));
                    assert(links_at(&below_after, (level - 1) as nat, indices@, at));
                    assert(links_fresh_table(link, &taken, frames));
                    let j = choose|j: int|
                        0 <= j < taken.pages() && !taken@[j] && frames@[j]
                            && #[trigger] holds_frame(link.addr(), taken.frame_address(j));
                    assert(holds_frame(link.addr(), old(frames).frame_address(j)));
                }
            }
            if ok {
                assert forall|other: Seq<usize>| valid_indices(other) implies (
                #[trigger] self.blocked(level as nat, other)) == old(self).blocked(
                    level as nat,
                    other,
                ) by {
                    let at = other[level - 1] as int;
                    if at != index {
                        assert(self.child(at) == middle.child(at));
                        assert(middle.child(at) == old(self).child(at));
                    } else {
                        assert(below_after.blocked((level - 1) as nat, other)
                            == below_before.blocked((level - 1) as nat, other));
                        if made {
                            assert(!below_before.blocked((level - 1) as nat, other));
                        } else {
                            assert(middle.child(at) == old(self).child(at));
                        }
                    }
                }
                assert forall|other: Seq<usize>| valid_indices(other) implies (
                #[trigger] self.missing_tables(level as nat, other)) == vstd::math::min(
                    old(self).missing_tables(level as nat, other) as int,
                    apart(indices@, other, level as nat) as int,
                ) by {
                    let at = other[level - 1] as int;
                    old(self).lemma_missing_bound(level as nat, other);
                    if at != index {
                        assert(self.child(at) == middle.child(at));
                        assert(middle.child(at) == old(self).child(at));
                        assert(self.entries()[at] == old(self).entries()[at]);
                    } else {
                        lemma_apart_bound(indices@, other, (level - 1) as nat);
                        assert(apart(indices@, other, level as nat) == apart(
                            indices@,
                            other,
                            (level - 1) as nat,
                        ));
                        assert(below_after.missing_tables((level - 1) as nat, other)
                            == vstd::math::min(
                            below_before.missing_tables((level - 1) as nat, other) as int,
                            apart(indices@, other, (level - 1) as nat) as int,
                        ));
                        if made {
                            assert(below_before.missing_tables((level - 1) as nat, other) == level
                                - 2);
                        } else {
                            assert(middle.child(at) == old(self).child(at));
                        }
                    }
                }
            }
        }
        ok
    }
}

impl PageTable {
    spec fn slot_ok(&self, level: nat, i: int) -> bool {
        if level > 1 && self.entries()[i].links() {
            &&& self.child(i).is_some()
            &&& self.child(i).unwrap().wf((level - 1) as nat)
            &&& self.child(i).unwrap().frame() == self.entries()[i].addr()
        } else {
            self.child(i).is_none()
        }
    }

    /// Clears the entry of level 1 that the walk from this table of `level`
    /// along `indices` ends at. Returns `false` where the walk meets an entry
    /// that is not present or that maps a larger page. No table and no frame
    /// is given up. Every walk along other indices ends as before.
    pub fn unmap_page(&mut self, level: usize, indices: [usize; 4]) -> (ok: bool)
        requires
            old(self).wf(level as nat),
            valid_indices(indices@),
        ensures
            final(self).wf(level as nat),
            final(self).frame() == old(self).frame(),
            ok == old(self).lookup(level as nat, indices@).is_some(),
            final(self).lookup(level as nat, indices@).is_none(),
            forall|other: Seq<usize>, at: nat|
                valid_indices(other) && 1 < at <= level ==> (#[trigger] final(self).walk_entry(
                    level as nat,
                    other,
                    at,
                )) == old(self).walk_entry(level as nat, other, at),
            forall|other: Seq<usize>|
                valid_indices(other) && !same_path(indices@, other, level as nat) ==> (
                #[trigger] final(self).lookup(level as nat, other)) == old(self).lookup(
                    level as nat,
                    other,
                ),
        decreases level,
    {
        let index: usize = indices[level - 1];
        let entry: PageEntry = self.entries[index];
        proof {
            assert(self.child(index as int).is_some() == self.children@[index as int].is_some());
        }
        if !entry.is_present() {
            return false;
        }
        if level == 1 {
            self.entries[index] = PageEntry::unused();
            proof {
                assert forall|i: int| 0 <= i < ENTRY_COUNT implies (#[trigger] self.child(
                    i,
                )).is_none() by {
                    assert(old(self).child(i).is_none());
                }
                assert forall|other: Seq<usize>|
                    valid_indices(other) && !same_path(indices@, other, level as nat) implies (
                #[trigger] self.lookup(level as nat, other)) == old(self).lookup(
                    level as nat,
                    other,
                ) by {
                    assert(same_path(indices@, other, 0));
                }
            }
            return true;
        }
        if entry.is_larger_page() {
            return false;
        }
        let ok: bool = match &mut self.children[index] {
            Some(table) => table.unmap_page(level - 1, indices),
            None => false,
        };
        proof {
            assert forall|i: int| 0 <= i < ENTRY_COUNT implies if level > 1
                && self.entries()[i].links() {
                &&& (#[trigger] self.child(i)).is_some()
                &&& self.child(i).unwrap().wf((level - 1) as nat)
                &&& self.child(i).unwrap().frame() == self.entries()[i].addr()
            } else {
                self.child(i).is_none()
            } by {
                if i != index {
                    assert(self.child(i) == old(self).child(i));
                }
            }
            assert forall|other: Seq<usize>|
                valid_indices(other) && !same_path(indices@, other, level as nat) implies (
            #[trigger] self.lookup(level as nat, other)) == old(self).lookup(
                level as nat,
                other,
            ) by {
                let at = other[level - 1] as int;
                if at != index {
                    assert(self.child(at) == old(self).child(at));
                } else {
                    assert(!same_path(indices@, other, (level - 1) as nat));
                    assert(old(self).child(at).is_some());
                    assert(self.child(at).is_some());
                    assert(self.child(at).unwrap().lookup((level - 1) as nat, other) == old(
                        self,
                    ).child(at).unwrap().lookup((level - 1) as nat, other));
                }
            }
            assert forall|other: Seq<usize>, at: nat|
                valid_indices(other) && 1 < at <= level implies (#[trigger] self.walk_entry(
                level as nat,
                other,
                at,
            )) == old(self).walk_entry(level as nat, other, at) by {
                let slot = other[level - 1] as int;
                if slot != index {
                    assert(self.child(slot) == old(self).child(slot));
                } else if at < level {
                    assert(self.child(slot).unwrap().walk_entry((level - 1) as nat, other, at)
                        == old(self).child(slot).unwrap().walk_entry(
                        (level - 1) as nat,
                        other,
                        at,
                    ));
                }
            }
        }
        ok
    }

    /// Copies the tree under this table of `level` into frames taken from
    /// `frames`: one for the copy of this table and one for the copy of each
    /// table below it. An entry above level 1 that is present points, in the
    /// copy, to the copy of its table, with the flags it had; every other
    /// entry is copied as it is, so that the pages of level 1 share their
    /// frames with the tree copied. Returns `None` where a frame could not be
    /// had; frames taken before that are not given back.
    pub fn clone_recursive<'a>(&self, level: usize, frames: &mut BitmapAllocator<'a>) -> (copy:
        Option<PageTable>)
        requires
            self.wf(level as nat),
            old(frames).wf(),
        ensures
            frames_only_taken(old(frames), final(frames)),
            copy.is_some() <==> self.table_count(level as nat) <= old(frames).free_count(),
            final(frames).free_count() == old(frames).free_count() - vstd::math::min(
                self.table_count(level as nat) as int,
                old(frames).free_count() as int,
            ),
            copy.is_some() ==> {
                let table = copy.unwrap();
                &&& table.wf(level as nat)
                &&& table.mirrors(self, level as nat)
                &&& taken_frame(old(frames), final(frames), table.frame())
                &&& forall|frame: u64| #[trigger]
                    table.has_table(level as nat, frame) ==> taken_frame(
                        old(frames),
                        final(frames),
                        frame,
                    )
                &&& forall|indices: Seq<usize>|
                    valid_indices(indices) ==> (#[trigger] table.lookup(level as nat, indices))
                        == self.lookup(level as nat, indices)
            },
        decreases level,
    {
        let frame: usize = match frames.request_page() {
            Some(frame) => frame,
            None => {
                return None;
            },
        };
        let mut table = PageTable::new(frame as u64);
        let ghost started = *frames;
        proof {
            let slot = old(frames).frame_index(frame as int);
            assert(old(frames).is_next_free(slot));
            assert(frames@[slot]);
            assert(holds_frame(table.frame(), old(frames).frame_address(slot)));
            assert(taken_frame(old(frames), frames, table.frame()));
            assert forall|k: int, f: u64| 0 <= k < ENTRY_COUNT implies !(#[trigger] table.leads_to(
                level as nat,
                k,
                f,
            )) by {
                assert(!table.entries()[k].present());
            }
            assert(self.tables_under(level as nat, 0) == 0);
            assert(table.wf(level as nat));
            assert forall|k: int| 0 <= k < ENTRY_COUNT implies #[trigger] table.slot_ok(
                level as nat,
                k,
            ) by {
                assert(table.child(k).is_none());
            }
        }
        let ghost started_frame = table.frame();
        let mut i: usize = 0;
        while i < ENTRY_COUNT
            invariant
                i <= ENTRY_COUNT,
                self.wf(level as nat),
                frames_only_taken(old(frames), frames),
                table.entries().len() == ENTRY_COUNT,
                table.slots() == ENTRY_COUNT,
                table.frame() & PageEntry::ADDRESS_MASK == table.frame(),
                1 <= level <= LEVELS,
                forall|k: int| 0 <= k < ENTRY_COUNT ==> #[trigger] table.slot_ok(level as nat, k),
                forall|k: int| i <= k < ENTRY_COUNT ==> !(#[trigger] table.entries()[k]).present(),
                forall|k: int| 0 <= k < i ==> #[trigger] self.copied_slot(&table, level as nat, k),
                1 + self.tables_under(level as nat, i as nat) <= old(frames).free_count(),
                frames.free_count() == old(frames).free_count() - 1 - self.tables_under(
                    level as nat,
                    i as nat,
                ),
                old(frames).wf(),
                table.frame() == started_frame,
                taken_frame(old(frames), frames, table.frame()),
                forall|k: int, f: u64|
                    0 <= k < ENTRY_COUNT && (#[trigger] table.leads_to(level as nat, k, f))
                        ==> taken_frame(old(frames), frames, f),
            decreases ENTRY_COUNT - i,
        {
            let entry: PageEntry = self.entries[i];
            let ghost before = table;
            let ghost frames_before = *frames;
            proof {
                assert(self.child(i as int).is_some() == self.children@[i as int].is_some());
            }
            if level > 1 && entry.is_link() {
                let below: Option<PageTable> = match &self.children[i] {
                    Some(child) => child.clone_recursive(level - 1, frames),
                    None => None,
                };
                let below: PageTable = match below {
                    Some(below) => below,
                    None => {
                        proof {
                            self.lemma_tables_under_grows(
                                level as nat,
                                (i + 1) as nat,
                                ENTRY_COUNT as nat,
                            );
                        }
                        return None;
                    },
                };
                let link = PageEntry::new(below.frame_address(), entry.flags());
                proof {
                    let w = link@;
                    let e = entry@;
                    assert(w & 0x8000_0000_0000_00bfu64 == e & 0x8000_0000_0000_00bfu64 ==> (w
                        & 0x1u64 == 0x1u64) == (e & 0x1u64 == 0x1u64) && (w & 0x80u64 == 0x80u64)
                        == (e & 0x80u64 == 0x80u64)) by (bit_vector);
                }
                table.entries[i] = link;
                table.children[i] = Some(Box::new(below));
                proof {
                    assert(table.child(i as int) == Some(below));
                    lemma_taken_frame_lasts(
                        old(frames),
                        &frames_before,
                        frames,
                        frames,
                        below.frame(),
                    );
                    assert forall|f: u64| #[trigger]
                        table.leads_to(level as nat, i as int, f) implies taken_frame(
                        old(frames),
                        frames,
                        f,
                    ) by {
                        if below.frame() != f {
                            assert(below.has_table((level - 1) as nat, f));
                            lemma_taken_frame_lasts(old(frames), &frames_before, frames, frames, f);
                        }
                    }
                }
            } else {
                table.entries[i] = entry;
                proof {
                    assert forall|f: u64| !(#[trigger] table.leads_to(level as nat, i as int, f)) by {
                        assert(before.slot_ok(level as nat, i as int));
                    }
                }
            }
            proof {
                lemma_taken_frame_lasts(
                    old(frames),
                    old(frames),
                    &frames_before,
                    frames,
                    table.frame(),
                );
                assert forall|k: int, f: u64|
                    0 <= k < ENTRY_COUNT && (#[trigger] table.leads_to(
                        level as nat,
                        k,
                        f,
                    )) implies taken_frame(old(frames), frames, f) by {
                    if k != i {
                        assert(table.child(k) == before.child(k));
                        assert(table.entries()[k] == before.entries()[k]);
                        assert(before.leads_to(level as nat, k, f));
                        lemma_taken_frame_lasts(
                            old(frames),
                            old(frames),
                            &frames_before,
                            frames,
                            f,
                        );
                    }
                }
                assert forall|k: int| 0 <= k < ENTRY_COUNT implies #[trigger] table.slot_ok(
                    level as nat,
                    k,
                ) by {
                    if k != i {
                        assert(before.slot_ok(level as nat, k));
                        assert(table.child(k) == before.child(k));
                    } else {
                        assert(before.slot_ok(level as nat, k));
                    }
                }
                assert forall|k: int| 0 <= k < i + 1 implies #[trigger] self.copied_slot(
                    &table,
                    level as nat,
                    k,
                ) by {
                    if k != i {
                        assert(self.copied_slot(&before, level as nat, k));
                        assert(table.child(k) == before.child(k));
                    }
                }
            }
            i += 1;
        }
        proof {
            assert forall|k: int| 0 <= k < ENTRY_COUNT implies if level > 1
                && table.entries()[k].links() {
                &&& (#[trigger] table.child(k)).is_some()
                &&& table.child(k).unwrap().wf((level - 1) as nat)
                &&& table.child(k).unwrap().frame() == table.entries()[k].addr()
            } else {
                table.child(k).is_none()
            } by {
                assert(table.slot_ok(level as nat, k));
            }
            assert forall|indices: Seq<usize>| valid_indices(indices) implies (
            #[trigger] table.lookup(level as nat, indices)) == self.lookup(
                level as nat,
                indices,
            ) by {
                let k = indices[level - 1] as int;
                assert(self.copied_slot(&table, level as nat, k));
                assert(table.slot_ok(level as nat, k));
                if level > 1 && self.entries()[k].links() {
                    assert(table.child(k).unwrap().lookup((level - 1) as nat, indices)
                        == self.child(k).unwrap().lookup((level - 1) as nat, indices));
                }
            }
            assert forall|k: int| 0 <= k < ENTRY_COUNT implies {
                &&& (#[trigger] table.entries()[k]).flag_bits() == self.entries()[k].flag_bits()
                &&& if level > 1 && self.entries()[k].links() {
                    match (table.child(k), self.child(k)) {
                        (Some(copy), Some(source)) => copy.mirrors(&source, (level - 1) as nat),
                        _ => false,
                    }
                } else {
                    table.entries()[k] == self.entries()[k]
                }
            } by {
                assert(self.copied_slot(&table, level as nat, k));
            }
            assert forall|f: u64| #[trigger] table.has_table(level as nat, f) implies taken_frame(
                old(frames),
                frames,
                f,
            ) by {
                table.lemma_has_table(level as nat, f);
                let k = choose|k: int|
                    0 <= k < ENTRY_COUNT && #[trigger] table.leads_to(level as nat, k, f);
                assert(table.leads_to(level as nat, k, f));
            }
        }
        Some(table)
    }

    /// Whether this tree of `level` is a copy of the tree under `source`:
    /// entry by entry the flags are the same; an entry that points to a
    /// table points, here, to a copy of that table; every other entry is the
    /// same word.
    pub open spec fn mirrors(&self, source: &PageTable, level: nat) -> bool
        decreases level,
    {
        forall|i: int|
            0 <= i < ENTRY_COUNT ==> {
                &&& (#[trigger] self.entries()[i]).flag_bits() == source.entries()[i].flag_bits()
                &&& if level > 1 && source.entries()[i].links() {
                    match (self.child(i), source.child(i)) {
                        (Some(copy), Some(table)) => copy.mirrors(&table, (level - 1) as nat),
                        _ => false,
                    }
                } else {
                    self.entries()[i] == source.entries()[i]
                }
            }
    }

    spec fn copied_slot(&self, copy: &PageTable, level: nat, k: int) -> bool {
        &&& copy.entries()[k].present() == self.entries()[k].present()
        &&& copy.entries()[k].flag_bits() == self.entries()[k].flag_bits()
        &&& level == 1 || !self.entries()[k].links() ==> copy.entries()[k] == self.entries()[k]
        &&& level > 1 && self.entries()[k].links() ==> {
            &&& copy.child(k).is_some()
            &&& self.child(k).is_some()
            &&& copy.child(k).unwrap().mirrors(&self.child(k).unwrap(), (level - 1) as nat)
            &&& forall|indices: Seq<usize>|
                valid_indices(indices) ==> (#[trigger] copy.child(k).unwrap().lookup(
                    (level - 1) as nat,
                    indices,
                )) == self.child(k).unwrap().lookup((level - 1) as nat, indices)
        }
    }
}

impl PageTable {
    /// Whether no entry of the table is present.
    pub open spec fn is_empty(&self) -> bool {
        forall|i: int| 0 <= i < ENTRY_COUNT ==> !(#[trigger] self.entries()[i]).present()
    }

    /// Whether every table below this table of `level` has a present entry.
    pub open spec fn compact(&self, level: nat) -> bool
        decreases level,
    {
        level <= 1 || forall|i: int|
            0 <= i < ENTRY_COUNT && self.entries()[i].links() ==> {
                &&& (#[trigger] self.child(i)).is_some()
                &&& !self.child(i).unwrap().is_empty()
                &&& self.child(i).unwrap().compact((level - 1) as nat)
            }
    }

    spec fn slot_compact(&self, level: nat, i: int) -> bool {
        level > 1 && self.entries()[i].links() ==> {
            &&& self.child(i).is_some()
            &&& !self.child(i).unwrap().is_empty()
            &&& self.child(i).unwrap().compact((level - 1) as nat)
        }
    }

    /// Whether a table in the frame at `frame` lies below this table of
    /// `level`.
    pub open spec fn has_table(&self, level: nat, frame: u64) -> bool
        decreases level,
    {
        level > 1 && exists|i: int|
            0 <= i < ENTRY_COUNT && (#[trigger] self.entries()[i]).links() && match self.child(i) {
                Some(table) => table.frame() == frame || table.has_table(
                    (level - 1) as nat,
                    frame,
                ),
                None => false,
            }
    }

    /// Whether entry `i` of this table of `level` leads to a table in the
    /// frame at `frame`: it points to that table, or to a table above it.
    pub open spec fn leads_to(&self, level: nat, i: int, frame: u64) -> bool {
        level > 1 && self.entries()[i].links() && match self.child(i) {
            Some(table) => table.frame() == frame || table.has_table((level - 1) as nat, frame),
            None => false,
        }
    }

    spec fn led_before(&self, level: nat, n: int, frame: u64) -> bool {
        exists|k: int| 0 <= k < n && #[trigger] self.leads_to(level, k, frame)
    }

    proof fn lemma_has_table(&self, level: nat, frame: u64)
        ensures
            self.has_table(level, frame) == self.led_before(level, ENTRY_COUNT as int, frame),
    {
        if self.has_table(level, frame) {
            let i = choose|i: int|
                0 <= i < ENTRY_COUNT && (#[trigger] self.entries()[i]).links() && match self.child(
                    i,
                ) {
                    Some(table) => table.frame() == frame || table.has_table(
                        (level - 1) as nat,
                        frame,
                    ),
                    None => false,
                };
            assert(self.leads_to(level, i, frame));
        }
        if self.led_before(level, ENTRY_COUNT as int, frame) {
            let k = choose|k: int| 0 <= k < ENTRY_COUNT && #[trigger] self.leads_to(level, k, frame);
            assert(self.entries()[k].links());
        }
    }

    /// Gives up every table below this table of `level` that has no present
    /// entry, from the bottom up: the entry that pointed to it is cleared and
    /// its frame is marked free in `frames`. No frame is taken, and every
    /// walk ends as before. Returns whether this table is left without a
    /// present entry.
    pub fn clean_up<'a>(&mut self, level: usize, frames: &mut BitmapAllocator<'a>) -> (empty: bool)
        requires
            old(self).wf(level as nat),
            old(frames).wf(),
        ensures
            final(self).wf(level as nat),
            final(self).frame() == old(self).frame(),
            final(self).compact(level as nat),
            empty == final(self).is_empty(),
            frames_only_freed(old(frames), final(frames)),
            forall|i: int|
                0 <= i < ENTRY_COUNT ==> (#[trigger] final(self).entries()[i]) == old(
                    self,
                ).entries()[i] || (level > 1 && !final(self).entries()[i].present()),
            forall|indices: Seq<usize>|
                valid_indices(indices) ==> (#[trigger] final(self).lookup(level as nat, indices))
                    == old(self).lookup(level as nat, indices),
            forall|i: int|
                0 <= i < ENTRY_COUNT && level > 1 && old(self).entries()[i].links() && !(
                #[trigger] final(self).entries()[i]).present() ==> frame_free(
                    final(frames),
                    old(self).entries()[i].addr(),
                ),
            forall|frame: u64|
                (#[trigger] old(self).has_table(level as nat, frame)) && !final(self).has_table(
                    level as nat,
                    frame,
                ) ==> frame_free(final(frames), frame),
            forall|j: int|
                0 <= j < old(frames).pages() && old(frames)@[j] && !(#[trigger] final(frames)@[j])
                    ==> old(self).has_table(level as nat, frame_at(old(frames), j)),
        decreases level,
    {
        let mut i: usize = 0;
        let mut any: bool = false;
        while i < ENTRY_COUNT
            invariant
                i <= ENTRY_COUNT,
                1 <= level <= LEVELS,
                old(self).wf(level as nat),
                self.entries().len() == ENTRY_COUNT,
                self.slots() == ENTRY_COUNT,
                self.frame() & PageEntry::ADDRESS_MASK == self.frame(),
                self.frame() == old(self).frame(),
                frames_only_freed(old(frames), frames),
                forall|k: int| 0 <= k < ENTRY_COUNT ==> #[trigger] self.slot_ok(level as nat, k),
                forall|k: int| 0 <= k < i ==> #[trigger] self.slot_compact(level as nat, k),
                forall|k: int|
                    0 <= k < ENTRY_COUNT ==> (#[trigger] self.entries()[k]) == old(
                        self,
                    ).entries()[k] || (level > 1 && !self.entries()[k].present()),
                forall|k: int|
                    i <= k < ENTRY_COUNT ==> (#[trigger] self.child(k)) == old(self).child(k),
                forall|k: int|
                    i <= k < ENTRY_COUNT ==> (#[trigger] self.entries()[k]) == old(
                        self,
                    ).entries()[k],
                any <==> exists|k: int| 0 <= k < i && (#[trigger] self.entries()[k]).present(),
                forall|indices: Seq<usize>|
                    valid_indices(indices) ==> (#[trigger] self.lookup(level as nat, indices))
                        == old(self).lookup(level as nat, indices),
                forall|k: int|
                    0 <= k < ENTRY_COUNT && level > 1 && old(self).entries()[k].links() && !(
                    #[trigger] self.entries()[k]).present() ==> frame_free(
                        frames,
                        old(self).entries()[k].addr(),
                    ),
                old(frames).wf(),
                forall|k: int, frame: u64|
                    0 <= k < i && (#[trigger] old(self).leads_to(level as nat, k, frame))
                        && !self.leads_to(level as nat, k, frame) ==> frame_free(frames, frame),
                forall|j: int|
                    0 <= j < old(frames).pages() && old(frames)@[j] && !(#[trigger] frames@[j])
                        ==> old(self).led_before(level as nat, i as int, frame_at(old(frames), j)),
            decreases ENTRY_COUNT - i,
        {
            let entry: PageEntry = self.entries[i];
            let ghost before = *self;
            let ghost frames_before = *frames;
            proof {
                assert(self.slot_ok(level as nat, i as int));
                assert(self.child(i as int).is_some() == self.children@[i as int].is_some());
            }
            if level > 1 && entry.is_link() {
                let child_empty: bool = match &mut self.children[i] {
                    Some(table) => table.clean_up(level - 1, frames),
                    None => false,
                };
                let ghost cleaned = *self;
                let ghost frames_cleaned = *frames;
                proof {
                    assert forall|k: int| 0 <= k < ENTRY_COUNT && k != i implies cleaned.child(k)
                        == before.child(k) by {}
                    assert(cleaned.child(i as int).is_some());
                }
                if child_empty {
                    self.children[i] = None;
                    self.entries[i] = PageEntry::unused();
                    release_frame(frames, entry.address());
                    proof {
                        assert(frame_free(frames, entry.addr()));
                        assert(frames_only_freed(&frames_before, frames));
                        assert forall|k: int| 0 <= k < ENTRY_COUNT && k != i implies self.child(k)
                            == before.child(k) by {}
                        assert(self.child(i as int).is_none());
                        assert forall|indices: Seq<usize>| valid_indices(indices) implies (
                        #[trigger] self.lookup(level as nat, indices)) == before.lookup(
                            level as nat,
                            indices,
                        ) by {
                            let at = indices[level - 1] as int;
                            if at == i {
                                let gone = cleaned.child(at).unwrap();
                                assert(gone.lookup((level - 1) as nat, indices)
                                    == before.child(at).unwrap().lookup(
                                    (level - 1) as nat,
                                    indices,
                                ));
                                assert(!gone.entries()[indices[level - 2] as int].present());
                            } else {
                                assert(self.child(at) == before.child(at));
                            }
                        }
                        let below = before.child(i as int).unwrap();
                        let gone = cleaned.child(i as int).unwrap();
                        assert(below.frame() == entry.addr());
                        assert forall|frame: u64| #[trigger]
                            before.leads_to(level as nat, i as int, frame) implies frame_free(
                            frames,
                            frame,
                        ) by {
                            if below.frame() != frame {
                                assert(below.has_table((level - 1) as nat, frame));
                                assert(!gone.has_table((level - 1) as nat, frame));
                                assert(frame_free(&frames_cleaned, frame));
                            }
                        }
                        assert forall|j: int|
                            0 <= j < frames_before.pages() && frames_before@[j] && !(
                            #[trigger] frames@[j]) implies before.leads_to(
                            level as nat,
                            i as int,
                            frame_at(&frames_before, j),
                        ) by {
                            let frame = frame_at(&frames_before, j);
                            if !frames_cleaned@[j] {
                                assert(below.has_table((level - 1) as nat, frame));
                            } else {
                                assert(frames_cleaned.frame_address(j) == entry.addr());
                            }
                        }
                    }
                } else {
                    any = true;
                    proof {
                        let below = before.child(i as int).unwrap();
                        let kept = self.child(i as int).unwrap();
                        assert(kept.frame() == below.frame());
                        assert forall|frame: u64|
                            (#[trigger] before.leads_to(level as nat, i as int, frame))
                                && !self.leads_to(level as nat, i as int, frame) implies frame_free(
                            frames,
                            frame,
                        ) by {
                            assert(below.has_table((level - 1) as nat, frame));
                            assert(!kept.has_table((level - 1) as nat, frame));
                        }
                        assert forall|j: int|
                            0 <= j < frames_before.pages() && frames_before@[j] && !(
                            #[trigger] frames@[j]) implies before.leads_to(
                            level as nat,
                            i as int,
                            frame_at(&frames_before, j),
                        ) by {
                            assert(below.has_table((level - 1) as nat, frame_at(&frames_before, j)));
                        }
                        assert(frames_only_freed(&frames_before, frames));
                        assert(self.entries()[i as int].present());
                        assert forall|indices: Seq<usize>| valid_indices(indices) implies (
                        #[trigger] self.lookup(level as nat, indices)) == before.lookup(
                            level as nat,
                            indices,
                        ) by {
                            let at = indices[level - 1] as int;
                            if at == i {
                                assert(self.child(at).unwrap().lookup((level - 1) as nat, indices)
                                    == before.child(at).unwrap().lookup(
                                    (level - 1) as nat,
                                    indices,
                                ));
                            } else {
                                assert(self.child(at) == before.child(at));
                            }
                        }
                    }
                }
            } else if entry.is_present() {
                any = true;
                proof {
                    assert(self.entries()[i as int].present());
                }
            }
            proof {
                assert forall|k: int| 0 <= k < ENTRY_COUNT implies #[trigger] self.slot_ok(
                    level as nat,
                    k,
                ) by {
                    if k != i {
                        assert(before.slot_ok(level as nat, k));
                        assert(self.child(k) == before.child(k));
                    }
                }
                assert forall|k: int| 0 <= k < i + 1 implies #[trigger] self.slot_compact(
                    level as nat,
                    k,
                ) by {
                    if k != i {
                        assert(before.slot_compact(level as nat, k));
                        assert(self.child(k) == before.child(k));
                    }
                }
                assert forall|k: int| i + 1 <= k < ENTRY_COUNT implies (#[trigger] self.child(k))
                    == old(self).child(k) by {
                    assert(self.child(k) == before.child(k));
                }
                assert forall|k: int| i + 1 <= k < ENTRY_COUNT implies (
                #[trigger] self.entries()[k]) == old(self).entries()[k] by {
                    assert(before.entries()[k] == old(self).entries()[k]);
                }
                assert(frames_only_freed(&frames_before, frames));
                assert(!self.entries()[i as int].present() && before.entries()[i as int].links()
                    && level > 1 ==> frame_free(frames, before.entries()[i as int].addr()));
                assert(forall|frame: u64|
                    (#[trigger] before.leads_to(level as nat, i as int, frame))
                        && !self.leads_to(level as nat, i as int, frame) ==> frame_free(
                        frames,
                        frame,
                    ));
                assert(forall|j: int|
                    0 <= j < frames_before.pages() && frames_before@[j] && !(#[trigger] frames@[j])
                        ==> before.leads_to(level as nat, i as int, frame_at(&frames_before, j)));
                assert forall|k: int, frame: u64|
                    0 <= k < i + 1 && (#[trigger] old(self).leads_to(level as nat, k, frame))
                        && !self.leads_to(level as nat, k, frame) implies frame_free(
                    frames,
                    frame,
                ) by {
                    if k < i {
                        assert(self.child(k) == before.child(k));
                        assert(self.entries()[k] == before.entries()[k]);
                        assert(!before.leads_to(level as nat, k, frame));
                        assert(frame_free(&frames_before, frame));
                    } else {
                        assert(before.child(k) == old(self).child(k));
                        assert(before.entries()[k] == old(self).entries()[k]);
                        assert(before.leads_to(level as nat, k, frame));
                    }
                }
                assert forall|j: int|
                    0 <= j < old(frames).pages() && old(frames)@[j] && !(
                    #[trigger] frames@[j]) implies old(self).led_before(
                    level as nat,
                    i + 1,
                    frame_at(old(frames), j),
                ) by {
                    let frame = frame_at(old(frames), j);
                    assert(frame == frame_at(&frames_before, j));
                    if !frames_before@[j] {
                        assert(old(self).led_before(level as nat, i as int, frame));
                        let k = choose|k: int|
                            0 <= k < i && #[trigger] old(self).leads_to(level as nat, k, frame);
                        assert(old(self).leads_to(level as nat, k, frame));
                    } else {
                        assert(before.leads_to(level as nat, i as int, frame));
                        assert(before.child(i as int) == old(self).child(i as int));
                        assert(before.entries()[i as int] == old(self).entries()[i as int]);
                        assert(old(self).leads_to(level as nat, i as int, frame));
                    }
                }
                assert forall|k: int|
                    0 <= k < ENTRY_COUNT && level > 1 && old(self).entries()[k].links() && !(
                    #[trigger] self.entries()[k]).present() implies frame_free(
                    frames,
                    old(self).entries()[k].addr(),
                ) by {
                    if k != i {
                        assert(self.entries()[k] == before.entries()[k]);
                        assert(frame_free(&frames_before, old(self).entries()[k].addr()));
                    } else {
                        assert(before.entries()[k] == old(self).entries()[k]);
                    }
                }
                if any {
                    if self.entries()[i as int].present() {
                    } else {
                        let k = choose|k: int| 0 <= k < i && (#[trigger] before.entries()[k]).present();
                        assert(self.entries()[k].present());
                    }
                } else {
                    assert forall|k: int| 0 <= k < i + 1 implies !(#[trigger] self.entries()[k]).present() by {
                        if k < i {
                            assert(!before.entries()[k].present());
                        }
                    }
                }
            }
            i += 1;
        }
        proof {
            assert forall|k: int| 0 <= k < ENTRY_COUNT implies if level > 1
                && self.entries()[k].links() {
                &&& (#[trigger] self.child(k)).is_some()
                &&& self.child(k).unwrap().wf((level - 1) as nat)
                &&& self.child(k).unwrap().frame() == self.entries()[k].addr()
            } else {
                self.child(k).is_none()
            } by {
                assert(self.slot_ok(level as nat, k));
            }
            if level > 1 {
                assert forall|k: int|
                    0 <= k < ENTRY_COUNT && self.entries()[k].links() implies {
                    &&& (#[trigger] self.child(k)).is_some()
                    &&& !self.child(k).unwrap().is_empty()
                    &&& self.child(k).unwrap().compact((level - 1) as nat)
                } by {
                    assert(self.slot_compact(level as nat, k));
                }
            }
            assert forall|frame: u64|
                (#[trigger] old(self).has_table(level as nat, frame)) && !self.has_table(
                    level as nat,
                    frame,
                ) implies frame_free(frames, frame) by {
                old(self).lemma_has_table(level as nat, frame);
                self.lemma_has_table(level as nat, frame);
                let k = choose|k: int|
                    0 <= k < ENTRY_COUNT && #[trigger] old(self).leads_to(level as nat, k, frame);
                assert(!self.leads_to(level as nat, k, frame));
            }
            assert forall|j: int|
                0 <= j < old(frames).pages() && old(frames)@[j] && !(
                #[trigger] frames@[j]) implies old(self).has_table(
                level as nat,
                frame_at(old(frames), j),
            ) by {
                old(self).lemma_has_table(level as nat, frame_at(old(frames), j));
            }
        }
        !any
    }
}

impl PageTable {
    /// Whether the table meets the invariant of a table of `level`.
    pub fn check(&self, level: usize) -> (ok: bool)
        ensures
            ok == self.wf(level as nat),
        decreases level,
    {
        if level < 1 || level > LEVELS || self.entries.len() != ENTRY_COUNT || self.children.len()
            != ENTRY_COUNT || self.frame & PageEntry::ADDRESS_MASK != self.frame {
            return false;
        }
        let mut i: usize = 0;
        while i < ENTRY_COUNT
            invariant
                i <= ENTRY_COUNT,
                1 <= level <= LEVELS,
                self.entries().len() == ENTRY_COUNT,
                self.slots() == ENTRY_COUNT,
                self.frame() & PageEntry::ADDRESS_MASK == self.frame(),
                forall|k: int| 0 <= k < i ==> #[trigger] self.slot_ok(level as nat, k),
            decreases ENTRY_COUNT - i,
        {
            let entry: PageEntry = self.entries[i];
            proof {
                assert(self.child(i as int).is_some() == self.children@[i as int].is_some());
            }
            let fits: bool = match &self.children[i] {
                Some(table) => level > 1 && entry.is_link() && table.frame == entry.address()
                    && table.check(level - 1),
                None => !(level > 1 && entry.is_link()),
            };
            if !fits {
                proof {
                    assert(!self.slot_ok(level as nat, i as int));
                    if self.wf(level as nat) {
                        assert(self.child(i as int).is_some() || self.child(i as int).is_none());
                    }
                }
                return false;
            }
            i += 1;
        }
        proof {
            assert forall|k: int| 0 <= k < ENTRY_COUNT implies if level > 1
                && self.entries()[k].links() {
                &&& (#[trigger] self.child(k)).is_some()
                &&& self.child(k).unwrap().wf((level - 1) as nat)
                &&& self.child(k).unwrap().frame() == self.entries()[k].addr()
            } else {
                self.child(k).is_none()
            } by {
                assert(self.slot_ok(level as nat, k));
            }
        }
        true
    }

    /// The table of `level` in the frame at `frame` that has the entries
    /// `entries` and, below each entry that points to a table, the table of
    /// `children` at the same index. Returns `None` where these do not make
    /// up a table that meets the invariant.
    pub fn from_parts(
        level: usize,
        frame: u64,
        entries: Vec<PageEntry>,
        children: Vec<Option<PageTable>>,
    ) -> (table: Option<Self>)
        ensures
            table.is_some() == parts_fit(level as nat, frame, entries@, children@),
            table.is_some() ==> {
                let t = table.unwrap();
                &&& t.wf(level as nat)
                &&& t.frame() == frame
                &&& t.entries() == entries@
                &&& forall|i: int| 0 <= i < ENTRY_COUNT ==> t.child(i) == children@[i]
            },
    {
        if children.len() != ENTRY_COUNT {
            return None;
        }
        let ghost given = children@;
        let mut children = children;
        assert(given.take(ENTRY_COUNT as int) =~= given);
        let mut boxed: Vec<Option<Box<PageTable>>> = Vec::new();
        let mut i: usize = ENTRY_COUNT;
        // The last table comes off first, so the boxes are gathered back to
        // front and turned round afterwards.
        while i > 0
            invariant
                i <= ENTRY_COUNT,
                given.len() == ENTRY_COUNT,
                children@ == given.take(i as int),
                boxed@.len() == ENTRY_COUNT - i,
                forall|k: int|
                    0 <= k < boxed@.len() ==> match #[trigger] boxed@[k] {
                        Some(table) => given[ENTRY_COUNT - 1 - k] == Some(*table),
                        None => given[ENTRY_COUNT - 1 - k].is_none(),
                    },
            decreases i,
        {
            let last: Option<PageTable> = children.pop().unwrap();
            proof {
                assert(given.take(i as int).drop_last() =~= given.take(i - 1));
            }
            match last {
                Some(table) => boxed.push(Some(Box::new(table))),
                None => boxed.push(None),
            }
            i -= 1;
        }
        let mut ordered: Vec<Option<Box<PageTable>>> = Vec::new();
        let mut j: usize = ENTRY_COUNT;
        while j > 0
            invariant
                j <= ENTRY_COUNT,
                given.len() == ENTRY_COUNT,
                boxed@.len() == j,
                ordered@.len() == ENTRY_COUNT - j,
                forall|k: int|
                    0 <= k < boxed@.len() ==> match #[trigger] boxed@[k] {
                        Some(table) => given[ENTRY_COUNT - 1 - k] == Some(*table),
                        None => given[ENTRY_COUNT - 1 - k].is_none(),
                    },
                forall|k: int|
                    0 <= k < ordered@.len() ==> match #[trigger] ordered@[k] {
                        Some(table) => given[k] == Some(*table),
                        None => given[k].is_none(),
                    },
            decreases j,
        {
            let ghost before = boxed@;
            let last: Option<Box<PageTable>> = boxed.pop().unwrap();
            proof {
                assert(last == before[j - 1]);
            }
            ordered.push(last);
            j -= 1;
        }
        let table = PageTable { frame, entries, children: ordered };
        proof {
            assert forall|k: int| 0 <= k < ENTRY_COUNT implies table.child(k) == given[k] by {
                assert(match ordered@[k] {
                    Some(t) => given[k] == Some(*t),
                    None => given[k].is_none(),
                });
            }
        }
        if table.check(level) {
            proof {
                assert forall|k: int| 0 <= k < ENTRY_COUNT implies if level > 1
                    && entries@[k].links() {
                    &&& (#[trigger] given[k]).is_some()
                    &&& given[k].unwrap().wf((level - 1) as nat)
                    &&& given[k].unwrap().frame() == entries@[k].addr()
                } else {
                    given[k].is_none()
                } by {
                    assert(table.child(k) == given[k]);
                }
            }
            Some(table)
        } else {
            proof {
                if parts_fit(level as nat, frame, entries@, given) {
                    assert forall|k: int| 0 <= k < ENTRY_COUNT implies if level > 1
                        && table.entries()[k].links() {
                        &&& (#[trigger] table.child(k)).is_some()
                        &&& table.child(k).unwrap().wf((level - 1) as nat)
                        &&& table.child(k).unwrap().frame() == table.entries()[k].addr()
                    } else {
                        table.child(k).is_none()
                    } by {
                        assert(table.child(k) == given[k]);
                    }
                    assert(table.wf(level as nat));
                }
            }
            None
        }
    }
}

} // verus!
