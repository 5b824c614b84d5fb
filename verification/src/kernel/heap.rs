//! The kernel heap: a first-fit free list over a contiguous virtual region
//! that grows by mapping fresh frames.
//!
//! Every cell of the heap is a header followed by its payload. The headers
//! form a doubly linked list in address order; a header is named by its
//! address.

pub mod cells;
pub mod rounding;

use crate::bitmap_allocator::{
    frames_only_taken, lemma_only_taken_counts, BitmapAllocator, PAGE_SIZE,
};
use crate::kernel::heap::cells::{
    first_fit, grown, is_allocated, holds, contiguous, lemma_first_fit_allocated,
    lemma_first_fit_settles, lemma_grown_allocated, lemma_released_allocated, merge, released,
    split, with_use, Cell,
};
use crate::kernel::heap::rounding::{
    block_ceil, block_size, block_size_of, lemma_block_ceil_aligned, lemma_pow2_ceil_bounds,
    padded_size, page_span, pages_for, round_up_block,
};
use crate::kernel::memory_map::{
    frames_physical, lemma_frames_stay_physical, mappings_kept, MemoryFlags, MemoryMap,
};
use std::collections::HashMap;
use vstd::prelude::*;

verus! {

broadcast use vstd::std_specs::hash::group_hash_axioms;

/// Size in bytes of the header in front of every payload.
pub const NODE_SIZE: usize = 32;

/// Smallest payload, and the alignment of every payload.
pub const MIN_BLOCK: usize = 16;

/// The header of a cell.
#[derive(Clone, Copy, Debug)]
pub struct Node {
    /// Length of the payload in bytes, header excluded.
    pub length: usize,
    /// Address of the header before this one.
    pub last: Option<usize>,
    /// Address of the header after this one.
    pub next: Option<usize>,
    /// Whether the payload is handed out.
    pub in_use: bool,
}

impl Node {
    /// Marks the payload as handed out or as free.
    pub fn set_in_use(&mut self, in_use: bool)
        ensures
            final(self).in_use == in_use,
            final(self).length == old(self).length,
            final(self).last == old(self).last,
            final(self).next == old(self).next,
    {
        self.in_use = in_use;
    }

    /// Whether the payload is handed out.
    pub fn is_in_use(&self) -> (in_use: bool)
        ensures
            in_use == self.in_use,
    {
        self.in_use
    }
}

/// The kernel heap.
pub struct KernelHeap {
    start: usize,
    current_size: usize,
    max_size: usize,
    last_node: usize,
    memory: HashMap<usize, Node>,
    order: Ghost<Seq<usize>>,
}

impl KernelHeap {
    /// Address of the first header, where the heap begins.
    pub closed spec fn start(&self) -> int {
        self.start as int
    }

    /// Number of pages that back the heap.
    pub closed spec fn page_count(&self) -> int {
        self.current_size as int
    }

    /// Number of pages that the heap may not reach.
    pub closed spec fn max_pages(&self) -> int {
        self.max_size as int
    }

    /// Address of the header that ends the list.
    pub closed spec fn last_node(&self) -> int {
        self.last_node as int
    }

    /// Whether a header lies at `addr`.
    pub closed spec fn has_node(&self, addr: int) -> bool {
        0 <= addr <= usize::MAX && self.memory@.dom().contains(addr as usize)
    }

    /// The successor that the header at `addr` names.
    pub closed spec fn next_of(&self, addr: int) -> Option<int> {
        match self.memory@[addr as usize].next {
            Some(n) => Some(n as int),
            None => None,
        }
    }

    /// The predecessor that the header at `addr` names.
    pub closed spec fn last_of(&self, addr: int) -> Option<int> {
        match self.memory@[addr as usize].last {
            Some(n) => Some(n as int),
            None => None,
        }
    }

    spec fn cell_at(&self, i: int) -> Cell {
        let addr = self.order@[i];
        Cell {
            addr: addr as int,
            length: self.memory@[addr].length as int,
            in_use: self.memory@[addr].in_use,
        }
    }

    /// The cells of the heap in list order, which is address order.
    pub closed spec fn view(&self) -> Seq<Cell> {
        Seq::new(self.order@.len(), |i: int| self.cell_at(i))
    }

    spec fn link_ok(&self, i: int) -> bool {
        let o = self.order@;
        let node = self.memory@[o[i]];
        &&& self.memory@.dom().contains(o[i])
        &&& o[i] % 16 == 0
        &&& node.last == (if i == 0 {
            None
        } else {
            Some(o[i - 1])
        })
        &&& node.next == (if i + 1 < o.len() {
            Some(o[i + 1])
        } else {
            None
        })
        &&& i + 1 < o.len() ==> o[i] + NODE_SIZE + node.length == o[i + 1]
        &&& node.in_use ==> node.length % 16 == 0
    }

    /// The invariant of the heap: the headers form one doubly linked list
    /// from the first header to `last_node`, in ascending address order,
    /// with each cell ending where the next begins, every header 16-byte
    /// aligned, and the whole list inside the backed pages.
    pub closed spec fn wf(&self) -> bool {
        let o = self.order@;
        &&& o.len() >= 1
        &&& o[0] == self.start
        &&& o[o.len() - 1] == self.last_node
        &&& self.start > 0
        &&& forall|i: int| 0 <= i < o.len() ==> #[trigger] self.link_ok(i)
        &&& forall|a: usize| self.memory@.dom().contains(a) ==> o.contains(a)
        &&& self.last_node + NODE_SIZE + self.memory@[self.last_node].length <= self.start
            + self.current_size * PAGE_SIZE
        &&& self.start + self.current_size * PAGE_SIZE <= usize::MAX
        &&& self.start + self.max_size * PAGE_SIZE <= usize::MAX
    }

    proof fn lemma_ascending(&self, i: int, j: int)
        requires
            self.wf(),
            0 <= i <= j < self.order@.len(),
        ensures
            self.order@[i] + (j - i) * NODE_SIZE <= self.order@[j],
        decreases j - i,
    {
        if i < j {
            self.lemma_ascending(i, j - 1);
            assert(self.link_ok(j - 1));
        }
    }

    proof fn lemma_distinct(&self)
        requires
            self.wf(),
        ensures
            forall|i: int, j: int|
                0 <= i < j < self.order@.len() ==> self.order@[i] < self.order@[j],
    {
        assert forall|i: int, j: int| 0 <= i < j < self.order@.len() implies self.order@[i]
            < self.order@[j] by {
            self.lemma_ascending(i, j);
        }
    }

    fn node(&self, addr: usize) -> (node: Node)
        requires
            self.memory@.dom().contains(addr),
        ensures
            node == self.memory@[addr],
    {
        let found = self.memory.get(&addr);
        *found.unwrap()
    }

    spec fn same_region(&self, other: &Self) -> bool {
        &&& self.start == other.start
        &&& self.current_size == other.current_size
        &&& self.max_size == other.max_size
    }

    proof fn lemma_cell_end_fits(&self, i: int)
        requires
            self.wf(),
            0 <= i < self.order@.len(),
        ensures
            self.order@[i] + NODE_SIZE + self.memory@[self.order@[i]].length <= self.start
                + self.current_size * PAGE_SIZE,
    {
        let n = self.order@.len() as int;
        assert(self.link_ok(i));
        if i + 1 < n {
            self.lemma_ascending(i + 1, n - 1);
            assert(self.link_ok(n - 1));
        }
    }

    /// Merges the cell behind the free cell at `addr` into it.
    fn combine_forward(&mut self, addr: usize, Ghost(i): Ghost<int>)
        requires
            old(self).wf(),
            0 <= i,
            i + 1 < old(self).order@.len(),
            old(self).order@[i] == addr,
            !old(self)@[i].in_use,
            !old(self)@[i + 1].in_use,
        ensures
            final(self).wf(),
            final(self).same_region(old(self)),
            final(self).order@ == old(self).order@.remove(i + 1),
            final(self)@ == merge(old(self)@, i),
    {
        proof {
            self.lemma_distinct();
            assert(self.link_ok(i));
            assert(self.link_ok(i + 1));
            self.lemma_cell_end_fits(i + 1);
            if i + 2 < self.order@.len() {
                assert(self.link_ok(i + 2));
            }
        }
        let node = self.node(addr);
        let next_addr: usize = node.next.unwrap();
        let next = self.node(next_addr);
        self.memory.remove(&next_addr);
        self.memory.insert(
            addr,
            Node {
                length: node.length + next.length + NODE_SIZE,
                last: node.last,
                next: next.next,
                in_use: node.in_use,
            },
        );
        match next.next {
            Some(after) => {
                let moved = self.node(after);
                self.memory.insert(
                    after,
                    Node {
                        length: moved.length,
                        last: Some(addr),
                        next: moved.next,
                        in_use: moved.in_use,
                    },
                );
            },
            None => {
                self.last_node = addr;
            },
        }
        proof {
            let o = old(self).order@;
            let o2 = o.remove(i + 1);
            self.order = Ghost(o2);
            assert forall|j: int| 0 <= j < o2.len() implies #[trigger] self.link_ok(j) by {
                if j <= i {
                    assert(old(self).link_ok(j));
                    assert(o2[j] == o[j]);
                } else {
                    assert(old(self).link_ok(j + 1));
                    assert(o2[j] == o[j + 1]);
                }
            }
            assert forall|a: usize| self.memory@.dom().contains(a) implies o2.contains(a) by {
                assert(old(self).memory@.dom().contains(a));
                assert(o.contains(a));
                let k = choose|k: int| 0 <= k < o.len() && o[k] == a;
                if k <= i {
                    assert(o2[k] == a);
                } else {
                    assert(o2[k - 1] == a);
                }
            }
            assert(self@ =~= merge(old(self)@, i));
        }
    }

    /// Cuts the free cell at `addr` down to a payload of `first_half_length`
    /// bytes and makes the rest of it a free cell of its own.
    fn split(&mut self, addr: usize, first_half_length: usize, Ghost(i): Ghost<int>)
        requires
            old(self).wf(),
            0 <= i < old(self).order@.len(),
            old(self).order@[i] == addr,
            !old(self)@[i].in_use,
            first_half_length % 16 == 0,
            first_half_length + NODE_SIZE <= old(self)@[i].length,
        ensures
            final(self).wf(),
            final(self).same_region(old(self)),
            final(self).order@ == old(self).order@.insert(
                i + 1,
                (addr + NODE_SIZE + first_half_length) as usize,
            ),
            final(self)@ == split(old(self)@, i, first_half_length as int),
    {
        proof {
            assert(self.link_ok(i));
            self.lemma_cell_end_fits(i);
            if i + 1 < self.order@.len() {
                assert(self.link_ok(i + 1));
            }
        }
        let node = self.node(addr);
        let new_addr: usize = addr + NODE_SIZE + first_half_length;
        let rest = Node {
            length: node.length - first_half_length - NODE_SIZE,
            last: Some(addr),
            next: node.next,
            in_use: false,
        };
        let cut = Node {
            length: first_half_length,
            last: node.last,
            next: Some(new_addr),
            in_use: node.in_use,
        };
        self.memory.insert(new_addr, rest);
        self.memory.insert(addr, cut);
        match node.next {
            Some(after) => {
                let moved = self.node(after);
                self.memory.insert(
                    after,
                    Node {
                        length: moved.length,
                        last: Some(new_addr),
                        next: moved.next,
                        in_use: moved.in_use,
                    },
                );
            },
            None => {
                self.last_node = new_addr;
            },
        }
        proof {
            self.order = Ghost(old(self).order@.insert(i + 1, new_addr));
            let o = old(self).order@;
            assert forall|j: int| 0 <= j < o.len() && j != i && j != i + 1 implies self.memory@[o[j]]
                == old(self).memory@[o[j]] by {
                if j < i {
                    old(self).lemma_ascending(j, i);
                } else {
                    old(self).lemma_ascending(i + 1, j);
                }
            }
            Self::lemma_split(old(self), self, i, first_half_length as int);
        }
    }

    proof fn lemma_split(pre: &Self, post: &Self, i: int, first: int)
        requires
            pre.wf(),
            0 <= i < pre.order@.len(),
            !pre@[i].in_use,
            first % 16 == 0,
            0 <= first,
            first + NODE_SIZE <= pre@[i].length,
            post.same_region(pre),
            post.order@ == pre.order@.insert(i + 1, (pre.order@[i] + NODE_SIZE + first) as usize),
            post.last_node == (if i + 1 < pre.order@.len() {
                pre.last_node
            } else {
                (pre.order@[i] + NODE_SIZE + first) as usize
            }),
            post.memory@.dom() =~= pre.memory@.dom().insert(
                (pre.order@[i] + NODE_SIZE + first) as usize,
            ),
            post.memory@[(pre.order@[i] + NODE_SIZE + first) as usize] == (Node {
                length: (pre.memory@[pre.order@[i]].length - first - NODE_SIZE) as usize,
                last: Some(pre.order@[i]),
                next: pre.memory@[pre.order@[i]].next,
                in_use: false,
            }),
            post.memory@[pre.order@[i]] == (Node {
                length: first as usize,
                last: pre.memory@[pre.order@[i]].last,
                next: Some((pre.order@[i] + NODE_SIZE + first) as usize),
                in_use: pre.memory@[pre.order@[i]].in_use,
            }),
            i + 1 < pre.order@.len() ==> post.memory@[pre.order@[i + 1]] == (Node {
                length: pre.memory@[pre.order@[i + 1]].length,
                last: Some((pre.order@[i] + NODE_SIZE + first) as usize),
                next: pre.memory@[pre.order@[i + 1]].next,
                in_use: pre.memory@[pre.order@[i + 1]].in_use,
            }),
            forall|j: int|
                0 <= j < pre.order@.len() && j != i && j != i + 1 ==> post.memory@[pre.order@[j]]
                    == pre.memory@[pre.order@[j]],
        ensures
            post.wf(),
            post@ == split(pre@, i, first),
    {
        let o = pre.order@;
        let o2 = post.order@;
        let n = o.len() as int;
        let new_addr = (o[i] + NODE_SIZE + first) as usize;
        assert(pre.link_ok(i));
        pre.lemma_cell_end_fits(i);
        assert(new_addr == o[i] + NODE_SIZE + first);
        assert(o2.len() == n + 1);
        assert forall|j: int| 0 <= j < o2.len() implies #[trigger] post.link_ok(j) by {
            if j < i {
                assert(pre.link_ok(j));
                assert(o2[j] == o[j]);
                assert(o2[j + 1] == o[j + 1]);
                if j > 0 {
                    assert(o2[j - 1] == o[j - 1]);
                }
            } else if j == i {
                assert(o2[j] == o[j]);
                assert(o2[j + 1] == new_addr);
                if j > 0 {
                    assert(o2[j - 1] == o[j - 1]);
                }
            } else if j == i + 1 {
                assert(o2[j] == new_addr);
                assert(o2[j - 1] == o[i]);
                if j + 1 < o2.len() {
                    assert(o2[j + 1] == o[i + 1]);
                }
            } else {
                assert(pre.link_ok(j - 1));
                assert(o2[j] == o[j - 1]);
                if j == i + 2 {
                    assert(o2[j - 1] == new_addr);
                } else {
                    assert(o2[j - 1] == o[j - 2]);
                }
                if j + 1 < o2.len() {
                    assert(o2[j + 1] == o[j]);
                }
            }
        }
        assert forall|a: usize| post.memory@.dom().contains(a) implies o2.contains(a) by {
            if a == new_addr {
                assert(o2[i + 1] == a);
            } else {
                assert(pre.memory@.dom().contains(a));
                assert(o.contains(a));
                let k = choose|k: int| 0 <= k < o.len() && o[k] == a;
                if k <= i {
                    assert(o2[k] == a);
                } else {
                    assert(o2[k + 1] == a);
                }
            }
        }
        if i + 1 < n {
            assert(o2[n] == o[n - 1]);
        } else {
            assert(o2[n] == new_addr);
        }
        assert(o2[0] == o[0]);
        assert forall|j: int| 0 <= j < o2.len() implies post@[j] == split(pre@, i, first)[j] by {
            if j <= i {
                assert(o2[j] == o[j]);
            } else if j == i + 1 {
                assert(o2[j] == new_addr);
            } else {
                assert(o2[j] == o[j - 1]);
            }
        }
        assert(post@ =~= split(pre@, i, first));
    }

    /// Marks the cell at `addr` as handed out or as free.
    fn set_use(&mut self, addr: usize, in_use: bool, Ghost(i): Ghost<int>)
        requires
            old(self).wf(),
            0 <= i < old(self).order@.len(),
            old(self).order@[i] == addr,
            in_use ==> old(self)@[i].length % 16 == 0,
        ensures
            final(self).wf(),
            final(self).same_region(old(self)),
            final(self).order@ == old(self).order@,
            final(self)@ == with_use(old(self)@, i, in_use),
    {
        proof {
            assert(self.link_ok(i));
        }
        let mut node = self.node(addr);
        node.set_in_use(in_use);
        self.memory.insert(addr, node);
        proof {
            let o = self.order@;
            let n = o.len() as int;
            assert forall|j: int| 0 <= j < o.len() implies #[trigger] self.link_ok(j) by {
                assert(old(self).link_ok(j));
                if j < i {
                    old(self).lemma_ascending(j, i);
                } else if j > i {
                    old(self).lemma_ascending(i, j);
                }
            }
            if i < n - 1 {
                old(self).lemma_ascending(i, n - 1);
            }
            assert forall|j: int| 0 <= j < o.len() implies self@[j] == with_use(
                old(self)@,
                i,
                in_use,
            )[j] by {
                if j < i {
                    old(self).lemma_ascending(j, i);
                } else if j > i {
                    old(self).lemma_ascending(i, j);
                }
            }
            assert(self@ =~= with_use(old(self)@, i, in_use));
        }
    }

    /// Walks the list once from the first header for a free cell of `block`
    /// bytes, merging runs of free cells on the way, and hands out the first
    /// that fits: one of exactly `block` bytes, or the front of one that has
    /// room for `block` bytes and the header of a cell behind them. Returns
    /// the address of the payload, or null where no cell fits. The heap does
    /// not grow.
    pub fn allocate_first_fit(&mut self, block: usize) -> (address: usize)
        requires
            old(self).wf(),
            block % 16 == 0,
        ensures
            final(self).wf(),
            final(self).start() == old(self).start(),
            final(self).page_count() == old(self).page_count(),
            final(self).max_pages() == old(self).max_pages(),
            final(self)@ == first_fit(old(self)@, 0, block as int).0,
            address == match first_fit(old(self)@, 0, block as int).1 {
                Some(k) => first_fit(old(self)@, 0, block as int).0[k].payload(),
                None => 0,
            },
            address != 0 <==> first_fit(old(self)@, 0, block as int).1.is_some(),
    {
        let mut current: usize = self.start;
        let ghost mut i: int = 0;
        loop
            invariant
                block % 16 == 0,
                self.wf(),
                self.same_region(old(self)),
                0 <= i < self.order@.len(),
                self.order@[i] == current,
                first_fit(old(self)@, 0, block as int) == first_fit(self@, i, block as int),
            decreases self.order@.len() - i,
        {
            proof {
                assert(self.link_ok(i));
                self.lemma_cell_end_fits(i);
                if i + 1 < self.order@.len() {
                    assert(self.link_ok(i + 1));
                    assert(self@[i + 1] == self.cell_at(i + 1));
                }
                assert(self@[i] == self.cell_at(i));
            }
            let node = self.node(current);
            if !node.is_in_use() {
                let mergeable: bool = match node.next {
                    Some(next) => !self.node(next).is_in_use(),
                    None => false,
                };
                if mergeable {
                    self.combine_forward(current, Ghost(i));
                    continue ;
                }
                if node.length == block {
                    self.set_use(current, true, Ghost(i));
                    return current + NODE_SIZE;
                }
                if node.length > NODE_SIZE && node.length - NODE_SIZE > block {
                    self.split(current, block, Ghost(i));
                    self.set_use(current, true, Ghost(i));
                    return current + NODE_SIZE;
                }
            }
            match node.next {
                Some(next) => {
                    current = next;
                    proof {
                        i = i + 1;
                    }
                },
                None => {
                    assert(first_fit(self@, i + 1, block as int) == (self@, None::<int>));
                    return 0;
                },
            }
        }
    }

    /// Whether growing by `amount` bytes keeps the page count under the
    /// maximum.
    pub open spec fn within_budget(&self, amount: nat) -> bool {
        self.page_count() + page_span(block_ceil(amount) as int) < self.max_pages()
    }

    /// The page count that growing by `amount` bytes would lead to, or `None`
    /// where it would meet or exceed the maximum.
    pub fn plan_growth(&self, amount: usize) -> (plan: Option<usize>)
        requires
            self.wf(),
        ensures
            plan.is_some() == self.within_budget(amount as nat),
            plan.is_some() ==> plan.unwrap() == self.page_count() + page_span(
                block_ceil(amount as nat) as int,
            ),
    {
        proof {
            assert(self.max_size * PAGE_SIZE <= usize::MAX);
        }
        let rounded: usize = match round_up_block(amount) {
            Some(r) => r,
            None => {
                return None;
            },
        };
        let pages: usize = pages_for(rounded);
        let new_size: usize = match self.current_size.checked_add(pages) {
            Some(n) => n,
            None => {
                return None;
            },
        };
        if new_size >= self.max_size {
            return None;
        }
        Some(new_size)
    }

    /// Grows the heap by `amount` bytes, rounded up to a power of two and to
    /// `MIN_BLOCK` at least, given whether the new pages could be backed by
    /// mapped frames. Refuses, changing nothing, where they could not or where
    /// the page count would meet or exceed the maximum.
    pub fn apply_growth(&mut self, amount: usize, backed: bool) -> (grew: bool)
        requires
            old(self).wf(),
        ensures
            final(self).wf(),
            final(self).start() == old(self).start(),
            final(self).max_pages() == old(self).max_pages(),
            grew == (backed && old(self).within_budget(amount as nat)),
            grew ==> final(self)@ == grown(old(self)@, block_ceil(amount as nat) as int),
            grew ==> final(self).page_count() == old(self).page_count() + page_span(
                block_ceil(amount as nat) as int,
            ),
            !grew ==> final(self)@ == old(self)@,
            !grew ==> final(self).page_count() == old(self).page_count(),
    {
        let new_size: usize = match self.plan_growth(amount) {
            Some(n) => n,
            None => {
                return false;
            },
        };
        if !backed {
            return false;
        }
        let rounded: usize = round_up_block(amount).unwrap();
        let ghost n = self.order@.len() as int;
        proof {
            assert(self.link_ok(n - 1));
            assert(new_size * PAGE_SIZE <= self.max_size * PAGE_SIZE) by (nonlinear_arith)
                requires
                    new_size <= self.max_size,
            ;
            assert(new_size * PAGE_SIZE == self.current_size * PAGE_SIZE + (new_size
                - self.current_size) * PAGE_SIZE) by (nonlinear_arith);
        }
        self.current_size = new_size;
        let tail_addr: usize = self.last_node;
        let tail = self.node(tail_addr);
        if tail.is_in_use() {
            let new_addr: usize = tail_addr + NODE_SIZE + tail.length;
            let length: usize = if rounded > NODE_SIZE {
                rounded - NODE_SIZE
            } else {
                0
            };
            self.memory.insert(
                new_addr,
                Node { length, in_use: false, last: Some(tail_addr), next: None },
            );
            self.memory.insert(
                tail_addr,
                Node {
                    length: tail.length,
                    in_use: tail.in_use,
                    last: tail.last,
                    next: Some(new_addr),
                },
            );
            self.last_node = new_addr;
            proof {
                let o = old(self).order@;
                let o2 = o.push(new_addr);
                self.order = Ghost(o2);
                assert forall|j: int| 0 <= j < o2.len() implies #[trigger] self.link_ok(j) by {
                    if j < n {
                        assert(old(self).link_ok(j));
                        old(self).lemma_ascending(j, n - 1);
                    }
                }
                assert forall|a: usize| self.memory@.dom().contains(a) implies o2.contains(a) by {
                    if a == new_addr {
                        assert(o2[n] == a);
                    } else {
                        assert(old(self).memory@.dom().contains(a));
                        assert(o.contains(a));
                        let k = choose|k: int| 0 <= k < o.len() && o[k] == a;
                        assert(o2[k] == a);
                    }
                }
                assert forall|j: int| 0 <= j < o2.len() implies self@[j] == grown(
                    old(self)@,
                    rounded as int,
                )[j] by {
                    if j < n {
                        old(self).lemma_ascending(j, n - 1);
                    }
                }
                assert(self@ =~= grown(old(self)@, rounded as int));
            }
        } else {
            self.memory.insert(
                tail_addr,
                Node {
                    length: tail.length + rounded,
                    in_use: tail.in_use,
                    last: tail.last,
                    next: tail.next,
                },
            );
            proof {
                let o = old(self).order@;
                assert forall|j: int| 0 <= j < o.len() implies #[trigger] self.link_ok(j) by {
                    assert(old(self).link_ok(j));
                    old(self).lemma_ascending(j, n - 1);
                }
                assert forall|j: int| 0 <= j < o.len() implies self@[j] == grown(
                    old(self)@,
                    rounded as int,
                )[j] by {
                    old(self).lemma_ascending(j, n - 1);
                }
                assert(self@ =~= grown(old(self)@, rounded as int));
            }
        }
        true
    }

    /// Grows the heap by `amount` bytes, rounded up to a power of two and to
    /// `MIN_BLOCK` at least: takes a frame for each new page from `frames`,
    /// maps it behind the pages that the heap has, and lets the tail of the
    /// list cover the new bytes. Refuses, leaving the heap as it was, where
    /// the page count would meet or exceed the maximum, and where a frame or
    /// a mapping could not be had; pages mapped before that stay mapped. It
    /// grows exactly when the page count stays under the maximum and the new
    /// pages can be backed.
    pub fn expand_heap<'a, M: MemoryMap>(
        &mut self,
        amount: usize,
        mapper: &mut M,
        frames: &mut BitmapAllocator<'a>,
    ) -> (grew: bool)
        requires
            old(self).wf(),
            old(mapper).wf(),
            old(frames).wf(),
            frames_physical::<M>(old(frames)),
        ensures
            final(self).wf(),
            final(mapper).wf(),
            frames_only_taken(old(frames), final(frames)),
            frames_physical::<M>(final(frames)),
            final(self).start() == old(self).start(),
            final(self).max_pages() == old(self).max_pages(),
            grew == (old(self).within_budget(amount as nat) && can_back(
                old(mapper),
                old(frames).free_count(),
                old(self).start(),
                old(self).page_count(),
                old(self).page_count() + page_span(block_ceil(amount as nat) as int),
            )),
            grew ==> final(frames).free_count() == old(frames).free_count() - backing_frames(
                old(mapper),
                old(self).start(),
                old(self).page_count(),
                old(self).page_count() + page_span(block_ceil(amount as nat) as int),
            ),
            !old(self).within_budget(amount as nat) ==> *final(frames) == *old(frames),
            !old(self).within_budget(amount as nat) ==> *final(mapper) == *old(mapper),
            grew ==> final(frames).free_count() + page_span(block_ceil(amount as nat) as int)
                <= old(frames).free_count(),
            mappings_kept(old(mapper), final(mapper)),
            grew ==> pages_backed(
                final(mapper),
                old(self).start(),
                old(self).page_count(),
                final(self).page_count(),
            ),
            grew ==> pages_in_frames(
                old(frames),
                final(frames),
                final(mapper),
                old(self).start(),
                old(self).page_count(),
                final(self).page_count(),
            ),
            grew ==> evolved(
                old(mapper),
                final(mapper),
                old(self).start(),
                old(self).page_count(),
                final(self).page_count(),
            ),
            grew ==> final(self)@ == grown(old(self)@, block_ceil(amount as nat) as int),
            grew ==> final(self).page_count() == old(self).page_count() + page_span(
                block_ceil(amount as nat) as int,
            ),
            !grew ==> final(self)@ == old(self)@,
            !grew ==> final(self).page_count() == old(self).page_count(),
    {
        let new_size: usize = match self.plan_growth(amount) {
            Some(n) => n,
            None => {
                return false;
            },
        };
        proof {
            assert(new_size * PAGE_SIZE <= self.max_size * PAGE_SIZE) by (nonlinear_arith)
                requires
                    new_size <= self.max_size,
            ;
        }
        let backed: bool = back_pages(self.start, self.current_size, new_size, mapper, frames);
        self.apply_growth(amount, backed)
    }

    /// Serves a request of `size` bytes aligned to `align` (16-byte alignment
    /// is what the heap gives). The cell has `block_size_of(size, align)`
    /// bytes. The list is walked for the first cell that fits; where none
    /// does, the heap grows by the block size and the walk starts again.
    /// Returns the address of the payload, or null where the heap could not
    /// grow any more: where the page count would meet the maximum, or the new
    /// pages could not be backed. `allocation` says what the cells and the
    /// page count are in the end.
    pub fn allocate<'a, M: MemoryMap>(
        &mut self,
        size: usize,
        align: usize,
        mapper: &mut M,
        frames: &mut BitmapAllocator<'a>,
    ) -> (address: usize)
        requires
            old(self).wf(),
            old(mapper).wf(),
            old(frames).wf(),
            frames_physical::<M>(old(frames)),
        ensures
            final(self).wf(),
            final(mapper).wf(),
            frames_only_taken(old(frames), final(frames)),
            frames_physical::<M>(final(frames)),
            final(self).start() == old(self).start(),
            final(self).max_pages() == old(self).max_pages(),
            final(self).page_count() >= old(self).page_count(),
            mappings_kept(old(mapper), final(mapper)),
            pages_backed(
                final(mapper),
                old(self).start(),
                old(self).page_count(),
                final(self).page_count(),
            ),
            address % 16 == 0,
            block_size_of(size as nat, align as nat) > usize::MAX ==> address == 0 && final(self)@
                == old(self)@,
            block_size_of(size as nat, align as nat) <= usize::MAX ==> {
                let block = block_size_of(size as nat, align as nat) as int;
                let walk = first_fit(old(self)@, 0, block);
                &&& walk.1.is_some() ==> {
                    &&& address != 0
                    &&& address == walk.0[walk.1.unwrap()].payload()
                    &&& final(self)@ == walk.0
                    &&& final(self).page_count() == old(self).page_count()
                    &&& *final(frames) == *old(frames)
                }
                &&& walk.1.is_none() && !old(self).within_budget(block as nat) ==> {
                    &&& address == 0
                    &&& final(self)@ == walk.0
                    &&& *final(frames) == *old(frames)
                }
                &&& address != 0 ==> is_allocated(final(self)@, address as int, block)
                &&& address == 0 ==> first_fit(final(self)@, 0, block) == (
                    final(self)@,
                    None::<int>,
                )
                &&& forall|payload: int, length: int|
                    is_allocated(final(self)@, payload, length) <==> is_allocated(
                        old(self)@,
                        payload,
                        length,
                    ) || (address != 0 && payload == address && length == block)
            },
            block_size_of(size as nat, align as nat) <= usize::MAX ==> {
                let served = allocation(
                    old(self)@,
                    old(self).page_count(),
                    old(self).max_pages(),
                    block_size_of(size as nat, align as nat) as int,
                    old(mapper),
                    old(frames).free_count(),
                    old(self).start(),
                    old(self).page_count(),
                );
                &&& final(self)@ == served.0
                &&& final(self).page_count() == served.1
                &&& address == match served.2 {
                    Some(k) => served.0[k].payload(),
                    None => 0,
                }
                &&& address != 0 ==> final(frames).free_count() == old(frames).free_count()
                    - backing_frames(
                    old(mapper),
                    old(self).start(),
                    old(self).page_count(),
                    final(self).page_count(),
                )
                &&& address != 0 ==> evolved(
                    old(mapper),
                    final(mapper),
                    old(self).start(),
                    old(self).page_count(),
                    final(self).page_count(),
                )
            },
            pages_in_frames(
                old(frames),
                final(frames),
                final(mapper),
                old(self).start(),
                old(self).page_count(),
                final(self).page_count(),
            ),
    {
        proof {
            lemma_no_page_in_frames(
                old(frames),
                old(frames),
                old(mapper),
                self.start(),
                self.page_count(),
            );
        }
        let block: usize = match block_size(size, align) {
            Some(block) => block,
            None => {
                return 0;
            },
        };
        let ghost mut first: bool = true;
        loop
            invariant
                block == block_size_of(size as nat, align as nat),
                block % 16 == 0,
                self.wf(),
                mapper.wf(),
                frames_only_taken(old(frames), frames),
                frames_physical::<M>(frames),
                self.start() == old(self).start(),
                self.max_pages() == old(self).max_pages(),
                self.page_count() >= old(self).page_count(),
                mappings_kept(old(mapper), mapper),
                pages_backed(mapper, old(self).start(), old(self).page_count(), self.page_count()),
                first ==> self@ == old(self)@ && self.page_count() == old(self).page_count()
                    && *frames == *old(frames),
                !first ==> first_fit(old(self)@, 0, block as int).1.is_none() && old(
                    self,
                ).within_budget(block as nat),
                forall|payload: int, length: int|
                    is_allocated(self@, payload, length) <==> is_allocated(
                        old(self)@,
                        payload,
                        length,
                    ),
                old(frames).wf(),
                allocation(
                    old(self)@,
                    old(self).page_count(),
                    old(self).max_pages(),
                    block as int,
                    old(mapper),
                    old(frames).free_count(),
                    old(self).start(),
                    old(self).page_count(),
                ) == allocation(
                    self@,
                    self.page_count(),
                    old(self).max_pages(),
                    block as int,
                    old(mapper),
                    old(frames).free_count(),
                    old(self).start(),
                    old(self).page_count(),
                ),
                evolved(
                    old(mapper),
                    mapper,
                    old(self).start(),
                    old(self).page_count(),
                    self.page_count(),
                ),
                can_back(
                    old(mapper),
                    old(frames).free_count(),
                    old(self).start(),
                    old(self).page_count(),
                    self.page_count(),
                ),
                frames.free_count() == old(frames).free_count() - backing_frames(
                    old(mapper),
                    old(self).start(),
                    old(self).page_count(),
                    self.page_count(),
                ),
                pages_in_frames(
                    old(frames),
                    frames,
                    mapper,
                    old(self).start(),
                    old(self).page_count(),
                    self.page_count(),
                ),
            decreases self.max_pages() - self.page_count(),
        {
            let ghost before = self@;
            let address: usize = self.allocate_first_fit(block);
            proof {
                assert forall|payload: int, length: int|
                    is_allocated(self@, payload, length) <==> is_allocated(
                        old(self)@,
                        payload,
                        length,
                    ) || (address != 0 && payload == address && length == block) by {
                    lemma_first_fit_allocated(before, 0, block as int, payload, length);
                }
                lemma_first_fit_allocated(before, 0, block as int, address as int, block as int);
                self.lemma_payload_aligned(address as int, block as int);
                if address == 0 {
                    lemma_first_fit_settles(before, 0, block as int);
                }
            }
            if address != 0 {
                return address;
            }
            let ghost walked = self@;
            let ghost budget = self.within_budget(block as nat);
            let ghost pages = self.page_count();
            let ghost mapper_before = *mapper;
            let ghost frames_before = *frames;
            let grew: bool = self.expand_heap(block, mapper, frames);
            proof {
                lemma_block_ceil_aligned(padded_size(size as nat, align as nat));
                lemma_pow2_ceil_bounds(block as nat);
                assert(block_ceil(block as nat) == block);
                let more = pages + page_span(block as int);
                assert(more > pages);
                lemma_backing_joins(
                    old(mapper),
                    &mapper_before,
                    old(frames).free_count(),
                    old(self).start(),
                    old(self).page_count(),
                    pages,
                    more,
                );
                if grew {
                    assert forall|at: usize|
                        (#[trigger] mapper.mappable(at)) == mappable_after(
                            old(mapper),
                            old(self).start(),
                            old(self).page_count(),
                            more,
                            at,
                        ) by {
                        lemma_after_joins(
                            old(mapper),
                            &mapper_before,
                            old(self).start(),
                            old(self).page_count(),
                            pages,
                            more,
                            at,
                        );
                    }
                    assert forall|at: usize|
                        (#[trigger] mapper.tables_needed(at)) == needed_after(
                            old(mapper),
                            old(self).start(),
                            old(self).page_count(),
                            more,
                            at,
                        ) by {
                        lemma_after_joins(
                            old(mapper),
                            &mapper_before,
                            old(self).start(),
                            old(self).page_count(),
                            pages,
                            more,
                            at,
                        );
                    }
                    lemma_frames_join(
                        old(frames),
                        &frames_before,
                        frames,
                        &mapper_before,
                        mapper,
                        old(self).start(),
                        old(self).page_count(),
                        pages,
                        more,
                    );
                } else {
                    lemma_no_page_in_frames(
                        &frames_before,
                        frames,
                        mapper,
                        old(self).start(),
                        pages,
                    );
                    lemma_frames_join(
                        old(frames),
                        &frames_before,
                        frames,
                        &mapper_before,
                        mapper,
                        old(self).start(),
                        old(self).page_count(),
                        pages,
                        pages,
                    );
                }
                if grew {
                    assert forall|payload: int, length: int|
                        is_allocated(self@, payload, length) <==> is_allocated(
                            old(self)@,
                            payload,
                            length,
                        ) by {
                        lemma_grown_allocated(walked, block as int, payload, length);
                    }
                }
            }
            if !grew {
                return 0;
            }
            proof {
                first = false;
            }
        }
    }

    /// Takes back the payload at `address`: the cell becomes free and is
    /// merged with a free cell before it and with a free cell behind it.
    /// Where no cell has its payload at `address`, nothing changes. Backing
    /// pages are never unmapped.
    pub fn deallocate(&mut self, address: usize)
        requires
            old(self).wf(),
        ensures
            final(self).wf(),
            final(self).start() == old(self).start(),
            final(self).page_count() == old(self).page_count(),
            final(self).max_pages() == old(self).max_pages(),
            forall|k: int|
                0 <= k < old(self)@.len() && (#[trigger] old(self)@[k]).payload() == address
                    ==> final(self)@ == released(old(self)@, k),
            (forall|k: int|
                0 <= k < old(self)@.len() ==> (#[trigger] old(self)@[k]).payload() != address)
                ==> final(self)@ == old(self)@,
            forall|payload: int, length: int|
                is_allocated(final(self)@, payload, length) <==> is_allocated(
                    old(self)@,
                    payload,
                    length,
                ) && payload != address,
    {
        if address < NODE_SIZE {
            proof {
                self.lemma_no_payload_below(address as int);
            }
            return ;
        }
        let addr: usize = address - NODE_SIZE;
        let node = match self.memory.get(&addr) {
            Some(node) => *node,
            None => {
                proof {
                    self.lemma_no_cell_at(addr);
                }
                return ;
            },
        };
        let ghost i: int;
        proof {
            assert(self.order@.contains(addr));
            i = choose|i: int| 0 <= i < self.order@.len() && self.order@[i] == addr;
            self.lemma_release_index(i, address as int);
            assert(self.link_ok(i));
        }
        self.set_use(addr, false, Ghost(i));
        let mut current: usize = addr;
        let ghost mut at: int = i;
        proof {
            assert(self.link_ok(i));
            if i > 0 {
                assert(self.link_ok(i - 1));
                assert(self@[i - 1] == self.cell_at(i - 1));
            }
        }
        match node.last {
            Some(last) => {
                if !self.node(last).is_in_use() {
                    self.combine_forward(last, Ghost(i - 1));
                    current = last;
                    proof {
                        at = i - 1;
                    }
                }
            },
            None => {},
        }
        proof {
            assert(self.link_ok(at));
            assert(self@[at] == self.cell_at(at));
            if at + 1 < self.order@.len() {
                assert(self.link_ok(at + 1));
                assert(self@[at + 1] == self.cell_at(at + 1));
            }
        }
        let merged = self.node(current);
        match merged.next {
            Some(next) => {
                if !self.node(next).is_in_use() {
                    self.combine_forward(current, Ghost(at));
                }
            },
            None => {},
        }
    }

    proof fn lemma_release_index(&self, i: int, address: int)
        requires
            self.wf(),
            0 <= i < self.order@.len(),
            self.order@[i] + NODE_SIZE == address,
        ensures
            self@[i].payload() == address,
            self@[i] == self.cell_at(i),
            forall|k: int|
                0 <= k < self@.len() && (#[trigger] self@[k]).payload() == address ==> k == i,
            forall|payload: int, length: int|
                is_allocated(released(self@, i), payload, length) <==> is_allocated(
                    self@,
                    payload,
                    length,
                ) && payload != address,
    {
        self.lemma_view_ascending();
        assert forall|k: int|
            0 <= k < self@.len() && (#[trigger] self@[k]).payload() == address implies k == i by {
            if k < i {
                assert(self@[k].addr < self@[i].addr);
            } else if k > i {
                assert(self@[i].addr < self@[k].addr);
            }
        }
        assert forall|payload: int, length: int|
            is_allocated(released(self@, i), payload, length) <==> is_allocated(
                self@,
                payload,
                length,
            ) && payload != address by {
            lemma_released_allocated(self@, i, payload, length);
        }
    }

    /// Sets up the heap over `[start, start + max_size)`: takes a frame for
    /// each page of the first `initial_size` bytes from `frames`, maps the
    /// pages one behind the other from `start` on, and makes the whole of
    /// these bytes one free cell. Returns `None` where a frame or a mapping
    /// could not be had, and where `start` is null: the heap is set up exactly
    /// when `start` is not null and the first pages can be backed.
    pub fn init<'a, M: MemoryMap>(
        start: usize,
        max_size: usize,
        initial_size: usize,
        mapper: &mut M,
        frames: &mut BitmapAllocator<'a>,
    ) -> (heap: Option<Self>)
        requires
            initial_size <= max_size,
            initial_size > NODE_SIZE,
            start % 16 == 0,
            start + max_size + PAGE_SIZE <= usize::MAX,
            old(mapper).wf(),
            old(frames).wf(),
            frames_physical::<M>(old(frames)),
        ensures
            final(mapper).wf(),
            frames_only_taken(old(frames), final(frames)),
            frames_physical::<M>(final(frames)),
            heap.is_some() == (start != 0 && can_back(
                old(mapper),
                old(frames).free_count(),
                start as int,
                0,
                page_span(initial_size as int),
            )),
            heap.is_some() ==> final(frames).free_count() == old(frames).free_count()
                - backing_frames(old(mapper), start as int, 0, page_span(initial_size as int)),
            mappings_kept(old(mapper), final(mapper)),
            heap.is_some() ==> pages_backed(
                final(mapper),
                start as int,
                0,
                page_span(initial_size as int),
            ),
            heap.is_some() ==> pages_in_frames(
                old(frames),
                final(frames),
                final(mapper),
                start as int,
                0,
                page_span(initial_size as int),
            ),
            heap.is_some() ==> {
                let h = heap.unwrap();
                &&& h.wf()
                &&& h.start() == start
                &&& h.page_count() == page_span(initial_size as int)
                &&& h.max_pages() == max_size / PAGE_SIZE
                &&& h@ == seq![
                    Cell { addr: start as int, length: initial_size - NODE_SIZE, in_use: false },
                ]
            },
    {
        let initial_size_pages: usize = pages_for(initial_size);
        let backed: bool = back_pages(start, 0, initial_size_pages, mapper, frames);
        Self::from_backed_region(start, max_size, initial_size, backed)
    }

    /// Number of pages that back the heap.
    pub fn current_pages(&self) -> (pages: usize)
        ensures
            pages == self.page_count(),
    {
        self.current_size
    }

    /// Number of pages that the heap may not reach.
    pub fn maximum_pages(&self) -> (pages: usize)
        ensures
            pages == self.max_pages(),
    {
        self.max_size
    }

    /// Address of the header that ends the list.
    pub fn last_node_address(&self) -> (addr: usize)
        ensures
            addr == self.last_node(),
    {
        self.last_node
    }

    /// The header at `addr`, if one lies there.
    pub fn node_at(&self, addr: usize) -> (node: Option<Node>)
        ensures
            node.is_some() == self.has_node(addr as int),
            node.is_some() ==> {
                &&& self.next_of(addr as int) == match node.unwrap().next {
                    Some(n) => Some(n as int),
                    None => None,
                }
                &&& self.last_of(addr as int) == match node.unwrap().last {
                    Some(n) => Some(n as int),
                    None => None,
                }
            },
            self.wf() ==> forall|k: int|
                0 <= k < self@.len() && (#[trigger] self@[k]).addr == addr ==> node.is_some()
                    && node.unwrap().length == self@[k].length && node.unwrap().in_use
                    == self@[k].in_use,
    {
        proof {
            if self.wf() {
                assert forall|k: int| 0 <= k < self@.len() && (#[trigger] self@[k]).addr
                    == addr implies self.memory@.dom().contains(addr) && self.memory@[addr].length
                    == self@[k].length && self.memory@[addr].in_use == self@[k].in_use by {
                    assert(self.link_ok(k));
                }
            }
        }
        match self.memory.get(&addr) {
            Some(node) => Some(*node),
            None => None,
        }
    }

    /// Address of the first header.
    pub fn root_node(&self) -> (addr: usize)
        ensures
            addr == self.start(),
    {
        self.start
    }

    /// In a heap that meets its invariant the cells lie one behind the other
    /// from the start of the heap to within its backed pages, in ascending
    /// address order, every header and payload 16-byte aligned.
    pub proof fn lemma_view_ascending(&self)
        requires
            self.wf(),
        ensures
            self@.len() >= 1,
            self@[0].addr == self.start(),
            self.start() > 0,
            self@.last().addr == self.last_node(),
            contiguous(self@),
            self@.last().end() <= self.start() + self.page_count() * PAGE_SIZE,
            self.start() + self.page_count() * PAGE_SIZE <= usize::MAX,
            forall|j: int, k: int| 0 <= j < k < self@.len() ==> self@[j].addr < self@[k].addr,
            forall|k: int| 0 <= k < self@.len() ==> (#[trigger] self@[k]).addr % 16 == 0,
            forall|k: int| 0 <= k < self@.len() ==> self.has_node((#[trigger] self@[k]).addr),
    {
        let n = self@.len() as int;
        assert forall|k: int| 0 <= k < n implies {
            &&& (#[trigger] self@[k]).length >= 0
            &&& self@[k].addr % 16 == 0
            &&& self.has_node(self@[k].addr)
            &&& k < n - 1 ==> self@[k].end() == self@[k + 1].addr
        } by {
            assert(self.link_ok(k));
        }
        assert forall|j: int, k: int| 0 <= j < k < n implies self@[j].addr < self@[k].addr by {
            self.lemma_ascending(j, k);
        }
    }

    proof fn lemma_payload_aligned(&self, address: int, length: int)
        requires
            self.wf(),
            address != 0 ==> is_allocated(self@, address, length),
        ensures
            address % 16 == 0,
    {
        if address != 0 {
            let k = choose|k: int| 0 <= k < self@.len() && #[trigger] holds(self@[k], address, length);
            assert(self.link_ok(k));
        }
    }

    proof fn lemma_no_payload_below(&self, address: int)
        requires
            self.wf(),
            address < NODE_SIZE,
        ensures
            forall|k: int| 0 <= k < self@.len() ==> (#[trigger] self@[k]).payload() != address,
            forall|payload: int, length: int|
                is_allocated(self@, payload, length) ==> payload != address,
    {
        assert forall|payload: int, length: int| is_allocated(self@, payload, length) implies payload
            != address by {
            let k = choose|k: int| 0 <= k < self@.len() && #[trigger] holds(self@[k], payload, length);
        }
    }

    proof fn lemma_no_cell_at(&self, addr: usize)
        requires
            self.wf(),
            !self.memory@.dom().contains(addr),
        ensures
            forall|k: int|
                0 <= k < self@.len() ==> (#[trigger] self@[k]).payload() != addr + NODE_SIZE,
            forall|payload: int, length: int|
                is_allocated(self@, payload, length) ==> payload != addr + NODE_SIZE,
    {
        assert forall|k: int| 0 <= k < self@.len() implies (#[trigger] self@[k]).payload() != addr
            + NODE_SIZE by {
            assert(self.link_ok(k));
        }
        assert forall|payload: int, length: int| is_allocated(self@, payload, length) implies payload
            != addr + NODE_SIZE by {
            let k = choose|k: int| 0 <= k < self@.len() && #[trigger] holds(self@[k], payload, length);
            assert(self.link_ok(k));
        }
    }

    /// The header reached from the first header by following `steps`
    /// successor links, if the links lead that far.
    pub open spec fn walk(&self, steps: nat) -> Option<int>
        decreases steps,
    {
        if steps == 0 {
            Some(self.start())
        } else {
            match self.walk((steps - 1) as nat) {
                Some(addr) => self.next_of(addr),
                None => None,
            }
        }
    }

    /// In a heap that meets its invariant, following the successor links from
    /// the first header goes through the cells in order and reaches
    /// `last_node`, which has no successor; and each header names as its
    /// predecessor the header that names it as successor.
    pub proof fn lemma_walk_reaches_last(&self)
        requires
            self.wf(),
        ensures
            forall|k: int| 0 <= k < self@.len() ==> self.walk(k as nat) == Some(self@[k].addr),
            self.walk((self@.len() - 1) as nat) == Some(self.last_node()),
            self.next_of(self.last_node()).is_none(),
            self.last_of(self.start()).is_none(),
            forall|k: int|
                0 < k < self@.len() ==> self.last_of(self@[k].addr) == Some(self@[k - 1].addr),
    {
        assert forall|k: int| 0 <= k < self@.len() implies self.walk(k as nat) == Some(
            self@[k].addr,
        ) by {
            self.lemma_walk_to(k);
        }
        let n = self@.len() as int;
        assert(self.link_ok(n - 1));
        assert(self.link_ok(0));
        self.lemma_walk_to(n - 1);
        assert(self@[n - 1] == self.cell_at(n - 1));
        assert forall|k: int| 0 < k < self@.len() implies self.last_of(self@[k].addr) == Some(
            self@[k - 1].addr,
        ) by {
            assert(self.link_ok(k));
        }
    }

    proof fn lemma_walk_to(&self, k: int)
        requires
            self.wf(),
            0 <= k < self@.len(),
        ensures
            self.walk(k as nat) == Some(self@[k].addr),
        decreases k,
    {
        if k > 0 {
            self.lemma_walk_to(k - 1);
            assert(self.link_ok(k - 1));
        }
    }

    /// The heap over the region that starts at `start`, given whether its
    /// first `initial_size` bytes could be backed by mapped frames. Where they
    /// could, and `start` is not null, the heap is one free cell that spans
    /// `initial_size` bytes, header included.
    pub fn from_backed_region(
        start: usize,
        max_size: usize,
        initial_size: usize,
        backed: bool,
    ) -> (heap: Option<Self>)
        requires
            initial_size <= max_size,
            initial_size > NODE_SIZE,
            start % 16 == 0,
            start + max_size + PAGE_SIZE <= usize::MAX,
        ensures
            heap.is_some() == (backed && start != 0),
            heap.is_some() ==> {
                let h = heap.unwrap();
                &&& h.wf()
                &&& h.start() == start
                &&& h.page_count() == (initial_size + PAGE_SIZE - 1) / (PAGE_SIZE as int)
                &&& h.max_pages() == max_size / PAGE_SIZE
                &&& h@ == seq![
                    Cell { addr: start as int, length: initial_size - NODE_SIZE, in_use: false },
                ]
            },
    {
        if !backed || start == 0 {
            return None;
        }
        let initial_size_pages: usize = pages_for(initial_size);
        let mut memory: HashMap<usize, Node> = HashMap::new();
        memory.insert(
            start,
            Node { in_use: false, last: None, next: None, length: initial_size - NODE_SIZE },
        );
        let ghost order: Seq<usize> = seq![start];
        let heap = KernelHeap {
            start,
            current_size: initial_size_pages,
            max_size: max_size / PAGE_SIZE,
            last_node: start,
            memory,
            order: Ghost(order),
        };
        proof {
            assert(heap.link_ok(0));
            assert forall|a: usize| heap.memory@.dom().contains(a) implies heap.order@.contains(
                a,
            ) by {
                assert(heap.order@[0] == a);
            }
            assert(heap@ =~= seq![
                Cell { addr: start as int, length: initial_size - NODE_SIZE, in_use: false },
            ]);
        }
        Some(heap)
    }
}

/// Whether each of the pages `first_page .. end_page` of the region at
/// `start` is mapped in `mapper`, with the flags of a heap page.
pub open spec fn pages_backed<M: MemoryMap>(
    mapper: &M,
    start: int,
    first_page: int,
    end_page: int,
) -> bool {
    forall|page: int|
        first_page <= page < end_page ==> {
            let at = #[trigger] M::page_key((start + page * PAGE_SIZE) as usize);
            mapper.translate(at).is_some() && mapper.translate(at).unwrap().1
                == MemoryFlags::WRITABLE | MemoryFlags::USER_ACCESSIBLE
        }
}

/// Whether page `page` of the region at `start` is mapped in `mapper`, with
/// the flags of a heap page, to frame `index` of the allocator, which was free
/// in `before` and is taken in `after`.
pub open spec fn page_in_frame<M: MemoryMap>(
    before: &BitmapAllocator,
    after: &BitmapAllocator,
    mapper: &M,
    start: int,
    page: int,
    index: int,
) -> bool {
    &&& 0 <= index < before.pages()
    &&& !before@[index]
    &&& after@[index]
    &&& mapper.translate(M::page_key(page_address(start, page))) == Some(
        (
            M::frame_base(before.frame_address(index) as usize),
            MemoryFlags::WRITABLE | MemoryFlags::USER_ACCESSIBLE,
        ),
    )
}

/// Whether `frame_of` names for each of the pages `first_page .. end_page` of
/// the region at `start` the frame that the page is mapped to, a frame taken
/// between `before` and `after`, and for no two pages the same.
pub open spec fn backed_by<M: MemoryMap>(
    before: &BitmapAllocator,
    after: &BitmapAllocator,
    mapper: &M,
    start: int,
    first_page: int,
    end_page: int,
    frame_of: spec_fn(int) -> int,
) -> bool {
    &&& forall|page: int|
        first_page <= page < end_page ==> #[trigger] page_in_frame(
            before,
            after,
            mapper,
            start,
            page,
            frame_of(page),
        )
    &&& forall|p: int, q: int|
        first_page <= p < q < end_page ==> #[trigger] frame_of(p) != #[trigger] frame_of(q)
}

/// Whether each of the pages `first_page .. end_page` of the region at `start`
/// is mapped in `mapper`, with the flags of a heap page, to a frame of its own
/// that was taken from the allocator between `before` and `after`.
pub open spec fn pages_in_frames<M: MemoryMap>(
    before: &BitmapAllocator,
    after: &BitmapAllocator,
    mapper: &M,
    start: int,
    first_page: int,
    end_page: int,
) -> bool {
    exists|frame_of: spec_fn(int) -> int| #[trigger]
        backed_by(before, after, mapper, start, first_page, end_page, frame_of)
}

/// Address of page `page` of the region at `start`.
pub open spec fn page_address(start: int, page: int) -> usize {
    (start + page * PAGE_SIZE) as usize
}

/// Whether the page of `at` can take a mapping in `mapper` once the pages
/// `first_page .. upto` of the region at `start` are mapped there.
pub open spec fn mappable_after<M: MemoryMap>(
    mapper: &M,
    start: int,
    first_page: int,
    upto: int,
    at: usize,
) -> bool
    decreases upto - first_page,
{
    if upto <= first_page {
        mapper.mappable(at)
    } else {
        mappable_after(mapper, start, first_page, upto - 1, at) && M::page_key(at) != M::page_key(
            page_address(start, upto - 1),
        )
    }
}

/// Number of frames that mapping the page of `at` in `mapper` takes for tables
/// once the pages `first_page .. upto` of the region at `start` are mapped
/// there.
pub open spec fn needed_after<M: MemoryMap>(
    mapper: &M,
    start: int,
    first_page: int,
    upto: int,
    at: usize,
) -> nat
    decreases upto - first_page,
{
    if upto <= first_page {
        mapper.tables_needed(at)
    } else {
        vstd::math::min(
            needed_after(mapper, start, first_page, upto - 1, at) as int,
            M::tables_apart(page_address(start, upto - 1), at) as int,
        ) as nat
    }
}

/// Number of frames that backing the pages `first_page .. end_page` of the
/// region at `start` takes: for each page one for the page, and one for each
/// table that is still missing on the way to it when its turn comes.
pub open spec fn backing_frames<M: MemoryMap>(
    mapper: &M,
    start: int,
    first_page: int,
    end_page: int,
) -> nat
    decreases end_page - first_page,
{
    if end_page <= first_page {
        0
    } else {
        backing_frames(mapper, start, first_page, end_page - 1) + 1 + needed_after(
            mapper,
            start,
            first_page,
            end_page - 1,
            page_address(start, end_page - 1),
        )
    }
}

/// Whether the pages `first_page .. end_page` of the region at `start` can be
/// backed in `mapper` with `free` free frames: each page can take a mapping
/// when its turn comes, and the frames suffice.
pub open spec fn can_back<M: MemoryMap>(
    mapper: &M,
    free: nat,
    start: int,
    first_page: int,
    end_page: int,
) -> bool
    decreases end_page - first_page,
{
    if end_page <= first_page {
        true
    } else {
        &&& can_back(mapper, free, start, first_page, end_page - 1)
        &&& mappable_after(
            mapper,
            start,
            first_page,
            end_page - 1,
            page_address(start, end_page - 1),
        )
        &&& backing_frames(mapper, start, first_page, end_page) <= free
    }
}

/// Pages that can be backed up to `end_page` can be backed up to any page
/// before it.
pub proof fn lemma_can_back_prefix<M: MemoryMap>(
    mapper: &M,
    free: nat,
    start: int,
    first_page: int,
    upto: int,
    end_page: int,
)
    requires
        upto <= end_page,
        can_back(mapper, free, start, first_page, end_page),
    ensures
        can_back(mapper, free, start, first_page, upto),
    decreases end_page - upto,
{
    if upto < end_page {
        if end_page > first_page {
            lemma_can_back_prefix(mapper, free, start, first_page, upto, end_page - 1);
        }
    }
}

/// Whether `after` is to every address what `before` is once the pages
/// `first_page .. end_page` of the region at `start` are mapped in it: as
/// mappable, and as many tables away.
pub open spec fn evolved<M: MemoryMap>(
    before: &M,
    after: &M,
    start: int,
    first_page: int,
    end_page: int,
) -> bool {
    &&& forall|at: usize|
        (#[trigger] after.mappable(at)) == mappable_after(before, start, first_page, end_page, at)
    &&& forall|at: usize|
        (#[trigger] after.tables_needed(at)) == needed_after(
            before,
            start,
            first_page,
            end_page,
            at,
        )
}

/// What holds of an address once the pages `first_page .. end_page` are
/// mapped holds of it when they are mapped in two goes, up to `middle` and
/// from there.
pub proof fn lemma_after_joins<M: MemoryMap>(
    before: &M,
    between: &M,
    start: int,
    first_page: int,
    middle: int,
    end_page: int,
    at: usize,
)
    requires
        first_page <= middle <= end_page,
        evolved(before, between, start, first_page, middle),
    ensures
        mappable_after(between, start, middle, end_page, at) == mappable_after(
            before,
            start,
            first_page,
            end_page,
            at,
        ),
        needed_after(between, start, middle, end_page, at) == needed_after(
            before,
            start,
            first_page,
            end_page,
            at,
        ),
    decreases end_page - middle,
{
    if middle < end_page {
        lemma_after_joins(before, between, start, first_page, middle, end_page - 1, at);
    } else {
        assert(between.mappable(at) == mappable_after(before, start, first_page, middle, at));
        assert(between.tables_needed(at) == needed_after(before, start, first_page, middle, at));
    }
}

/// Backing the pages `first_page .. end_page` in two goes takes the frames
/// that backing them in one takes, and can be done exactly when that can.
pub proof fn lemma_backing_joins<M: MemoryMap>(
    before: &M,
    between: &M,
    free: nat,
    start: int,
    first_page: int,
    middle: int,
    end_page: int,
)
    requires
        first_page <= middle <= end_page,
        evolved(before, between, start, first_page, middle),
        can_back(before, free, start, first_page, middle),
    ensures
        backing_frames(before, start, first_page, end_page) == backing_frames(
            before,
            start,
            first_page,
            middle,
        ) + backing_frames(between, start, middle, end_page),
        can_back(before, free, start, first_page, end_page) == can_back(
            between,
            (free - backing_frames(before, start, first_page, middle)) as nat,
            start,
            middle,
            end_page,
        ),
    decreases end_page - middle,
{
    if middle < end_page {
        lemma_backing_joins(before, between, free, start, first_page, middle, end_page - 1);
        lemma_after_joins(
            before,
            between,
            start,
            first_page,
            middle,
            end_page - 1,
            page_address(start, end_page - 1),
        );
    }
}

/// The frames that back the pages `first_page .. middle` and those that back
/// the pages `middle .. end_page` back the pages `first_page .. end_page`.
pub proof fn lemma_frames_join<M: MemoryMap>(
    before: &BitmapAllocator,
    between: &BitmapAllocator,
    after: &BitmapAllocator,
    earlier: &M,
    later: &M,
    start: int,
    first_page: int,
    middle: int,
    end_page: int,
)
    requires
        first_page <= middle <= end_page,
        frames_only_taken(before, between),
        frames_only_taken(between, after),
        mappings_kept(earlier, later),
        pages_in_frames(before, between, earlier, start, first_page, middle),
        pages_in_frames(between, after, later, start, middle, end_page),
    ensures
        pages_in_frames(before, after, later, start, first_page, end_page),
{
    let front = choose|frame_of: spec_fn(int) -> int| #[trigger]
        backed_by(before, between, earlier, start, first_page, middle, frame_of);
    let back = choose|frame_of: spec_fn(int) -> int| #[trigger]
        backed_by(between, after, later, start, middle, end_page, frame_of);
    let both = |page: int|
        if page < middle {
            front(page)
        } else {
            back(page)
        };
    assert forall|page: int| first_page <= page < end_page implies #[trigger] page_in_frame(
        before,
        after,
        later,
        start,
        page,
        both(page),
    ) by {
        if page < middle {
            assert(page_in_frame(before, between, earlier, start, page, front(page)));
            assert(earlier.translate(M::page_key(page_address(start, page))).is_some());
        } else {
            assert(page_in_frame(between, after, later, start, page, back(page)));
            assert(between.frame_address(back(page)) == before.frame_address(back(page)));
        }
    }
    assert forall|p: int, q: int| first_page <= p < q < end_page implies (#[trigger] both(p)) != (
    #[trigger] both(q)) by {
        if p < middle {
            assert(page_in_frame(before, between, earlier, start, p, front(p)));
        } else {
            assert(page_in_frame(between, after, later, start, p, back(p)));
        }
        if q < middle {
            assert(page_in_frame(before, between, earlier, start, q, front(q)));
        } else {
            assert(page_in_frame(between, after, later, start, q, back(q)));
        }
        if q < middle {
            assert(front(p) != front(q));
        } else if p >= middle {
            assert(back(p) != back(q));
        }
    }
    assert(backed_by(before, after, later, start, first_page, end_page, both));
}

/// No page is backed by no frame.
pub proof fn lemma_no_page_in_frames<M: MemoryMap>(
    before: &BitmapAllocator,
    after: &BitmapAllocator,
    mapper: &M,
    start: int,
    page: int,
)
    ensures
        pages_in_frames(before, after, mapper, start, page, page),
{
    let none = |page: int| 0int;
    assert(backed_by(before, after, mapper, start, page, page, none));
}

/// What serving a request for a cell of `block` bytes makes of the heap:
/// the walk for the first cell that fits, and where it finds none, growth by
/// `block` bytes and the walk again, until a cell is found, the page count
/// would meet `max_pages`, or the new pages cannot be backed. `mapper` and
/// `free` are the address space and the number of free frames at the
/// beginning, when the heap had `first_page` pages. Gives the cells and the
/// page count at the end, and the index of the cell handed out, if one was.
pub open spec fn allocation<M: MemoryMap>(
    cells: Seq<Cell>,
    pages: int,
    max_pages: int,
    block: int,
    mapper: &M,
    free: nat,
    start: int,
    first_page: int,
) -> (Seq<Cell>, int, Option<int>)
    decreases max_pages - pages,
{
    let walk = first_fit(cells, 0, block);
    let more = pages + page_span(block);
    if walk.1.is_some() {
        (walk.0, pages, walk.1)
    } else if pages < more < max_pages && can_back(mapper, free, start, first_page, more) {
        allocation(grown(walk.0, block), more, max_pages, block, mapper, free, start, first_page)
    } else {
        (walk.0, pages, None)
    }
}

/// A request ends without a cell only where growth failed: no cell of the
/// heap as it is left fits, and one more growth would meet the maximum of
/// pages or its pages could not be backed.
pub proof fn lemma_allocation_fails_on_growth<M: MemoryMap>(
    cells: Seq<Cell>,
    pages: int,
    max_pages: int,
    block: int,
    mapper: &M,
    free: nat,
    start: int,
    first_page: int,
)
    requires
        allocation(cells, pages, max_pages, block, mapper, free, start, first_page).2.is_none(),
    ensures
        ({
            let served = allocation(
                cells,
                pages,
                max_pages,
                block,
                mapper,
                free,
                start,
                first_page,
            );
            let more = served.1 + page_span(block);
            &&& first_fit(served.0, 0, block) == (served.0, None::<int>)
            &&& !(served.1 < more < max_pages) || !can_back(mapper, free, start, first_page, more)
        }),
    decreases max_pages - pages,
{
    let walk = first_fit(cells, 0, block);
    let more = pages + page_span(block);
    if pages < more < max_pages && can_back(mapper, free, start, first_page, more) {
        lemma_allocation_fails_on_growth(
            grown(walk.0, block),
            more,
            max_pages,
            block,
            mapper,
            free,
            start,
            first_page,
        );
    } else {
        lemma_first_fit_settles(cells, 0, block);
    }
}

/// Backs the pages `first_page .. end_page` of the region at `start`: takes a
/// frame from `frames` for each and maps the page to it with the flags of a
/// heap page. Stops and returns `false` at the first frame or mapping that
/// could not be had; that happens exactly when a page cannot take a mapping
/// when its turn comes, or the frames do not suffice.
pub fn back_pages<'a, M: MemoryMap>(
    start: usize,
    first_page: usize,
    end_page: usize,
    mapper: &mut M,
    frames: &mut BitmapAllocator<'a>,
) -> (backed: bool)
    requires
        old(mapper).wf(),
        old(frames).wf(),
        frames_physical::<M>(old(frames)),
        start + end_page * PAGE_SIZE <= usize::MAX,
    ensures
        final(mapper).wf(),
        frames_only_taken(old(frames), final(frames)),
            frames_physical::<M>(final(frames)),
        first_page >= end_page ==> backed && *final(frames) == *old(frames),
        backed == can_back(
            old(mapper),
            old(frames).free_count(),
            start as int,
            first_page as int,
            end_page as int,
        ),
        backed ==> final(frames).free_count() == old(frames).free_count() - backing_frames(
            old(mapper),
            start as int,
            first_page as int,
            end_page as int,
        ),
        mappings_kept(old(mapper), final(mapper)),
        backed ==> pages_backed(final(mapper), start as int, first_page as int, end_page as int),
        backed ==> pages_in_frames(
            old(frames),
            final(frames),
            final(mapper),
            start as int,
            first_page as int,
            end_page as int,
        ),
        backed ==> evolved(
            old(mapper),
            final(mapper),
            start as int,
            first_page as int,
            end_page as int,
        ),
        first_page >= end_page ==> *final(mapper) == *old(mapper),
        final(frames).free_count() <= old(frames).free_count(),
        backed && first_page <= end_page ==> final(frames).free_count() + (end_page - first_page)
            <= old(frames).free_count(),
{
    let mut current_page: usize = first_page;
    let ghost mut frame_of: spec_fn(int) -> int = |page: int| 0int;
    while current_page < end_page
        invariant
            backed_by(
                old(frames),
                frames,
                mapper,
                start as int,
                first_page as int,
                current_page as int,
                frame_of,
            ),
            first_page <= current_page,
            first_page < end_page ==> current_page <= end_page,
            old(frames).wf(),
            mapper.wf(),
            frames_only_taken(old(frames), frames),
                frames_physical::<M>(frames),
            start + end_page * PAGE_SIZE <= usize::MAX,
            first_page >= end_page ==> *frames == *old(frames),
            first_page >= end_page ==> *mapper == *old(mapper),
            frames.free_count() + (current_page - first_page) <= old(frames).free_count(),
            mappings_kept(old(mapper), mapper),
            pages_backed(mapper, start as int, first_page as int, current_page as int),
            can_back(
                old(mapper),
                old(frames).free_count(),
                start as int,
                first_page as int,
                current_page as int,
            ),
            frames.free_count() == old(frames).free_count() - backing_frames(
                old(mapper),
                start as int,
                first_page as int,
                current_page as int,
            ),
            forall|at: usize|
                (#[trigger] mapper.mappable(at)) == mappable_after(
                    old(mapper),
                    start as int,
                    first_page as int,
                    current_page as int,
                    at,
                ),
            forall|at: usize|
                (#[trigger] mapper.tables_needed(at)) == needed_after(
                    old(mapper),
                    start as int,
                    first_page as int,
                    current_page as int,
                    at,
                ),
        decreases end_page - current_page,
    {
        let ghost before = *frames;
        let page: usize = match frames.request_page() {
            Some(page) => page,
            None => {
                proof {
                    lemma_frames_stay_physical::<M>(&before, frames);
                    if can_back(
                        old(mapper),
                        old(frames).free_count(),
                        start as int,
                        first_page as int,
                        end_page as int,
                    ) {
                        lemma_can_back_prefix(
                            old(mapper),
                            old(frames).free_count(),
                            start as int,
                            first_page as int,
                            current_page + 1,
                            end_page as int,
                        );
                    }
                }
                return false;
            },
        };
        let ghost taken = *frames;
        proof {
            lemma_frames_stay_physical::<M>(&before, frames);
            let index = before.frame_index(page as int);
            assert(before.is_next_free(index));
            assert(M::physical(before.frame_address(index) as usize));
            assert(M::physical(page));
            assert(current_page * PAGE_SIZE <= end_page * PAGE_SIZE) by (nonlinear_arith)
                requires
                    current_page <= end_page,
            ;
        }
        let ghost mapped_before = *mapper;
        let mapped: bool = mapper.map_memory(
            start + current_page * PAGE_SIZE,
            page,
            MemoryFlags::default(),
            frames,
        );
        proof {
            lemma_frames_stay_physical::<M>(&taken, frames);
            lemma_only_taken_counts(&taken, frames);
            let mine = M::page_key((start + current_page * PAGE_SIZE) as usize);
            assert forall|key: int| (#[trigger] old(mapper).translate(key)).is_some() implies
                mapper.translate(key) == old(mapper).translate(key) by {
                assert(mapped_before.translate(key) == old(mapper).translate(key));
            }
            if mapped {
                assert forall|p: int| first_page <= p < current_page + 1 implies {
                    let at = #[trigger] M::page_key((start + p * PAGE_SIZE) as usize);
                    mapper.translate(at).is_some() && mapper.translate(at).unwrap().1
                        == MemoryFlags::WRITABLE | MemoryFlags::USER_ACCESSIBLE
                } by {
                    let at = M::page_key((start + p * PAGE_SIZE) as usize);
                    if p < current_page {
                        assert(mapped_before.translate(at).is_some());
                    }
                }
            }
        }
        proof {
            let at = page_address(start as int, current_page as int);
            assert(at == start + current_page * PAGE_SIZE);
            assert(taken.free_count() == before.free_count() - 1);
            assert(mapped_before.mappable(at) == mappable_after(
                old(mapper),
                start as int,
                first_page as int,
                current_page as int,
                at,
            ));
            assert(mapped_before.tables_needed(at) == needed_after(
                old(mapper),
                start as int,
                first_page as int,
                current_page as int,
                at,
            ));
            assert(mapped == can_back(
                old(mapper),
                old(frames).free_count(),
                start as int,
                first_page as int,
                current_page + 1,
            ));
            if mapped {
                assert forall|other: usize|
                    (#[trigger] mapper.mappable(other)) == mappable_after(
                        old(mapper),
                        start as int,
                        first_page as int,
                        current_page + 1,
                        other,
                    ) by {
                    assert(mapped_before.mappable(other) == mappable_after(
                        old(mapper),
                        start as int,
                        first_page as int,
                        current_page as int,
                        other,
                    ));
                }
                assert forall|other: usize|
                    (#[trigger] mapper.tables_needed(other)) == needed_after(
                        old(mapper),
                        start as int,
                        first_page as int,
                        current_page + 1,
                        other,
                    ) by {
                    assert(mapped_before.tables_needed(other) == needed_after(
                        old(mapper),
                        start as int,
                        first_page as int,
                        current_page as int,
                        other,
                    ));
                }
            } else if can_back(
                old(mapper),
                old(frames).free_count(),
                start as int,
                first_page as int,
                end_page as int,
            ) {
                lemma_can_back_prefix(
                    old(mapper),
                    old(frames).free_count(),
                    start as int,
                    first_page as int,
                    current_page + 1,
                    end_page as int,
                );
            }
        }
        if !mapped {
            return false;
        }
        proof {
            let index = before.frame_index(page as int);
            let earlier = frame_of;
            let at = current_page as int;
            frame_of = |page: int| if page == at { index } else { earlier(page) };
            assert forall|p: int| first_page <= p < current_page + 1 implies #[trigger] page_in_frame(
                old(frames),
                frames,
                mapper,
                start as int,
                p,
                frame_of(p),
            ) by {
                if p < current_page {
                    assert(page_in_frame(
                        old(frames),
                        &before,
                        &mapped_before,
                        start as int,
                        p,
                        earlier(p),
                    ));
                    assert(taken@[earlier(p)]);
                } else {
                    assert(before.frame_address(index) == old(frames).frame_address(index));
                    assert(taken@[index]);
                }
            }
            assert forall|p: int, q: int| first_page <= p < q < current_page + 1 implies (
            #[trigger] frame_of(p)) != (#[trigger] frame_of(q)) by {
                if q == current_page {
                    assert(page_in_frame(
                        old(frames),
                        &before,
                        &mapped_before,
                        start as int,
                        p,
                        earlier(p),
                    ));
                }
            }
        }
        current_page += 1;
    }
    proof {
        assert(backed_by(
            old(frames),
            frames,
            mapper,
            start as int,
            first_page as int,
            end_page as int,
            frame_of,
        ));
    }
    true
}

} // verus!
