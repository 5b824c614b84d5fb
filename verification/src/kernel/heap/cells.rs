//! The cells of the heap as the contracts see them, what the heap's
//! operations make of them, and what these leave as it was.

use crate::kernel::heap::NODE_SIZE;
use vstd::prelude::*;

verus! {

/// A cell of the heap as the contracts see it: the address of its header,
/// the length of its payload, and whether the payload is handed out.
pub struct Cell {
    pub addr: int,
    pub length: int,
    pub in_use: bool,
}

impl Cell {
    /// Address of the payload: one header past the address of the header.
    pub open spec fn payload(&self) -> int {
        self.addr + NODE_SIZE
    }

    /// Address of the first byte behind the payload.
    pub open spec fn end(&self) -> int {
        self.addr + NODE_SIZE + self.length
    }
}

/// `cells` with cell `i + 1` merged into cell `i`.
pub open spec fn merge(cells: Seq<Cell>, i: int) -> Seq<Cell> {
    cells.remove(i + 1).update(
        i,
        Cell {
            addr: cells[i].addr,
            length: cells[i].length + NODE_SIZE + cells[i + 1].length,
            in_use: cells[i].in_use,
        },
    )
}

/// `cells` with cell `i` cut down to a payload of `size` bytes and the rest of
/// it made a free cell of its own.
pub open spec fn split(cells: Seq<Cell>, i: int, size: int) -> Seq<Cell> {
    cells.update(i, Cell { addr: cells[i].addr, length: size, in_use: cells[i].in_use }).insert(
        i + 1,
        Cell {
            addr: cells[i].addr + NODE_SIZE + size,
            length: cells[i].length - size - NODE_SIZE,
            in_use: false,
        },
    )
}

/// `cells` with cell `i` marked as handed out or as free.
pub open spec fn with_use(cells: Seq<Cell>, i: int, in_use: bool) -> Seq<Cell> {
    cells.update(i, Cell { addr: cells[i].addr, length: cells[i].length, in_use })
}

/// `cells` after the heap grew by `amount` bytes: a free tail is extended by
/// them; behind a tail in use a free cell is added, whose header comes out of
/// these bytes (a cell of no payload where they do not exceed a header).
pub open spec fn grown(cells: Seq<Cell>, amount: int) -> Seq<Cell> {
    let tail = cells.last();
    if tail.in_use {
        cells.push(
            Cell {
                addr: tail.end(),
                length: if amount > NODE_SIZE {
                    amount - NODE_SIZE
                } else {
                    0
                },
                in_use: false,
            },
        )
    } else {
        cells.update(
            cells.len() - 1,
            Cell { addr: tail.addr, length: tail.length + amount, in_use: false },
        )
    }
}

/// `cells` after the payload of cell `k` was given back: the cell is free,
/// and it is merged with a free cell before it and with a free cell behind it.
pub open spec fn released(cells: Seq<Cell>, k: int) -> Seq<Cell> {
    let freed = with_use(cells, k, false);
    let back = if k > 0 && !freed[k - 1].in_use {
        merge(freed, k - 1)
    } else {
        freed
    };
    let at = if k > 0 && !freed[k - 1].in_use {
        k - 1
    } else {
        k
    };
    if at + 1 < back.len() && !back[at + 1].in_use {
        merge(back, at)
    } else {
        back
    }
}

/// The walk that looks for a free cell of `size` bytes, from cell `i` on:
/// a free cell with a free cell behind it absorbs that cell and is looked at
/// again; a free cell of exactly `size` bytes is taken whole; a free cell of
/// more than `size` bytes and a header is cut down to `size` bytes and taken;
/// any other cell is passed by. Gives the cells as the walk leaves them, and
/// the index of the cell taken, if one was.
pub open spec fn first_fit(cells: Seq<Cell>, i: int, size: int) -> (Seq<Cell>, Option<int>)
    decreases cells.len() - i,
{
    if i < 0 || i >= cells.len() {
        (cells, None)
    } else if !cells[i].in_use && i + 1 < cells.len() && !cells[i + 1].in_use {
        first_fit(merge(cells, i), i, size)
    } else if !cells[i].in_use && cells[i].length == size {
        (with_use(cells, i, true), Some(i))
    } else if !cells[i].in_use && cells[i].length > size + NODE_SIZE {
        (with_use(split(cells, i, size), i, true), Some(i))
    } else {
        first_fit(cells, i + 1, size)
    }
}

/// Whether `cell` is handed out with its payload at `payload`, of `length`
/// bytes.
pub open spec fn holds(cell: Cell, payload: int, length: int) -> bool {
    cell.in_use && cell.payload() == payload && cell.length == length
}

/// Whether the payload at address `payload`, of `length` bytes, is handed out
/// in `cells`.
pub open spec fn is_allocated(cells: Seq<Cell>, payload: int, length: int) -> bool {
    exists|k: int| 0 <= k < cells.len() && #[trigger] holds(cells[k], payload, length)
}

/// Whether the cells lie one behind the other: each ends where the next
/// begins, and no payload has a negative length.
pub open spec fn contiguous(cells: Seq<Cell>) -> bool {
    &&& forall|k: int| 0 <= k < cells.len() ==> (#[trigger] cells[k]).length >= 0
    &&& forall|k: int| 0 <= k < cells.len() - 1 ==> (#[trigger] cells[k]).end() == cells[k + 1].addr
}

/// Merging two free cells leaves every handed-out payload as it was.
pub proof fn lemma_merge_allocated(cells: Seq<Cell>, i: int, payload: int, length: int)
    requires
        0 <= i,
        i + 1 < cells.len(),
        !cells[i].in_use,
        !cells[i + 1].in_use,
    ensures
        is_allocated(merge(cells, i), payload, length) == is_allocated(cells, payload, length),
{
    let merged = merge(cells, i);
    if is_allocated(merged, payload, length) {
        let k = choose|k: int| 0 <= k < merged.len() && #[trigger] holds(merged[k], payload, length);
        if k < i {
            assert(holds(cells[k], payload, length));
        } else {
            assert(holds(cells[k + 1], payload, length));
        }
    }
    if is_allocated(cells, payload, length) {
        let k = choose|k: int| 0 <= k < cells.len() && #[trigger] holds(cells[k], payload, length);
        if k < i {
            assert(holds(merged[k], payload, length));
        } else {
            assert(holds(merged[k - 1], payload, length));
        }
    }
}

/// Cutting a free cell in two leaves every handed-out payload as it was.
pub proof fn lemma_split_allocated(cells: Seq<Cell>, i: int, size: int, payload: int, length: int)
    requires
        0 <= i < cells.len(),
        !cells[i].in_use,
    ensures
        is_allocated(split(cells, i, size), payload, length) == is_allocated(cells, payload, length),
{
    let cut = split(cells, i, size);
    if is_allocated(cut, payload, length) {
        let k = choose|k: int| 0 <= k < cut.len() && #[trigger] holds(cut[k], payload, length);
        if k < i {
            assert(holds(cells[k], payload, length));
        } else {
            assert(holds(cells[k - 1], payload, length));
        }
    }
    if is_allocated(cells, payload, length) {
        let k = choose|k: int| 0 <= k < cells.len() && #[trigger] holds(cells[k], payload, length);
        if k < i {
            assert(holds(cut[k], payload, length));
        } else {
            assert(holds(cut[k + 1], payload, length));
        }
    }
}

/// Handing out a free cell adds its payload to those handed out, and nothing
/// else.
pub proof fn lemma_take_allocated(cells: Seq<Cell>, i: int, payload: int, length: int)
    requires
        0 <= i < cells.len(),
        !cells[i].in_use,
    ensures
        is_allocated(with_use(cells, i, true), payload, length) == (is_allocated(
            cells,
            payload,
            length,
        ) || (payload == cells[i].payload() && length == cells[i].length)),
{
    let taken = with_use(cells, i, true);
    if is_allocated(taken, payload, length) {
        let k = choose|k: int| 0 <= k < taken.len() && #[trigger] holds(taken[k], payload, length);
        if k != i {
            assert(holds(cells[k], payload, length));
        }
    }
    if is_allocated(cells, payload, length) {
        let k = choose|k: int| 0 <= k < cells.len() && #[trigger] holds(cells[k], payload, length);
        assert(holds(taken[k], payload, length));
    }
    if payload == cells[i].payload() && length == cells[i].length {
        assert(holds(taken[i], payload, length));
    }
}

/// Growing the heap leaves every handed-out payload as it was.
pub proof fn lemma_grown_allocated(cells: Seq<Cell>, amount: int, payload: int, length: int)
    requires
        cells.len() >= 1,
    ensures
        is_allocated(grown(cells, amount), payload, length) == is_allocated(cells, payload, length),
{
    let after = grown(cells, amount);
    if is_allocated(after, payload, length) {
        let k = choose|k: int| 0 <= k < after.len() && #[trigger] holds(after[k], payload, length);
        assert(holds(cells[k], payload, length));
    }
    if is_allocated(cells, payload, length) {
        let k = choose|k: int| 0 <= k < cells.len() && #[trigger] holds(cells[k], payload, length);
        assert(holds(after[k], payload, length));
    }
}

/// Giving back the payload of cell `k` takes it out of those handed out, and
/// leaves every other handed-out payload as it was.
pub proof fn lemma_released_allocated(cells: Seq<Cell>, k: int, payload: int, length: int)
    requires
        0 <= k < cells.len(),
        forall|a: int, b: int| 0 <= a < b < cells.len() ==> cells[a].addr < cells[b].addr,
    ensures
        is_allocated(released(cells, k), payload, length) == (is_allocated(cells, payload, length)
            && payload != cells[k].payload()),
{
    let freed = with_use(cells, k, false);
    assert(is_allocated(freed, payload, length) == (is_allocated(cells, payload, length) && payload
        != cells[k].payload())) by {
        if is_allocated(freed, payload, length) {
            let j = choose|j: int| 0 <= j < freed.len() && #[trigger] holds(freed[j], payload, length);
            assert(holds(cells[j], payload, length));
            if j < k {
                assert(cells[j].addr < cells[k].addr);
            } else {
                assert(cells[k].addr < cells[j].addr);
            }
        }
        if is_allocated(cells, payload, length) && payload != cells[k].payload() {
            let j = choose|j: int| 0 <= j < cells.len() && #[trigger] holds(cells[j], payload, length);
            assert(holds(freed[j], payload, length));
        }
    }
    let back = if k > 0 && !freed[k - 1].in_use {
        merge(freed, k - 1)
    } else {
        freed
    };
    let at = if k > 0 && !freed[k - 1].in_use {
        k - 1
    } else {
        k
    };
    if k > 0 && !freed[k - 1].in_use {
        lemma_merge_allocated(freed, k - 1, payload, length);
    }
    if at + 1 < back.len() && !back[at + 1].in_use {
        lemma_merge_allocated(back, at, payload, length);
    }
}

/// The walk for a free cell hands out the payload of the cell it takes, of
/// `size` bytes, and leaves every other handed-out payload as it was.
pub proof fn lemma_first_fit_allocated(
    cells: Seq<Cell>,
    i: int,
    size: int,
    payload: int,
    length: int,
)
    requires
        0 <= i,
    ensures
        ({
            let walk = first_fit(cells, i, size);
            match walk.1 {
                None => is_allocated(walk.0, payload, length) == is_allocated(
                    cells,
                    payload,
                    length,
                ),
                Some(k) => {
                    &&& i <= k < walk.0.len()
                    &&& walk.0[k].in_use
                    &&& walk.0[k].length == size
                    &&& is_allocated(walk.0, walk.0[k].payload(), size)
                    &&& is_allocated(walk.0, payload, length) == (is_allocated(
                        cells,
                        payload,
                        length,
                    ) || (payload == walk.0[k].payload() && length == size))
                },
            }
        }),
    decreases cells.len() - i,
{
    if i >= cells.len() {
    } else if !cells[i].in_use && i + 1 < cells.len() && !cells[i + 1].in_use {
        lemma_merge_allocated(cells, i, payload, length);
        lemma_first_fit_allocated(merge(cells, i), i, size, payload, length);
    } else if !cells[i].in_use && cells[i].length == size {
        lemma_take_allocated(cells, i, payload, length);
        assert(holds(with_use(cells, i, true)[i], cells[i].payload(), size));
    } else if !cells[i].in_use && cells[i].length > size + NODE_SIZE {
        let cut = split(cells, i, size);
        lemma_split_allocated(cells, i, size, payload, length);
        lemma_take_allocated(cut, i, payload, length);
        assert(holds(with_use(cut, i, true)[i], cut[i].payload(), size));
    } else {
        lemma_first_fit_allocated(cells, i + 1, size, payload, length);
    }
}

/// The walk from cell `from` on leaves the cells before it as they are, and
/// the address of cell `from`; where it takes no cell, it also leaves cell
/// `from` free or in use as it was.
pub proof fn lemma_first_fit_prefix(cells: Seq<Cell>, from: int, size: int)
    requires
        0 <= from,
    ensures
        ({
            let walk = first_fit(cells, from, size);
            &&& from >= cells.len() ==> walk.0 == cells
            &&& from < cells.len() ==> from < walk.0.len() && walk.0[from].addr == cells[from].addr
            &&& from < cells.len() && walk.1.is_none() ==> walk.0[from].in_use
                == cells[from].in_use
            &&& forall|k: int| 0 <= k < from && k < cells.len() ==> walk.0[k] == cells[k]
        }),
    decreases cells.len() - from,
{
    let walk = first_fit(cells, from, size);
    if from >= cells.len() {
    } else if !cells[from].in_use && from + 1 < cells.len() && !cells[from + 1].in_use {
        let merged = merge(cells, from);
        lemma_first_fit_prefix(merged, from, size);
        assert(merged[from].addr == cells[from].addr);
        assert forall|k: int| 0 <= k < from && k < cells.len() implies walk.0[k] == cells[k] by {
            assert(merged[k] == cells[k]);
        }
    } else if !cells[from].in_use && cells[from].length == size {
    } else if !cells[from].in_use && cells[from].length > size + NODE_SIZE {
        let cut = split(cells, from, size);
        assert(cut[from].addr == cells[from].addr);
        assert forall|k: int| 0 <= k < from && k < cells.len() implies walk.0[k] == cells[k] by {
            assert(cut[k] == cells[k]);
        }
    } else {
        lemma_first_fit_prefix(cells, from + 1, size);
        assert(walk.0[from] == cells[from]);
    }
}

/// A walk that took no cell has left the cells such that the same walk takes
/// none again and changes nothing.
pub proof fn lemma_first_fit_settles(cells: Seq<Cell>, from: int, size: int)
    requires
        0 <= from,
        first_fit(cells, from, size).1.is_none(),
    ensures
        first_fit(first_fit(cells, from, size).0, from, size) == (
            first_fit(cells, from, size).0,
            None::<int>,
        ),
    decreases cells.len() - from,
{
    let walked = first_fit(cells, from, size).0;
    if from >= cells.len() {
    } else if !cells[from].in_use && from + 1 < cells.len() && !cells[from + 1].in_use {
        lemma_first_fit_settles(merge(cells, from), from, size);
    } else if !cells[from].in_use && cells[from].length == size {
    } else if !cells[from].in_use && cells[from].length > size + NODE_SIZE {
    } else {
        lemma_first_fit_settles(cells, from + 1, size);
        lemma_first_fit_prefix(cells, from + 1, size);
        assert(walked[from] == cells[from]);
        assert(first_fit(walked, from, size) == first_fit(walked, from + 1, size));
    }
}


/// A walk that took no cell has left no two free cells side by side, from
/// where it began.
pub proof fn lemma_first_fit_coalesces(cells: Seq<Cell>, from: int, size: int)
    requires
        0 <= from,
        first_fit(cells, from, size).1.is_none(),
    ensures
        forall|k: int|
            from <= k < first_fit(cells, from, size).0.len() - 1 ==> (#[trigger] first_fit(
                cells,
                from,
                size,
            ).0[k]).in_use || first_fit(cells, from, size).0[k + 1].in_use,
    decreases cells.len() - from,
{
    let walked = first_fit(cells, from, size).0;
    if from >= cells.len() {
    } else if !cells[from].in_use && from + 1 < cells.len() && !cells[from + 1].in_use {
        lemma_first_fit_coalesces(merge(cells, from), from, size);
        assert(walked == first_fit(merge(cells, from), from, size).0);
        assert forall|k: int| from <= k < walked.len() - 1 implies (#[trigger] walked[k]).in_use
            || walked[k + 1].in_use by {
            assert(first_fit(merge(cells, from), from, size).0[k].in_use || first_fit(
                merge(cells, from),
                from,
                size,
            ).0[k + 1].in_use);
        }
    } else if !cells[from].in_use && cells[from].length == size {
    } else if !cells[from].in_use && cells[from].length > size + NODE_SIZE {
    } else {
        lemma_first_fit_coalesces(cells, from + 1, size);
        lemma_first_fit_prefix(cells, from + 1, size);
        assert(walked == first_fit(cells, from + 1, size).0);
        assert forall|k: int| from <= k < walked.len() - 1 implies (#[trigger] walked[k]).in_use
            || walked[k + 1].in_use by {
            if k == from {
                assert(walked[from] == cells[from]);
                assert(walked[from + 1].in_use == cells[from + 1].in_use);
            } else {
                assert(first_fit(cells, from + 1, size).0[k].in_use || first_fit(
                    cells,
                    from + 1,
                    size,
                ).0[k + 1].in_use);
            }
        }
    }
}

} // verus!
