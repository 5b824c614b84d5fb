//! One value per core. The slots are made on the first access, one for each
//! core, and every slot counts its borrows while the kernel runs: any
//! number of readers, or one writer, at a time.

use vstd::prelude::*;

verus! {

/// A value that every core has its own of.
#[verifier::reject_recursive_types(T)]
pub struct CoreLocal<T, F: Fn() -> T> {
    init: F,
    slots: Vec<T>,
    readers: Vec<usize>,
    writers: Vec<bool>,
    initialized: bool,
}

impl<T, F: Fn() -> T> CoreLocal<T, F> {
    /// The function that makes the first value of a slot.
    pub closed spec fn init(&self) -> F {
        self.init
    }

    /// Whether the slots are made.
    pub closed spec fn is_initialized(&self) -> bool {
        self.initialized
    }

    /// Number of slots: none before the first access, one for each core
    /// after it.
    pub closed spec fn cores(&self) -> nat {
        self.slots@.len()
    }

    /// The value of the slot of `core`.
    pub closed spec fn value(&self, core: int) -> T {
        self.slots@[core]
    }

    /// Number of read borrows of the slot of `core` that are held.
    pub closed spec fn readers(&self, core: int) -> nat {
        self.readers@[core] as nat
    }

    /// Whether the write borrow of the slot of `core` is held.
    pub closed spec fn writing(&self, core: int) -> bool {
        self.writers@[core]
    }

    /// The invariant: no slot before the first access, and never a writer
    /// beside readers.
    pub closed spec fn wf(&self) -> bool {
        &&& self.readers@.len() == self.slots@.len()
        &&& self.writers@.len() == self.slots@.len()
        &&& !self.initialized ==> self.slots@.len() == 0
        &&& forall|i: int|
            0 <= i < self.slots@.len() && #[trigger] self.writers@[i] ==> self.readers@[i] == 0
    }

    /// Whether `other` has the same slots with the same values and borrows,
    /// but for the slot of `core`.
    pub open spec fn same_but(&self, other: &Self, core: int) -> bool {
        &&& self.cores() == other.cores()
        &&& self.is_initialized() == other.is_initialized()
        &&& self.init() == other.init()
        &&& forall|i: int|
            0 <= i < self.cores() && i != core ==> {
                &&& (#[trigger] self.value(i)) == other.value(i)
                &&& self.readers(i) == other.readers(i)
                &&& self.writing(i) == other.writing(i)
            }
    }

    /// A value per core whose slots are made by `init` on the first access.
    pub fn new(init: F) -> (local: Self)
        ensures
            local.wf(),
            !local.is_initialized(),
            local.cores() == 0,
            local.init() == init,
    {
        CoreLocal {
            init,
            slots: Vec::new(),
            readers: Vec::new(),
            writers: Vec::new(),
            initialized: false,
        }
    }

    /// Makes the slots, one for each of `cores` cores, unless they are made
    /// already: each holds what `init` returns, and none is borrowed. Every
    /// access begins with this, so the slots are made on the first one.
    pub fn ensure_initialized(&mut self, cores: usize)
        requires
            old(self).wf(),
            call_requires(old(self).init(), ()),
        ensures
            final(self).wf(),
            final(self).is_initialized(),
            final(self).init() == old(self).init(),
            old(self).is_initialized() ==> *final(self) == *old(self),
            !old(self).is_initialized() ==> final(self).cores() == cores,
            !old(self).is_initialized() ==> forall|i: int|
                0 <= i < cores ==> {
                    &&& call_ensures(final(self).init(), (), #[trigger] final(self).value(i))
                    &&& final(self).readers(i) == 0
                    &&& !final(self).writing(i)
                },
    {
        if self.initialized {
            return ;
        }
        let mut i: usize = 0;
        while i < cores
            invariant
                i <= cores,
                self.init == old(self).init,
                call_requires(self.init, ()),
                !self.initialized,
                self.slots@.len() == i,
                self.readers@.len() == i,
                self.writers@.len() == i,
                forall|k: int| 0 <= k < i ==> call_ensures(self.init, (), #[trigger] self.slots@[k]),
                forall|k: int| 0 <= k < i ==> (#[trigger] self.readers@[k]) == 0,
                forall|k: int| 0 <= k < i ==> !(#[trigger] self.writers@[k]),
            decreases cores - i,
        {
            let value: T = (self.init)();
            self.slots.push(value);
            self.readers.push(0);
            self.writers.push(false);
            i += 1;
        }
        self.initialized = true;
    }

    /// Begins a read of the slot of `core`. Returns `false`, with no borrow
    /// begun, while the slot is being written.
    pub fn read(&mut self, core: usize) -> (ok: bool)
        requires
            old(self).wf(),
            old(self).is_initialized(),
            core < old(self).cores(),
        ensures
            final(self).wf(),
            final(self).same_but(old(self), core as int),
            final(self).value(core as int) == old(self).value(core as int),
            final(self).writing(core as int) == old(self).writing(core as int),
            ok == (!old(self).writing(core as int) && old(self).readers(core as int) < usize::MAX),
            ok ==> final(self).readers(core as int) == old(self).readers(core as int) + 1,
            !ok ==> final(self).readers(core as int) == old(self).readers(core as int),
    {
        if self.writers[core] || self.readers[core] == usize::MAX {
            return false;
        }
        let held: usize = self.readers[core];
        self.readers[core] = held + 1;
        true
    }

    /// Ends a read of the slot of `core`.
    pub fn end_read(&mut self, core: usize)
        requires
            old(self).wf(),
            core < old(self).cores(),
            old(self).readers(core as int) > 0,
        ensures
            final(self).wf(),
            final(self).same_but(old(self), core as int),
            final(self).value(core as int) == old(self).value(core as int),
            final(self).readers(core as int) == old(self).readers(core as int) - 1,
            !final(self).writing(core as int),
    {
        let held: usize = self.readers[core];
        self.readers[core] = held - 1;
    }

    /// Begins the write of the slot of `core`. Returns `false`, with no
    /// borrow begun, while the slot is being read or written.
    pub fn write(&mut self, core: usize) -> (ok: bool)
        requires
            old(self).wf(),
            old(self).is_initialized(),
            core < old(self).cores(),
        ensures
            final(self).wf(),
            final(self).same_but(old(self), core as int),
            final(self).value(core as int) == old(self).value(core as int),
            final(self).readers(core as int) == old(self).readers(core as int),
            ok == (!old(self).writing(core as int) && old(self).readers(core as int) == 0),
            final(self).writing(core as int) == (ok || old(self).writing(core as int)),
    {
        if self.writers[core] || self.readers[core] != 0 {
            return false;
        }
        self.writers[core] = true;
        true
    }

    /// Ends the write of the slot of `core`.
    pub fn end_write(&mut self, core: usize)
        requires
            old(self).wf(),
            core < old(self).cores(),
            old(self).writing(core as int),
        ensures
            final(self).wf(),
            final(self).same_but(old(self), core as int),
            final(self).value(core as int) == old(self).value(core as int),
            final(self).readers(core as int) == 0,
            !final(self).writing(core as int),
    {
        self.writers[core] = false;
    }

    /// Whether the slots are made.
    pub fn initialized(&self) -> (made: bool)
        ensures
            made == self.is_initialized(),
    {
        self.initialized
    }

    /// Number of slots.
    pub fn number_of_slots(&self) -> (slots: usize)
        ensures
            slots == self.cores(),
    {
        self.slots.len()
    }

    /// The value of the slot of `core`, for whoever holds a borrow of it.
    pub fn get(&self, core: usize) -> (value: &T)
        requires
            self.wf(),
            core < self.cores(),
            self.readers(core as int) > 0 || self.writing(core as int),
        ensures
            *value == self.value(core as int),
    {
        &self.slots[core]
    }

    /// Puts `value` into the slot of `core`, for whoever holds the write
    /// borrow of it.
    pub fn set(&mut self, core: usize, value: T)
        requires
            old(self).wf(),
            core < old(self).cores(),
            old(self).writing(core as int),
        ensures
            final(self).wf(),
            final(self).same_but(old(self), core as int),
            final(self).value(core as int) == value,
            final(self).readers(core as int) == 0,
            final(self).writing(core as int),
    {
        self.slots[core] = value;
    }
}

} // verus!
