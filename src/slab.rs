use vstd::prelude::*;

verus! {

/// A 1-based index into a slab. The value 0 never names a record.
#[derive(Clone, Copy, Debug, PartialEq, Eq, Structural)]
pub struct Handle(pub u32);

impl Handle {
    /// The raw 1-based index.
    pub fn get(&self) -> (r: u32)
        ensures
            r == self.0,
    {
        self.0
    }
}

/// A timer record stored in the slab.
#[derive(Debug)]
pub struct TimerEntry<T> {
    pub task: T,
    pub deadline: u64,
    /// The next record of the same bucket list.
    pub next: Option<Handle>,
    /// The previous record of the same bucket list.
    pub prev: Option<Handle>,
    /// The wheel level whose bucket holds this record.
    pub level: u8,
}

enum Entry<T> {
    Occupied(TimerEntry<T>),
    /// A free slot, pointing at the next free slot.
    Free(Option<Handle>),
}

/// `Some(Handle(s[j]))` where `j` indexes `s`, else `None`.
pub open spec fn link_at(s: Seq<u32>, j: int) -> Option<Handle> {
    if 0 <= j < s.len() {
        Some(Handle(s[j]))
    } else {
        None
    }
}

/// An arena of timer records addressed by handles, reusing freed slots
/// most recently freed first.
pub struct Slab<T> {
    entries: Vec<Entry<T>>,
    next_free: Option<Handle>,
    /// The free list, from its head.
    free_stack: Ghost<Seq<u32>>,
}

impl<T> Slab<T> {
    /// The slots, slot `i` holding handle `i + 1`: the record, or `None`
    /// where the slot is free.
    pub closed spec fn view(&self) -> Seq<Option<TimerEntry<T>>> {
        Seq::new(
            self.entries@.len(),
            |i: int|
                match self.entries@[i] {
                    Entry::Occupied(e) => Some(e),
                    Entry::Free(_) => None,
                },
        )
    }

    /// The handles of the free slots, in the order in which they will be reused.
    pub closed spec fn free_list(&self) -> Seq<u32> {
        self.free_stack@
    }

    pub closed spec fn wf(&self) -> bool {
        let fl = self.free_stack@;
        &&& self.next_free == link_at(fl, 0)
        &&& fl.no_duplicates()
        &&& forall|k: int|
            0 <= k < fl.len() ==> {
                &&& 1 <= #[trigger] fl[k] <= self.entries@.len()
                &&& self.entries@[fl[k] - 1] == Entry::<T>::Free(link_at(fl, k + 1))
            }
    }

    pub open spec fn occupied(&self, h: u32) -> bool {
        1 <= h <= self@.len() && self@[h - 1] is Some
    }

    pub open spec fn entry(&self, h: u32) -> TimerEntry<T> {
        self@[h - 1]->Some_0
    }

    pub fn new() -> (r: Self)
        ensures
            r.wf(),
            r@ == Seq::<Option<TimerEntry<T>>>::empty(),
            r.free_list() == Seq::<u32>::empty(),
    {
        Slab { entries: Vec::with_capacity(1024), next_free: None, free_stack: Ghost(Seq::empty()) }
    }
    /// The number of slots, free or not.
    pub fn len(&self) -> (r: usize)
        ensures
            r == self@.len(),
    {
        self.entries.len()
    }

    /// Stores a new record with no list links and returns its handle: the
    /// head of the free list where there is one, else a new slot at the end.
    pub fn allocate(&mut self, task: T, deadline: u64, level: u8) -> (h: Handle)
        requires
            old(self).wf(),
            old(self).free_list().len() > 0 || old(self)@.len() < u32::MAX,
        ensures
            final(self).wf(),
            h.0 != 0,
            !old(self).occupied(h.0),
            old(self)@.len() <= final(self)@.len() <= old(self)@.len() + 1,
            final(self).occupied(h.0),
            final(self).entry(h.0) == (TimerEntry { task, deadline, next: None, prev: None, level }),
            forall|x: u32| x != h.0 ==> #[trigger] final(self).occupied(x) == old(self).occupied(x)
                && (old(self).occupied(x) ==> final(self).entry(x) == old(self).entry(x)),
            ({
                let e = TimerEntry { task, deadline, next: None, prev: None, level };
                if old(self).free_list().len() > 0 {
                    &&& h.0 == old(self).free_list()[0]
                    &&& final(self)@.len() == old(self)@.len()
                    &&& final(self).free_list() == old(self).free_list().drop_first()
                    &&& final(self)@ == old(self)@.update(h.0 - 1, Some(e))
                } else {
                    &&& h.0 == old(self)@.len() + 1
                    &&& final(self).free_list() == old(self).free_list()
                    &&& final(self)@ == old(self)@.push(Some(e))
                }
            }),
    {
        let entry = TimerEntry { task, deadline, next: None, prev: None, level };
        if let Some(idx) = self.next_free {
            let ghost fl = self.free_stack@;
            assert(fl[0] == idx.0);
            let vec_idx = (idx.0 - 1) as usize;
            let mut slot = Entry::Occupied(entry);
            std::mem::swap(&mut self.entries[vec_idx], &mut slot);
            match slot {
                Entry::Free(next_idx) => {
                    self.next_free = next_idx;
                },
                Entry::Occupied(_) => {
                    assert(false);
                },
            }
            self.free_stack = Ghost(fl.drop_first());
            assert forall|k: int| 0 <= k < self.free_stack@.len() implies
                #[trigger] self.free_stack@[k] != idx.0 by {
                assert(fl[k + 1] != fl[0]);
            }
            assert(self@ =~= old(self)@.update(idx.0 - 1, Some(
                TimerEntry { task, deadline, next: None, prev: None, level },
            )));
            assert forall|x: u32| x != idx.0 implies #[trigger] self.occupied(x) == old(self).occupied(
                x,
            ) && (old(self).occupied(x) ==> self.entry(x) == old(self).entry(x)) by {
                if 1 <= x <= self@.len() {
                    assert(self@[x - 1] == old(self)@[x - 1]);
                }
            }
            return idx;
        }
        self.entries.push(Entry::Occupied(entry));
        let index = self.entries.len();
        assert(self@ =~= old(self)@.push(Some(
            TimerEntry { task, deadline, next: None, prev: None, level },
        )));
        assert forall|x: u32| x != index as u32 implies #[trigger] self.occupied(x) == old(
            self,
        ).occupied(x) && (old(self).occupied(x) ==> self.entry(x) == old(self).entry(x)) by {
            if 1 <= x <= old(self)@.len() {
                assert(self@[x - 1] == old(self)@[x - 1]);
            }
        }
        Handle(index as u32)
    }

    /// Releases the record of `handle` and returns its task; `None`, with
    /// nothing changed, where the handle names no record.
    pub fn free(&mut self, handle: Handle) -> (r: Option<T>)
        requires
            old(self).wf(),
        ensures
            final(self).wf(),
            old(self).occupied(handle.0) ==> {
                &&& r == Some(old(self).entry(handle.0).task)
                &&& final(self)@ == old(self)@.update(handle.0 - 1, None)
                &&& final(self).free_list() == seq![handle.0] + old(self).free_list()
            },
            !old(self).occupied(handle.0) ==> {
                &&& r is None
                &&& final(self)@ == old(self)@
                &&& final(self).free_list() == old(self).free_list()
            },
    {
        if handle.0 == 0 || handle.0 as usize > self.entries.len() {
            return None;
        }
        let idx = (handle.0 - 1) as usize;
        if let Entry::Free(_) = &self.entries[idx] {
            return None;
        }
        let ghost fl = self.free_stack@;
        let mut slot = Entry::Free(self.next_free);
        std::mem::swap(&mut self.entries[idx], &mut slot);
        self.next_free = Some(handle);
        self.free_stack = Ghost(seq![handle.0] + fl);
        assert forall|k: int| 0 <= k < fl.len() implies #[trigger] fl[k] != handle.0 by {
            assert(self.entries@[fl[k] - 1] is Free);
        }
        assert forall|k: int| 0 <= k < self.free_stack@.len() implies {
            &&& 1 <= #[trigger] self.free_stack@[k] <= self.entries@.len()
            &&& self.entries@[self.free_stack@[k] - 1] == Entry::<T>::Free(
                link_at(self.free_stack@, k + 1),
            )
        } by {
            if k > 0 {
                assert(self.free_stack@[k] == fl[k - 1]);
            }
        }
        assert(self@ =~= old(self)@.update(handle.0 - 1, None));
        match slot {
            Entry::Occupied(entry) => Some(entry.task),
            Entry::Free(_) => None,
        }
    }

    /// The record of `handle`, if it names one.
    pub fn get(&self, handle: Handle) -> (r: Option<&TimerEntry<T>>)
        ensures
            self.occupied(handle.0) ==> r == Some(&self.entry(handle.0)),
            !self.occupied(handle.0) ==> r is None,
    {
        if handle.0 == 0 || handle.0 as usize > self.entries.len() {
            return None;
        }
        match &self.entries[(handle.0 - 1) as usize] {
            Entry::Occupied(entry) => Some(entry),
            Entry::Free(_) => None,
        }
    }
    /// The record of `handle` for update, if it names one. The slot then
    /// holds whatever the caller leaves behind the reference.
    pub fn get_mut(&mut self, handle: Handle) -> (r: Option<&mut TimerEntry<T>>)
        requires
            old(self).wf(),
        ensures
            old(self).occupied(handle.0) ==> {
                &&& r is Some
                &&& *r->Some_0 == old(self).entry(handle.0)
                &&& final(self)@ == old(self)@.update(handle.0 - 1, Some(*final(r->Some_0)))
                &&& final(self).free_list() == old(self).free_list()
                &&& final(self).wf()
            },
            !old(self).occupied(handle.0) ==> r is None && *final(self) == *old(self),
    {
        if handle.0 == 0 || handle.0 as usize > self.entries.len() {
            return None;
        }
        let idx = (handle.0 - 1) as usize;
        if let Entry::Free(_) = &self.entries[idx] {
            return None;
        }
        match &mut self.entries[idx] {
            Entry::Occupied(entry) => Some(entry),
            Entry::Free(_) => None,
        }
    }
    /// Releases the record of `handle` and returns its task and deadline;
    /// `None`, with nothing changed, where the handle names no record.
    pub fn remove_and_get_data(&mut self, handle: Handle) -> (r: Option<(T, u64)>)
        requires
            old(self).wf(),
        ensures
            final(self).wf(),
            old(self).occupied(handle.0) ==> {
                &&& r == Some((old(self).entry(handle.0).task, old(self).entry(handle.0).deadline))
                &&& final(self)@ == old(self)@.update(handle.0 - 1, None)
                &&& final(self).free_list() == seq![handle.0] + old(self).free_list()
            },
            !old(self).occupied(handle.0) ==> {
                &&& r is None
                &&& final(self)@ == old(self)@
                &&& final(self).free_list() == old(self).free_list()
            },
    {
        let deadline = match self.get(handle) {
            Some(e) => e.deadline,
            None => {
                return None;
            },
        };
        match self.free(handle) {
            Some(task) => Some((task, deadline)),
            None => None,
        }
    }
}

/// Freeing a handle twice: the first free takes the record out, so the
/// handle then names no record, and a second free returns `None` and
/// changes nothing.
pub proof fn lemma_free_twice<T>(first: Slab<T>, second: Slab<T>, h: u32)
    requires
        first.wf(),
        first.occupied(h),
        second@ == first@.update(h - 1, None),
    ensures
        !second.occupied(h),
{
}

} // verus!
