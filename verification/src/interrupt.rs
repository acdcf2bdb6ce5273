//! The process groups an interrupt is forwarded to: a fixed table of
//! slots, each empty (0) or holding a running group.
use vstd::prelude::*;

verus! {

/// How many groups can be registered at once.
pub const SLOTS: usize = 64;

pub struct Groups {
    slots: Vec<i32>,
}

impl View for Groups {
    type V = Seq<i32>;

    closed spec fn view(&self) -> Seq<i32> {
        self.slots@
    }
}

/// The first empty slot from `i` on, or `SLOTS`.
pub open spec fn free_slot(s: Seq<i32>, i: int) -> int
    decreases s.len() - i,
{
    if i < 0 || i >= s.len() {
        s.len() as int
    } else if s[i] == 0 {
        i
    } else {
        free_slot(s, i + 1)
    }
}

impl Groups {
    pub fn new() -> (g: Self)
        ensures
            g@ == Seq::new(SLOTS as nat, |i: int| 0i32),
    {
        let mut slots: Vec<i32> = Vec::new();
        let mut i: usize = 0;
        while i < SLOTS
            invariant
                i <= SLOTS,
                slots@ == Seq::new(i as nat, |j: int| 0i32),
            decreases SLOTS - i,
        {
            slots.push(0);
            assert(slots@ =~= Seq::new((i + 1) as nat, |j: int| 0i32));
            i += 1;
        }
        Groups { slots }
    }

    /// Put `group` in the first empty slot and say which, or `None` when
    /// every slot holds a group.
    pub fn register(&mut self, group: i32) -> (r: Option<usize>)
        ensures
            final(self)@.len() == old(self)@.len(),
            ({
                let k = free_slot(old(self)@, 0);
                if k < old(self)@.len() {
                    r == Some(k as usize) && final(self)@ == old(self)@.update(k, group)
                } else {
                    r is None && final(self)@ == old(self)@
                }
            }),
    {
        let ghost s0 = self@;
        let mut i: usize = 0;
        while i < self.slots.len()
            invariant
                i <= self.slots@.len(),
                self@ == s0,
                s0 == old(self)@,
                free_slot(s0, i as int) == free_slot(s0, 0),
            decreases self.slots@.len() - i,
        {
            if self.slots[i] == 0 {
                self.slots.set(i, group);
                return Some(i);
            }
            i += 1;
        }
        None
    }

    /// Empty the slot a registration took.
    pub fn unregister(&mut self, slot: Option<usize>)
        requires
            slot matches Some(i) ==> i < old(self)@.len(),
        ensures
            match slot {
                Some(i) => final(self)@ == old(self)@.update(i as int, 0),
                None => final(self)@ == old(self)@,
            },
    {
        match slot {
            Some(i) => self.slots.set(i, 0),
            None => {},
        }
    }

    /// The groups registered, in slot order.
    pub fn running(&self) -> (out: Vec<i32>)
        ensures
            out@ == self@.filter(|g: i32| g != 0),
    {
        let mut out: Vec<i32> = Vec::new();
        let mut i: usize = 0;
        assert(self@.take(0).filter(|g: i32| g != 0) =~= Seq::<i32>::empty());
        while i < self.slots.len()
            invariant
                i <= self.slots@.len(),
                out@ == self@.take(i as int).filter(|g: i32| g != 0),
            decreases self.slots@.len() - i,
        {
            assert(self@.take(i + 1).drop_last() =~= self@.take(i as int));
            reveal(Seq::filter);
            if self.slots[i] != 0 {
                out.push(self.slots[i]);
            }
            i += 1;
        }
        assert(self@.take(self@.len() as int) =~= self@);
        out
    }
}

/// A group registered with `register` is in the table until `unregister`
/// empties its slot.
pub proof fn lemma_register_then_unregister(before: Seq<i32>, group: i32, k: int)
    requires
        0 <= k < before.len(),
        before[k] == 0,
    ensures
        before.update(k, group).update(k, 0) == before,
{
    assert(before.update(k, group).update(k, 0) =~= before);
}

} // verus!
