//! The executable timing wheel.
//!
//! Policies fixed by this implementation:
//!
//! * All index arithmetic is modulo `RING_LEN`, and the ring holds exactly
//!   `RING_LEN` slots.
//! * `tick` hands the due slot to the caller *by value* and leaves an empty
//!   slot in its place, so stale items never come round again and `size`
//!   always equals what the ring really holds.
//! * An offset beyond `max_interval` is not an error: it wraps around the
//!   ring and lands in a nearer slot.

use vstd::prelude::*;
use crate::model::{
    lemma_target_by_parts,
    lemma_total_bound,
    lemma_total_of_empty,
    lemma_total_update,
    WheelView,
};
use crate::storage::FixedVec;

verus! {

/// A timing wheel of `RING_LEN` slots that hold up to `SLOT_CAP` items each.
///
/// All storage is inline; no operation allocates.
#[verifier::reject_recursive_types(T)]
#[verifier::reject_recursive_types(SLOT_CAP)]
pub struct TimerWheel<T, const RING_LEN: usize, const SLOT_CAP: usize> {
    max_interval: usize,
    current_tick: usize,
    size: usize,
    ring: FixedVec<FixedVec<T, SLOT_CAP>, RING_LEN>,
}

impl<T, const RING_LEN: usize, const SLOT_CAP: usize> View for TimerWheel<T, RING_LEN, SLOT_CAP> {
    type V = WheelView<T>;

    closed spec fn view(&self) -> WheelView<T> {
        WheelView {
            slots: Seq::new(self.ring@.len(), |i: int| self.ring@[i]@),
            cursor: self.current_tick as int,
        }
    }
}

impl<T, const RING_LEN: usize, const SLOT_CAP: usize> TimerWheel<T, RING_LEN, SLOT_CAP> {
    /// The cached counters agree with the ring.
    pub closed spec fn counters_agree(&self) -> bool {
        &&& self.size == self@.occupancy()
        &&& self.max_interval == RING_LEN - 1
    }

    /// Invariant of every wheel: established by `new`, kept by every method.
    pub open spec fn wf(&self) -> bool {
        &&& RING_LEN * SLOT_CAP <= usize::MAX
        &&& self@.ring_len() == RING_LEN
        &&& self@.well_formed()
        &&& self@.within(SLOT_CAP as int)
        &&& self.counters_agree()
    }

    /// Creates a wheel with every slot empty and the cursor on slot 0.
    ///
    /// A ring needs at least one slot, and the item count must be able to
    /// reach `RING_LEN * SLOT_CAP` without overflowing.
    pub fn new() -> (wheel: Self)
        requires
            RING_LEN >= 1,
            RING_LEN * SLOT_CAP <= usize::MAX,
        ensures
            wheel.wf(),
            wheel@ == WheelView::<T>::fresh(RING_LEN as nat),
            wheel@.occupancy() == 0,
    {
        let mut ring: FixedVec<FixedVec<T, SLOT_CAP>, RING_LEN> = FixedVec::new();
        let mut filled: usize = 0;
        while filled < RING_LEN
            invariant
                filled <= RING_LEN,
                ring@.len() == filled,
                forall|i: int| 0 <= i < filled ==> (#[trigger] ring@[i])@ == Seq::<T>::empty(),
            decreases RING_LEN - filled,
        {
            let _ = ring.push(FixedVec::new());
            filled = filled + 1;
        }
        let wheel = TimerWheel { max_interval: RING_LEN - 1, current_tick: 0, size: 0, ring };
        proof {
            assert(wheel@.slots =~= WheelView::<T>::fresh(RING_LEN as nat).slots);
            lemma_total_of_empty(wheel@.slots);
        }
        wheel
    }

    /// Number of items currently held, over all slots.
    pub fn size(&self) -> (n: usize)
        requires
            self.wf(),
        ensures
            n == self@.occupancy(),
    {
        self.size
    }

    /// The greatest offset that does not wrap: `RING_LEN - 1`.
    pub fn max_interval(&self) -> (n: usize)
        requires
            self.wf(),
        ensures
            n == self@.max_interval(),
    {
        self.max_interval
    }

    /// Advances the wheel by one step and returns the items that were due.
    ///
    /// The returned slot is the one the cursor stood on; the ring keeps an
    /// empty slot in its place.
    pub fn tick(&mut self) -> (due: FixedVec<T, SLOT_CAP>)
        requires
            old(self).wf(),
        ensures
            final(self).wf(),
            due@ == old(self)@.due(),
            final(self)@ == old(self)@.advance(),
            final(self)@.occupancy() == old(self)@.occupancy() - due@.len(),
    {
        let index = self.current_tick;
        let mut due = FixedVec::new();
        core::mem::swap(self.ring.at_mut(index), &mut due);
        self.current_tick = (index + 1) % RING_LEN;
        let taken = due.len();
        proof {
            assert(self@.slots =~= old(self)@.advance().slots);
            lemma_total_update(old(self)@.slots, index as int, Seq::empty());
        }
        self.size = self.size - taken;
        due
    }

    /// Empties the slot immediately behind the cursor.
    ///
    /// `tick` already leaves that slot empty, so this only discards items
    /// that were scheduled a full `max_interval` ahead since then.
    pub fn clear_node(&mut self)
        requires
            old(self).wf(),
        ensures
            final(self).wf(),
            final(self)@ == old(self)@.clear_behind(),
            final(self)@.occupancy() == old(self)@.occupancy() - old(self)@.cleared().len(),
    {
        let previous = if self.current_tick == 0 {
            RING_LEN - 1
        } else {
            self.current_tick - 1
        };
        let slot = self.ring.at_mut(previous);
        let dropped = slot.len();
        slot.clear();
        proof {
            assert(self@.slots =~= old(self)@.clear_behind().slots);
            lemma_total_update(old(self)@.slots, previous as int, Seq::empty());
        }
        self.size = self.size - dropped;
    }

    /// Schedules `value` to come out of the `ticks + 1`-th call of `tick`
    /// from now.
    ///
    /// Fails only when the slot that `ticks` selects already holds
    /// `SLOT_CAP` items; the wheel is then untouched and `value` comes back
    /// in the error.
    pub fn schedule(&mut self, ticks: usize, value: T) -> (outcome: Result<(), T>)
        requires
            old(self).wf(),
        ensures
            final(self).wf(),
            final(self)@ == old(self)@.schedule(ticks as int, value, SLOT_CAP as int),
            old(self)@.has_room(ticks as int, SLOT_CAP as int) ==> outcome is Ok,
            old(self)@.has_room(ticks as int, SLOT_CAP as int) ==> final(self)@.occupancy()
                == old(self)@.occupancy() + 1,
            !old(self)@.has_room(ticks as int, SLOT_CAP as int) ==> outcome == (Err::<(), T>(value)),
    {
        let offset = ticks % RING_LEN;
        let room = RING_LEN - self.current_tick;
        let index = if offset < room {
            self.current_tick + offset
        } else {
            offset - room
        };
        proof {
            lemma_target_by_parts(self.current_tick as int, ticks as int, RING_LEN as int);
        }
        match self.ring.at_mut(index).push(value) {
            Ok(()) => {
                proof {
                    assert(self@.slots =~= old(self)@.insert(ticks as int, value).slots);
                    lemma_total_update(
                        old(self)@.slots,
                        index as int,
                        old(self)@.slots[index as int].push(value),
                    );
                    lemma_total_bound(self@.slots, SLOT_CAP as int);
                }
                self.size = self.size + 1;
                Ok(())
            },
            Err(rejected) => {
                proof {
                    assert(self@.slots =~= old(self)@.slots);
                }
                Err(rejected)
            },
        }
    }
}

} // verus!
