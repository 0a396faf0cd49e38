//! The wheel as a mathematical object.
//!
//! A wheel is a ring of slots and a cursor. Each operation of the executable
//! wheel is specified as a function from one [`WheelView`] to the next, so the
//! contracts in `wheel` are single equations and the laws in `laws` are
//! statements about this module alone.

use vstd::prelude::*;
use vstd::arithmetic::div_mod::{
    lemma_add_mod_noop_right,
    lemma_mod_pos_bound,
    lemma_mod_sub_multiples_vanish,
    lemma_small_mod,
};

verus! {

/// Abstract state of a timing wheel.
pub struct WheelView<T> {
    /// Contents of every slot, in ring order; items within a slot are in the
    /// order in which they were scheduled.
    pub slots: Seq<Seq<T>>,
    /// Index of the slot that stands for "now".
    pub cursor: int,
}

/// Number of items held by all the slots together.
pub open spec fn total<T>(slots: Seq<Seq<T>>) -> nat
    decreases slots.len(),
{
    if slots.len() == 0 {
        0
    } else {
        total(slots.drop_last()) + slots.last().len()
    }
}

impl<T> WheelView<T> {
    /// A ring of `ring_len` empty slots with the cursor on the first.
    pub open spec fn fresh(ring_len: nat) -> Self {
        WheelView { slots: Seq::new(ring_len, |i: int| Seq::<T>::empty()), cursor: 0 }
    }

    /// Number of slots in the ring.
    pub open spec fn ring_len(self) -> int {
        self.slots.len() as int
    }

    /// The farthest offset that lands in a slot of its own: one slot is the
    /// current one, the rest lie ahead of it.
    pub open spec fn max_interval(self) -> int {
        self.ring_len() - 1
    }

    /// The ring is not empty and the cursor points into it.
    pub open spec fn well_formed(self) -> bool {
        0 <= self.cursor < self.ring_len()
    }

    /// No slot holds more than `cap` items.
    pub open spec fn within(self, cap: int) -> bool {
        forall|i: int| 0 <= i < self.ring_len() ==> (#[trigger] self.slots[i]).len() <= cap
    }

    /// Every slot is empty.
    pub open spec fn is_empty(self) -> bool {
        forall|i: int| 0 <= i < self.ring_len() ==> (#[trigger] self.slots[i]).len() == 0
    }

    /// Total number of items in the ring.
    pub open spec fn occupancy(self) -> nat {
        total(self.slots)
    }

    /// Slot that an offset of `ticks` steps selects. Offsets beyond
    /// `max_interval` wrap around the ring.
    pub open spec fn target(self, ticks: int) -> int {
        (self.cursor + ticks) % self.ring_len()
    }

    /// Slot immediately behind the cursor: the one the last tick handed out.
    pub open spec fn behind(self) -> int {
        if self.cursor == 0 {
            self.ring_len() - 1
        } else {
            self.cursor - 1
        }
    }

    /// Items that the next tick hands out.
    pub open spec fn due(self) -> Seq<T> {
        self.slots[self.cursor]
    }

    /// Whether the slot selected by `ticks` can take one more item.
    pub open spec fn has_room(self, ticks: int, cap: int) -> bool {
        self.slots[self.target(ticks)].len() < cap
    }

    /// The wheel with `value` appended to the slot selected by `ticks`.
    pub open spec fn insert(self, ticks: int, value: T) -> Self {
        let t = self.target(ticks);
        WheelView { slots: self.slots.update(t, self.slots[t].push(value)), cursor: self.cursor }
    }

    /// Effect of scheduling `value` at offset `ticks` when slots hold at most
    /// `cap` items: the item is inserted if its slot has room, and otherwise
    /// nothing changes.
    pub open spec fn schedule(self, ticks: int, value: T, cap: int) -> Self {
        if self.has_room(ticks, cap) {
            self.insert(ticks, value)
        } else {
            self
        }
    }

    /// Effect of scheduling each of `values` in turn at offset `ticks`.
    pub open spec fn schedule_all(self, ticks: int, values: Seq<T>, cap: int) -> Self
        decreases values.len(),
    {
        if values.len() == 0 {
            self
        } else {
            self.schedule_all(ticks, values.drop_last(), cap).schedule(ticks, values.last(), cap)
        }
    }

    /// Effect of one tick: the current slot is emptied and the cursor moves
    /// one step around the ring.
    pub open spec fn advance(self) -> Self {
        WheelView {
            slots: self.slots.update(self.cursor, Seq::empty()),
            cursor: (self.cursor + 1) % self.ring_len(),
        }
    }

    /// Effect of `n` ticks in a row.
    pub open spec fn advance_by(self, n: nat) -> Self
        decreases n,
    {
        if n == 0 {
            self
        } else {
            self.advance_by((n - 1) as nat).advance()
        }
    }

    /// Items that emptying the slot behind the cursor discards.
    pub open spec fn cleared(self) -> Seq<T> {
        self.slots[self.behind()]
    }

    /// Effect of emptying the slot behind the cursor.
    pub open spec fn clear_behind(self) -> Self {
        WheelView { slots: self.slots.update(self.behind(), Seq::empty()), cursor: self.cursor }
    }
}

/// For `0 <= x < 2 * m`, reducing modulo `m` is one conditional subtraction.
pub proof fn lemma_wrap_once(x: int, m: int)
    requires
        0 < m,
        0 <= x < 2 * m,
    ensures
        x % m == if x < m { x } else { x - m },
{
    if x < m {
        lemma_small_mod(x as nat, m as nat);
    } else {
        lemma_mod_sub_multiples_vanish(x, m);
        lemma_small_mod((x - m) as nat, m as nat);
    }
}

/// The slot selected by an arbitrary offset is found by reducing the offset
/// first and wrapping at most once afterwards.
pub proof fn lemma_target_by_parts(cursor: int, ticks: int, m: int)
    requires
        0 < m,
        0 <= cursor < m,
        0 <= ticks,
    ensures
        0 <= ticks % m < m,
        (cursor + ticks) % m == if cursor + ticks % m < m {
            cursor + ticks % m
        } else {
            cursor + ticks % m - m
        },
{
    lemma_mod_pos_bound(ticks, m);
    lemma_add_mod_noop_right(cursor, ticks, m);
    lemma_wrap_once(cursor + ticks % m, m);
}

/// Replacing one slot changes the total by the difference of the two lengths.
pub proof fn lemma_total_update<T>(slots: Seq<Seq<T>>, i: int, slot: Seq<T>)
    requires
        0 <= i < slots.len(),
    ensures
        total(slots.update(i, slot)) == total(slots) - slots[i].len() + slot.len(),
    decreases slots.len(),
{
    let updated = slots.update(i, slot);
    if i == slots.len() - 1 {
        assert(updated.drop_last() =~= slots.drop_last());
    } else {
        lemma_total_update(slots.drop_last(), i, slot);
        assert(updated.drop_last() =~= slots.drop_last().update(i, slot));
    }
}

/// A ring whose slots hold at most `cap` items holds at most
/// `ring length * cap` items.
pub proof fn lemma_total_bound<T>(slots: Seq<Seq<T>>, cap: int)
    requires
        forall|i: int| 0 <= i < slots.len() ==> (#[trigger] slots[i]).len() <= cap,
    ensures
        total(slots) <= slots.len() * cap,
    decreases slots.len(),
{
    if slots.len() > 0 {
        let front = slots.drop_last();
        assert forall|i: int| 0 <= i < front.len() implies (#[trigger] front[i]).len() <= cap by {
            assert(front[i] == slots[i]);
        }
        lemma_total_bound(front, cap);
        assert(front.len() * cap + cap == slots.len() * cap) by (nonlinear_arith)
            requires
                front.len() + 1 == slots.len(),
        ;
    } else {
        assert(slots.len() * cap == 0) by (nonlinear_arith)
            requires
                slots.len() == 0,
        ;
    }
}

/// A ring of empty slots holds nothing.
pub proof fn lemma_total_of_empty<T>(slots: Seq<Seq<T>>)
    requires
        forall|i: int| 0 <= i < slots.len() ==> (#[trigger] slots[i]).len() == 0,
    ensures
        total(slots) == 0,
    decreases slots.len(),
{
    if slots.len() > 0 {
        let front = slots.drop_last();
        assert forall|i: int| 0 <= i < front.len() implies (#[trigger] front[i]).len() == 0 by {
            assert(front[i] == slots[i]);
        }
        lemma_total_of_empty(front);
    }
}

} // verus!
