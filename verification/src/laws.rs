//! Laws of the wheel.
//!
//! Each law is a theorem about [`WheelView`], the model in which the
//! contracts of the executable wheel are written: `schedule`, `tick` and
//! `clear_node` change a wheel's view exactly as `WheelView::schedule`,
//! `WheelView::advance` and `WheelView::clear_behind` say, and `tick`
//! returns `WheelView::due`. What is proved here of the model therefore
//! holds of every run of the executable wheel.

use vstd::prelude::*;
use vstd::arithmetic::div_mod::{
    lemma_add_mod_noop_right,
    lemma_mod_add_multiples_vanish,
    lemma_mod_bound,
    lemma_mod_equivalence,
    lemma_small_mod,
};
use crate::model::{lemma_total_of_empty, lemma_total_update, WheelView};

verus! {

/// Two different offsets below the ring length never select the same slot.
pub proof fn lemma_offsets_apart(cursor: int, near: int, far: int, ring_len: int)
    requires
        0 <= near < far < ring_len,
    ensures
        (cursor + near) % ring_len != (cursor + far) % ring_len,
{
    lemma_mod_equivalence(cursor + far, cursor + near, ring_len);
    lemma_small_mod((far - near) as nat, ring_len as nat);
}

/// Ticking keeps a wheel well formed and its ring as long as it was, and
/// after `k` ticks the cursor stands `k` steps further round the ring.
pub proof fn lemma_cursor_after<T>(w: WheelView<T>, k: nat)
    requires
        w.well_formed(),
    ensures
        w.advance_by(k).well_formed(),
        w.advance_by(k).ring_len() == w.ring_len(),
        w.advance_by(k).cursor == (w.cursor + k) % w.ring_len(),
    decreases k,
{
    if k == 0 {
        lemma_small_mod(w.cursor as nat, w.ring_len() as nat);
    } else {
        lemma_cursor_after(w, (k - 1) as nat);
        let before = w.advance_by((k - 1) as nat);
        lemma_add_mod_noop_right(1, w.cursor + k - 1, w.ring_len());
        lemma_mod_bound(before.cursor + 1, w.ring_len());
    }
}

/// While fewer than `d + 1` ticks have passed, an item inserted at offset
/// `d` is still in its slot and nothing else differs.
proof fn lemma_pending<T>(w: WheelView<T>, d: int, value: T, k: nat)
    requires
        w.well_formed(),
        0 <= d <= w.max_interval(),
        k <= d,
    ensures
        ({
            let t = w.target(d);
            let plain = w.advance_by(k);
            let loaded = w.insert(d, value).advance_by(k);
            &&& 0 <= t < w.ring_len()
            &&& plain.ring_len() == w.ring_len()
            &&& loaded.cursor == plain.cursor
            &&& 0 <= plain.cursor < w.ring_len()
            &&& loaded.slots == plain.slots.update(t, plain.slots[t].push(value))
            &&& (plain.cursor == t <==> k == d)
        }),
    decreases k,
{
    let t = w.target(d);
    let start = w.insert(d, value);
    lemma_mod_bound(w.cursor + d, w.ring_len());
    lemma_cursor_after(w, k);
    lemma_cursor_after(start, k);
    if k < d {
        lemma_offsets_apart(w.cursor, k as int, d, w.ring_len());
    }
    if k > 0 {
        let j = (k - 1) as nat;
        lemma_pending(w, d, value, j);
        let plain = w.advance_by(j);
        let loaded = start.advance_by(j);
        assert(loaded.advance().slots =~= plain.advance().slots.update(
            t,
            plain.advance().slots[t].push(value),
        ));
    }
}

/// **Placement.** An item scheduled at offset `d`, `0 <= d <= max_interval`,
/// comes out of the `d + 1`-th tick after it was scheduled: the first `d`
/// ticks hand out exactly what they would have handed out without it, the
/// next one hands out the same items followed by the new one, and from then
/// on the wheel is as if the item had never been scheduled.
pub proof fn law_placement<T>(w: WheelView<T>, d: int, value: T, cap: int, k: nat)
    requires
        w.well_formed(),
        0 <= d <= w.max_interval(),
        w.has_room(d, cap),
    ensures
        k < d ==> w.schedule(d, value, cap).advance_by(k).due() == w.advance_by(k).due(),
        k == d ==> w.schedule(d, value, cap).advance_by(k).due() == w.advance_by(k).due().push(
            value,
        ),
        k > d ==> w.schedule(d, value, cap).advance_by(k) == w.advance_by(k),
    decreases k,
{
    let start = w.insert(d, value);
    if k <= d {
        lemma_pending(w, d, value, k);
    } else if k == d + 1 {
        lemma_pending(w, d, value, d as nat);
        let plain = w.advance_by(d as nat);
        let loaded = start.advance_by(d as nat);
        assert(loaded.advance().slots =~= plain.advance().slots);
    } else {
        law_placement(w, d, value, cap, (k - 1) as nat);
    }
}

/// **Wrap-around.** An item scheduled at offset `max_interval` goes into
/// the slot just behind the cursor. It stays out of the first
/// `ring_len - 1` ticks and comes out of the tick that completes the
/// revolution, after which the cursor is back where it started.
pub proof fn law_wrap_around<T>(w: WheelView<T>, value: T, cap: int, k: nat)
    requires
        w.well_formed(),
        w.has_room(w.max_interval(), cap),
    ensures
        w.target(w.max_interval()) == w.behind(),
        k < w.max_interval() ==> w.schedule(w.max_interval(), value, cap).advance_by(k).due()
            == w.advance_by(k).due(),
        w.schedule(w.max_interval(), value, cap).advance_by(w.max_interval() as nat).due()
            == w.advance_by(w.max_interval() as nat).due().push(value),
        w.schedule(w.max_interval(), value, cap).advance_by(w.ring_len() as nat).cursor
            == w.cursor,
{
    let far = w.max_interval();
    let loaded = w.schedule(far, value, cap);
    law_placement(w, far, value, cap, k);
    law_placement(w, far, value, cap, far as nat);
    lemma_cursor_after(loaded, w.ring_len() as nat);
    lemma_mod_add_multiples_vanish(w.cursor, w.ring_len());
    lemma_small_mod(w.cursor as nat, w.ring_len() as nat);
    if w.cursor == 0 {
        lemma_small_mod(far as nat, w.ring_len() as nat);
    } else {
        lemma_mod_add_multiples_vanish(w.cursor - 1, w.ring_len());
        lemma_small_mod((w.cursor - 1) as nat, w.ring_len() as nat);
    }
}

/// **Size accounting.** The number of items in the ring goes up by one with
/// every accepted item, stays put when an item is turned away, goes down by
/// the number of items handed out with every tick, and goes down by the
/// number of items discarded when the slot behind the cursor is cleared.
pub proof fn law_size_accounting<T>(w: WheelView<T>, ticks: int, value: T, cap: int)
    requires
        w.well_formed(),
        0 <= ticks,
    ensures
        w.has_room(ticks, cap) ==> w.schedule(ticks, value, cap).occupancy() == w.occupancy() + 1,
        !w.has_room(ticks, cap) ==> w.schedule(ticks, value, cap).occupancy() == w.occupancy(),
        w.advance().occupancy() == w.occupancy() - w.due().len(),
        w.clear_behind().occupancy() == w.occupancy() - w.cleared().len(),
{
    let t = w.target(ticks);
    lemma_mod_bound(w.cursor + ticks, w.ring_len());
    lemma_total_update(w.slots, t, w.slots[t].push(value));
    lemma_total_update(w.slots, w.cursor, Seq::empty());
    lemma_total_update(w.slots, w.behind(), Seq::empty());
}

/// **Capacity.** Scheduling at one offset fills one slot and touches no
/// other: the items are accepted, in order, for as long as the slot has
/// room. Once the slot holds `cap` items every further item for it is
/// turned away and leaves the wheel exactly as it was.
pub proof fn law_capacity_rejection<T>(
    w: WheelView<T>,
    ticks: int,
    values: Seq<T>,
    extra: T,
    cap: int,
)
    requires
        w.well_formed(),
        0 <= ticks,
        w.slots[w.target(ticks)].len() + values.len() == cap,
    ensures
        w.schedule_all(ticks, values, cap).slots == w.slots.update(
            w.target(ticks),
            w.slots[w.target(ticks)] + values,
        ),
        w.schedule_all(ticks, values, cap).cursor == w.cursor,
        w.schedule_all(ticks, values, cap).slots[w.target(ticks)].len() == cap,
        !w.schedule_all(ticks, values, cap).has_room(ticks, cap),
        w.schedule_all(ticks, values, cap).schedule(ticks, extra, cap) == w.schedule_all(
            ticks,
            values,
            cap,
        ),
{
    lemma_mod_bound(w.cursor + ticks, w.ring_len());
    lemma_accepted_in_order(w, ticks, values, cap);
}

/// Items scheduled at one offset are appended to its slot, in order, as
/// long as all of them fit.
proof fn lemma_accepted_in_order<T>(w: WheelView<T>, ticks: int, values: Seq<T>, cap: int)
    requires
        0 <= w.target(ticks) < w.ring_len(),
        w.slots[w.target(ticks)].len() + values.len() <= cap,
    ensures
        w.schedule_all(ticks, values, cap).slots == w.slots.update(
            w.target(ticks),
            w.slots[w.target(ticks)] + values,
        ),
        w.schedule_all(ticks, values, cap).cursor == w.cursor,
    decreases values.len(),
{
    let t = w.target(ticks);
    if values.len() == 0 {
        assert(w.slots[t] + values =~= w.slots[t]);
        assert(w.slots =~= w.slots.update(t, w.slots[t] + values));
    } else {
        let front = values.drop_last();
        lemma_accepted_in_order(w, ticks, front, cap);
        let before = w.schedule_all(ticks, front, cap);
        assert(before.target(ticks) == t);
        assert((w.slots[t] + front).push(values.last()) =~= w.slots[t] + values);
        assert(before.schedule(ticks, values.last(), cap).slots =~= w.slots.update(
            t,
            w.slots[t] + values,
        ));
    }
}

/// **Empty drain.** A wheel that holds nothing hands out an empty slot at
/// every tick, however many follow, and goes on holding nothing.
pub proof fn law_empty_drain<T>(w: WheelView<T>, n: nat)
    requires
        w.well_formed(),
        w.is_empty(),
    ensures
        w.advance_by(n).is_empty(),
        w.advance_by(n).due() == Seq::<T>::empty(),
        w.advance_by(n).occupancy() == 0,
    decreases n,
{
    lemma_cursor_after(w, n);
    if n > 0 {
        law_empty_drain(w, (n - 1) as nat);
        lemma_cursor_after(w, (n - 1) as nat);
    }
    let now = w.advance_by(n);
    assert(now.due() =~= Seq::<T>::empty());
    lemma_total_of_empty(now.slots);
}

} // verus!
