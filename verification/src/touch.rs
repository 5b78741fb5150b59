//! Touch in takeover mode: multitouch slots followed through evdev events;
//! five fingers down at once is the quit gesture.

use vstd::prelude::*;
use crate::pen::EV_ABS;

verus! {

pub const ABS_MT_SLOT: u16 = 47;
pub const ABS_MT_TRACKING_ID: u16 = 57;
pub const MAX_SLOTS: usize = 16;

/// Fingers down at once that ask the diary to close.
pub const QUIT_FINGERS: usize = 5;

/// How many slots hold a finger.
pub open spec fn active_count(slots: Seq<bool>) -> nat
    decreases slots.len(),
{
    if slots.len() == 0 {
        0
    } else {
        active_count(slots.drop_last()) + if slots.last() {
            1nat
        } else {
            0nat
        }
    }
}

/// The slot an `ABS_MT_SLOT` value selects: clamped to the slots there are.
pub open spec fn slot_of(value: i32) -> nat {
    if value < 0 {
        0
    } else if value >= MAX_SLOTS {
        (MAX_SLOTS - 1) as nat
    } else {
        value as nat
    }
}

/// The slots and current slot after one event, and whether the event left
/// five or more fingers down (a tracking id of -1 lifts the finger).
pub open spec fn touch_step(slots: Seq<bool>, cur: nat, etype: u16, code: u16, value: i32) -> (
    Seq<bool>,
    nat,
    bool,
) {
    if etype == EV_ABS && code == ABS_MT_SLOT {
        (slots, slot_of(value), false)
    } else if etype == EV_ABS && code == ABS_MT_TRACKING_ID {
        let s = slots.update(cur as int, value != -1);
        (s, cur, active_count(s) >= QUIT_FINGERS)
    } else {
        (slots, cur, false)
    }
}

/// The fingers on the glass.
pub struct TouchState {
    pub slots: Vec<bool>,
    pub cur: usize,
}

impl TouchState {
    /// Sixteen empty slots, the first one current.
    pub open spec fn wf(&self) -> bool {
        self.slots@.len() == MAX_SLOTS && self.cur < MAX_SLOTS
    }

    pub fn new() -> (s: Self)
        ensures
            s.wf(),
            s.slots@ == Seq::new(MAX_SLOTS as nat, |i: int| false),
            s.cur == 0,
    {
        let mut slots: Vec<bool> = Vec::new();
        while slots.len() < MAX_SLOTS
            invariant
                slots@.len() <= MAX_SLOTS,
                slots@ == Seq::new(slots@.len(), |i: int| false),
            decreases MAX_SLOTS - slots@.len(),
        {
            slots.push(false);
            assert(slots@ =~= Seq::new(slots@.len(), |i: int| false));
        }
        TouchState { slots, cur: 0 }
    }

    /// Takes one event; returns whether five or more fingers are down after
    /// it.
    pub fn feed(&mut self, etype: u16, code: u16, value: i32) -> (quit: bool)
        requires
            old(self).wf(),
        ensures
            final(self).wf(),
            (final(self).slots@, final(self).cur as nat, quit) == touch_step(
                old(self).slots@,
                old(self).cur as nat,
                etype,
                code,
                value,
            ),
    {
        if etype == EV_ABS && code == ABS_MT_SLOT {
            self.cur = if value < 0 {
                0
            } else if value as usize >= MAX_SLOTS {
                MAX_SLOTS - 1
            } else {
                value as usize
            };
            false
        } else if etype == EV_ABS && code == ABS_MT_TRACKING_ID {
            self.slots.set(self.cur, value != -1);
            count_active(&self.slots) >= QUIT_FINGERS
        } else {
            false
        }
    }
}

fn count_active(slots: &Vec<bool>) -> (n: usize)
    ensures
        n == active_count(slots@),
{
    let mut n: usize = 0;
    let mut i: usize = 0;
    while i < slots.len()
        invariant
            i <= slots@.len(),
            n == active_count(slots@.take(i as int)),
            n <= i,
        decreases slots@.len() - i,
    {
        assert(slots@.take(i + 1).drop_last() =~= slots@.take(i as int));
        if slots[i] {
            n = n + 1;
        }
        i = i + 1;
    }
    assert(slots@.take(slots@.len() as int) =~= slots@);
    n
}

} // verus!
