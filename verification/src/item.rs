//! Per-item tracking data of the Leitner boxes.

use vstd::prelude::*;

verus! {

/// The number of boxes; box levels run from 0 to `NUM_BOXES - 1`.
pub const NUM_BOXES: u8 = 9;

/// Human-readable labels for each box interval.
pub const BOX_LABELS: [&'static str; 9] = ["20s", "1m", "5m", "30m", "2h", "6h", "1d", "3d", "1w"];

/// The review interval of a box level, in seconds: 20 s, 1 min, 5 min,
/// 30 min, 2 h, 6 h, 1 day, 3 days and 1 week for boxes 0 to 8.
pub open spec fn box_interval(level: u8) -> u64 {
    if level == 0 {
        20
    } else if level == 1 {
        60
    } else if level == 2 {
        300
    } else if level == 3 {
        1_800
    } else if level == 4 {
        7_200
    } else if level == 5 {
        21_600
    } else if level == 6 {
        86_400
    } else if level == 7 {
        259_200
    } else {
        604_800
    }
}

/// Per-item tracking data.
#[derive(Debug, Clone)]
pub struct ItemData {
    pub box_level: u8,
    pub last_reviewed: u64,
    pub times_correct: u32,
    pub times_wrong: u32,
}

/// An item is due at `now` once the interval of its box has passed since
/// its last review.
pub open spec fn due_at(item: ItemData, now: u64) -> bool {
    now >= item.last_reviewed + box_interval(item.box_level)
}

/// The item after a correct answer at `now`: promoted one box (up to the
/// last) and marked reviewed if it was due, and counted as correct either way.
pub open spec fn after_correct(item: ItemData, now: u64) -> ItemData {
    if due_at(item, now) {
        ItemData {
            box_level: if item.box_level + 1 < NUM_BOXES - 1 {
                (item.box_level + 1) as u8
            } else {
                (NUM_BOXES - 1) as u8
            },
            last_reviewed: now,
            times_correct: (item.times_correct + 1) as u32,
            times_wrong: item.times_wrong,
        }
    } else {
        ItemData {
            box_level: item.box_level,
            last_reviewed: item.last_reviewed,
            times_correct: (item.times_correct + 1) as u32,
            times_wrong: item.times_wrong,
        }
    }
}

/// The item after a wrong answer at `now`: back to box 0, marked reviewed,
/// and counted as wrong.
pub open spec fn after_wrong(item: ItemData, now: u64) -> ItemData {
    ItemData {
        box_level: 0,
        last_reviewed: now,
        times_correct: item.times_correct,
        times_wrong: (item.times_wrong + 1) as u32,
    }
}

/// The item after an answer at `now`.
pub open spec fn after_answer(item: ItemData, correct: bool, now: u64) -> ItemData {
    if correct {
        after_correct(item, now)
    } else {
        after_wrong(item, now)
    }
}

/// A fresh item: box 0, never reviewed, no answers.
pub open spec fn fresh_item() -> ItemData {
    ItemData { box_level: 0, last_reviewed: 0, times_correct: 0, times_wrong: 0 }
}

impl Default for ItemData {
    fn default() -> (r: ItemData)
        ensures
            r == fresh_item(),
    {
        ItemData { box_level: 0, last_reviewed: 0, times_correct: 0, times_wrong: 0 }
    }
}

impl ItemData {
    /// The review interval of the item's box, in seconds.
    pub fn interval(&self) -> (r: u64)
        requires
            self.box_level < NUM_BOXES,
        ensures
            r == box_interval(self.box_level),
    {
        match self.box_level {
            0 => 20,
            1 => 60,
            2 => 300,
            3 => 1_800,
            4 => 7_200,
            5 => 21_600,
            6 => 86_400,
            7 => 259_200,
            _ => 604_800,
        }
    }

    /// Whether the item is due for review at `now`.
    pub fn is_due(&self, now: u64) -> (r: bool)
        requires
            self.box_level < NUM_BOXES,
        ensures
            r == due_at(*self, now),
    {
        now.saturating_sub(self.last_reviewed) >= self.interval()
    }

    /// Moves the item up one box (up to the last) and marks it reviewed at `now`.
    pub fn promote(&mut self, now: u64)
        requires
            old(self).box_level < u8::MAX,
            old(self).times_correct < u32::MAX,
        ensures
            final(self).box_level == (if old(self).box_level + 1 < NUM_BOXES - 1 {
                old(self).box_level + 1
            } else {
                NUM_BOXES - 1
            }),
            final(self).last_reviewed == now,
            final(self).times_correct == old(self).times_correct + 1,
            final(self).times_wrong == old(self).times_wrong,
    {
        self.box_level = (self.box_level + 1).min(NUM_BOXES - 1);
        self.last_reviewed = now;
        self.times_correct = self.times_correct + 1;
    }

    /// Moves the item back to box 0 and marks it reviewed at `now`.
    pub fn demote(&mut self, now: u64)
        requires
            old(self).times_wrong < u32::MAX,
        ensures
            *final(self) == after_wrong(*old(self), now),
    {
        self.box_level = 0;
        self.last_reviewed = now;
        self.times_wrong = self.times_wrong + 1;
    }
}

} // verus!
