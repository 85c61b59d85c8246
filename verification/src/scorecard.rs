//! The per-player scorecard: which categories have been recorded with what
//! values, and the derived section totals and upper-bonus state.

use vstd::prelude::*;
use crate::types::{cat_index, face_value, spec_is_upper, Category, Entry};

verus! {

pub const BONUS_REACH: u32 = 63;

pub const BONUS_VALUE: u32 = 35;

/// A scorecard: at most one recorded value per category, plus a cached
/// bonus flag that is recomputed on every insertion.
pub struct Scorecard {
    slots: Vec<Option<u8>>,
    bonus: bool,
}

impl Scorecard {
    /// The value recorded for `c`, if any.
    pub closed spec fn spec_get(self, c: Category) -> Option<u8> {
        self.slots@[cat_index(c)]
    }

    /// Whether `c` has been recorded.
    pub open spec fn recorded(self, c: Category) -> bool {
        self.spec_get(c) is Some
    }

    /// The recorded value of `c`, counting an empty slot as zero.
    pub open spec fn val_or_zero(self, c: Category) -> int {
        match self.spec_get(c) {
            Some(v) => v as int,
            None => 0,
        }
    }

    /// Sum of the recorded upper-section values.
    pub open spec fn spec_upper_total(self) -> int {
        self.val_or_zero(Category::Ones) + self.val_or_zero(Category::Twos) + self.val_or_zero(
            Category::Threes,
        ) + self.val_or_zero(Category::Fours) + self.val_or_zero(Category::Fives)
            + self.val_or_zero(Category::Sixes)
    }

    /// Sum of the recorded lower-section values.
    pub open spec fn spec_lower_total(self) -> int {
        self.val_or_zero(Category::ThreeOfAKind) + self.val_or_zero(Category::FourOfAKind)
            + self.val_or_zero(Category::FullHouse) + self.val_or_zero(Category::SmallStraight)
            + self.val_or_zero(Category::LargeStraight) + self.val_or_zero(Category::Yahtzee)
            + self.val_or_zero(Category::Chance)
    }

    /// Whether the upper bonus has been secured.
    pub open spec fn spec_bonus(self) -> bool {
        self.spec_upper_total() >= 63
    }

    /// The grand total: both sections plus the bonus once secured.
    pub open spec fn spec_total(self) -> int {
        self.spec_upper_total() + (if self.spec_bonus() {
            35int
        } else {
            0int
        }) + self.spec_lower_total()
    }

    /// One recorded upper entry's distance from its three-dice par.
    pub open spec fn spec_progress_of(self, c: Category) -> int {
        if self.recorded(c) && spec_is_upper(c) {
            self.val_or_zero(c) - 3 * face_value(c)
        } else {
            0
        }
    }

    /// Signed progress of the recorded upper entries toward the bonus par.
    pub open spec fn spec_bonus_progress(self) -> int {
        self.spec_progress_of(Category::Ones) + self.spec_progress_of(Category::Twos)
            + self.spec_progress_of(Category::Threes) + self.spec_progress_of(Category::Fours)
            + self.spec_progress_of(Category::Fives) + self.spec_progress_of(Category::Sixes)
    }

    /// Whether every one of the thirteen categories has been recorded.
    pub open spec fn all_recorded(self) -> bool {
        forall|c: Category| self.recorded(c)
    }

    /// A well-formed scorecard: one slot per category, cached bonus honest.
    pub closed spec fn wf(self) -> bool {
        self.slots@.len() == 13 && self.bonus == self.spec_bonus()
    }

    /// An empty scorecard with nothing recorded.
    pub fn new() -> (r: Scorecard)
        ensures
            r.wf(),
            forall|c: Category| !(#[trigger] r.recorded(c)),
    {
        let mut slots: Vec<Option<u8>> = Vec::new();
        let mut i: usize = 0;
        while i < 13
            invariant
                0 <= i <= 13,
                slots@.len() == i,
                forall|k: int| 0 <= k < i ==> slots@[k] is None,
            decreases 13 - i,
        {
            slots.push(None);
            i = i + 1;
        }
        let r = Scorecard { slots, bonus: false };
        proof {
            assert forall|c: Category| !(#[trigger] r.recorded(c)) by {
                assert(0 <= cat_index(c) < 13);
            }
        }
        r
    }

    /// Whether `category` has been recorded.
    pub fn has(&self, category: Category) -> (r: bool)
        requires
            self.wf(),
        ensures
            r == self.recorded(category),
    {
        self.get(category).is_some()
    }

    /// The recorded value of `category`, if any.
    pub fn get(&self, category: Category) -> (r: Option<u8>)
        requires
            self.wf(),
        ensures
            r == self.spec_get(category),
    {
        let i = cat_pos(category);
        self.slots[i]
    }

    /// Sum of the recorded upper-section values.
    pub fn value_upper(&self) -> (r: u32)
        requires
            self.wf(),
        ensures
            r == self.spec_upper_total(),
            r <= 6 * 255,
    {
        let mut value: u32 = 0;
        value = value + self.get_or_zero(Category::Ones) as u32;
        value = value + self.get_or_zero(Category::Twos) as u32;
        value = value + self.get_or_zero(Category::Threes) as u32;
        value = value + self.get_or_zero(Category::Fours) as u32;
        value = value + self.get_or_zero(Category::Fives) as u32;
        value = value + self.get_or_zero(Category::Sixes) as u32;
        value
    }

    /// Sum of the recorded lower-section values.
    pub fn value_lower(&self) -> (r: u32)
        requires
            self.wf(),
        ensures
            r == self.spec_lower_total(),
            r <= 7 * 255,
    {
        let mut value: u32 = 0;
        value = value + self.get_or_zero(Category::ThreeOfAKind) as u32;
        value = value + self.get_or_zero(Category::FourOfAKind) as u32;
        value = value + self.get_or_zero(Category::FullHouse) as u32;
        value = value + self.get_or_zero(Category::SmallStraight) as u32;
        value = value + self.get_or_zero(Category::LargeStraight) as u32;
        value = value + self.get_or_zero(Category::Yahtzee) as u32;
        value = value + self.get_or_zero(Category::Chance) as u32;
        value
    }

    /// The recorded value of `category`, counting an empty slot as zero.
    pub fn get_or_zero(&self, category: Category) -> (r: u8)
        requires
            self.wf(),
        ensures
            r == self.val_or_zero(category),
    {
        match self.get(category) {
            Some(v) => v,
            None => 0,
        }
    }

    /// Whether the upper bonus has been secured.
    pub fn has_bonus(&self) -> (r: bool)
        requires
            self.wf(),
        ensures
            r == self.spec_bonus(),
    {
        self.value_upper() >= BONUS_REACH
    }

    /// Signed progress of the recorded upper entries toward the bonus par.
    pub fn bonus_progress(&self) -> (r: i32)
        requires
            self.wf(),
        ensures
            r == self.spec_bonus_progress(),
    {
        let mut progress: i32 = 0;
        progress = progress + self.progress_of(Category::Ones);
        progress = progress + self.progress_of(Category::Twos);
        progress = progress + self.progress_of(Category::Threes);
        progress = progress + self.progress_of(Category::Fours);
        progress = progress + self.progress_of(Category::Fives);
        progress = progress + self.progress_of(Category::Sixes);
        progress
    }

    /// One recorded upper entry's distance from its three-dice par.
    fn progress_of(&self, category: Category) -> (r: i32)
        requires
            self.wf(),
        ensures
            r == self.spec_progress_of(category),
            -18 <= r <= 255,
    {
        match self.get(category) {
            Some(v) => crate::types::entry_upper_above_bonus(&(category, v)),
            None => 0,
        }
    }

    /// The grand total: both sections plus the bonus once secured.
    pub fn value(&self) -> (r: u32)
        requires
            self.wf(),
        ensures
            r == self.spec_total(),
    {
        let mut value = self.value_upper();
        if value >= BONUS_REACH {
            value = value + BONUS_VALUE;
        }
        value = value + self.value_lower();
        value
    }

    /// Record one entry, overwriting its slot, and refresh the cached bonus.
    pub fn add(&mut self, entry: Entry)
        requires
            old(self).wf(),
        ensures
            final (self).wf(),
            final (self).spec_get(entry.0) == Some(entry.1),
            forall|c: Category|
                c != entry.0 ==> #[trigger] final (self).spec_get(c) == old(self).spec_get(c),
    {
        let (cat, val) = entry;
        let i = cat_pos(cat);
        self.slots[i] = Some(val);
        proof {
            assert forall|c: Category| c != cat implies #[trigger] self.spec_get(c) == old(
                self,
            ).spec_get(c) by {
                lemma_cat_index_injective(c, cat);
            }
        }
        let up = self.value_upper_raw();
        self.bonus = up >= BONUS_REACH;
    }

    /// Sum of the recorded upper-section values, cached-flag aside.
    fn value_upper_raw(&self) -> (r: u32)
        requires
            self.slots@.len() == 13,
        ensures
            r == self.spec_upper_total(),
    {
        let mut value: u32 = 0;
        value = value + self.raw_or_zero(Category::Ones) as u32;
        value = value + self.raw_or_zero(Category::Twos) as u32;
        value = value + self.raw_or_zero(Category::Threes) as u32;
        value = value + self.raw_or_zero(Category::Fours) as u32;
        value = value + self.raw_or_zero(Category::Fives) as u32;
        value = value + self.raw_or_zero(Category::Sixes) as u32;
        value
    }

    /// The slot value of `category`, counting an empty slot as zero.
    fn raw_or_zero(&self, category: Category) -> (r: u8)
        requires
            self.slots@.len() == 13,
        ensures
            r == self.val_or_zero(category),
    {
        let i = cat_pos(category);
        match self.slots[i] {
            Some(v) => v,
            None => 0,
        }
    }
}

/// Distinct categories sit in distinct slots.
proof fn lemma_cat_index_injective(a: Category, b: Category)
    requires
        a != b,
    ensures
        cat_index(a) != cat_index(b),
{
}

/// The slot position of a category.
fn cat_pos(c: Category) -> (r: usize)
    ensures
        r == cat_index(c),
{
    match c {
        Category::Ones => 0,
        Category::Twos => 1,
        Category::Threes => 2,
        Category::Fours => 3,
        Category::Fives => 4,
        Category::Sixes => 5,
        Category::ThreeOfAKind => 6,
        Category::FourOfAKind => 7,
        Category::FullHouse => 8,
        Category::SmallStraight => 9,
        Category::LargeStraight => 10,
        Category::Yahtzee => 11,
        Category::Chance => 12,
    }
}

} // verus!
