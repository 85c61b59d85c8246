//! The thirteen scoring categories and the deterministic scoring rules that
//! map a category and a hand to a value.

use vstd::prelude::*;
use crate::dice::{count_eq, lemma_count_le_len, spec_sum, valid_faces, Dice};

verus! {

/// One of the thirteen ways a hand can be scored. The first six form the
/// upper section, the remaining seven the lower section.
#[derive(PartialEq, Eq, Structural, Clone, Copy, Debug, Hash)]
pub enum Category {
    Ones,
    Twos,
    Threes,
    Fours,
    Fives,
    Sixes,
    ThreeOfAKind,
    FourOfAKind,
    FullHouse,
    SmallStraight,
    LargeStraight,
    Yahtzee,
    Chance,
}

/// The two ways the engine's turn protocol can be violated.
#[derive(PartialEq, Eq, Structural, Clone, Copy, Debug)]
pub enum YahtzeeError {
    /// A hand was handed in with more than five dice.
    InvalidHandLength,
    /// A category was requested from a fully recorded scorecard.
    NoCategoryAvailable,
}

/// A recorded score.
pub type Value = u8;

/// The result of scoring one hand against one category.
pub type Entry = (Category, Value);

pub const FULL_HOUSE_VALUE: u8 = 25;

pub const SMALL_STRAIGHT_VALUE: u8 = 30;

pub const LARGE_STRAIGHT_VALUE: u8 = 40;

pub const YAHTZEE_VALUE: u8 = 50;

/// Position of a category in the fixed evaluation order, upper set first.
pub open spec fn cat_index(c: Category) -> int {
    match c {
        Category::Ones => 0,
        Category::Twos => 1,
        Category::Threes => 2,
        Category::Fours => 3,
        Category::Fives => 4,
        Category::Sixes => 5,
        Category::ThreeOfAKind => 6,
        Category::FourOfAKind => 7,
        Category::FullHouse => 8,
        Category::SmallStraight => 9,
        Category::LargeStraight => 10,
        Category::Yahtzee => 11,
        Category::Chance => 12,
    }
}

/// The face an upper category scores, and zero for the lower set.
pub open spec fn face_value(c: Category) -> int {
    match c {
        Category::Ones => 1,
        Category::Twos => 2,
        Category::Threes => 3,
        Category::Fours => 4,
        Category::Fives => 5,
        Category::Sixes => 6,
        _ => 0,
    }
}

/// Whether `c` belongs to the upper set.
pub open spec fn spec_is_upper(c: Category) -> bool {
    cat_index(c) < 6
}

/// The upper categories in order.
pub open spec fn upper_seq() -> Seq<Category> {
    seq![
        Category::Ones,
        Category::Twos,
        Category::Threes,
        Category::Fours,
        Category::Fives,
        Category::Sixes,
    ]
}

/// The lower categories in order.
pub open spec fn lower_seq() -> Seq<Category> {
    seq![
        Category::ThreeOfAKind,
        Category::FourOfAKind,
        Category::FullHouse,
        Category::SmallStraight,
        Category::LargeStraight,
        Category::Yahtzee,
        Category::Chance,
    ]
}

/// All thirteen categories in the fixed evaluation order.
pub open spec fn cat_seq() -> Seq<Category> {
    upper_seq() + lower_seq()
}

/// Each position of `cat_seq` holds the category with that index.
pub proof fn lemma_cat_seq_index()
    ensures
        cat_seq().len() == 13,
        forall|i: int| 0 <= i < 13 ==> cat_index(#[trigger] cat_seq()[i]) == i,
{
    assert forall|i: int| 0 <= i < 13 implies cat_index(#[trigger] cat_seq()[i]) == i by {
        if i == 0 {
            assert(cat_seq()[0] == Category::Ones);
        } else if i == 1 {
            assert(cat_seq()[1] == Category::Twos);
        } else if i == 2 {
            assert(cat_seq()[2] == Category::Threes);
        } else if i == 3 {
            assert(cat_seq()[3] == Category::Fours);
        } else if i == 4 {
            assert(cat_seq()[4] == Category::Fives);
        } else if i == 5 {
            assert(cat_seq()[5] == Category::Sixes);
        } else if i == 6 {
            assert(cat_seq()[6] == Category::ThreeOfAKind);
        } else if i == 7 {
            assert(cat_seq()[7] == Category::FourOfAKind);
        } else if i == 8 {
            assert(cat_seq()[8] == Category::FullHouse);
        } else if i == 9 {
            assert(cat_seq()[9] == Category::SmallStraight);
        } else if i == 10 {
            assert(cat_seq()[10] == Category::LargeStraight);
        } else if i == 11 {
            assert(cat_seq()[11] == Category::Yahtzee);
        } else {
            assert(cat_seq()[12] == Category::Chance);
        }
    }
}

impl Category {
    /// Whether this category belongs to the lower set.
    pub fn is_lower(&self) -> (r: bool)
        ensures
            r == !spec_is_upper(*self),
    {
        match self {
            Category::Ones => false,
            Category::Twos => false,
            Category::Threes => false,
            Category::Fours => false,
            Category::Fives => false,
            Category::Sixes => false,
            _ => true,
        }
    }

    /// Whether this category belongs to the upper set.
    pub fn is_upper(&self) -> (r: bool)
        ensures
            r == spec_is_upper(*self),
    {
        match self {
            Category::Ones => true,
            Category::Twos => true,
            Category::Threes => true,
            Category::Fours => true,
            Category::Fives => true,
            Category::Sixes => true,
            _ => false,
        }
    }

    /// The upper categories in order.
    pub fn upper_into_iter() -> (r: Vec<Category>)
        ensures
            r@ == upper_seq(),
    {
        let mut r: Vec<Category> = Vec::new();
        r.push(Category::Ones);
        r.push(Category::Twos);
        r.push(Category::Threes);
        r.push(Category::Fours);
        r.push(Category::Fives);
        r.push(Category::Sixes);
        proof {
            assert(r@ =~= upper_seq());
        }
        r
    }

    /// The lower categories in order.
    pub fn lower_into_iter() -> (r: Vec<Category>)
        ensures
            r@ == lower_seq(),
    {
        let mut r: Vec<Category> = Vec::new();
        r.push(Category::ThreeOfAKind);
        r.push(Category::FourOfAKind);
        r.push(Category::FullHouse);
        r.push(Category::SmallStraight);
        r.push(Category::LargeStraight);
        r.push(Category::Yahtzee);
        r.push(Category::Chance);
        proof {
            assert(r@ =~= lower_seq());
        }
        r
    }

    /// All thirteen categories, upper set first.
    pub fn into_iter() -> (r: Vec<Category>)
        ensures
            r@ == cat_seq(),
    {
        let mut r = Category::upper_into_iter();
        let mut low = Category::lower_into_iter();
        r.append(&mut low);
        proof {
            assert(r@ =~= cat_seq());
        }
        r
    }
}

/// What it takes for a hand to qualify for a category.
pub open spec fn spec_qualifies(category: Category, s: Seq<u8>) -> bool {
    match category {
        Category::Ones => count_eq(s, 1) > 0,
        Category::Twos => count_eq(s, 2) > 0,
        Category::Threes => count_eq(s, 3) > 0,
        Category::Fours => count_eq(s, 4) > 0,
        Category::Fives => count_eq(s, 5) > 0,
        Category::Sixes => count_eq(s, 6) > 0,
        Category::ThreeOfAKind => exists|v: u8| 1 <= v <= 6 && count_eq(s, v) >= 3,
        Category::FourOfAKind => exists|v: u8| 1 <= v <= 6 && count_eq(s, v) >= 4,
        Category::FullHouse => exists|x: u8, y: u8|
            1 <= x <= 6 && 1 <= y <= 6 && x != y && count_eq(s, x) >= 3 && count_eq(s, y) >= 2,
        Category::SmallStraight => (count_eq(s, 1) >= 1 && count_eq(s, 2) >= 1 && count_eq(s, 3)
            >= 1 && count_eq(s, 4) >= 1) || (count_eq(s, 2) >= 1 && count_eq(s, 3) >= 1 && count_eq(
            s,
            4,
        ) >= 1 && count_eq(s, 5) >= 1) || (count_eq(s, 3) >= 1 && count_eq(s, 4) >= 1 && count_eq(
            s,
            5,
        ) >= 1 && count_eq(s, 6) >= 1),
        Category::LargeStraight => (count_eq(s, 1) == 1 && count_eq(s, 2) == 1 && count_eq(s, 3)
            == 1 && count_eq(s, 4) == 1 && count_eq(s, 5) == 1) || (count_eq(s, 2) == 1 && count_eq(
            s,
            3,
        ) == 1 && count_eq(s, 4) == 1 && count_eq(s, 5) == 1 && count_eq(s, 6) == 1),
        Category::Yahtzee => exists|v: u8| 1 <= v <= 6 && count_eq(s, v) == 5,
        Category::Chance => true,
    }
}

/// The value a hand scores in a category.
pub open spec fn spec_score(category: Category, s: Seq<u8>) -> nat {
    match category {
        Category::Ones => count_eq(s, 1) * 1,
        Category::Twos => count_eq(s, 2) * 2,
        Category::Threes => count_eq(s, 3) * 3,
        Category::Fours => count_eq(s, 4) * 4,
        Category::Fives => count_eq(s, 5) * 5,
        Category::Sixes => count_eq(s, 6) * 6,
        Category::ThreeOfAKind => if spec_qualifies(category, s) {
            spec_sum(s)
        } else {
            0
        },
        Category::FourOfAKind => if spec_qualifies(category, s) {
            spec_sum(s)
        } else {
            0
        },
        Category::FullHouse => if spec_qualifies(category, s) {
            25
        } else {
            0
        },
        Category::SmallStraight => if spec_qualifies(category, s) {
            30
        } else {
            0
        },
        Category::LargeStraight => if spec_qualifies(category, s) {
            40
        } else {
            0
        },
        Category::Yahtzee => if spec_qualifies(category, s) {
            50
        } else {
            0
        },
        Category::Chance => spec_sum(s),
    }
}

/// Whether some face occurs at least `bound` times in the hand.
fn has_count_at_least(dice: &Dice, bound: u8) -> (r: bool)
    requires
        dice@.len() <= 5,
    ensures
        r == exists|v: u8| 1 <= v <= 6 && count_eq(dice@, v) >= bound,
{
    let mut x: u8 = 1;
    while x <= 6
        invariant
            1 <= x <= 7,
            dice@.len() <= 5,
            forall|v: u8| 1 <= v < x ==> count_eq(dice@, v) < bound,
        decreases 7 - x,
    {
        if crate::dice::number_count(dice, x) >= bound {
            assert(count_eq(dice@, x) >= bound);
            return true;
        }
        x = x + 1;
    }
    false
}

/// Whether some face occurs at least three times.
pub fn is_three_of_a_kind(dice: &Dice) -> (r: bool)
    requires
        dice@.len() <= 5,
    ensures
        r == spec_qualifies(Category::ThreeOfAKind, dice@),
{
    has_count_at_least(dice, 3)
}

/// Whether some face occurs at least four times.
pub fn is_four_of_a_kind(dice: &Dice) -> (r: bool)
    requires
        dice@.len() <= 5,
    ensures
        r == spec_qualifies(Category::FourOfAKind, dice@),
{
    has_count_at_least(dice, 4)
}

/// Whether one face occurs at least three times and a different face at
/// least twice.
pub fn is_full_house(dice: &Dice) -> (r: bool)
    requires
        dice@.len() <= 5,
    ensures
        r == spec_qualifies(Category::FullHouse, dice@),
{
    let mut x: u8 = 1;
    while x <= 5
        invariant
            1 <= x <= 6,
            dice@.len() <= 5,
            forall|a: u8, b: u8|
                1 <= a < b <= 6 && a < x ==> !(count_eq(dice@, a) >= 3 && count_eq(dice@, b) >= 2)
                    && !(count_eq(dice@, b) >= 3 && count_eq(dice@, a) >= 2),
        decreases 6 - x,
    {
        let mut y: u8 = x + 1;
        while y <= 6
            invariant
                1 <= x <= 5,
                x + 1 <= y <= 7,
                dice@.len() <= 5,
                forall|a: u8, b: u8|
                    1 <= a < b <= 6 && a < x ==> !(count_eq(dice@, a) >= 3 && count_eq(dice@, b)
                        >= 2) && !(count_eq(dice@, b) >= 3 && count_eq(dice@, a) >= 2),
                forall|b: u8|
                    x < b < y ==> !(count_eq(dice@, x) >= 3 && count_eq(dice@, b) >= 2) && !(
                    count_eq(dice@, b) >= 3 && count_eq(dice@, x) >= 2),
            decreases 7 - y,
        {
            let x_count = crate::dice::number_count(dice, x);
            let y_count = crate::dice::number_count(dice, y);
            if (x_count >= 3 && y_count >= 2) || (y_count >= 3 && x_count >= 2) {
                proof {
                    if x_count >= 3 && y_count >= 2 {
                        assert(1 <= x <= 6 && 1 <= y <= 6 && x != y && count_eq(dice@, x) >= 3
                            && count_eq(dice@, y) >= 2);
                    } else {
                        assert(1 <= y <= 6 && 1 <= x <= 6 && y != x && count_eq(dice@, y) >= 3
                            && count_eq(dice@, x) >= 2);
                    }
                }
                return true;
            }
            y = y + 1;
        }
        x = x + 1;
    }
    proof {
        if spec_qualifies(Category::FullHouse, dice@) {
            let (a, b) = choose|a: u8, b: u8|
                1 <= a <= 6 && 1 <= b <= 6 && a != b && count_eq(dice@, a) >= 3 && count_eq(
                    dice@,
                    b,
                ) >= 2;
            if a < b {
                assert(!(count_eq(dice@, a) >= 3 && count_eq(dice@, b) >= 2));
            } else {
                assert(!(count_eq(dice@, a) >= 3 && count_eq(dice@, b) >= 2));
            }
            assert(false);
        }
    }
    false
}

/// Whether the hand holds one of the three four-face runs.
pub fn is_small_straight(dice: &Dice) -> (r: bool)
    requires
        dice@.len() <= 5,
    ensures
        r == spec_qualifies(Category::SmallStraight, dice@),
{
    let c1 = crate::dice::number_count(dice, 1);
    let c2 = crate::dice::number_count(dice, 2);
    let c3 = crate::dice::number_count(dice, 3);
    let c4 = crate::dice::number_count(dice, 4);
    let c5 = crate::dice::number_count(dice, 5);
    let c6 = crate::dice::number_count(dice, 6);
    (c1 >= 1 && c2 >= 1 && c3 >= 1 && c4 >= 1) || (c2 >= 1 && c3 >= 1 && c4 >= 1 && c5 >= 1) || (c3
        >= 1 && c4 >= 1 && c5 >= 1 && c6 >= 1)
}

/// Whether the hand holds exactly one of each face of a five-face run.
pub fn is_large_straight(dice: &Dice) -> (r: bool)
    requires
        dice@.len() <= 5,
    ensures
        r == spec_qualifies(Category::LargeStraight, dice@),
{
    let c1 = crate::dice::number_count(dice, 1);
    let c2 = crate::dice::number_count(dice, 2);
    let c3 = crate::dice::number_count(dice, 3);
    let c4 = crate::dice::number_count(dice, 4);
    let c5 = crate::dice::number_count(dice, 5);
    let c6 = crate::dice::number_count(dice, 6);
    (c1 == 1 && c2 == 1 && c3 == 1 && c4 == 1 && c5 == 1) || (c2 == 1 && c3 == 1 && c4 == 1 && c5
        == 1 && c6 == 1)
}

/// Whether all five dice show one face.
pub fn is_yahtzee(dice: &Dice) -> (r: bool)
    requires
        dice@.len() <= 5,
    ensures
        r == spec_qualifies(Category::Yahtzee, dice@),
{
    let r = has_count_at_least(dice, 5);
    proof {
        if r {
            let v = choose|v: u8| 1 <= v <= 6 && count_eq(dice@, v) >= 5;
            lemma_count_le_len(dice@, v);
            assert(1 <= v <= 6 && count_eq(dice@, v) == 5);
        }
        if spec_qualifies(Category::Yahtzee, dice@) {
            let v = choose|v: u8| 1 <= v <= 6 && count_eq(dice@, v) == 5;
            assert(1 <= v <= 6 && count_eq(dice@, v) >= 5);
        }
    }
    r
}

/// Whether the hand qualifies for the category at all.
pub fn qualifies(category: Category, dice: &Dice) -> (r: bool)
    requires
        dice@.len() <= 5,
    ensures
        r == spec_qualifies(category, dice@),
{
    match category {
        Category::Ones => crate::dice::number_count(dice, 1) > 0,
        Category::Twos => crate::dice::number_count(dice, 2) > 0,
        Category::Threes => crate::dice::number_count(dice, 3) > 0,
        Category::Fours => crate::dice::number_count(dice, 4) > 0,
        Category::Fives => crate::dice::number_count(dice, 5) > 0,
        Category::Sixes => crate::dice::number_count(dice, 6) > 0,
        Category::ThreeOfAKind => is_three_of_a_kind(dice),
        Category::FourOfAKind => is_four_of_a_kind(dice),
        Category::FullHouse => is_full_house(dice),
        Category::SmallStraight => is_small_straight(dice),
        Category::LargeStraight => is_large_straight(dice),
        Category::Yahtzee => is_yahtzee(dice),
        Category::Chance => true,
    }
}

/// The value the hand scores in the category.
pub fn score(category: Category, dice: &Dice) -> (r: u8)
    requires
        dice@.len() <= 5,
        valid_faces(dice@),
    ensures
        r == spec_score(category, dice@),
{
    proof {
        lemma_count_le_len(dice@, 1);
        lemma_count_le_len(dice@, 2);
        lemma_count_le_len(dice@, 3);
        lemma_count_le_len(dice@, 4);
        lemma_count_le_len(dice@, 5);
        lemma_count_le_len(dice@, 6);
        crate::dice::lemma_sum_bound(dice@);
    }
    match category {
        Category::Ones => crate::dice::number_count(dice, 1),
        Category::Twos => crate::dice::number_count(dice, 2) * 2,
        Category::Threes => crate::dice::number_count(dice, 3) * 3,
        Category::Fours => crate::dice::number_count(dice, 4) * 4,
        Category::Fives => crate::dice::number_count(dice, 5) * 5,
        Category::Sixes => crate::dice::number_count(dice, 6) * 6,
        Category::ThreeOfAKind => if is_three_of_a_kind(dice) {
            crate::dice::dice_value(dice)
        } else {
            0
        },
        Category::FourOfAKind => if is_four_of_a_kind(dice) {
            crate::dice::dice_value(dice)
        } else {
            0
        },
        Category::FullHouse => if is_full_house(dice) {
            FULL_HOUSE_VALUE
        } else {
            0
        },
        Category::SmallStraight => if is_small_straight(dice) {
            SMALL_STRAIGHT_VALUE
        } else {
            0
        },
        Category::LargeStraight => if is_large_straight(dice) {
            LARGE_STRAIGHT_VALUE
        } else {
            0
        },
        Category::Yahtzee => if is_yahtzee(dice) {
            YAHTZEE_VALUE
        } else {
            0
        },
        Category::Chance => crate::dice::dice_value(dice),
    }
}

/// The hand scored against one category, as an entry.
pub fn entry_of_category(dice: &Dice, category: Category) -> (r: Entry)
    requires
        dice@.len() <= 5,
        valid_faces(dice@),
    ensures
        r.0 == category,
        r.1 == spec_score(category, dice@),
{
    let value = score(category, dice);
    (category, value)
}

/// Every category scored against the hand, in the fixed category order.
pub fn possible_entries(dice: &Dice) -> (r: Vec<Entry>)
    requires
        dice@.len() <= 5,
        valid_faces(dice@),
    ensures
        r@.len() == 13,
        forall|i: int|
            0 <= i < 13 ==> (#[trigger] r@[i]).0 == cat_seq()[i] && r@[i].1 == spec_score(
                cat_seq()[i],
                dice@,
            ),
{
    let cats = Category::into_iter();
    let mut r: Vec<Entry> = Vec::new();
    let mut i: usize = 0;
    while i < cats.len()
        invariant
            0 <= i <= cats@.len(),
            cats@ == cat_seq(),
            dice@.len() <= 5,
            valid_faces(dice@),
            r@.len() == i,
            forall|k: int|
                0 <= k < i ==> (#[trigger] r@[k]).0 == cat_seq()[k] && r@[k].1 == spec_score(
                    cat_seq()[k],
                    dice@,
                ),
        decreases cats@.len() - i,
    {
        let e = entry_of_category(dice, cats[i]);
        r.push(e);
        i = i + 1;
    }
    r
}

/// The queries a scored entry answers.
pub trait MyEntry {
    /// The entry, abstractly.
    spec fn entry(&self) -> (Category, u8);

    /// Whether the entry belongs to the upper section.
    fn is_upper(&self) -> (r: bool)
        ensures
            r == spec_is_upper(self.entry().0),
    ;

    /// The entry's contribution toward the upper-bonus threshold.
    fn upper_above_bonus(&self) -> (r: i32)
        ensures
            r == spec_above_bonus(self.entry().0, self.entry().1),
    ;
}

impl MyEntry for Entry {
    open spec fn entry(&self) -> (Category, u8) {
        *self
    }

    fn is_upper(&self) -> (r: bool) {
        self.0.is_upper()
    }

    fn upper_above_bonus(&self) -> (r: i32) {
        entry_upper_above_bonus(self)
    }
}

/// Scoring a hand against the categories.
pub trait DiceCategory {
    /// The hand's faces, abstractly.
    spec fn hand(&self) -> Seq<u8>;

    /// Whether the hand qualifies for the category.
    fn is_category(&self, category: &Category) -> (r: bool)
        requires
            self.hand().len() <= 5,
        ensures
            r == spec_qualifies(*category, self.hand()),
    ;

    /// The value the hand scores in the category.
    fn value_of_category(&self, category: &Category) -> (r: Value)
        requires
            self.hand().len() <= 5,
            valid_faces(self.hand()),
        ensures
            r == spec_score(*category, self.hand()),
    ;

    /// The hand scored against one category, as an entry.
    fn entry_of_category(&self, category: Category) -> (r: Entry)
        requires
            self.hand().len() <= 5,
            valid_faces(self.hand()),
        ensures
            r.0 == category,
            r.1 == spec_score(category, self.hand()),
    ;

    /// Every category scored against the hand, in the fixed category order.
    fn possible_entries(&self) -> (r: Vec<Entry>)
        requires
            self.hand().len() <= 5,
            valid_faces(self.hand()),
        ensures
            r@.len() == 13,
            forall|i: int|
                0 <= i < 13 ==> (#[trigger] r@[i]).0 == cat_seq()[i] && r@[i].1 == spec_score(
                    cat_seq()[i],
                    self.hand(),
                ),
    ;
}

impl DiceCategory for Dice {
    open spec fn hand(&self) -> Seq<u8> {
        self@
    }

    fn is_category(&self, category: &Category) -> (r: bool) {
        qualifies(*category, self)
    }

    fn value_of_category(&self, category: &Category) -> (r: Value) {
        score(*category, self)
    }

    fn entry_of_category(&self, category: Category) -> (r: Entry) {
        entry_of_category(self, category)
    }

    fn possible_entries(&self) -> (r: Vec<Entry>) {
        possible_entries(self)
    }
}

/// How far above or below par — three dice of its face — an upper entry
/// sits toward the 63-point bonus threshold; zero for lower entries.
pub open spec fn spec_above_bonus(c: Category, v: u8) -> int {
    if spec_is_upper(c) {
        v - 3 * face_value(c)
    } else {
        0
    }
}

/// The entry's contribution toward the upper-bonus threshold.
pub fn entry_upper_above_bonus(entry: &Entry) -> (r: i32)
    ensures
        r == spec_above_bonus(entry.0, entry.1),
{
    match entry.0 {
        Category::Ones => entry.1 as i32 - 3,
        Category::Twos => entry.1 as i32 - 6,
        Category::Threes => entry.1 as i32 - 9,
        Category::Fours => entry.1 as i32 - 12,
        Category::Fives => entry.1 as i32 - 15,
        Category::Sixes => entry.1 as i32 - 18,
        _ => 0,
    }
}

} // verus!
