//! The dice-hand model: hands as sorted vectors of faces, face counts,
//! face sums, and the sub-multiset relation between hands.

use vstd::prelude::*;

verus! {

/// A single die face; well-formed faces lie in `1..=6`.
pub type Die = u8;

/// A hand of dice. A well-formed hand is sorted ascending, so two hands
/// with the same multiset of faces are equal as values.
pub type Dice = Vec<Die>;

/// Number of dice in a finalized hand.
pub const DICE_NUM: u8 = 5;

/// How many entries of `s` equal `v`.
pub open spec fn count_eq(s: Seq<u8>, v: u8) -> nat
    decreases s.len(),
{
    if s.len() == 0 {
        0
    } else {
        count_eq(s.drop_last(), v) + (if s.last() == v {
            1nat
        } else {
            0nat
        })
    }
}

/// Sum of all entries of `s`.
pub open spec fn spec_sum(s: Seq<u8>) -> nat
    decreases s.len(),
{
    if s.len() == 0 {
        0
    } else {
        (spec_sum(s.drop_last()) + s.last()) as nat
    }
}

/// `s` is ascending.
pub open spec fn sorted(s: Seq<u8>) -> bool {
    forall|i: int, j: int| 0 <= i <= j < s.len() ==> s[i] <= s[j]
}

/// Every entry of `s` is a die face.
pub open spec fn valid_faces(s: Seq<u8>) -> bool {
    forall|i: int| 0 <= i < s.len() ==> 1 <= #[trigger] s[i] <= 6
}

/// A well-formed hand: at most five dice, faces `1..=6`, sorted ascending.
pub open spec fn valid_hand(s: Seq<u8>) -> bool {
    s.len() <= 5 && valid_faces(s) && sorted(s)
}

/// `w` draws no face more often than `s` holds it.
pub open spec fn sub_multiset(w: Seq<u8>, s: Seq<u8>) -> bool {
    forall|v: u8| count_eq(w, v) <= count_eq(s, v)
}

/// `a` and `b` hold the same faces with the same multiplicities.
pub open spec fn multiset_eq(a: Seq<u8>, b: Seq<u8>) -> bool {
    forall|v: u8| count_eq(a, v) == count_eq(b, v)
}

/// Stepping a prefix: `s.take(i + 1)` is `s.take(i)` plus `s[i]`.
pub proof fn lemma_take_step<T>(s: Seq<T>, i: int)
    requires
        0 <= i < s.len(),
    ensures
        s.take(i + 1).drop_last() =~= s.take(i),
        s.take(i + 1).last() == s[i],
{
}

/// Taking the whole sequence changes nothing.
pub proof fn lemma_take_all<T>(s: Seq<T>)
    ensures
        s.take(s.len() as int) =~= s,
{
}

/// Counting distributes over `push`.
pub proof fn lemma_count_push(s: Seq<u8>, x: u8, v: u8)
    ensures
        count_eq(s.push(x), v) == count_eq(s, v) + (if x == v {
            1nat
        } else {
            0nat
        }),
{
    assert(s.push(x).drop_last() =~= s);
}

/// A count never exceeds the length.
pub proof fn lemma_count_le_len(s: Seq<u8>, v: u8)
    ensures
        count_eq(s, v) <= s.len(),
    decreases s.len(),
{
    if s.len() > 0 {
        lemma_count_le_len(s.drop_last(), v);
    }
}

/// A positive count names an index holding `v`.
pub proof fn lemma_count_pos_to_index(s: Seq<u8>, v: u8)
    requires
        count_eq(s, v) > 0,
    ensures
        exists|i: int| 0 <= i < s.len() && s[i] == v,
    decreases s.len(),
{
    if s.last() == v {
        assert(s[s.len() - 1] == v);
    } else {
        lemma_count_pos_to_index(s.drop_last(), v);
        let i = choose|i: int| 0 <= i < s.drop_last().len() && s.drop_last()[i] == v;
        assert(s[i] == v);
    }
}

/// An entry of `s` is counted at least once.
pub proof fn lemma_index_to_count_pos(s: Seq<u8>, i: int)
    requires
        0 <= i < s.len(),
    ensures
        count_eq(s, s[i]) > 0,
    decreases s.len(),
{
    if i == s.len() - 1 {
    } else {
        lemma_index_to_count_pos(s.drop_last(), i);
    }
}

/// Counting distributes over concatenation.
pub proof fn lemma_count_add(a: Seq<u8>, b: Seq<u8>, v: u8)
    ensures
        count_eq(a + b, v) == count_eq(a, v) + count_eq(b, v),
    decreases b.len(),
{
    if b.len() == 0 {
        assert(a + b =~= a);
    } else {
        lemma_count_add(a, b.drop_last(), v);
        assert((a + b).drop_last() =~= a + b.drop_last());
        assert((a + b).last() == b.last());
    }
}

/// Summing distributes over concatenation.
pub proof fn lemma_sum_add(a: Seq<u8>, b: Seq<u8>)
    ensures
        spec_sum(a + b) == spec_sum(a) + spec_sum(b),
    decreases b.len(),
{
    if b.len() == 0 {
        assert(a + b =~= a);
    } else {
        lemma_sum_add(a, b.drop_last());
        assert((a + b).drop_last() =~= a + b.drop_last());
        assert((a + b).last() == b.last());
    }
}

/// Removing one entry lowers the sum by exactly that entry.
pub proof fn lemma_sum_remove(s: Seq<u8>, i: int)
    requires
        0 <= i < s.len(),
    ensures
        spec_sum(s) == spec_sum(s.remove(i)) + s[i],
{
    let left = s.take(i);
    let mid = seq![s[i]];
    let right = s.skip(i + 1);
    assert(s =~= left + mid + right);
    assert(s.remove(i) =~= left + right);
    lemma_sum_add(left + mid, right);
    lemma_sum_add(left, mid);
    lemma_sum_add(left, right);
    assert(spec_sum(mid) == s[i]) by {
        assert(mid.drop_last() =~= Seq::<u8>::empty());
        assert(spec_sum(Seq::<u8>::empty()) == 0);
        assert(mid.last() == s[i]);
    }
}

/// Hands with the same multiset of faces have the same face sum.
pub proof fn lemma_sum_multiset_eq(a: Seq<u8>, b: Seq<u8>)
    requires
        multiset_eq(a, b),
    ensures
        spec_sum(a) == spec_sum(b),
    decreases a.len(),
{
    if a.len() == 0 {
        if b.len() > 0 {
            lemma_index_to_count_pos(b, b.len() - 1);
        }
    } else {
        let v = a.last();
        lemma_index_to_count_pos(a, a.len() - 1);
        lemma_count_pos_to_index(b, v);
        let i = choose|i: int| 0 <= i < b.len() && b[i] == v;
        let b2 = b.remove(i);
        assert forall|w: u8| count_eq(a.drop_last(), w) == count_eq(b2, w) by {
            lemma_count_remove_entry(b, i, w);
            assert(count_eq(a, w) == count_eq(a.drop_last(), w) + (if v == w {
                1nat
            } else {
                0nat
            }));
        }
        lemma_sum_multiset_eq(a.drop_last(), b2);
        lemma_sum_remove(b, i);
    }
}

/// Removing one entry lowers exactly its own count by one.
pub proof fn lemma_count_remove_entry(s: Seq<u8>, i: int, w: u8)
    requires
        0 <= i < s.len(),
    ensures
        count_eq(s, w) == count_eq(s.remove(i), w) + (if s[i] == w {
            1nat
        } else {
            0nat
        }),
{
    let left = s.take(i);
    let mid = seq![s[i]];
    let right = s.skip(i + 1);
    assert(s =~= left + mid + right);
    assert(s.remove(i) =~= left + right);
    lemma_count_add(left + mid, right, w);
    lemma_count_add(left, mid, w);
    lemma_count_add(left, right, w);
    assert(count_eq(mid, w) == (if s[i] == w {
        1nat
    } else {
        0nat
    })) by {
        assert(mid.drop_last() =~= Seq::<u8>::empty());
        assert(count_eq(Seq::<u8>::empty(), w) == 0);
        assert(mid.last() == s[i]);
    }
}

/// A sub-multiset has no more dice than its superset.
pub proof fn lemma_sub_multiset_len(w: Seq<u8>, s: Seq<u8>)
    requires
        sub_multiset(w, s),
    ensures
        w.len() <= s.len(),
    decreases w.len(),
{
    if w.len() > 0 {
        let v = w.last();
        lemma_index_to_count_pos(w, w.len() - 1);
        lemma_count_pos_to_index(s, v);
        let i = choose|i: int| 0 <= i < s.len() && s[i] == v;
        let s2 = s.remove(i);
        assert forall|u: u8| count_eq(w.drop_last(), u) <= count_eq(s2, u) by {
            lemma_count_remove_entry(s, i, u);
            assert(count_eq(w, u) == count_eq(w.drop_last(), u) + (if v == u {
                1nat
            } else {
                0nat
            })) by {
                assert(w =~= w.drop_last().push(w.last()));
                lemma_count_push(w.drop_last(), w.last(), u);
            }
        }
        lemma_sub_multiset_len(w.drop_last(), s2);
    }
}

/// Faces of a sub-multiset are faces of its superset.
pub proof fn lemma_sub_multiset_faces(w: Seq<u8>, s: Seq<u8>)
    requires
        sub_multiset(w, s),
        valid_faces(s),
    ensures
        valid_faces(w),
{
    assert forall|i: int| 0 <= i < w.len() implies 1 <= #[trigger] w[i] <= 6 by {
        lemma_index_to_count_pos(w, i);
        assert(count_eq(s, w[i]) > 0);
        lemma_count_pos_to_index(s, w[i]);
    }
}

/// A sum is bounded by six points per die.
pub proof fn lemma_sum_bound(s: Seq<u8>)
    requires
        valid_faces(s),
    ensures
        spec_sum(s) <= 6 * s.len(),
    decreases s.len(),
{
    if s.len() > 0 {
        assert(valid_faces(s.drop_last())) by {
            assert(forall|i: int|
                0 <= i < s.drop_last().len() ==> s.drop_last()[i] == #[trigger] s[i]);
        }
        lemma_sum_bound(s.drop_last());
    }
}

/// Two sorted hands with equal counts are the same sequence.
pub proof fn lemma_sorted_multiset_eq(a: Seq<u8>, b: Seq<u8>)
    requires
        sorted(a),
        sorted(b),
        multiset_eq(a, b),
    ensures
        a =~= b,
    decreases a.len(),
{
    if a.len() == 0 {
        if b.len() > 0 {
            lemma_index_to_count_pos(b, b.len() - 1);
            assert(count_eq(a, b.last()) == 0);
        }
    } else {
        if b.len() == 0 {
            lemma_index_to_count_pos(a, a.len() - 1);
            assert(count_eq(b, a.last()) == 0);
        } else {
            lemma_index_to_count_pos(a, a.len() - 1);
            lemma_count_pos_to_index(b, a.last());
            let i = choose|i: int| 0 <= i < b.len() && b[i] == a.last();
            assert(b.last() >= a.last());
            lemma_index_to_count_pos(b, b.len() - 1);
            lemma_count_pos_to_index(a, b.last());
            let j = choose|j: int| 0 <= j < a.len() && a[j] == b.last();
            assert(a.last() >= b.last());
            assert(a.last() == b.last());
            assert forall|v: u8| count_eq(a.drop_last(), v) == count_eq(b.drop_last(), v) by {
                assert(count_eq(a, v) == count_eq(b, v));
            }
            lemma_sorted_multiset_eq(a.drop_last(), b.drop_last());
            assert(a =~= a.drop_last().push(a.last()));
            assert(b =~= b.drop_last().push(b.last()));
        }
    }
}

/// How often `number` occurs in `v`, as a machine count.
pub fn count_in(v: &Vec<u8>, number: u8) -> (r: usize)
    ensures
        r == count_eq(v@, number),
{
    let mut r: usize = 0;
    let mut i: usize = 0;
    while i < v.len()
        invariant
            0 <= i <= v@.len(),
            r == count_eq(v@.take(i as int), number),
        decreases v@.len() - i,
    {
        proof {
            lemma_take_step(v@, i as int);
            lemma_count_le_len(v@.take(i as int), number);
        }
        if v[i] == number {
            r = r + 1;
        }
        i = i + 1;
    }
    proof {
        lemma_take_all(v@);
    }
    r
}

/// How often the face `number` occurs in a hand.
pub fn number_count(dice: &Dice, number: u8) -> (r: u8)
    requires
        dice@.len() <= 5,
    ensures
        r == count_eq(dice@, number),
{
    proof {
        lemma_count_le_len(dice@, number);
    }
    count_in(dice, number) as u8
}

/// Sum of the faces of a hand.
pub fn dice_value(dice: &Dice) -> (r: u8)
    requires
        dice@.len() <= 5,
        valid_faces(dice@),
    ensures
        r == spec_sum(dice@),
{
    let mut r: u8 = 0;
    let mut i: usize = 0;
    while i < dice.len()
        invariant
            0 <= i <= dice@.len(),
            dice@.len() <= 5,
            valid_faces(dice@),
            r == spec_sum(dice@.take(i as int)),
            r <= 6 * i,
        decreases dice@.len() - i,
    {
        proof {
            lemma_take_step(dice@, i as int);
        }
        r = r + dice[i];
        i = i + 1;
    }
    proof {
        lemma_take_all(dice@);
    }
    r
}

/// The dice of `dice` whose face occurs in `other`, kept in order.
pub open spec fn spec_keep(s: Seq<u8>, other: Seq<u8>) -> Seq<u8>
    decreases s.len(),
{
    if s.len() == 0 {
        Seq::empty()
    } else {
        let rest = spec_keep(s.drop_last(), other);
        if count_eq(other, s.last()) > 0 {
            rest.push(s.last())
        } else {
            rest
        }
    }
}

/// The largest sub-multiset of `dice` made only of faces that occur in
/// `other`: used to validate a proposed keep against the current hand.
pub fn keep_subset(dice: &Dice, other: &Dice) -> (r: Dice)
    ensures
        r@ == spec_keep(dice@, other@),
{
    let mut r: Vec<u8> = Vec::new();
    let mut i: usize = 0;
    while i < dice.len()
        invariant
            0 <= i <= dice@.len(),
            r@ == spec_keep(dice@.take(i as int), other@),
        decreases dice@.len() - i,
    {
        proof {
            lemma_take_step(dice@, i as int);
        }
        let c = count_in(other, dice[i]);
        if c > 0 {
            r.push(dice[i]);
        }
        i = i + 1;
    }
    proof {
        lemma_take_all(dice@);
    }
    r
}

/// The basic queries a hand of dice answers.
pub trait MyDice {
    /// The hand's faces, abstractly.
    spec fn hand(&self) -> Seq<u8>;

    /// Sum of the faces.
    fn value(&self) -> (r: u8)
        requires
            self.hand().len() <= 5,
            valid_faces(self.hand()),
        ensures
            r == spec_sum(self.hand()),
    ;

    /// How often the face `number` occurs.
    fn number_count(&self, number: u8) -> (r: u8)
        requires
            self.hand().len() <= 5,
        ensures
            r == count_eq(self.hand(), number),
    ;

    /// The dice whose face occurs in `other`, kept in order.
    fn keep_subset(&self, other: &Self) -> (r: Self) where Self: Sized
        ensures
            r.hand() == spec_keep(self.hand(), other.hand()),
    ;
}

impl MyDice for Dice {
    open spec fn hand(&self) -> Seq<u8> {
        self@
    }

    fn value(&self) -> (r: u8) {
        dice_value(self)
    }

    fn number_count(&self, number: u8) -> (r: u8) {
        number_count(self, number)
    }

    fn keep_subset(&self, other: &Dice) -> (r: Dice) {
        keep_subset(self, other)
    }
}

/// Whether two vectors hold the same multiset of values.
pub fn is_permutation(a: &Vec<u8>, b: &Vec<u8>) -> (r: bool)
    ensures
        r == multiset_eq(a@, b@),
{
    let mut v: u16 = 0;
    while v < 256
        invariant
            0 <= v <= 256,
            forall|w: u8| w < v ==> count_eq(a@, w) == count_eq(b@, w),
        decreases 256 - v,
    {
        if count_in(a, v as u8) != count_in(b, v as u8) {
            assert(count_eq(a@, v as u8) != count_eq(b@, v as u8));
            return false;
        }
        v = v + 1;
    }
    assert forall|w: u8| count_eq(a@, w) == count_eq(b@, w) by {
        assert(w < 256);
    }
    true
}

/// Whether `subset` is a sub-multiset of `superset`.
pub fn is_subset(subset: &Vec<u8>, superset: &Vec<u8>) -> (r: bool)
    ensures
        r == sub_multiset(subset@, superset@),
{
    let mut v: u16 = 0;
    while v < 256
        invariant
            0 <= v <= 256,
            forall|w: u8| w < v ==> count_eq(subset@, w) <= count_eq(superset@, w),
        decreases 256 - v,
    {
        if count_in(subset, v as u8) > count_in(superset, v as u8) {
            assert(count_eq(subset@, v as u8) > count_eq(superset@, v as u8));
            return false;
        }
        v = v + 1;
    }
    assert forall|w: u8| count_eq(subset@, w) <= count_eq(superset@, w) by {
        assert(w < 256);
    }
    true
}

} // verus!
