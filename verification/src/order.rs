//! A total order on hands — shorter first, then lexicographic — used to
//! keep enumerated candidate lists in one canonical, duplicate-free order.

use vstd::prelude::*;
use crate::dice::{count_eq, lemma_count_push, multiset_eq, sorted, Dice};

verus! {

/// Lexicographic order on face sequences.
pub open spec fn lex_lt(a: Seq<u8>, b: Seq<u8>) -> bool
    decreases a.len(),
{
    if b.len() == 0 {
        false
    } else if a.len() == 0 {
        true
    } else if a[0] < b[0] {
        true
    } else if a[0] > b[0] {
        false
    } else {
        lex_lt(a.drop_first(), b.drop_first())
    }
}

/// The canonical order on hands: by length first, then lexicographic.
pub open spec fn hand_lt(a: Seq<u8>, b: Seq<u8>) -> bool {
    a.len() < b.len() || (a.len() == b.len() && lex_lt(a, b))
}

/// For equally long sequences exactly one of `lex_lt(a, b)`, `lex_lt(b, a)`,
/// `a == b` holds.
pub proof fn lemma_lex_trichotomy(a: Seq<u8>, b: Seq<u8>)
    requires
        a.len() == b.len(),
    ensures
        lex_lt(a, b) || lex_lt(b, a) || a =~= b,
        lex_lt(a, b) ==> !lex_lt(b, a),
        lex_lt(a, b) ==> !(a =~= b),
    decreases a.len(),
{
    if a.len() == 0 {
    } else {
        lemma_lex_trichotomy(a.drop_first(), b.drop_first());
        if a.drop_first() =~= b.drop_first() && a[0] == b[0] {
            assert forall|k: int| 0 <= k < a.len() implies a[k] == b[k] by {
                if k > 0 {
                    assert(a.drop_first()[k - 1] == b.drop_first()[k - 1]);
                }
            }
            assert(a =~= b);
        }
        if a =~= b {
            assert(a.drop_first() =~= b.drop_first());
        }
    }
}

/// Lexicographic order is transitive.
pub proof fn lemma_lex_trans(a: Seq<u8>, b: Seq<u8>, c: Seq<u8>)
    requires
        lex_lt(a, b),
        lex_lt(b, c),
    ensures
        lex_lt(a, c),
    decreases a.len(),
{
    if b.len() == 0 || c.len() == 0 {
    } else if a.len() == 0 {
    } else {
        if a[0] == b[0] && b[0] == c[0] {
            lemma_lex_trans(a.drop_first(), b.drop_first(), c.drop_first());
        }
    }
}

/// The hand order is transitive.
pub proof fn lemma_hand_lt_trans(a: Seq<u8>, b: Seq<u8>, c: Seq<u8>)
    requires
        hand_lt(a, b),
        hand_lt(b, c),
    ensures
        hand_lt(a, c),
{
    if a.len() == b.len() && b.len() == c.len() {
        lemma_lex_trans(a, b, c);
    }
}

/// For hands exactly one of `hand_lt(a, b)`, `hand_lt(b, a)`, `a == b` holds.
pub proof fn lemma_hand_trichotomy(a: Seq<u8>, b: Seq<u8>)
    ensures
        hand_lt(a, b) || hand_lt(b, a) || a =~= b,
        hand_lt(a, b) ==> !hand_lt(b, a),
        hand_lt(a, b) ==> !(a =~= b),
{
    if a.len() == b.len() {
        lemma_lex_trichotomy(a, b);
    }
}

/// Appending one value to equally long sequences keeps their lexicographic order.
pub proof fn lemma_lex_push(a: Seq<u8>, b: Seq<u8>, x: u8)
    requires
        a.len() == b.len(),
        lex_lt(a, b),
    ensures
        lex_lt(a.push(x), b.push(x)),
    decreases a.len(),
{
    if a.len() == 0 {
    } else {
        assert(a.push(x)[0] == a[0]);
        assert(b.push(x)[0] == b[0]);
        assert(a.push(x).drop_first() =~= a.drop_first().push(x));
        assert(b.push(x).drop_first() =~= b.drop_first().push(x));
        if a[0] == b[0] {
            lemma_lex_push(a.drop_first(), b.drop_first(), x);
        }
    }
}

/// Appending one value to two hands keeps their order.
pub proof fn lemma_hand_lt_push(a: Seq<u8>, b: Seq<u8>, x: u8)
    requires
        hand_lt(a, b),
    ensures
        hand_lt(a.push(x), b.push(x)),
{
    if a.len() == b.len() {
        lemma_lex_push(a, b, x);
    }
}

/// Whether two vectors hold the same values in the same order.
pub fn vec_eq(a: &Vec<u8>, b: &Vec<u8>) -> (r: bool)
    ensures
        r <==> a@ =~= b@,
{
    if a.len() != b.len() {
        return false;
    }
    let mut i: usize = 0;
    while i < a.len()
        invariant
            a@.len() == b@.len(),
            0 <= i <= a@.len(),
            forall|j: int| 0 <= j < i ==> a@[j] == b@[j],
        decreases a@.len() - i,
    {
        if a[i] != b[i] {
            return false;
        }
        i = i + 1;
    }
    true
}

/// An index where `a` first falls below `b` witnesses the lexicographic order.
proof fn lemma_lex_from_index(a: Seq<u8>, b: Seq<u8>, i: int)
    requires
        a.len() == b.len(),
        0 <= i < a.len(),
        forall|j: int| 0 <= j < i ==> a[j] == b[j],
        a[i] < b[i],
    ensures
        lex_lt(a, b),
    decreases i,
{
    if i == 0 {
    } else {
        assert forall|j: int| 0 <= j < i - 1 implies a.drop_first()[j] == b.drop_first()[j] by {
            assert(a[j + 1] == b[j + 1]);
        }
        assert(a.drop_first()[i - 1] < b.drop_first()[i - 1]);
        lemma_lex_from_index(a.drop_first(), b.drop_first(), i - 1);
    }
}

/// Whether `a` comes before `b` in the canonical hand order.
pub fn hand_before(a: &Vec<u8>, b: &Vec<u8>) -> (r: bool)
    ensures
        r == hand_lt(a@, b@),
{
    if a.len() < b.len() {
        return true;
    }
    if a.len() > b.len() {
        return false;
    }
    let mut i: usize = 0;
    while i < a.len()
        invariant
            a@.len() == b@.len(),
            0 <= i <= a@.len(),
            forall|j: int| 0 <= j < i ==> a@[j] == b@[j],
        decreases a@.len() - i,
    {
        if a[i] < b[i] {
            proof {
                lemma_lex_from_index(a@, b@, i as int);
            }
            return true;
        }
        if a[i] > b[i] {
            proof {
                lemma_lex_from_index(b@, a@, i as int);
                lemma_lex_trichotomy(a@, b@);
            }
            return false;
        }
        i = i + 1;
    }
    proof {
        assert(a@ =~= b@);
        lemma_lex_trichotomy(a@, b@);
    }
    false
}

/// A sorted copy of `v` holding the same multiset of values.
pub fn sorted_copy(v: &Vec<u8>) -> (r: Vec<u8>)
    ensures
        sorted(r@),
        multiset_eq(r@, v@),
        r@.len() == v@.len(),
{
    let mut r: Vec<u8> = Vec::new();
    let mut face: u16 = 0;
    while face < 256
        invariant
            0 <= face <= 256,
            sorted(r@),
            forall|k: int| 0 <= k < r@.len() ==> r@[k] < face,
            forall|w: u8| w < face ==> count_eq(r@, w) == count_eq(v@, w),
            forall|w: u8| w >= face ==> count_eq(r@, w) == 0,
        decreases 256 - face,
    {
        let x: u8 = face as u8;
        let total = crate::dice::count_in(v, x);
        let mut j: usize = 0;
        while j < total
            invariant
                0 <= j <= total,
                total == count_eq(v@, x),
                x == face as u8,
                face < 256,
                sorted(r@),
                forall|k: int| 0 <= k < r@.len() ==> r@[k] <= x,
                forall|w: u8| w < face ==> count_eq(r@, w) == count_eq(v@, w),
                count_eq(r@, x) == j,
                forall|w: u8| w > x ==> count_eq(r@, w) == 0,
            decreases total - j,
        {
            proof {
                assert forall|w: u8| true implies count_eq(r@.push(x), w) == count_eq(r@, w) + (
                if x == w {
                    1nat
                } else {
                    0nat
                }) by {
                    lemma_count_push(r@, x, w);
                }
            }
            r.push(x);
            j = j + 1;
        }
        face = face + 1;
    }
    proof {
        assert forall|w: u8| true implies count_eq(r@, w) == count_eq(v@, w) by {
            assert(w < 256);
        }
        lemma_count_lens(r@, v@);
    }
    r
}

/// Sequences with equal counts everywhere have equal length.
proof fn lemma_count_lens(a: Seq<u8>, b: Seq<u8>)
    requires
        multiset_eq(a, b),
    ensures
        a.len() == b.len(),
    decreases a.len(),
{
    if a.len() == 0 {
        if b.len() > 0 {
            crate::dice::lemma_index_to_count_pos(b, b.len() - 1);
        }
    } else {
        let v = a.last();
        crate::dice::lemma_index_to_count_pos(a, a.len() - 1);
        crate::dice::lemma_count_pos_to_index(b, v);
        let i = choose|i: int| 0 <= i < b.len() && b[i] == v;
        let b2 = b.remove(i);
        assert forall|w: u8| count_eq(a.drop_last(), w) == count_eq(b2, w) by {
            crate::dice::lemma_count_remove_entry(b, i, w);
            assert(count_eq(a, w) == count_eq(a.drop_last(), w) + (if v == w {
                1nat
            } else {
                0nat
            }));
        }
        lemma_count_lens(a.drop_last(), b2);
    }
}

} // verus!
