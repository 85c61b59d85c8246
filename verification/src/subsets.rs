//! Enumeration of keep candidates: all distinct sub-multisets of a sorted
//! hand, produced in the canonical hand order with duplicates collapsed.

use vstd::prelude::*;
use crate::dice::{
    count_eq, lemma_count_push, lemma_count_pos_to_index, lemma_index_to_count_pos,
    lemma_take_all, lemma_take_step, sorted, sub_multiset, Dice,
};
use crate::order::{hand_before, hand_lt, lemma_hand_lt_push, lemma_hand_lt_trans,
    lemma_hand_trichotomy, vec_eq};

verus! {

/// The hands of `l` stand in strictly increasing canonical order.
pub open spec fn strict_ordered(l: Seq<Dice>) -> bool {
    forall|i: int, j: int| 0 <= i < j < l.len() ==> hand_lt(#[trigger] l[i]@, #[trigger] l[j]@)
}

/// Some entry of `l` is the hand `w`.
pub open spec fn in_list(l: Seq<Dice>, w: Seq<u8>) -> bool {
    exists|i: int| 0 <= i < #[trigger] l.len() && l[i]@ == w
}

/// Membership in a list extended by one hand.
proof fn lemma_in_list_push(l: Seq<Dice>, x: Dice, w: Seq<u8>)
    ensures
        in_list(l.push(x), w) <==> (in_list(l, w) || x@ == w),
{
    if in_list(l.push(x), w) {
        let i = choose|i: int| 0 <= i < l.push(x).len() && l.push(x)[i]@ == w;
        if i < l.len() {
            assert(l[i]@ == w);
            assert(in_list(l, w));
        } else {
            assert(x@ == w);
        }
    }
    if in_list(l, w) {
        let i = choose|i: int| 0 <= i < l.len() && l[i]@ == w;
        assert(l.push(x)[i]@ == w);
        assert(in_list(l.push(x), w));
    }
    if x@ == w {
        assert(l.push(x)[l.len() as int]@ == w);
        assert(in_list(l.push(x), w));
    }
}

/// A strictly ordered list stays strictly ordered when a larger hand is appended.
proof fn lemma_strict_push(l: Seq<Dice>, x: Dice)
    requires
        strict_ordered(l),
        l.len() == 0 || hand_lt(l.last()@, x@),
    ensures
        strict_ordered(l.push(x)),
{
    assert forall|i: int, j: int| 0 <= i < j < l.push(x).len() implies hand_lt(
        #[trigger] l.push(x)[i]@,
        #[trigger] l.push(x)[j]@,
    ) by {
        if j < l.len() {
            assert(hand_lt(l[i]@, l[j]@));
        } else {
            assert(l.push(x)[j]@ == x@);
            if i < l.len() - 1 {
                assert(hand_lt(l[i]@, l.last()@));
                lemma_hand_lt_trans(l[i]@, l.last()@, x@);
            }
        }
    }
}

/// Merge two strictly ordered candidate lists into one, dropping duplicates.
fn merge_candidates(a: &Vec<Dice>, b: &Vec<Dice>) -> (r: Vec<Dice>)
    requires
        strict_ordered(a@),
        strict_ordered(b@),
    ensures
        strict_ordered(r@),
        forall|w: Seq<u8>|
            #![trigger in_list(r@, w)]
            #![trigger in_list(a@, w)]
            #![trigger in_list(b@, w)]
            in_list(r@, w) <==> (in_list(a@, w) || in_list(b@, w)),
{
    let mut r: Vec<Dice> = Vec::new();
    let mut i: usize = 0;
    let mut j: usize = 0;
    while i < a.len() || j < b.len()
        invariant
            0 <= i <= a@.len(),
            0 <= j <= b@.len(),
            strict_ordered(a@),
            strict_ordered(b@),
            strict_ordered(r@),
            forall|w: Seq<u8>|
                #![trigger in_list(r@, w)]
                #![trigger in_list(a@.take(i as int), w)]
                #![trigger in_list(b@.take(j as int), w)]
                in_list(r@, w) <==> (in_list(a@.take(i as int), w) || in_list(
                    b@.take(j as int),
                    w,
                )),
            forall|k: int|
                i <= k < a@.len() ==> r@.len() == 0 || hand_lt(r@.last()@, #[trigger] a@[k]@),
            forall|k: int|
                j <= k < b@.len() ==> r@.len() == 0 || hand_lt(r@.last()@, #[trigger] b@[k]@),
        decreases a@.len() - i + b@.len() - j,
    {
        let ghost r_old = r@;
        let ghost i0 = i as int;
        let ghost j0 = j as int;
        let take_a: bool = if i < a.len() && j < b.len() {
            hand_before(&a[i], &b[j])
        } else {
            i < a.len()
        };
        let both: bool = if i < a.len() && j < b.len() {
            vec_eq(&a[i], &b[j])
        } else {
            false
        };
        if take_a || both {
            let x = a[i].clone();
            let ghost xd = x;
            proof {
                lemma_strict_push(r@, x);
            }
            r.push(x);
            i = i + 1;
            if both {
                j = j + 1;
            }
            proof {
                assert(r@ == r_old.push(xd));
                assert(xd@ == a@[i0]@);
                lemma_take_step(a@, i0);
                assert(a@.take(i0 + 1) =~= a@.take(i0).push(a@[i0]));
                if both {
                    lemma_take_step(b@, j0);
                    assert(b@.take(j0 + 1) =~= b@.take(j0).push(b@[j0]));
                }
                assert forall|w: Seq<u8>|
                    #![trigger in_list(r@, w)]
                    #![trigger in_list(a@.take(i as int), w)]
                    #![trigger in_list(b@.take(j as int), w)]
                    in_list(r@, w) <==> (in_list(a@.take(i as int), w) || in_list(
                        b@.take(j as int),
                        w,
                    )) by {
                    lemma_in_list_push(r_old, xd, w);
                    lemma_in_list_push(a@.take(i0), a@[i0], w);
                    if both {
                        lemma_in_list_push(b@.take(j0), b@[j0], w);
                    }
                }
                assert forall|k: int| i <= k < a@.len() implies hand_lt(
                    r@.last()@,
                    #[trigger] a@[k]@,
                ) by {
                    assert(hand_lt(a@[i0]@, a@[k]@));
                }
                assert forall|k: int| j <= k < b@.len() implies hand_lt(
                    r@.last()@,
                    #[trigger] b@[k]@,
                ) by {
                    if both {
                        assert(hand_lt(b@[j0]@, b@[k]@));
                        assert(xd@ == b@[j0]@);
                    } else {
                        if k > j0 {
                            assert(hand_lt(b@[j0]@, b@[k]@));
                            lemma_hand_lt_trans(xd@, b@[j0]@, b@[k]@);
                        }
                    }
                }
            }
        } else {
            // Either `a` is exhausted or `b[j]` comes strictly first.
            proof {
                if i0 < a@.len() {
                    lemma_hand_trichotomy(a@[i0]@, b@[j0]@);
                    assert(hand_lt(b@[j0]@, a@[i0]@));
                }
            }
            let x = b[j].clone();
            let ghost xd = x;
            proof {
                lemma_strict_push(r@, x);
            }
            r.push(x);
            j = j + 1;
            proof {
                assert(r@ == r_old.push(xd));
                assert(xd@ == b@[j0]@);
                lemma_take_step(b@, j0);
                assert(b@.take(j0 + 1) =~= b@.take(j0).push(b@[j0]));
                assert forall|w: Seq<u8>|
                    #![trigger in_list(r@, w)]
                    #![trigger in_list(a@.take(i as int), w)]
                    #![trigger in_list(b@.take(j as int), w)]
                    in_list(r@, w) <==> (in_list(a@.take(i as int), w) || in_list(
                        b@.take(j as int),
                        w,
                    )) by {
                    lemma_in_list_push(r_old, xd, w);
                    lemma_in_list_push(b@.take(j0), b@[j0], w);
                }
                assert forall|k: int| i <= k < a@.len() implies hand_lt(
                    r@.last()@,
                    #[trigger] a@[k]@,
                ) by {
                    if k > i0 {
                        assert(hand_lt(a@[i0]@, a@[k]@));
                        lemma_hand_lt_trans(xd@, a@[i0]@, a@[k]@);
                    }
                }
                assert forall|k: int| j <= k < b@.len() implies hand_lt(
                    r@.last()@,
                    #[trigger] b@[k]@,
                ) by {
                    assert(hand_lt(b@[j0]@, b@[k]@));
                }
            }
        }
    }
    proof {
        lemma_take_all(a@);
        lemma_take_all(b@);
    }
    r
}

/// Append the face `x` to every hand of `cands`.
fn extend_with(cands: &Vec<Dice>, x: u8) -> (r: Vec<Dice>)
    ensures
        r@.len() == cands@.len(),
        forall|k: int| 0 <= k < r@.len() ==> #[trigger] r@[k]@ == cands@[k]@.push(x),
{
    let mut r: Vec<Dice> = Vec::new();
    let mut i: usize = 0;
    while i < cands.len()
        invariant
            0 <= i <= cands@.len(),
            r@.len() == i,
            forall|k: int| 0 <= k < i ==> #[trigger] r@[k]@ == cands@[k]@.push(x),
        decreases cands@.len() - i,
    {
        let mut h = cands[i].clone();
        h.push(x);
        r.push(h);
        i = i + 1;
    }
    r
}

/// Every entry of a sub-multiset of `s` is bounded by a bound on `s`.
proof fn lemma_sub_elements_le(w: Seq<u8>, s: Seq<u8>, x: u8)
    requires
        sub_multiset(w, s),
        forall|idx: int| 0 <= idx < s.len() ==> #[trigger] s[idx] <= x,
    ensures
        forall|idx: int| 0 <= idx < w.len() ==> #[trigger] w[idx] <= x,
{
    assert forall|idx: int| 0 <= idx < w.len() implies #[trigger] w[idx] <= x by {
        lemma_index_to_count_pos(w, idx);
        assert(count_eq(s, w[idx]) > 0);
        lemma_count_pos_to_index(s, w[idx]);
    }
}

/// How being a sub-multiset of `s` plus one further die `x`, at least as
/// large as everything in `s`, decomposes: either the die is unused, or it
/// is the last entry of the (sorted) sub-multiset.
proof fn lemma_sub_multiset_step(w: Seq<u8>, s: Seq<u8>, x: u8)
    requires
        sorted(w),
        forall|idx: int| 0 <= idx < s.len() ==> #[trigger] s[idx] <= x,
    ensures
        sub_multiset(w, s.push(x)) <==> (sub_multiset(w, s) || (w.len() > 0 && w.last() == x
            && sub_multiset(w.drop_last(), s))),
{
    assert forall|v: u8| count_eq(s.push(x), v) == count_eq(s, v) + (if x == v {
        1nat
    } else {
        0nat
    }) by {
        lemma_count_push(s, x, v);
    }
    if sub_multiset(w, s.push(x)) && !sub_multiset(w, s) {
        let bad = choose|v: u8| count_eq(w, v) > count_eq(s, v);
        assert(count_eq(w, bad) <= count_eq(s.push(x), bad));
        assert(bad == x);
        assert(count_eq(w, x) > 0);
        lemma_count_pos_to_index(w, x);
        lemma_sub_elements_le(w, s.push(x), x);
        let wi = choose|i: int| 0 <= i < w.len() && w[i] == x;
        assert(w.last() >= w[wi]);
        assert(w.last() == x);
        assert forall|v: u8| count_eq(w.drop_last(), v) <= count_eq(s, v) by {
            assert(w =~= w.drop_last().push(w.last()));
            lemma_count_push(w.drop_last(), w.last(), v);
        }
    }
    if w.len() > 0 && w.last() == x && sub_multiset(w.drop_last(), s) {
        assert forall|v: u8| count_eq(w, v) <= count_eq(s.push(x), v) by {
            assert(w =~= w.drop_last().push(w.last()));
            lemma_count_push(w.drop_last(), w.last(), v);
        }
    }
    if sub_multiset(w, s) {
        assert forall|v: u8| count_eq(w, v) <= count_eq(s.push(x), v) by {}
    }
}

/// All distinct sub-multisets of a sorted hand — every way to keep some of
/// its dice — from the empty keep to the full hand, in the canonical order.
pub fn subsets(orig: &Dice) -> (r: Vec<Dice>)
    requires
        sorted(orig@),
    ensures
        strict_ordered(r@),
        forall|k: int|
            0 <= k < r@.len() ==> sorted(#[trigger] r@[k]@) && sub_multiset(r@[k]@, orig@),
        forall|w: Seq<u8>|
            sorted(w) && #[trigger] sub_multiset(w, orig@) ==> in_list(r@, w),
        r@.len() >= 1,
{
    let mut r: Vec<Dice> = Vec::new();
    r.push(Vec::new());
    proof {
        assert(r@[0]@ =~= Seq::<u8>::empty());
        assert(orig@.take(0) =~= Seq::<u8>::empty());
        assert forall|v: u8| count_eq(r@[0]@, v) <= count_eq(orig@.take(0), v) by {}
        assert forall|w: Seq<u8>| sorted(w) && #[trigger] sub_multiset(
            w,
            orig@.take(0),
        ) implies in_list(r@, w) by {
            if w.len() > 0 {
                lemma_index_to_count_pos(w, 0);
                assert(count_eq(orig@.take(0), w[0]) == 0);
                assert(false);
            } else {
                assert(w =~= Seq::<u8>::empty());
                assert(r@[0]@ == w);
            }
        }
    }
    let mut i: usize = 0;
    while i < orig.len()
        invariant
            0 <= i <= orig@.len(),
            sorted(orig@),
            strict_ordered(r@),
            forall|k: int|
                0 <= k < r@.len() ==> sorted(#[trigger] r@[k]@) && sub_multiset(
                    r@[k]@,
                    orig@.take(i as int),
                ),
            forall|w: Seq<u8>|
                sorted(w) && #[trigger] sub_multiset(w, orig@.take(i as int)) ==> in_list(r@, w),
        decreases orig@.len() - i,
    {
        let ghost pre = orig@.take(i as int);
        let x = orig[i];
        proof {
            lemma_take_step(orig@, i as int);
            assert(orig@.take(i as int + 1) =~= pre.push(x));
            assert forall|idx: int| 0 <= idx < pre.len() implies #[trigger] pre[idx] <= x by {
                assert(pre[idx] == orig@[idx]);
            }
        }
        let ext = extend_with(&r, x);
        proof {
            // Every extended hand is sorted, ends at `x`, and sits inside the longer prefix.
            assert forall|k: int| 0 <= k < ext@.len() implies sorted(#[trigger] ext@[k]@)
                && sub_multiset(ext@[k]@, pre.push(x)) && ext@[k]@.len() > 0 && ext@[k]@.last()
                == x && ext@[k]@.drop_last() == r@[k]@ by {
                let u = r@[k]@;
                lemma_sub_elements_le(u, pre, x);
                assert(ext@[k]@ == u.push(x));
                assert forall|p: int, q: int| 0 <= p <= q < u.push(x).len() implies u.push(x)[p]
                    <= u.push(x)[q] by {
                    if q < u.len() {
                    } else {
                        if p < u.len() {
                            assert(u[p] <= x);
                        }
                    }
                }
                assert(sorted(u.push(x)));
                assert forall|v: u8| count_eq(u.push(x), v) <= count_eq(pre.push(x), v) by {
                    lemma_count_push(u, x, v);
                    lemma_count_push(pre, x, v);
                }
                assert(u.push(x).drop_last() =~= u);
            }
            // The extended list is strictly ordered.
            assert forall|p: int, q: int| 0 <= p < q < ext@.len() implies hand_lt(
                #[trigger] ext@[p]@,
                #[trigger] ext@[q]@,
            ) by {
                assert(hand_lt(r@[p]@, r@[q]@));
                lemma_hand_lt_push(r@[p]@, r@[q]@, x);
            }
            // Old candidates still fit the longer prefix.
            assert forall|k: int| 0 <= k < r@.len() implies sub_multiset(
                #[trigger] r@[k]@,
                pre.push(x),
            ) by {
                assert forall|v: u8| count_eq(r@[k]@, v) <= count_eq(pre.push(x), v) by {
                    lemma_count_push(pre, x, v);
                }
            }
        }
        let ghost r_old = r@;
        let ghost ext_seq = ext@;
        r = merge_candidates(&r, &ext);
        proof {
            // Elements of the merged list keep their shape.
            assert forall|k: int| 0 <= k < r@.len() implies sorted(#[trigger] r@[k]@)
                && sub_multiset(r@[k]@, orig@.take(i as int + 1)) by {
                assert(in_list(r@, r@[k]@));
                if in_list(r_old, r@[k]@) {
                    let m = choose|m: int| 0 <= m < r_old.len() && r_old[m]@ == r@[k]@;
                    assert(sorted(r_old[m]@));
                } else {
                    assert(in_list(ext_seq, r@[k]@));
                    let m = choose|m: int| 0 <= m < ext_seq.len() && ext_seq[m]@ == r@[k]@;
                    assert(sorted(ext_seq[m]@));
                }
            }
            // Completeness for the longer prefix.
            assert forall|w: Seq<u8>| sorted(w) && #[trigger] sub_multiset(
                w,
                orig@.take(i as int + 1),
            ) implies in_list(r@, w) by {
                lemma_sub_multiset_step(w, pre, x);
                if sub_multiset(w, pre) {
                    assert(in_list(r_old, w));
                } else {
                    assert(w.len() > 0 && w.last() == x && sub_multiset(w.drop_last(), pre));
                    assert(sorted(w.drop_last()));
                    assert(in_list(r_old, w.drop_last()));
                    let m = choose|m: int| 0 <= m < r_old.len() && r_old[m]@ == w.drop_last();
                    assert(ext_seq[m]@ == r_old[m]@.push(x));
                    assert(ext_seq[m]@ =~= w);
                    assert(in_list(ext_seq, w));
                }
            }
        }
        i = i + 1;
    }
    proof {
        lemma_take_all(orig@);
        assert forall|v: u8| count_eq(Seq::<u8>::empty(), v) <= count_eq(orig@, v) by {}
        assert(sub_multiset(Seq::<u8>::empty(), orig@));
        assert(in_list(r@, Seq::<u8>::empty()));
        let m = choose|m: int| 0 <= m < r@.len() && r@[m]@ == Seq::<u8>::empty();
        assert(r@.len() >= 1);
    }
    r
}

/// The canonical candidate list is the only strictly ordered list with its
/// membership: enumerating the same hand twice gives the same list.
pub proof fn lemma_candidates_unique(l1: Seq<Dice>, l2: Seq<Dice>)
    requires
        strict_ordered(l1),
        strict_ordered(l2),
        forall|w: Seq<u8>| #[trigger] in_list(l1, w) <==> in_list(l2, w),
    ensures
        l1.len() == l2.len(),
        forall|k: int| 0 <= k < l1.len() ==> #[trigger] l1[k]@ == l2[k]@,
    decreases l1.len(),
{
    if l1.len() == 0 {
        if l2.len() > 0 {
            assert(in_list(l2, l2[0]@));
            assert(in_list(l1, l2[0]@));
            let m = choose|m: int| 0 <= m < l1.len() && l1[m]@ == l2[0]@;
            assert(false);
        }
    } else {
        assert(in_list(l1, l1[0]@));
        assert(in_list(l2, l1[0]@));
        let k2 = choose|m: int| 0 <= m < l2.len() && l2[m]@ == l1[0]@;
        assert(in_list(l2, l2[0]@));
        assert(in_list(l1, l2[0]@));
        let k1 = choose|m: int| 0 <= m < l1.len() && l1[m]@ == l2[0]@;
        if k2 > 0 {
            assert(hand_lt(l2[0]@, l1[0]@));
            if k1 > 0 {
                assert(hand_lt(l1[0]@, l2[0]@));
                lemma_hand_lt_trans(l1[0]@, l2[0]@, l1[0]@);
                lemma_hand_trichotomy(l1[0]@, l1[0]@);
                assert(false);
            }
        }
        assert(l1[0]@ == l2[0]@);
        let t1 = l1.drop_first();
        let t2 = l2.drop_first();
        assert forall|p: int, q: int| 0 <= p < q < t1.len() implies hand_lt(
            #[trigger] t1[p]@,
            #[trigger] t1[q]@,
        ) by {
            assert(hand_lt(l1[p + 1]@, l1[q + 1]@));
        }
        assert forall|p: int, q: int| 0 <= p < q < t2.len() implies hand_lt(
            #[trigger] t2[p]@,
            #[trigger] t2[q]@,
        ) by {
            assert(hand_lt(l2[p + 1]@, l2[q + 1]@));
        }
        assert forall|w: Seq<u8>| #[trigger] in_list(t1, w) implies in_list(t2, w) by {
            lemma_tail_membership(l1, l2, w);
        }
        assert forall|w: Seq<u8>| #[trigger] in_list(t2, w) implies in_list(t1, w) by {
            lemma_tail_membership(l2, l1, w);
        }
        lemma_candidates_unique(t1, t2);
        assert forall|k: int| 0 <= k < l1.len() implies #[trigger] l1[k]@ == l2[k]@ by {
            if k > 0 {
                assert(t1[k - 1]@ == t2[k - 1]@);
            }
        }
    }
}

/// A hand in the tail of one of two membership-equal, strictly ordered lists
/// with equal heads is in the tail of the other.
proof fn lemma_tail_membership(l1: Seq<Dice>, l2: Seq<Dice>, w: Seq<u8>)
    requires
        strict_ordered(l1),
        strict_ordered(l2),
        l1.len() > 0,
        l2.len() > 0,
        l1[0]@ == l2[0]@,
        forall|u: Seq<u8>| #[trigger] in_list(l1, u) <==> in_list(l2, u),
        in_list(l1.drop_first(), w),
    ensures
        in_list(l2.drop_first(), w),
{
    let t1 = l1.drop_first();
    let i = choose|i: int| 0 <= i < t1.len() && t1[i]@ == w;
    assert(l1[i + 1]@ == w);
    assert(in_list(l1, w));
    assert(in_list(l2, w));
    let m = choose|m: int| 0 <= m < l2.len() && l2[m]@ == w;
    if m == 0 {
        // Then the head would sit strictly below itself.
        assert(hand_lt(l1[0]@, l1[i + 1]@));
        lemma_hand_trichotomy(l1[0]@, w);
        assert(false);
    }
    assert(l2.drop_first()[m - 1]@ == w);
    assert(in_list(l2.drop_first(), w));
}

} // verus!
