//! Enumeration of re-roll outcomes: all labeled tuples of fresh dice, and
//! the histogram that groups them into distinct sorted outcomes, each with
//! its multiplicity among the equally likely labeled rolls.

use vstd::prelude::*;
use crate::dice::{
    count_eq, lemma_count_pos_to_index, lemma_index_to_count_pos, lemma_take_all,
    lemma_take_step, multiset_eq, sorted, valid_faces, Dice,
};
use crate::order::sorted_copy;

verus! {

/// The views of a list of hands.
pub open spec fn views(l: Seq<Dice>) -> Seq<Seq<u8>> {
    Seq::new(l.len(), |i: int| l[i]@)
}

/// `b` to the power `e`.
pub open spec fn pow_nat(b: nat, e: nat) -> nat
    decreases e,
{
    if e == 0 {
        1
    } else {
        b * pow_nat(b, (e - 1) as nat)
    }
}

/// The tuple `c` extended by each value of `orig` in turn.
pub open spec fn append_all(c: Seq<u8>, orig: Seq<u8>) -> Seq<Seq<u8>>
    decreases orig.len(),
{
    if orig.len() == 0 {
        Seq::empty()
    } else {
        append_all(c, orig.drop_last()).push(c.push(orig.last()))
    }
}

/// Every tuple of `combs` extended by every value of `orig`.
pub open spec fn extend_each(combs: Seq<Seq<u8>>, orig: Seq<u8>) -> Seq<Seq<u8>>
    decreases combs.len(),
{
    if combs.len() == 0 {
        Seq::empty()
    } else {
        extend_each(combs.drop_last(), orig) + append_all(combs.last(), orig)
    }
}

/// All labeled `size`-tuples over `orig`, in generation order: the labeled
/// draws of `size` dice when each die shows one value of `orig`.
pub open spec fn spec_tuples(orig: Seq<u8>, size: nat) -> Seq<Seq<u8>>
    decreases size,
{
    if size == 0 {
        seq![Seq::<u8>::empty()]
    } else {
        extend_each(spec_tuples(orig, (size - 1) as nat), orig)
    }
}

/// Entry `k` of `append_all(c, orig)` is `c` plus `orig[k]`.
proof fn lemma_append_all_index(c: Seq<u8>, orig: Seq<u8>)
    ensures
        append_all(c, orig).len() == orig.len(),
        forall|k: int|
            0 <= k < orig.len() ==> #[trigger] append_all(c, orig)[k] == c.push(orig[k]),
    decreases orig.len(),
{
    if orig.len() > 0 {
        lemma_append_all_index(c, orig.drop_last());
    }
}

/// `extend_each` multiplies the lengths, and each of its entries extends
/// some entry of `combs` by some value of `orig`.
proof fn lemma_extend_each_shape(combs: Seq<Seq<u8>>, orig: Seq<u8>)
    ensures
        extend_each(combs, orig).len() == combs.len() * orig.len(),
        forall|k: int|
            0 <= k < extend_each(combs, orig).len() ==> exists|ci: int, ei: int|
                0 <= ci < combs.len() && 0 <= ei < orig.len() && #[trigger] extend_each(
                    combs,
                    orig,
                )[k] == combs[ci].push(orig[ei]),
    decreases combs.len(),
{
    if combs.len() == 0 {
    } else {
        let rest = combs.drop_last();
        lemma_extend_each_shape(rest, orig);
        lemma_append_all_index(combs.last(), orig);
        assert(extend_each(combs, orig).len() == rest.len() * orig.len() + orig.len());
        assert(combs.len() * orig.len() == rest.len() * orig.len() + orig.len()) by (nonlinear_arith)
            requires combs.len() == rest.len() + 1,
        ;
        let left = extend_each(rest, orig);
        let right = append_all(combs.last(), orig);
        assert forall|k: int| 0 <= k < extend_each(combs, orig).len() implies exists|
            ci: int,
            ei: int,
        |
            0 <= ci < combs.len() && 0 <= ei < orig.len() && #[trigger] extend_each(combs, orig)[k]
                == combs[ci].push(orig[ei]) by {
            if k < left.len() {
                assert(extend_each(combs, orig)[k] == left[k]);
                let (ci, ei) = choose|ci: int, ei: int|
                    0 <= ci < rest.len() && 0 <= ei < orig.len() && left[k] == rest[ci].push(
                        orig[ei],
                    );
                assert(rest[ci] == combs[ci]);
                assert(extend_each(combs, orig)[k] == combs[ci].push(orig[ei]));
            } else {
                let ei = k - left.len();
                assert(extend_each(combs, orig)[k] == right[ei]);
                assert(right[ei] == combs.last().push(orig[ei]));
                assert(extend_each(combs, orig)[k] == combs[combs.len() - 1].push(orig[ei]));
            }
        }
    }
}

/// Every labeled tuple has exactly `size` entries, all drawn from `orig`.
pub proof fn lemma_tuples_shape(orig: Seq<u8>, size: nat)
    ensures
        spec_tuples(orig, size).len() == pow_nat(orig.len(), size),
        forall|k: int|
            0 <= k < spec_tuples(orig, size).len() ==> (#[trigger] spec_tuples(orig, size)[k]).len()
                == size,
        valid_faces(orig) ==> forall|k: int|
            0 <= k < spec_tuples(orig, size).len() ==> valid_faces(
                #[trigger] spec_tuples(orig, size)[k],
            ),
    decreases size,
{
    if size == 0 {
        assert(spec_tuples(orig, size)[0] =~= Seq::<u8>::empty());
    } else {
        let prev = spec_tuples(orig, (size - 1) as nat);
        lemma_tuples_shape(orig, (size - 1) as nat);
        lemma_extend_each_shape(prev, orig);
        assert(pow_nat(orig.len(), size) == orig.len() * pow_nat(orig.len(), (size - 1) as nat));
        assert(prev.len() * orig.len() == orig.len() * prev.len()) by (nonlinear_arith);
        assert forall|k: int| 0 <= k < spec_tuples(orig, size).len() implies (
        #[trigger] spec_tuples(orig, size)[k]).len() == size by {
            let (ci, ei) = choose|ci: int, ei: int|
                0 <= ci < prev.len() && 0 <= ei < orig.len() && spec_tuples(orig, size)[k]
                    == prev[ci].push(orig[ei]);
            assert(prev[ci].len() == size - 1);
        }
        if valid_faces(orig) {
            assert forall|k: int| 0 <= k < spec_tuples(orig, size).len() implies valid_faces(
                #[trigger] spec_tuples(orig, size)[k],
            ) by {
                let (ci, ei) = choose|ci: int, ei: int|
                    0 <= ci < prev.len() && 0 <= ei < orig.len() && spec_tuples(orig, size)[k]
                        == prev[ci].push(orig[ei]);
                let t = prev[ci].push(orig[ei]);
                assert(valid_faces(prev[ci]));
                assert forall|m: int| 0 <= m < t.len() implies 1 <= #[trigger] t[m] <= 6 by {
                    if m < prev[ci].len() {
                        assert(t[m] == prev[ci][m]);
                    } else {
                        assert(t[m] == orig[ei]);
                    }
                }
            }
        }
    }
}

/// All labeled `size`-tuples over the values of `orig`: the `len(orig)^size`
/// ways to roll `size` dice when each die shows one entry of `orig`.
pub fn variations_with_repetition(orig: &Vec<u8>, size: usize) -> (r: Vec<Dice>)
    requires
        orig@.len() <= 6,
        size <= 5,
    ensures
        views(r@) == spec_tuples(orig@, size as nat),
{
    let mut result: Vec<Dice> = Vec::new();
    result.push(Vec::new());
    proof {
        assert(views(result@) =~= spec_tuples(orig@, 0));
    }
    let mut round: usize = 0;
    while round < size
        invariant
            0 <= round <= size,
            views(result@) == spec_tuples(orig@, round as nat),
        decreases size - round,
    {
        let ghost combs = views(result@);
        let mut next: Vec<Dice> = Vec::new();
        let mut ci: usize = 0;
        while ci < result.len()
            invariant
                0 <= ci <= result@.len(),
                combs == views(result@),
                views(next@) == extend_each(combs.take(ci as int), orig@),
            decreases result@.len() - ci,
        {
            let mut ei: usize = 0;
            while ei < orig.len()
                invariant
                    0 <= ei <= orig@.len(),
                    0 <= ci < result@.len(),
                    combs == views(result@),
                    views(next@) == extend_each(combs.take(ci as int), orig@) + append_all(
                        combs[ci as int],
                        orig@.take(ei as int),
                    ),
                decreases orig@.len() - ei,
            {
                let ghost next_old = next@;
                let mut t = result[ci].clone();
                t.push(orig[ei]);
                let ghost td = t;
                next.push(t);
                proof {
                    assert(td@ == combs[ci as int].push(orig@[ei as int]));
                    assert(views(next@) =~= views(next_old).push(td@));
                    lemma_take_step(orig@, ei as int);
                    assert(orig@.take(ei as int + 1) =~= orig@.take(ei as int).push(
                        orig@[ei as int],
                    ));
                    assert(append_all(combs[ci as int], orig@.take(ei as int + 1)) == append_all(
                        combs[ci as int],
                        orig@.take(ei as int),
                    ).push(combs[ci as int].push(orig@[ei as int])));
                    assert(views(next@) =~= extend_each(combs.take(ci as int), orig@) + append_all(
                        combs[ci as int],
                        orig@.take(ei as int + 1),
                    ));
                }
                ei = ei + 1;
            }
            proof {
                lemma_take_all(orig@);
                lemma_take_step(combs, ci as int);
                assert(combs.take(ci as int + 1) =~= combs.take(ci as int).push(combs[ci as int]));
                assert(extend_each(combs.take(ci as int + 1), orig@) == extend_each(
                    combs.take(ci as int),
                    orig@,
                ) + append_all(combs[ci as int], orig@)) by {
                    let s = combs.take(ci as int + 1);
                    assert(s.drop_last() =~= combs.take(ci as int));
                    assert(s.last() == combs[ci as int]);
                }
            }
            ci = ci + 1;
        }
        proof {
            lemma_take_all(combs);
        }
        result = next;
        round = round + 1;
    }
    result
}

/// How many tuples of `ts` hold the same multiset as `h`.
pub open spec fn count_matching(ts: Seq<Seq<u8>>, h: Seq<u8>) -> nat
    decreases ts.len(),
{
    if ts.len() == 0 {
        0
    } else {
        count_matching(ts.drop_last(), h) + (if multiset_eq(ts.last(), h) {
            1nat
        } else {
            0nat
        })
    }
}

proof fn lemma_count_matching_push(ts: Seq<Seq<u8>>, t: Seq<u8>, h: Seq<u8>)
    ensures
        count_matching(ts.push(t), h) == count_matching(ts, h) + (if multiset_eq(t, h) {
            1nat
        } else {
            0nat
        }),
{
    assert(ts.push(t).drop_last() =~= ts);
}

pub proof fn lemma_count_matching_le(ts: Seq<Seq<u8>>, h: Seq<u8>)
    ensures
        count_matching(ts, h) <= ts.len(),
    decreases ts.len(),
{
    if ts.len() > 0 {
        lemma_count_matching_le(ts.drop_last(), h);
    }
}

proof fn lemma_count_matching_pos(ts: Seq<Seq<u8>>, h: Seq<u8>)
    requires
        count_matching(ts, h) > 0,
    ensures
        exists|m: int| 0 <= m < ts.len() && multiset_eq(#[trigger] ts[m], h),
    decreases ts.len(),
{
    if multiset_eq(ts.last(), h) {
        assert(multiset_eq(ts[ts.len() - 1], h));
    } else {
        lemma_count_matching_pos(ts.drop_last(), h);
        let m = choose|m: int|
            0 <= m < ts.drop_last().len() && multiset_eq(#[trigger] ts.drop_last()[m], h);
        assert(multiset_eq(ts[m], h));
    }
}

/// Equal multisets draw their entries from the same faces.
proof fn lemma_multiset_eq_valid(a: Seq<u8>, b: Seq<u8>)
    requires
        multiset_eq(a, b),
        valid_faces(b),
    ensures
        valid_faces(a),
{
    assert forall|i: int| 0 <= i < a.len() implies 1 <= #[trigger] a[i] <= 6 by {
        lemma_index_to_count_pos(a, i);
        assert(count_eq(b, a[i]) > 0);
        lemma_count_pos_to_index(b, a[i]);
    }
}

/// The distinct outcome multisets of rolling `size` fresh dice over the
/// values of `orig`, each a sorted hand tagged with how many of the labeled
/// tuples collapse onto it.
pub fn variations_with_repetition_hist(orig: &Vec<u8>, size: usize) -> (r: Vec<(Dice, usize)>)
    requires
        orig@.len() <= 6,
        size <= 5,
    ensures
        forall|i: int|
            0 <= i < r@.len() ==> sorted((#[trigger] r@[i]).0@) && r@[i].0@.len() == size
                && r@[i].1 == count_matching(spec_tuples(orig@, size as nat), r@[i].0@)
                && r@[i].1 >= 1 && (valid_faces(orig@) ==> valid_faces(r@[i].0@)),
        forall|i: int, j: int|
            0 <= i < j < r@.len() ==> !multiset_eq((#[trigger] r@[i]).0@, (#[trigger] r@[j]).0@),
        forall|m: int|
            0 <= m < spec_tuples(orig@, size as nat).len() ==> exists|i: int|
                0 <= i < r@.len() && multiset_eq(
                    #[trigger] spec_tuples(orig@, size as nat)[m],
                    r@[i].0@,
                ),
{
    let tuples = variations_with_repetition(orig, size);
    let ghost tt = spec_tuples(orig@, size as nat);
    proof {
        lemma_tuples_shape(orig@, size as nat);
    }
    let mut r: Vec<(Dice, usize)> = Vec::new();
    let mut k: usize = 0;
    while k < tuples.len()
        invariant
            0 <= k <= tuples@.len(),
            views(tuples@) == tt,
            tt == spec_tuples(orig@, size as nat),
            forall|m: int| 0 <= m < tt.len() ==> (#[trigger] tt[m]).len() == size,
            valid_faces(orig@) ==> forall|m: int| 0 <= m < tt.len() ==> valid_faces(
                #[trigger] tt[m],
            ),
            forall|i: int|
                0 <= i < r@.len() ==> sorted((#[trigger] r@[i]).0@) && r@[i].0@.len() == size
                    && r@[i].1 == count_matching(tt.take(k as int), r@[i].0@) && r@[i].1 >= 1 && (
                valid_faces(orig@) ==> valid_faces(r@[i].0@)),
            forall|i: int, j: int|
                0 <= i < j < r@.len() ==> !multiset_eq(
                    (#[trigger] r@[i]).0@,
                    (#[trigger] r@[j]).0@,
                ),
            forall|m: int|
                0 <= m < k ==> exists|i: int|
                    0 <= i < r@.len() && multiset_eq(#[trigger] tt[m], r@[i].0@),
        decreases tuples@.len() - k,
    {
        let ghost k0 = k as int;
        let ghost r_old = r@;
        let c = sorted_copy(&tuples[k]);
        let ghost cd = c;
        proof {
            assert(tuples@[k0]@ == tt[k0]);
            assert(multiset_eq(cd@, tt[k0]));
            assert(cd@.len() == size);
            if valid_faces(orig@) {
                lemma_multiset_eq_valid(cd@, tt[k0]);
            }
            lemma_take_step(tt, k0);
            assert(tt.take(k0 + 1) =~= tt.take(k0).push(tt[k0]));
        }
        // Look for an existing group holding the same sorted outcome.
        let mut idx: usize = 0;
        let mut found: bool = false;
        while !found && idx < r.len()
            invariant
                0 <= idx <= r@.len(),
                r@ == r_old,
                cd == c,
                found ==> idx < r@.len() && r@[idx as int].0@ == cd@,
                !found ==> forall|m: int| 0 <= m < idx ==> (#[trigger] r@[m]).0@ != cd@,
            decreases r@.len() - idx + (if found {
                0int
            } else {
                1int
            }),
        {
            if crate::order::vec_eq(&r[idx].0, &c) {
                found = true;
            } else {
                idx = idx + 1;
            }
        }
        if found {
            let cnt = r[idx].1;
            proof {
                lemma_count_matching_le(tt.take(k0), r@[idx as int].0@);
            }
            r[idx] = (c, cnt + 1);
            proof {
                assert(r@ == r_old.update(idx as int, (cd, (cnt + 1) as usize)));
                assert(r@[idx as int].0@ == r_old[idx as int].0@);
                assert forall|i: int| 0 <= i < r@.len() implies sorted((#[trigger] r@[i]).0@)
                    && r@[i].0@.len() == size && r@[i].1 == count_matching(
                    tt.take(k0 + 1),
                    r@[i].0@,
                ) && r@[i].1 >= 1 && (valid_faces(orig@) ==> valid_faces(r@[i].0@)) by {
                    lemma_count_matching_push(tt.take(k0), tt[k0], r@[i].0@);
                    if i == idx {
                        assert(multiset_eq(tt[k0], r@[i].0@));
                    } else {
                        assert(r@[i] == r_old[i]);
                        if multiset_eq(tt[k0], r@[i].0@) {
                            assert(multiset_eq(cd@, r@[i].0@));
                            crate::dice::lemma_sorted_multiset_eq(cd@, r@[i].0@);
                            assert(r_old[i].0@ == r_old[idx as int].0@);
                            assert(multiset_eq(r_old[i].0@, r_old[idx as int].0@));
                            assert(false);
                        }
                    }
                }
                assert forall|m: int| 0 <= m < k0 + 1 implies exists|i: int|
                    0 <= i < r@.len() && multiset_eq(#[trigger] tt[m], r@[i].0@) by {
                    if m < k0 {
                        let i = choose|i: int|
                            0 <= i < r_old.len() && multiset_eq(#[trigger] tt[m], r_old[i].0@);
                        assert(multiset_eq(tt[m], r@[i].0@));
                    } else {
                        assert(multiset_eq(tt[k0], r@[idx as int].0@));
                    }
                }
            }
        } else {
            r.push((c, 1));
            proof {
                assert(r@ == r_old.push((cd, 1)));
                assert forall|i: int| 0 <= i < r_old.len() implies !multiset_eq(
                    tt[k0],
                    (#[trigger] r_old[i]).0@,
                ) by {
                    if multiset_eq(tt[k0], r_old[i].0@) {
                        assert(multiset_eq(cd@, r_old[i].0@));
                        crate::dice::lemma_sorted_multiset_eq(cd@, r_old[i].0@);
                        assert(r_old[i].0@ != cd@);
                        assert(false);
                    }
                }
                assert forall|i: int| 0 <= i < r@.len() implies sorted((#[trigger] r@[i]).0@)
                    && r@[i].0@.len() == size && r@[i].1 == count_matching(
                    tt.take(k0 + 1),
                    r@[i].0@,
                ) && r@[i].1 >= 1 && (valid_faces(orig@) ==> valid_faces(r@[i].0@)) by {
                    lemma_count_matching_push(tt.take(k0), tt[k0], r@[i].0@);
                    if i < r_old.len() {
                        assert(r@[i] == r_old[i]);
                    } else {
                        assert(r@[i].0@ == cd@);
                        assert(multiset_eq(tt[k0], cd@));
                        if count_matching(tt.take(k0), cd@) > 0 {
                            lemma_count_matching_pos(tt.take(k0), cd@);
                            let m = choose|m: int|
                                0 <= m < tt.take(k0).len() && multiset_eq(
                                    #[trigger] tt.take(k0)[m],
                                    cd@,
                                );
                            assert(multiset_eq(tt[m], cd@));
                            let i2 = choose|i2: int|
                                0 <= i2 < r_old.len() && multiset_eq(#[trigger] tt[m], r_old[i2].0@);
                            assert(multiset_eq(cd@, r_old[i2].0@));
                            crate::dice::lemma_sorted_multiset_eq(cd@, r_old[i2].0@);
                            assert(false);
                        }
                    }
                }
                assert forall|i: int, j: int| 0 <= i < j < r@.len() implies !multiset_eq(
                    (#[trigger] r@[i]).0@,
                    (#[trigger] r@[j]).0@,
                ) by {
                    if j == r_old.len() {
                        if multiset_eq(r@[i].0@, cd@) {
                            crate::dice::lemma_sorted_multiset_eq(r@[i].0@, cd@);
                            assert(false);
                        }
                    }
                }
                assert forall|m: int| 0 <= m < k0 + 1 implies exists|i: int|
                    0 <= i < r@.len() && multiset_eq(#[trigger] tt[m], r@[i].0@) by {
                    if m < k0 {
                        let i = choose|i: int|
                            0 <= i < r_old.len() && multiset_eq(#[trigger] tt[m], r_old[i].0@);
                        assert(multiset_eq(tt[m], r@[i].0@));
                    } else {
                        assert(multiset_eq(tt[k0], r@[r_old.len() as int].0@));
                    }
                }
            }
        }
        k = k + 1;
    }
    proof {
        lemma_take_all(tt);
        assert(tuples@.len() == tt.len());
    }
    r
}

/// Toss enumeration is reproducible as a set: any two histograms that group
/// the same tuple list — sorted representatives, distinct groups, every
/// tuple covered, multiplicities counted against the list — hold exactly
/// the same outcomes with the same multiplicities, whatever their order.
pub proof fn lemma_outcomes_unique(
    ts: Seq<Seq<u8>>,
    g1: Seq<(Dice, usize)>,
    g2: Seq<(Dice, usize)>,
    i: int,
)
    requires
        forall|k: int|
            0 <= k < g1.len() ==> sorted((#[trigger] g1[k]).0@) && g1[k].1 == count_matching(
                ts,
                g1[k].0@,
            ) && g1[k].1 >= 1,
        forall|k: int|
            0 <= k < g2.len() ==> sorted((#[trigger] g2[k]).0@) && g2[k].1 == count_matching(
                ts,
                g2[k].0@,
            ) && g2[k].1 >= 1,
        forall|m: int|
            0 <= m < ts.len() ==> exists|j: int|
                0 <= j < g2.len() && multiset_eq(#[trigger] ts[m], g2[j].0@),
        0 <= i < g1.len(),
    ensures
        exists|j: int|
            0 <= j < g2.len() && (#[trigger] g2[j]).0@ == g1[i].0@ && g2[j].1 == g1[i].1,
{
    lemma_count_matching_pos(ts, g1[i].0@);
    let m = choose|m: int| 0 <= m < ts.len() && multiset_eq(#[trigger] ts[m], g1[i].0@);
    let j = choose|j: int| 0 <= j < g2.len() && multiset_eq(#[trigger] ts[m], g2[j].0@);
    assert(multiset_eq(g1[i].0@, g2[j].0@));
    crate::dice::lemma_sorted_multiset_eq(g1[i].0@, g2[j].0@);
    assert(0 <= j < g2.len() && g2[j].0@ == g1[i].0@ && g2[j].1 == g1[i].1);
}

/// Sum of `f` over all tuples of `ts`.
pub open spec fn sum_over(ts: Seq<Seq<u8>>, f: spec_fn(Seq<u8>) -> int) -> int
    decreases ts.len(),
{
    if ts.len() == 0 {
        0
    } else {
        sum_over(ts.drop_last(), f) + f(ts.last())
    }
}

/// Sum of the stored multiplicities of a histogram.
pub open spec fn sum_counts(g: Seq<(Dice, usize)>) -> int
    decreases g.len(),
{
    if g.len() == 0 {
        0
    } else {
        sum_counts(g.drop_last()) + g.last().1
    }
}

/// Sum of multiplicity-weighted `f` over the groups of a histogram.
pub open spec fn wsum(g: Seq<(Dice, usize)>, f: spec_fn(Seq<u8>) -> int) -> int
    decreases g.len(),
{
    if g.len() == 0 {
        0
    } else {
        wsum(g.drop_last(), f) + g.last().1 * f(g.last().0@)
    }
}

spec fn wsum_wrt(g: Seq<(Dice, usize)>, ts: Seq<Seq<u8>>, f: spec_fn(Seq<u8>) -> int) -> int
    decreases g.len(),
{
    if g.len() == 0 {
        0
    } else {
        wsum_wrt(g.drop_last(), ts, f) + count_matching(ts, g.last().0@) * f(g.last().0@)
    }
}

spec fn msum(g: Seq<(Dice, usize)>, t: Seq<u8>, f: spec_fn(Seq<u8>) -> int) -> int
    decreases g.len(),
{
    if g.len() == 0 {
        0
    } else {
        msum(g.drop_last(), t, f) + (if multiset_eq(t, g.last().0@) {
            f(g.last().0@)
        } else {
            0
        })
    }
}

proof fn lemma_wsum_eq(g: Seq<(Dice, usize)>, ts: Seq<Seq<u8>>, f: spec_fn(Seq<u8>) -> int)
    requires
        forall|i: int| 0 <= i < g.len() ==> (#[trigger] g[i]).1 == count_matching(ts, g[i].0@),
    ensures
        wsum(g, f) == wsum_wrt(g, ts, f),
    decreases g.len(),
{
    if g.len() > 0 {
        lemma_wsum_eq(g.drop_last(), ts, f);
        assert(g.last() == g[g.len() - 1]);
    }
}

proof fn lemma_wsum_wrt_empty(g: Seq<(Dice, usize)>, f: spec_fn(Seq<u8>) -> int)
    ensures
        wsum_wrt(g, Seq::<Seq<u8>>::empty(), f) == 0,
    decreases g.len(),
{
    if g.len() > 0 {
        lemma_wsum_wrt_empty(g.drop_last(), f);
        assert(count_matching(Seq::<Seq<u8>>::empty(), g.last().0@) == 0);
        assert(0 * f(g.last().0@) == 0) by (nonlinear_arith);
    }
}

proof fn lemma_wsum_wrt_step(
    g: Seq<(Dice, usize)>,
    ts: Seq<Seq<u8>>,
    t: Seq<u8>,
    f: spec_fn(Seq<u8>) -> int,
)
    ensures
        wsum_wrt(g, ts.push(t), f) == wsum_wrt(g, ts, f) + msum(g, t, f),
    decreases g.len(),
{
    if g.len() > 0 {
        lemma_wsum_wrt_step(g.drop_last(), ts, t, f);
        let h = g.last().0@;
        lemma_count_matching_push(ts, t, h);
        let c = count_matching(ts, h) as int;
        let y = f(h);
        if multiset_eq(t, h) {
            assert((c + 1) * y == c * y + y) by (nonlinear_arith);
        }
    }
}

proof fn lemma_msum_none(g: Seq<(Dice, usize)>, t: Seq<u8>, f: spec_fn(Seq<u8>) -> int)
    requires
        forall|i: int| 0 <= i < g.len() ==> !multiset_eq(t, (#[trigger] g[i]).0@),
    ensures
        msum(g, t, f) == 0,
    decreases g.len(),
{
    if g.len() > 0 {
        lemma_msum_none(g.drop_last(), t, f);
        assert(g.last() == g[g.len() - 1]);
    }
}

proof fn lemma_msum_unique(g: Seq<(Dice, usize)>, t: Seq<u8>, f: spec_fn(Seq<u8>) -> int)
    requires
        exists|i: int| 0 <= i < g.len() && multiset_eq(t, (#[trigger] g[i]).0@),
        forall|i: int, j: int|
            0 <= i < j < g.len() ==> !multiset_eq((#[trigger] g[i]).0@, (#[trigger] g[j]).0@),
        forall|x: Seq<u8>, y: Seq<u8>| multiset_eq(x, y) ==> #[trigger] f(x) == #[trigger] f(y),
    ensures
        msum(g, t, f) == f(t),
    decreases g.len(),
{
    let h = g.last().0@;
    if multiset_eq(t, h) {
        assert forall|i: int| 0 <= i < g.drop_last().len() implies !multiset_eq(
            t,
            (#[trigger] g.drop_last()[i]).0@,
        ) by {
            if multiset_eq(t, g[i].0@) {
                assert(multiset_eq(g[i].0@, g[g.len() - 1].0@));
                assert(false);
            }
        }
        lemma_msum_none(g.drop_last(), t, f);
        assert(f(t) == f(h));
    } else {
        let i = choose|i: int| 0 <= i < g.len() && multiset_eq(t, (#[trigger] g[i]).0@);
        assert(i < g.len() - 1);
        assert(multiset_eq(t, (g.drop_last()[i]).0@));
        lemma_msum_unique(g.drop_last(), t, f);
    }
}

/// A histogram whose groups are distinct, complete, and counted against the
/// tuple list sums any multiset-invariant quantity exactly as the raw tuple
/// list does.
pub proof fn lemma_group_sum(ts: Seq<Seq<u8>>, g: Seq<(Dice, usize)>, f: spec_fn(Seq<u8>) -> int)
    requires
        forall|i: int| 0 <= i < g.len() ==> (#[trigger] g[i]).1 == count_matching(ts, g[i].0@),
        forall|i: int, j: int|
            0 <= i < j < g.len() ==> !multiset_eq((#[trigger] g[i]).0@, (#[trigger] g[j]).0@),
        forall|m: int|
            0 <= m < ts.len() ==> exists|i: int|
                0 <= i < g.len() && multiset_eq(#[trigger] ts[m], g[i].0@),
        forall|x: Seq<u8>, y: Seq<u8>| multiset_eq(x, y) ==> #[trigger] f(x) == #[trigger] f(y),
    ensures
        wsum(g, f) == sum_over(ts, f),
{
    lemma_wsum_eq(g, ts, f);
    lemma_wsum_wrt_sum(ts, g, f);
}

proof fn lemma_wsum_wrt_sum(ts: Seq<Seq<u8>>, g: Seq<(Dice, usize)>, f: spec_fn(Seq<u8>) -> int)
    requires
        forall|i: int, j: int|
            0 <= i < j < g.len() ==> !multiset_eq((#[trigger] g[i]).0@, (#[trigger] g[j]).0@),
        forall|m: int|
            0 <= m < ts.len() ==> exists|i: int|
                0 <= i < g.len() && multiset_eq(#[trigger] ts[m], g[i].0@),
        forall|x: Seq<u8>, y: Seq<u8>| multiset_eq(x, y) ==> #[trigger] f(x) == #[trigger] f(y),
    ensures
        wsum_wrt(g, ts, f) == sum_over(ts, f),
    decreases ts.len(),
{
    if ts.len() == 0 {
        assert(ts =~= Seq::<Seq<u8>>::empty());
        lemma_wsum_wrt_empty(g, f);
    } else {
        let ts2 = ts.drop_last();
        let t = ts.last();
        assert(ts =~= ts2.push(t));
        assert forall|m: int| 0 <= m < ts2.len() implies exists|i: int|
            0 <= i < g.len() && multiset_eq(#[trigger] ts2[m], g[i].0@) by {
            assert(ts2[m] == ts[m]);
        }
        lemma_wsum_wrt_sum(ts2, g, f);
        lemma_wsum_wrt_step(g, ts2, t, f);
        assert(ts[ts.len() - 1] == t);
        lemma_msum_unique(g, t, f);
    }
}

proof fn lemma_wsum_const_one(g: Seq<(Dice, usize)>)
    ensures
        wsum(g, (|x: Seq<u8>| 1int)) == sum_counts(g),
    decreases g.len(),
{
    if g.len() > 0 {
        lemma_wsum_const_one(g.drop_last());
    }
}

proof fn lemma_sum_over_const_one(ts: Seq<Seq<u8>>)
    ensures
        sum_over(ts, (|x: Seq<u8>| 1int)) == ts.len(),
    decreases ts.len(),
{
    if ts.len() > 0 {
        lemma_sum_over_const_one(ts.drop_last());
    }
}

/// The six die faces in ascending order.
pub open spec fn face_seq() -> Seq<u8> {
    seq![1u8, 2u8, 3u8, 4u8, 5u8, 6u8]
}

/// The six die faces as a vector.
pub fn dice_faces() -> (r: Vec<u8>)
    ensures
        r@ == face_seq(),
{
    let mut r: Vec<u8> = Vec::new();
    r.push(1);
    r.push(2);
    r.push(3);
    r.push(4);
    r.push(5);
    r.push(6);
    proof {
        assert(r@ =~= face_seq());
    }
    r
}

/// `6^e` for the bounded exponents that a re-roll can need.
pub fn pow6(e: u8) -> (r: u64)
    requires
        e <= 5,
    ensures
        r == pow_nat(6, e as nat),
{
    proof {
        assert(pow_nat(6, 0) == 1);
        assert(pow_nat(6, 1) == 6);
        assert(pow_nat(6, 2) == 36);
        assert(pow_nat(6, 3) == 216);
        assert(pow_nat(6, 4) == 1296);
        assert(pow_nat(6, 5) == 7776);
    }
    if e == 0 {
        1
    } else if e == 1 {
        6
    } else if e == 2 {
        36
    } else if e == 3 {
        216
    } else if e == 4 {
        1296
    } else {
        7776
    }
}

/// All distinct outcomes of tossing `num_dice` fresh dice: each a sorted,
/// well-formed hand with its multiplicity among the `6^num_dice` equally
/// likely labeled rolls — and those multiplicities sum to exactly
/// `6^num_dice`.
pub fn all_tosses(num_dice: u8) -> (r: Vec<(Dice, usize)>)
    requires
        num_dice <= 5,
    ensures
        forall|i: int|
            0 <= i < r@.len() ==> sorted((#[trigger] r@[i]).0@) && r@[i].0@.len() == num_dice
                && valid_faces(r@[i].0@) && r@[i].1 == count_matching(
                spec_tuples(face_seq(), num_dice as nat),
                r@[i].0@,
            ) && r@[i].1 >= 1,
        forall|i: int, j: int|
            0 <= i < j < r@.len() ==> !multiset_eq((#[trigger] r@[i]).0@, (#[trigger] r@[j]).0@),
        forall|m: int|
            0 <= m < spec_tuples(face_seq(), num_dice as nat).len() ==> exists|i: int|
                0 <= i < r@.len() && multiset_eq(
                    #[trigger] spec_tuples(face_seq(), num_dice as nat)[m],
                    r@[i].0@,
                ),
        sum_counts(r@) == pow_nat(6, num_dice as nat),
{
    let faces = dice_faces();
    proof {
        assert(valid_faces(face_seq())) by {
            assert forall|i: int| 0 <= i < face_seq().len() implies 1 <= #[trigger] face_seq()[i]
                <= 6 by {
                if i == 0 {
                } else if i == 1 {
                } else if i == 2 {
                } else if i == 3 {
                } else if i == 4 {
                } else {
                }
            }
        }
    }
    let r = variations_with_repetition_hist(&faces, num_dice as usize);
    proof {
        let ts = spec_tuples(face_seq(), num_dice as nat);
        lemma_tuples_shape(face_seq(), num_dice as nat);
        let one = (|x: Seq<u8>| 1int);
        lemma_wsum_const_one(r@);
        lemma_sum_over_const_one(ts);
        lemma_group_sum(ts, r@, one);
    }
    r
}

} // verus!
