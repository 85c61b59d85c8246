//! The automated decision maker: a one-ply expectation heuristic that ranks
//! every keep candidate by the exact average of the best single-hand value
//! over all re-roll outcomes, and every open category by its boosted value.

use vstd::prelude::*;
use crate::dice::{
    count_eq, lemma_count_add, lemma_count_le_len, lemma_sub_multiset_faces,
    lemma_sub_multiset_len, lemma_sum_bound, lemma_take_all, lemma_take_step, sorted,
    sub_multiset, valid_faces, Dice,
};
use crate::order::hand_lt;
use crate::scorecard::Scorecard;
use crate::subsets::{in_list, subsets};
use crate::tosses::{
    all_tosses, count_matching, face_seq, lemma_count_matching_le, lemma_group_sum,
    lemma_tuples_shape, pow6, pow_nat, spec_tuples, sum_counts, sum_over, wsum,
};
use crate::types::{
    cat_index, cat_seq, lemma_cat_seq_index, spec_above_bonus, spec_is_upper, spec_qualifies,
    spec_score, Category, Entry, YahtzeeError,
};

verus! {

/// The automated player.
pub struct YahtzeeAI {
    name: String,
}

impl YahtzeeAI {
    /// The player's display name, abstractly.
    pub closed spec fn spec_name(self) -> Seq<char> {
        self.name@
    }

    /// A fresh automated player.
    pub fn new() -> (r: YahtzeeAI)
        ensures
            r.spec_name() == "KI"@,
    {
        YahtzeeAI { name: <String as vstd::string::StringExecFns>::from_str("KI") }
    }

    /// The player's display name.
    pub fn player_name(&self) -> (r: &str)
        ensures
            r@ == self.spec_name(),
    {
        self.name.as_str()
    }
}

/// The boosted worth of recording the value `v` into `c`: the raw value,
/// plus — while the upper bonus is still open and `c` is upper — its signed
/// distance from the three-dice par that secures the bonus.
pub open spec fn spec_entry_eval_v(sc: Scorecard, c: Category, v: u8) -> int {
    if spec_is_upper(c) && !sc.spec_bonus() {
        v + spec_above_bonus(c, v)
    } else {
        v as int
    }
}

/// The boosted worth of scoring the hand `s` into `c`.
pub open spec fn spec_entry_eval(sc: Scorecard, c: Category, s: Seq<u8>) -> int {
    spec_entry_eval_v(sc, c, (spec_score(c, s) as u8))
}

/// The best boosted value over the first `n` categories that are still open,
/// Chance excluded, floored at zero.
pub open spec fn spec_best_value(sc: Scorecard, s: Seq<u8>, n: int) -> int
    decreases n,
{
    if n <= 0 {
        0
    } else {
        let prev = spec_best_value(sc, s, n - 1);
        let c = cat_seq()[n - 1];
        if !sc.recorded(c) && c != Category::Chance && spec_entry_eval(sc, c, s) > prev {
            spec_entry_eval(sc, c, s)
        } else {
            prev
        }
    }
}

/// The best single-hand value of `s`: the highest boosted value over the
/// open categories other than Chance, or zero when none scores.
pub open spec fn spec_ev(sc: Scorecard, s: Seq<u8>) -> int {
    spec_best_value(sc, s, 13)
}

/// A score never exceeds fifty points.
pub proof fn lemma_score_bound(c: Category, s: Seq<u8>)
    requires
        s.len() <= 5,
        valid_faces(s),
    ensures
        spec_score(c, s) <= 50,
{
    lemma_count_le_len(s, 1);
    lemma_count_le_len(s, 2);
    lemma_count_le_len(s, 3);
    lemma_count_le_len(s, 4);
    lemma_count_le_len(s, 5);
    lemma_count_le_len(s, 6);
    lemma_sum_bound(s);
}

/// Boosted values stay within fixed bounds.
pub proof fn lemma_eval_bounds(sc: Scorecard, c: Category, s: Seq<u8>)
    requires
        s.len() <= 5,
        valid_faces(s),
    ensures
        -18 <= spec_entry_eval(sc, c, s) <= 100,
{
    lemma_score_bound(c, s);
}

/// The best single-hand value stays within fixed bounds.
proof fn lemma_best_value_bounds(sc: Scorecard, s: Seq<u8>, n: int)
    requires
        s.len() <= 5,
        valid_faces(s),
        0 <= n <= 13,
    ensures
        0 <= spec_best_value(sc, s, n) <= 100,
    decreases n,
{
    if n > 0 {
        lemma_best_value_bounds(sc, s, n - 1);
        lemma_eval_bounds(sc, cat_seq()[n - 1], s);
    }
}

/// Scoring sees only the multiset of a hand, never its order.
proof fn lemma_score_multiset(c: Category, a: Seq<u8>, b: Seq<u8>)
    requires
        crate::dice::multiset_eq(a, b),
    ensures
        spec_qualifies(c, a) == spec_qualifies(c, b),
        spec_score(c, a) == spec_score(c, b),
{
    crate::dice::lemma_sum_multiset_eq(a, b);
}

/// The best single-hand value sees only the multiset of a hand.
proof fn lemma_ev_multiset(sc: Scorecard, a: Seq<u8>, b: Seq<u8>, n: int)
    requires
        crate::dice::multiset_eq(a, b),
        0 <= n <= 13,
    ensures
        spec_best_value(sc, a, n) == spec_best_value(sc, b, n),
    decreases n,
{
    if n > 0 {
        lemma_ev_multiset(sc, a, b, n - 1);
        lemma_score_multiset(cat_seq()[n - 1], a, b);
    }
}

/// The boosted worth of an already scored entry.
pub fn evaluate_entry(sc: &Scorecard, entry: &Entry) -> (r: i32)
    requires
        sc.wf(),
    ensures
        r == spec_entry_eval_v(*sc, entry.0, entry.1),
{
    let value = entry.1 as i32;
    if entry.0.is_upper() && !sc.has_bonus() {
        value + crate::types::entry_upper_above_bonus(entry)
    } else {
        value
    }
}

/// The best boosted value the hand can still score into an open category,
/// Chance excluded, floored at zero.
pub fn evaluate_value(sc: &Scorecard, dice: &Dice) -> (r: i32)
    requires
        sc.wf(),
        dice@.len() <= 5,
        valid_faces(dice@),
    ensures
        r == spec_ev(*sc, dice@),
        0 <= r <= 100,
{
    let cats = Category::into_iter();
    let mut max: i32 = 0;
    let mut i: usize = 0;
    proof {
        lemma_cat_seq_index();
    }
    while i < cats.len()
        invariant
            cats@ == cat_seq(),
            cat_seq().len() == 13,
            0 <= i <= 13,
            sc.wf(),
            dice@.len() <= 5,
            valid_faces(dice@),
            max == spec_best_value(*sc, dice@, i as int),
            0 <= max <= 100,
        decreases 13 - i,
    {
        let c = cats[i];
        if !sc.has(c) && !matches!(c, Category::Chance) {
            let entry = crate::types::entry_of_category(dice, c);
            let value = evaluate_entry(sc, &entry);
            proof {
                lemma_eval_bounds(*sc, c, dice@);
            }
            if value > max {
                max = value;
            }
        }
        i = i + 1;
    }
    max
}

/// The numerator of the one-ply estimate for keeping `keep`: the hand's own
/// best value plus the multiplicity-weighted best value over every re-roll
/// outcome of the tossed dice.
pub open spec fn spec_keep_num(sc: Scorecard, hand: Seq<u8>, keep: Seq<u8>) -> int {
    spec_ev(sc, hand) + sum_over(
        spec_tuples(face_seq(), (5 - keep.len()) as nat),
        |t: Seq<u8>| spec_ev(sc, keep + t),
    )
}

/// The denominator of the one-ply estimate: one more than the number of
/// labeled re-roll outcomes, the deliberate over-count of the heuristic.
pub open spec fn spec_keep_den(keep: Seq<u8>) -> int {
    pow_nat(6, (5 - keep.len()) as nat) + 1int
}

/// Whether keeping `a` estimates at least as high as keeping `b`, compared
/// exactly by cross-multiplied rationals.
pub open spec fn keep_at_least(sc: Scorecard, hand: Seq<u8>, a: Seq<u8>, b: Seq<u8>) -> bool {
    spec_keep_num(sc, hand, a) * spec_keep_den(b) >= spec_keep_num(sc, hand, b) * spec_keep_den(a)
}

/// Powers of six stay under `6^5` for bounded exponents.
proof fn lemma_pow6_bound(e: nat)
    requires
        e <= 5,
    ensures
        1 <= pow_nat(6, e) <= 7776,
{
    assert(pow_nat(6, 0) == 1);
    assert(pow_nat(6, 1) == 6);
    assert(pow_nat(6, 2) == 36);
    assert(pow_nat(6, 3) == 216);
    assert(pow_nat(6, 4) == 1296);
    assert(pow_nat(6, 5) == 7776);
}

/// The estimate denominator for one keep.
fn keep_den(keep: &Dice) -> (r: u64)
    requires
        keep@.len() <= 5,
    ensures
        r == spec_keep_den(keep@),
        2 <= r <= 7777,
{
    proof {
        lemma_pow6_bound((5 - keep@.len()) as nat);
    }
    pow6((5 - keep.len()) as u8) + 1
}

/// The estimate numerator for one keep, computed exactly over the grouped
/// re-roll outcomes.
#[verifier::loop_isolation(false)]
fn keep_numerator(sc: &Scorecard, dice: &Dice, keep: &Dice) -> (r: u64)
    requires
        sc.wf(),
        dice@.len() <= 5,
        valid_faces(dice@),
        sub_multiset(keep@, dice@),
    ensures
        r == spec_keep_num(*sc, dice@, keep@),
        r <= 800000,
{
    proof {
        lemma_sub_multiset_len(keep@, dice@);
        lemma_sub_multiset_faces(keep@, dice@);
    }
    let base = evaluate_value(sc, dice);
    let k: u8 = (5 - keep.len()) as u8;
    let tosses = all_tosses(k);
    let ghost tt = spec_tuples(face_seq(), k as nat);
    let ghost fev: spec_fn(Seq<u8>) -> int = |t: Seq<u8>| spec_ev(*sc, keep@ + t);
    proof {
        lemma_tuples_shape(face_seq(), k as nat);
        lemma_pow6_bound(k as nat);
    }
    let mut acc: u64 = base as u64;
    let mut i: usize = 0;
    while i < tosses.len()
        invariant
            0 <= i <= tosses@.len(),
            acc == base + wsum(tosses@.take(i as int), fev),
            acc <= 100 + 100 * sum_counts(tosses@.take(i as int)),
            sum_counts(tosses@.take(i as int)) <= 7776,
        decreases tosses@.len() - i,
    {
        let ghost pre = tosses@.take(i as int);
        let times = tosses[i].1;
        let mut future = keep.clone();
        let mut fresh = tosses[i].0.clone();
        future.append(&mut fresh);
        proof {
            assert(future@ == keep@ + tosses@[i as int].0@);
            assert(valid_faces(future@)) by {
                assert forall|m: int| 0 <= m < future@.len() implies 1 <= #[trigger] future@[m]
                    <= 6 by {
                    if m < keep@.len() {
                        assert(future@[m] == keep@[m]);
                    } else {
                        assert(future@[m] == tosses@[i as int].0@[m - keep@.len()]);
                    }
                }
            }
        }
        let ev = evaluate_value(sc, &future);
        proof {
            lemma_take_step(tosses@, i as int);
            assert(tosses@.take(i as int + 1) =~= pre.push(tosses@[i as int]));
            assert(pre.push(tosses@[i as int]).drop_last() =~= pre);
            assert(fev(tosses@[i as int].0@) == ev);
            lemma_count_matching_le(tt, tosses@[i as int].0@);
            assert(times <= 7776);
            assert(times * ev <= times * 100) by (nonlinear_arith)
                requires
                    0 <= ev <= 100,
                    0 <= times,
            ;
            assert(times * 100 <= 7776 * 100) by (nonlinear_arith)
                requires
                    times <= 7776,
            ;
            // The groups seen so far never hold more weight than all tuples.
            lemma_sum_counts_step(pre, tosses@[i as int]);
            assert(sum_counts(tosses@.take(i as int + 1)) <= 7776) by {
                lemma_sum_counts_all(tosses@, tt, i as int + 1);
            }
        }
        acc = acc + (times as u64) * (ev as u64);
        i = i + 1;
    }
    proof {
        lemma_take_all(tosses@);
        assert forall|x: Seq<u8>, y: Seq<u8>| crate::dice::multiset_eq(x, y) implies #[trigger] fev(
            x,
        ) == #[trigger] fev(y) by {
            assert forall|v: u8| count_eq(keep@ + x, v) == count_eq(keep@ + y, v) by {
                lemma_count_add(keep@, x, v);
                lemma_count_add(keep@, y, v);
            }
            lemma_ev_multiset(*sc, keep@ + x, keep@ + y, 13);
        }
        lemma_group_sum(tt, tosses@, fev);
    }
    acc
}

/// One histogram step adds exactly its own multiplicity.
proof fn lemma_sum_counts_step(g: Seq<(Dice, usize)>, p: (Dice, usize))
    ensures
        sum_counts(g.push(p)) == sum_counts(g) + p.1,
{
    assert(g.push(p).drop_last() =~= g);
}

/// A prefix of a histogram of distinct groups counted against `tt` weighs at
/// most all of `tt`.
proof fn lemma_sum_counts_all(g: Seq<(Dice, usize)>, tt: Seq<Seq<u8>>, n: int)
    requires
        0 <= n <= g.len(),
        forall|i: int|
            0 <= i < g.len() ==> (#[trigger] g[i]).1 == count_matching(tt, g[i].0@),
        forall|i: int, j: int|
            0 <= i < j < g.len() ==> !crate::dice::multiset_eq(
                (#[trigger] g[i]).0@,
                (#[trigger] g[j]).0@,
            ),
        forall|m: int|
            0 <= m < tt.len() ==> exists|i: int|
                0 <= i < g.len() && crate::dice::multiset_eq(#[trigger] tt[m], g[i].0@),
    ensures
        sum_counts(g.take(n)) <= tt.len(),
{
    lemma_sum_counts_prefix(g, n);
    let one = (|x: Seq<u8>| 1int);
    assert forall|x: Seq<u8>, y: Seq<u8>| crate::dice::multiset_eq(x, y) implies #[trigger] one(x)
        == #[trigger] one(y) by {}
    lemma_group_sum(tt, g, one);
    lemma_wsum_is_counts(g);
    lemma_sum_over_is_len(tt);
}

/// The constant-one weighted sum of a histogram is the sum of its counts.
proof fn lemma_wsum_is_counts(g: Seq<(Dice, usize)>)
    ensures
        wsum(g, (|x: Seq<u8>| 1int)) == sum_counts(g),
    decreases g.len(),
{
    if g.len() > 0 {
        lemma_wsum_is_counts(g.drop_last());
    }
}

/// The constant-one sum over tuples is their number.
proof fn lemma_sum_over_is_len(ts: Seq<Seq<u8>>)
    ensures
        sum_over(ts, (|x: Seq<u8>| 1int)) == ts.len(),
    decreases ts.len(),
{
    if ts.len() > 0 {
        lemma_sum_over_is_len(ts.drop_last());
    }
}

/// Counts are never negative, so a prefix sum never exceeds the whole.
proof fn lemma_sum_counts_prefix(g: Seq<(Dice, usize)>, n: int)
    requires
        0 <= n <= g.len(),
    ensures
        sum_counts(g.take(n)) <= sum_counts(g),
        sum_counts(g.take(n)) >= 0,
    decreases g.len() - n,
{
    if n == g.len() {
        assert(g.take(n) =~= g);
        lemma_sum_counts_nonneg(g);
    } else {
        lemma_sum_counts_prefix(g, n + 1);
        lemma_take_step(g, n);
        assert(g.take(n + 1) =~= g.take(n).push(g[n]));
        lemma_sum_counts_step(g.take(n), g[n]);
        lemma_sum_counts_nonneg(g.take(n));
    }
}

/// A sum of machine counts is never negative.
proof fn lemma_sum_counts_nonneg(g: Seq<(Dice, usize)>)
    ensures
        sum_counts(g) >= 0,
    decreases g.len(),
{
    if g.len() > 0 {
        lemma_sum_counts_nonneg(g.drop_last());
    }
}

/// Cross-multiplied comparison chains through a strictly better candidate.
proof fn lemma_ratio_chain(a: int, b: int, c: int, d: int, e: int, f: int)
    requires
        a * d > c * b,
        c * f >= e * d,
        b >= 1,
        d >= 1,
        f >= 1,
    ensures
        a * f > e * b,
{
    assert(a * d * f > c * b * f) by (nonlinear_arith)
        requires
            a * d > c * b,
            f >= 1,
    ;
    assert(c * f * b >= e * d * b) by (nonlinear_arith)
        requires
            c * f >= e * d,
            b >= 1,
    ;
    assert(c * b * f == c * f * b) by (nonlinear_arith);
    assert(a * d * f == a * f * d && e * d * b == e * b * d) by (nonlinear_arith);
    assert(a * f * d > e * b * d);
    assert(a * f > e * b) by (nonlinear_arith)
        requires
            a * f * d > e * b * d,
            d >= 1,
    ;
}

/// Choose the keep with the highest one-ply estimate: the hand to hold back
/// before re-rolling the rest. Among equal estimates the candidate that
/// comes first in the canonical enumeration order wins.
#[allow(unused_variables)]
#[verifier::loop_isolation(false)]
pub fn choose_keep(sc: &Scorecard, remaining_tosses: u8, dice: &Dice) -> (r: Result<
    Dice,
    YahtzeeError,
>)
    requires
        sc.wf(),
        sorted(dice@),
        valid_faces(dice@),
    ensures
        (r is Ok) <==> dice@.len() <= 5,
        r matches Err(e) ==> e == YahtzeeError::InvalidHandLength,
        r matches Ok(k) ==> sorted(k@) && sub_multiset(k@, dice@) && (forall|w: Seq<u8>|
            sorted(w) && #[trigger] sub_multiset(w, dice@) ==> keep_at_least(*sc, dice@, k@, w)) && (
        forall|w: Seq<u8>|
            sorted(w) && #[trigger] sub_multiset(w, dice@) && w != k@ && keep_at_least(
                *sc,
                dice@,
                w,
                k@,
            ) ==> hand_lt(k@, w)),
{
    if dice.len() > 5 {
        return Err(YahtzeeError::InvalidHandLength);
    }
    let cands = subsets(dice);
    proof {
        lemma_sub_multiset_len(cands@[0]@, dice@);
    }
    let mut best_idx: usize = 0;
    let mut best_num: u64 = keep_numerator(sc, dice, &cands[0]);
    let mut best_den: u64 = keep_den(&cands[0]);
    let mut i: usize = 1;
    while i < cands.len()
        invariant
            0 <= best_idx < i,
            1 <= i <= cands@.len(),
            best_num == spec_keep_num(*sc, dice@, cands@[best_idx as int]@),
            best_den == spec_keep_den(cands@[best_idx as int]@),
            best_num <= 800000,
            2 <= best_den <= 7777,
            forall|j: int|
                0 <= j < i ==> keep_at_least(
                    *sc,
                    dice@,
                    cands@[best_idx as int]@,
                    #[trigger] cands@[j]@,
                ),
            forall|j: int|
                0 <= j < best_idx ==> !keep_at_least(
                    *sc,
                    dice@,
                    #[trigger] cands@[j]@,
                    cands@[best_idx as int]@,
                ),
        decreases cands@.len() - i,
    {
        proof {
            lemma_sub_multiset_len(cands@[i as int]@, dice@);
        }
        let num_i = keep_numerator(sc, dice, &cands[i]);
        let den_i = keep_den(&cands[i]);
        proof {
            assert(num_i * best_den <= 800000 * 7777) by (nonlinear_arith)
                requires
                    num_i <= 800000,
                    best_den <= 7777,
            ;
            assert(best_num * den_i <= 800000 * 7777) by (nonlinear_arith)
                requires
                    best_num <= 800000,
                    den_i <= 7777,
            ;
        }
        if num_i * best_den > best_num * den_i {
            proof {
                let ghost old_best = best_idx as int;
                assert forall|j: int| 0 <= j < i implies !keep_at_least(
                    *sc,
                    dice@,
                    #[trigger] cands@[j]@,
                    cands@[i as int]@,
                ) by {
                    lemma_ratio_chain(
                        spec_keep_num(*sc, dice@, cands@[i as int]@),
                        spec_keep_den(cands@[i as int]@),
                        spec_keep_num(*sc, dice@, cands@[old_best]@),
                        spec_keep_den(cands@[old_best]@),
                        spec_keep_num(*sc, dice@, cands@[j]@),
                        spec_keep_den(cands@[j]@),
                    );
                }
            }
            best_idx = i;
            best_num = num_i;
            best_den = den_i;
        }
        i = i + 1;
    }
    let k = cands[best_idx].clone();
    proof {
        assert forall|w: Seq<u8>| sorted(w) && #[trigger] sub_multiset(w, dice@) implies
            keep_at_least(*sc, dice@, k@, w) by {
            assert(in_list(cands@, w));
            let j = choose|j: int| 0 <= j < cands@.len() && cands@[j]@ == w;
            assert(keep_at_least(*sc, dice@, cands@[best_idx as int]@, cands@[j]@));
        }
        assert forall|w: Seq<u8>|
            sorted(w) && #[trigger] sub_multiset(w, dice@) && w != k@ && keep_at_least(
                *sc,
                dice@,
                w,
                k@,
            ) implies hand_lt(k@, w) by {
            assert(in_list(cands@, w));
            let j = choose|j: int| 0 <= j < cands@.len() && cands@[j]@ == w;
            if j < best_idx {
                assert(!keep_at_least(*sc, dice@, cands@[j]@, cands@[best_idx as int]@));
                assert(false);
            } else if j == best_idx {
                assert(false);
            } else {
                assert(hand_lt(cands@[best_idx as int]@, cands@[j]@));
            }
        }
    }
    Ok(k)
}

/// Choose the open category whose boosted value for the final hand is
/// highest; among equal values the category earliest in the fixed order
/// wins. Fails only when every category has already been recorded.
#[verifier::loop_isolation(false)]
pub fn choose_category(sc: &Scorecard, dice: &Dice) -> (r: Result<Category, YahtzeeError>)
    requires
        sc.wf(),
        dice@.len() <= 5,
        valid_faces(dice@),
    ensures
        (r is Err) <==> sc.all_recorded(),
        r matches Err(e) ==> e == YahtzeeError::NoCategoryAvailable,
        r matches Ok(c) ==> !sc.recorded(c) && (forall|c2: Category|
            !sc.recorded(c2) ==> spec_entry_eval(*sc, c, dice@) >= spec_entry_eval(
                *sc,
                c2,
                dice@,
            )) && (forall|c2: Category|
            !sc.recorded(c2) && spec_entry_eval(*sc, c2, dice@) == spec_entry_eval(*sc, c, dice@)
                ==> cat_index(c) <= cat_index(c2)),
{
    proof {
        lemma_cat_seq_index();
        lemma_cat_at_own_index();
    }
    let cats = Category::into_iter();
    let mut best: Option<(Category, i32)> = None;
    let mut i: usize = 0;
    while i < cats.len()
        invariant
            0 <= i <= 13,
            best is None ==> forall|n: int| 0 <= n < i ==> sc.recorded(#[trigger] cat_seq()[n]),
            best matches Some(p) ==> {
                &&& !sc.recorded(p.0)
                &&& p.1 == spec_entry_eval(*sc, p.0, dice@)
                &&& 0 <= cat_index(p.0) < i
                &&& forall|n: int|
                    0 <= n < i && !sc.recorded(#[trigger] cat_seq()[n]) ==> p.1 >= spec_entry_eval(
                        *sc,
                        cat_seq()[n],
                        dice@,
                    )
                &&& forall|n: int|
                    0 <= n < cat_index(p.0) && !sc.recorded(#[trigger] cat_seq()[n])
                        ==> p.1 > spec_entry_eval(*sc, cat_seq()[n], dice@)
            },
        decreases 13 - i,
    {
        let c = cats[i];
        if !sc.has(c) {
            let entry = crate::types::entry_of_category(dice, c);
            let value = evaluate_entry(sc, &entry);
            let better: bool = match best {
                Some(p) => value > p.1,
                None => true,
            };
            if better {
                best = Some((c, value));
            }
        }
        i = i + 1;
    }
    match best {
        Some(p) => {
            proof {
                assert forall|c2: Category| !sc.recorded(c2) implies spec_entry_eval(
                    *sc,
                    p.0,
                    dice@,
                ) >= spec_entry_eval(*sc, c2, dice@) by {
                    assert(cat_seq()[cat_index(c2)] == c2);
                }
                assert forall|c2: Category|
                    !sc.recorded(c2) && spec_entry_eval(*sc, c2, dice@) == spec_entry_eval(
                        *sc,
                        p.0,
                        dice@,
                    ) implies cat_index(p.0) <= cat_index(c2) by {
                    assert(cat_seq()[cat_index(c2)] == c2);
                }
            }
            Ok(p.0)
        },
        None => {
            proof {
                assert forall|c: Category| sc.recorded(c) by {
                    assert(cat_seq()[cat_index(c)] == c);
                    assert(sc.recorded(cat_seq()[cat_index(c)]));
                }
            }
            Err(YahtzeeError::NoCategoryAvailable)
        },
    }
}

impl crate::player::Player for YahtzeeAI {
    /// The automated keep decision: the candidate with the best one-ply
    /// estimate, first in canonical order among ties.
    fn decide_keep(&self, result: &Scorecard, remaining_tosses: u8, dice: &Dice) -> (r: Dice) {
        match choose_keep(result, remaining_tosses, dice) {
            Ok(k) => k,
            Err(_) => {
                proof {
                    assert(false);
                }
                Vec::new()
            },
        }
    }

    /// The automated category decision: the open category with the highest
    /// boosted value, earliest in the fixed order among ties.
    fn decide_entry(&self, result: &Scorecard, dice: &Dice) -> (r: Entry) {
        match choose_category(result, dice) {
            Ok(c) => crate::types::entry_of_category(dice, c),
            Err(_) => {
                proof {
                    assert(false);
                }
                (Category::Chance, 0)
            },
        }
    }

    fn name(&self) -> &str {
        self.name.as_str()
    }
}

/// Every category sits at its own index of the fixed order.
proof fn lemma_cat_at_own_index()
    ensures
        forall|c: Category| #[trigger] cat_seq()[cat_index(c)] == c,
{
    assert forall|c: Category| #[trigger] cat_seq()[cat_index(c)] == c by {
        match c {
            Category::Ones => assert(cat_seq()[0] == Category::Ones),
            Category::Twos => assert(cat_seq()[1] == Category::Twos),
            Category::Threes => assert(cat_seq()[2] == Category::Threes),
            Category::Fours => assert(cat_seq()[3] == Category::Fours),
            Category::Fives => assert(cat_seq()[4] == Category::Fives),
            Category::Sixes => assert(cat_seq()[5] == Category::Sixes),
            Category::ThreeOfAKind => assert(cat_seq()[6] == Category::ThreeOfAKind),
            Category::FourOfAKind => assert(cat_seq()[7] == Category::FourOfAKind),
            Category::FullHouse => assert(cat_seq()[8] == Category::FullHouse),
            Category::SmallStraight => assert(cat_seq()[9] == Category::SmallStraight),
            Category::LargeStraight => assert(cat_seq()[10] == Category::LargeStraight),
            Category::Yahtzee => assert(cat_seq()[11] == Category::Yahtzee),
            Category::Chance => assert(cat_seq()[12] == Category::Chance),
        }
    }
}

} // verus!
