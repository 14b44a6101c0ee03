//! How a tip is divided among a jar's recipients.
//!
//! Each recipient but the last receives `amount * bps / 10_000`, rounded
//! down; the last receives whatever is left, so no rounding dust is lost.
//! Shares of zero are not transferred at all.

use vstd::prelude::*;

use crate::splits::{bps_in_range, bps_sum, recipients_distinct, valid_splits};
use crate::types::{splits_view, Payment, Split, payments_view, BPS_DENOM};

verus! {

/// The rounded-down share of `amount` that `bps` basis points make.
pub open spec fn floor_share(amount: int, bps: u32) -> int {
    (amount * bps) / (BPS_DENOM as int)
}

/// The rounded-down shares of the first `k` entries, summed.
pub open spec fn prefix_floor(t: Seq<(Seq<u8>, u32)>, amount: int, k: int) -> int
    decreases k,
{
    if k <= 0 {
        0
    } else {
        prefix_floor(t, amount, k - 1) + floor_share(amount, t[k - 1].1)
    }
}

/// The share of entry `i`: its rounded-down share, or for the last entry the
/// amount less everything handed out before it.
pub open spec fn share_at(t: Seq<(Seq<u8>, u32)>, amount: int, i: int) -> int {
    if i == t.len() - 1 {
        amount - prefix_floor(t, amount, i)
    } else {
        floor_share(amount, t[i].1)
    }
}

/// The transfers for the first `k` entries, in order: one per entry whose
/// share is positive.
pub open spec fn payments_upto(t: Seq<(Seq<u8>, u32)>, amount: int, k: int) -> Seq<(Seq<u8>, int)>
    decreases k,
{
    if k <= 0 {
        Seq::empty()
    } else if share_at(t, amount, k - 1) > 0 {
        payments_upto(t, amount, k - 1).push((t[k - 1].0, share_at(t, amount, k - 1)))
    } else {
        payments_upto(t, amount, k - 1)
    }
}

/// The transfers a tip of `amount` makes over the splits `t`.
pub open spec fn planned_payments(t: Seq<(Seq<u8>, u32)>, amount: int) -> Seq<(Seq<u8>, int)> {
    payments_upto(t, amount, t.len() as int)
}

/// The sum of a list of transfers.
pub open spec fn payments_total(p: Seq<(Seq<u8>, int)>) -> int
    decreases p.len(),
{
    if p.len() == 0 {
        0
    } else {
        payments_total(p.drop_last()) + p.last().1
    }
}

/// The tip's arithmetic stays within `i128`: every product `amount * bps`
/// that is computed fits, and so does the running total of the shares.
pub open spec fn payments_fit(t: Seq<(Seq<u8>, u32)>, amount: int) -> bool {
    &&& forall|i: int| 0 <= i < t.len() - 1 ==> amount * (#[trigger] t[i].1) <= i128::MAX
    &&& prefix_floor(t, amount, t.len() - 1) <= i128::MAX
}

proof fn lemma_floor_share_nonneg(amount: int, bps: u32)
    requires
        amount >= 0,
    ensures
        floor_share(amount, bps) >= 0,
        floor_share(amount, bps) <= amount * bps,
{
    assert(amount * bps >= 0) by (nonlinear_arith)
        requires
            amount >= 0,
            bps >= 0,
    ;
}

/// The running total of rounded-down shares never decreases.
proof fn lemma_prefix_floor_monotone(t: Seq<(Seq<u8>, u32)>, amount: int, a: int, b: int)
    requires
        amount >= 0,
        0 <= a <= b <= t.len(),
    ensures
        0 <= prefix_floor(t, amount, a) <= prefix_floor(t, amount, b),
    decreases b - a,
{
    if a < b {
        lemma_prefix_floor_monotone(t, amount, a, b - 1);
        lemma_floor_share_nonneg(amount, t[b - 1].1);
    } else {
        lemma_prefix_floor_nonneg(t, amount, a);
    }
}

proof fn lemma_prefix_floor_nonneg(t: Seq<(Seq<u8>, u32)>, amount: int, k: int)
    requires
        amount >= 0,
        0 <= k <= t.len(),
    ensures
        0 <= prefix_floor(t, amount, k),
    decreases k,
{
    if k > 0 {
        lemma_prefix_floor_nonneg(t, amount, k - 1);
        lemma_floor_share_nonneg(amount, t[k - 1].1);
    }
}

/// Rounding down loses less than one unit per entry:
/// `10_000 * prefix_floor(k) <= amount * bps_sum(first k) <= 10_000 * prefix_floor(k) + 9_999 * k`.
proof fn lemma_prefix_floor_bounds(t: Seq<(Seq<u8>, u32)>, amount: int, k: int)
    requires
        amount >= 0,
        0 <= k <= t.len(),
    ensures
        BPS_DENOM * prefix_floor(t, amount, k) <= amount * bps_sum(t.take(k)),
        amount * bps_sum(t.take(k)) <= BPS_DENOM * prefix_floor(t, amount, k) + 9_999 * k,
    decreases k,
{
    if k == 0 {
        assert(t.take(0) =~= Seq::<(Seq<u8>, u32)>::empty());
    } else {
        lemma_prefix_floor_bounds(t, amount, k - 1);
        assert(t.take(k).drop_last() =~= t.take(k - 1));
        let b = t[k - 1].1;
        let s0 = bps_sum(t.take(k - 1));
        assert(bps_sum(t.take(k)) == s0 + b);
        let x = amount * b;
        assert(amount * (s0 + b) == amount * s0 + x) by (nonlinear_arith)
            requires
                x == amount * b,
        ;
        assert(x >= 0) by (nonlinear_arith)
            requires
                amount >= 0,
                b >= 0,
                x == amount * b,
        ;
        let f = x / 10_000;
        assert(10_000 * f <= x <= 10_000 * f + 9_999);
    }
}

/// With valid splits and a positive amount, the shares handed out before the
/// last entry total less than the amount.
proof fn lemma_before_last_below_amount(t: Seq<(Seq<u8>, u32)>, amount: int)
    requires
        valid_splits(t),
        amount > 0,
    ensures
        prefix_floor(t, amount, t.len() - 1) < amount,
{
    let n = t.len() as int;
    lemma_prefix_floor_bounds(t, amount, n - 1);
    assert(t.take(n) =~= t);
    assert(t.take(n).drop_last() =~= t.take(n - 1));
    let b = t[n - 1].1;
    assert(bps_in_range(b));
    let s = bps_sum(t.take(n - 1));
    assert(s == BPS_DENOM - b);
    assert(amount * s <= 9_999 * amount) by (nonlinear_arith)
        requires
            amount > 0,
            s <= 9_999,
    ;
}

/// The transfers before the last entry add up to the rounded-down shares.
proof fn lemma_total_upto(t: Seq<(Seq<u8>, u32)>, amount: int, k: int)
    requires
        amount >= 0,
        0 <= k < t.len(),
    ensures
        payments_total(payments_upto(t, amount, k)) == prefix_floor(t, amount, k),
    decreases k,
{
    if k > 0 {
        lemma_total_upto(t, amount, k - 1);
        lemma_floor_share_nonneg(amount, t[k - 1].1);
        let p = payments_upto(t, amount, k - 1);
        if share_at(t, amount, k - 1) > 0 {
            let q = p.push((t[k - 1].0, share_at(t, amount, k - 1)));
            assert(q.drop_last() =~= p);
        }
    }
}

/// Every planned transfer goes to a recipient among the first `k` entries,
/// and carries a positive amount.
proof fn lemma_payments_upto_shape(t: Seq<(Seq<u8>, u32)>, amount: int, k: int)
    requires
        0 <= k <= t.len(),
    ensures
        payments_upto(t, amount, k).len() <= k,
        forall|j: int|
            0 <= j < payments_upto(t, amount, k).len() ==> {
                &&& (#[trigger] payments_upto(t, amount, k)[j]).1 > 0
                &&& exists|i: int| 0 <= i < k && t[i].0 == payments_upto(t, amount, k)[j].0
            },
        recipients_distinct(t) ==> forall|a: int, b: int|
            0 <= a < b < payments_upto(t, amount, k).len() ==> payments_upto(t, amount, k)[a].0
                != payments_upto(t, amount, k)[b].0,
    decreases k,
{
    if k > 0 {
        lemma_payments_upto_shape(t, amount, k - 1);
        let p = payments_upto(t, amount, k - 1);
        if share_at(t, amount, k - 1) > 0 {
            let q = payments_upto(t, amount, k);
            assert(q == p.push((t[k - 1].0, share_at(t, amount, k - 1))));
            assert forall|j: int| 0 <= j < q.len() implies {
                &&& (#[trigger] q[j]).1 > 0
                &&& exists|i: int| 0 <= i < k && t[i].0 == q[j].0
            } by {
                if j < p.len() {
                    assert(q[j] == p[j]);
                    let i = choose|i: int| 0 <= i < k - 1 && t[i].0 == p[j].0;
                } else {
                    assert(t[k - 1].0 == q[j].0);
                }
            }
            if recipients_distinct(t) {
                assert forall|a: int, b: int| 0 <= a < b < q.len() implies q[a].0 != q[b].0 by {
                    if b < p.len() {
                        assert(q[a] == p[a] && q[b] == p[b]);
                    } else {
                        assert(q[a] == p[a]);
                        assert(p[a].1 > 0);
                        let i = choose|i: int| 0 <= i < k - 1 && t[i].0 == p[a].0;
                    }
                }
            }
        }
    }
}

/// Whether a tip of `amount` over `splits` stays within `i128`.
pub fn tip_fits(splits: &Vec<Split>, amount: i128) -> (r: bool)
    requires
        amount > 0,
    ensures
        r == payments_fit(splits_view(splits@), amount as int),
{
    let ghost t = splits_view(splits@);
    let n = splits.len();
    if n == 0 {
        return true;
    }
    let mut distributed: i128 = 0;
    let mut i: usize = 0;
    while i < n - 1
        invariant
            t == splits_view(splits@),
            n == t.len(),
            n >= 1,
            amount > 0,
            i <= n - 1,
            forall|k: int| 0 <= k < i ==> amount * (#[trigger] t[k].1) <= i128::MAX,
            distributed == prefix_floor(t, amount as int, i as int),
            distributed >= 0,
        decreases n - 1 - i,
    {
        let bps = splits[i].bps;
        assert(t[i as int].1 == bps);
        let product = match amount.checked_mul(bps as i128) {
            Some(p) => p,
            None => {
                assert(amount * t[i as int].1 > i128::MAX);
                return false;
            },
        };
        let share = product / (BPS_DENOM as i128);
        proof {
            lemma_floor_share_nonneg(amount as int, bps);
        }
        distributed = match distributed.checked_add(share) {
            Some(d) => d,
            None => {
                proof {
                    lemma_prefix_floor_monotone(t, amount as int, i + 1, n - 1);
                }
                return false;
            },
        };
        i = i + 1;
    }
    true
}

/// The transfers a tip of `amount` makes over `splits`, in split order: each
/// entry but the last gets `amount * bps / 10_000` rounded down, the last gets
/// the remainder, and shares of zero are skipped.
pub fn compute_payments(splits: &Vec<Split>, amount: i128) -> (r: Vec<Payment>)
    requires
        amount > 0,
        payments_fit(splits_view(splits@), amount as int),
    ensures
        payments_view(r@) == planned_payments(splits_view(splits@), amount as int),
{
    let ghost t = splits_view(splits@);
    let n = splits.len();
    let mut distributed: i128 = 0;
    let mut out: Vec<Payment> = Vec::new();
    let mut i: usize = 0;
    while i < n
        invariant
            t == splits_view(splits@),
            n == t.len(),
            amount > 0,
            payments_fit(t, amount as int),
            i <= n,
            i < n ==> distributed == prefix_floor(t, amount as int, i as int),
            payments_view(out@) == payments_upto(t, amount as int, i as int),
        decreases n - i,
    {
        proof {
            lemma_prefix_floor_monotone(t, amount as int, i as int, n - 1);
        }
        let bps = splits[i].bps;
        let share: i128 = if i == n - 1 {
            amount - distributed
        } else {
            assert(amount * t[i as int].1 <= i128::MAX);
            proof {
                lemma_floor_share_nonneg(amount as int, bps);
            }
            amount * (bps as i128) / (BPS_DENOM as i128)
        };
        assert(share == share_at(t, amount as int, i as int));
        if share > 0 {
            proof {
                if i < n - 1 {
                    lemma_prefix_floor_monotone(t, amount as int, i + 1, n - 1);
                }
            }
            let ghost before = out@;
            out.push(Payment { to: splits[i].to.duplicate(), amount: share });
            assert(payments_view(out@) =~= payments_view(before).push((t[i as int].0, share as int)));
            distributed = distributed + share;
        }
        i = i + 1;
    }
    out
}

/// A tip over valid splits pays out exactly the tipped amount: no dust is lost
/// or created.
pub proof fn law_tip_conserves_amount(t: Seq<(Seq<u8>, u32)>, amount: int)
    requires
        valid_splits(t),
        amount > 0,
    ensures
        payments_total(planned_payments(t, amount)) == amount,
{
    let n = t.len() as int;
    lemma_before_last_below_amount(t, amount);
    lemma_total_upto(t, amount, n - 1);
    let p = payments_upto(t, amount, n - 1);
    assert(share_at(t, amount, n - 1) > 0);
    let q = p.push((t[n - 1].0, share_at(t, amount, n - 1)));
    assert(planned_payments(t, amount) == q);
    assert(q.drop_last() =~= p);
}

/// Over valid splits and a positive amount, the last recipient is always
/// paid, and what it gets beyond its own rounded-down share (the rounding
/// dust of the others) is less than the number of recipients.
pub proof fn law_last_recipient_absorbs_dust(t: Seq<(Seq<u8>, u32)>, amount: int)
    requires
        valid_splits(t),
        amount > 0,
    ensures
        share_at(t, amount, t.len() - 1) >= 1,
        0 <= share_at(t, amount, t.len() - 1) - floor_share(amount, t[t.len() - 1].1) < t.len(),
{
    let n = t.len() as int;
    lemma_before_last_below_amount(t, amount);
    lemma_prefix_floor_bounds(t, amount, n);
    assert(t.take(n) =~= t);
    let pf = prefix_floor(t, amount, n);
    assert(amount * bps_sum(t) == amount * 10_000);
    assert(10_000 * pf <= amount * 10_000);
    assert(amount * 10_000 <= 10_000 * pf + 9_999 * n);
}

/// Each transfer of a tip carries a positive amount and goes to one of the
/// jar's recipients; with distinct recipients (as valid splits have), no
/// recipient receives two transfers; and there is at most one transfer per
/// split.
pub proof fn law_payments_shape(t: Seq<(Seq<u8>, u32)>, amount: int)
    ensures
        planned_payments(t, amount).len() <= t.len(),
        forall|j: int|
            0 <= j < planned_payments(t, amount).len() ==> {
                &&& (#[trigger] planned_payments(t, amount)[j]).1 > 0
                &&& exists|i: int| 0 <= i < t.len() && t[i].0 == planned_payments(t, amount)[j].0
            },
        recipients_distinct(t) ==> forall|a: int, b: int|
            0 <= a < b < planned_payments(t, amount).len() ==> planned_payments(t, amount)[a].0
                != planned_payments(t, amount)[b].0,
{
    lemma_payments_upto_shape(t, amount, t.len() as int);
}

/// What the transfers of a list pay to `who`, in total.
pub open spec fn received(p: Seq<(Seq<u8>, int)>, who: Seq<u8>) -> int
    decreases p.len(),
{
    if p.len() == 0 {
        0
    } else {
        received(p.drop_last(), who) + if p.last().0 == who {
            p.last().1
        } else {
            0
        }
    }
}

/// Over valid splits and a positive amount, no share is negative.
proof fn lemma_shares_nonneg(t: Seq<(Seq<u8>, u32)>, amount: int, i: int)
    requires
        valid_splits(t),
        amount > 0,
        0 <= i < t.len(),
    ensures
        share_at(t, amount, i) >= 0,
{
    if i == t.len() - 1 {
        lemma_before_last_below_amount(t, amount);
    } else {
        lemma_floor_share_nonneg(amount, t[i].1);
    }
}

proof fn lemma_received_upto(t: Seq<(Seq<u8>, u32)>, amount: int, k: int, i: int)
    requires
        valid_splits(t),
        amount > 0,
        0 <= k <= t.len(),
        0 <= i < t.len(),
    ensures
        received(payments_upto(t, amount, k), t[i].0) == if i < k {
            share_at(t, amount, i)
        } else {
            0
        },
    decreases k,
{
    if k > 0 {
        lemma_received_upto(t, amount, k - 1, i);
        lemma_shares_nonneg(t, amount, k - 1);
        let p = payments_upto(t, amount, k - 1);
        if share_at(t, amount, k - 1) > 0 {
            let q = p.push((t[k - 1].0, share_at(t, amount, k - 1)));
            assert(q.drop_last() =~= p);
            if i != k - 1 {
                assert(t[i].0 != t[k - 1].0);
            }
        }
    }
}

/// Over valid splits and a positive amount, each recipient receives exactly
/// its share: `amount * bps / 10_000` rounded down for all but the last, and
/// the remainder for the last.
pub proof fn law_each_recipient_gets_its_share(t: Seq<(Seq<u8>, u32)>, amount: int, i: int)
    requires
        valid_splits(t),
        amount > 0,
        0 <= i < t.len(),
    ensures
        received(planned_payments(t, amount), t[i].0) == share_at(t, amount, i),
        i < t.len() - 1 ==> share_at(t, amount, i) == floor_share(amount, t[i].1),
        share_at(t, amount, i) >= 0,
{
    lemma_received_upto(t, amount, t.len() as int, i);
    lemma_shares_nonneg(t, amount, i);
}

/// The measures of a list of transfers are built transfer by transfer:
/// nothing for no transfers, and each further transfer adds its amount to the
/// total and to what its recipient receives.
pub proof fn law_payment_measures(p: Seq<(Seq<u8>, int)>, x: (Seq<u8>, int), who: Seq<u8>)
    ensures
        payments_total(Seq::<(Seq<u8>, int)>::empty()) == 0,
        received(Seq::<(Seq<u8>, int)>::empty(), who) == 0,
        payments_total(p.push(x)) == payments_total(p) + x.1,
        received(p.push(x), who) == received(p, who) + if x.0 == who {
            x.1
        } else {
            0
        },
{
    assert(p.push(x).drop_last() =~= p);
}

/// A tip of a positive amount over valid splits (1 to 20 entries, each share
/// 1 to 10_000 basis points, no recipient twice, summing to 10_000) pays out
/// exactly the amount; each recipient but the last receives
/// `amount * bps / 10_000` rounded down, and every transfer is of a positive
/// amount to one of the recipients.
pub proof fn law_tip_amounts(t: Seq<(Seq<u8>, u32)>, amount: int)
    requires
        amount > 0,
        1 <= t.len() <= 20,
        forall|i: int| 0 <= i < t.len() ==> 1 <= #[trigger] t[i].1 <= 10_000,
        forall|i: int, j: int| 0 <= i < j < t.len() ==> t[i].0 != t[j].0,
        bps_sum(t) == 10_000,
    ensures
        payments_total(planned_payments(t, amount)) == amount,
        forall|i: int|
            0 <= i < t.len() - 1 ==> received(planned_payments(t, amount), #[trigger] t[i].0) == (
            amount * t[i].1) / 10_000,
        forall|j: int|
            0 <= j < planned_payments(t, amount).len() ==> {
                &&& (#[trigger] planned_payments(t, amount)[j]).1 > 0
                &&& exists|i: int| 0 <= i < t.len() && t[i].0 == planned_payments(t, amount)[j].0
            },
{
    assert(valid_splits(t)) by {
        assert forall|i: int| 0 <= i < t.len() implies bps_in_range(#[trigger] t[i].1) by {}
    }
    law_tip_conserves_amount(t, amount);
    law_payments_shape(t, amount);
    assert forall|i: int| 0 <= i < t.len() - 1 implies received(
        planned_payments(t, amount),
        #[trigger] t[i].0,
    ) == (amount * t[i].1) / 10_000 by {
        law_each_recipient_gets_its_share(t, amount, i);
    }
}

proof fn lemma_all_paid_upto(t: Seq<(Seq<u8>, u32)>, amount: int, k: int)
    requires
        amount > 0,
        0 <= k <= t.len(),
        forall|i: int| 0 <= i < t.len() ==> share_at(t, amount, i) > 0,
    ensures
        payments_upto(t, amount, k).len() == k,
        forall|i: int|
            0 <= i < k ==> #[trigger] payments_upto(t, amount, k)[i] == (t[i].0, share_at(t, amount, i)),
    decreases k,
{
    if k > 0 {
        lemma_all_paid_upto(t, amount, k - 1);
    }
}

/// Over valid splits, when every recipient but the last is owed at least
/// one unit (`amount * bps >= 10_000`), the transfers go one per split, in
/// split order: the `i`-th pays recipient `i`, and all but the last pay
/// `amount * bps / 10_000` rounded down.
pub proof fn law_payments_follow_split_order(t: Seq<(Seq<u8>, u32)>, amount: int)
    requires
        amount > 0,
        1 <= t.len() <= 20,
        forall|i: int| 0 <= i < t.len() ==> 1 <= #[trigger] t[i].1 <= 10_000,
        forall|i: int, j: int| 0 <= i < j < t.len() ==> t[i].0 != t[j].0,
        bps_sum(t) == 10_000,
        forall|i: int| 0 <= i < t.len() - 1 ==> amount * (#[trigger] t[i].1) >= 10_000,
    ensures
        planned_payments(t, amount).len() == t.len(),
        forall|i: int| 0 <= i < t.len() ==> (#[trigger] planned_payments(t, amount)[i]).0 == t[i].0,
        forall|i: int|
            0 <= i < t.len() - 1 ==> (#[trigger] planned_payments(t, amount)[i]).1 == (amount
                * t[i].1) / 10_000,
{
    assert(valid_splits(t)) by {
        assert forall|i: int| 0 <= i < t.len() implies bps_in_range(#[trigger] t[i].1) by {}
    }
    lemma_before_last_below_amount(t, amount);
    assert forall|i: int| 0 <= i < t.len() implies share_at(t, amount, i) > 0 by {
        if i < t.len() - 1 {
            assert(amount * t[i].1 >= 10_000);
        }
    }
    lemma_all_paid_upto(t, amount, t.len() as int);
}

/// Over valid splits, a tip of up to `i128::MAX / 10_000` never overflows.
pub proof fn law_small_tips_fit(t: Seq<(Seq<u8>, u32)>, amount: int)
    requires
        valid_splits(t),
        0 < amount <= i128::MAX / 10_000,
    ensures
        payments_fit(t, amount),
{
    assert forall|i: int| 0 <= i < t.len() - 1 implies amount * (#[trigger] t[i].1) <= i128::MAX by {
        assert(bps_in_range(t[i].1));
        assert(amount * t[i].1 <= (i128::MAX / 10_000) * 10_000) by (nonlinear_arith)
            requires
                0 < amount <= i128::MAX / 10_000,
                t[i].1 <= 10_000,
        ;
    }
    lemma_before_last_below_amount(t, amount);
}

} // verus!
