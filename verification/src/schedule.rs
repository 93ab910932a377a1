use vstd::prelude::*;

use crate::arith::multiply_ratio;
use crate::types::{ContractError, VestingSchedule};

verus! {

/// What a schedule grants in all: its end amount, or its start amount when
/// it has no end.
pub open spec fn schedule_total(s: VestingSchedule) -> nat {
    match s.end_point {
        Some(e) => e.amount as nat,
        None => s.start_point.amount as nat,
    }
}

/// A schedule with an end point must end later and with more than it starts.
pub open spec fn schedule_valid(s: VestingSchedule) -> bool {
    match s.end_point {
        Some(e) => s.start_point.time < e.time && s.start_point.amount < e.amount,
        None => true,
    }
}

pub open spec fn schedules_valid(ss: Seq<VestingSchedule>) -> bool {
    forall|i: int| 0 <= i < ss.len() ==> schedule_valid(#[trigger] ss[i])
}

/// What a valid schedule has vested at `now`: nothing before its start, the
/// start amount at its start, then the rest in proportion to the time passed
/// (floored), all of it from the end time on.
pub open spec fn vested(s: VestingSchedule, now: u64) -> nat {
    if now < s.start_point.time {
        0
    } else {
        match s.end_point {
            None => s.start_point.amount as nat,
            Some(e) => {
                let passed: int = if now < e.time {
                    now - s.start_point.time
                } else {
                    e.time - s.start_point.time
                };
                (s.start_point.amount + (e.amount - s.start_point.amount) * passed / (e.time
                    - s.start_point.time)) as nat
            },
        }
    }
}

/// The sum of what the schedules grant, disabled ones included.
pub open spec fn total_amount(ss: Seq<VestingSchedule>) -> nat
    decreases ss.len(),
{
    if ss.len() == 0 {
        0
    } else {
        total_amount(ss.drop_last()) + schedule_total(ss.last())
    }
}

/// The sum of what the enabled schedules grant.
pub open spec fn enabled_total(ss: Seq<VestingSchedule>) -> nat
    decreases ss.len(),
{
    if ss.len() == 0 {
        0
    } else {
        enabled_total(ss.drop_last()) + if ss.last().disabled {
            0
        } else {
            schedule_total(ss.last())
        }
    }
}

/// The sum of what the enabled schedules have vested at `now`.
pub open spec fn vested_total(ss: Seq<VestingSchedule>, now: u64) -> nat
    decreases ss.len(),
{
    if ss.len() == 0 {
        0
    } else {
        vested_total(ss.drop_last(), now) + if ss.last().disabled {
            0
        } else {
            vested(ss.last(), now)
        }
    }
}

/// What an account may claim at `now`: what has vested less what it was
/// paid, and nothing when it was paid more.
pub open spec fn available_amount(ss: Seq<VestingSchedule>, released: nat, now: u64) -> nat {
    let v = vested_total(ss, now);
    if v > released {
        (v - released) as nat
    } else {
        0
    }
}

/// What forcing a claim at `now` pays: what may be claimed, and half of what
/// the enabled schedules have not vested yet (floored).
pub open spec fn force_claim_amount(ss: Seq<VestingSchedule>, released: nat, now: u64) -> nat {
    available_amount(ss, released, now) + ((enabled_total(ss) - vested_total(ss, now)) / 2) as nat
}

/// The schedules with every one of them disabled.
pub open spec fn all_disabled(ss: Seq<VestingSchedule>) -> Seq<VestingSchedule> {
    ss.map_values(|s: VestingSchedule| VestingSchedule { disabled: true, ..s })
}

proof fn lemma_ratio_bounded(d: int, p: int, q: int)
    requires
        0 <= d,
        0 <= p <= q,
        0 < q,
    ensures
        0 <= d * p / q <= d,
{
    vstd::arithmetic::mul::lemma_mul_inequality(p, q, d);
    vstd::arithmetic::mul::lemma_mul_is_commutative(p, d);
    vstd::arithmetic::mul::lemma_mul_is_commutative(q, d);
    vstd::arithmetic::mul::lemma_mul_nonnegative(d, p);
    vstd::arithmetic::div_mod::lemma_div_is_ordered(d * p, d * q, q);
    vstd::arithmetic::div_mod::lemma_div_multiples_vanish(d, q);
    vstd::arithmetic::mul::lemma_mul_is_commutative(d, q);
    vstd::arithmetic::div_mod::lemma_div_pos_is_pos(d * p, q);
}

/// A valid schedule vests no more than it grants.
pub proof fn lemma_vested_le_total(s: VestingSchedule, now: u64)
    requires
        schedule_valid(s),
    ensures
        vested(s, now) <= schedule_total(s),
{
    if now >= s.start_point.time {
        if let Some(e) = s.end_point {
            let passed: int = if now < e.time {
                now - s.start_point.time
            } else {
                e.time - s.start_point.time
            };
            lemma_ratio_bounded(
                e.amount - s.start_point.amount,
                passed,
                e.time - s.start_point.time,
            );
        }
    }
}

/// A valid schedule never vests less as time goes on.
pub proof fn lemma_vested_monotone(s: VestingSchedule, t1: u64, t2: u64)
    requires
        schedule_valid(s),
        t1 <= t2,
    ensures
        vested(s, t1) <= vested(s, t2),
{
    lemma_vested_le_total(s, t1);
    lemma_vested_le_total(s, t2);
    if t1 >= s.start_point.time {
        if let Some(e) = s.end_point {
            let d: int = e.amount - s.start_point.amount;
            let q: int = e.time - s.start_point.time;
            let p1: int = if t1 < e.time {
                t1 - s.start_point.time
            } else {
                q
            };
            let p2: int = if t2 < e.time {
                t2 - s.start_point.time
            } else {
                q
            };
            vstd::arithmetic::mul::lemma_mul_inequality(p1, p2, d);
            vstd::arithmetic::mul::lemma_mul_is_commutative(p1, d);
            vstd::arithmetic::mul::lemma_mul_is_commutative(p2, d);
            vstd::arithmetic::div_mod::lemma_div_is_ordered(d * p1, d * p2, q);
        }
    }
}

/// From its end time on, a valid schedule has vested all it grants.
pub proof fn lemma_vested_at_end(s: VestingSchedule, now: u64)
    requires
        schedule_valid(s),
        s.end_point is Some ==> s.end_point->0.time <= now,
        s.start_point.time <= now,
    ensures
        vested(s, now) == schedule_total(s),
{
    if let Some(e) = s.end_point {
        let d: int = e.amount - s.start_point.amount;
        let q: int = e.time - s.start_point.time;
        vstd::arithmetic::div_mod::lemma_div_by_multiple(d, q);
    }
}

/// At its start time a valid schedule has vested exactly its start amount.
pub proof fn lemma_vested_at_start(s: VestingSchedule)
    requires
        schedule_valid(s),
    ensures
        vested(s, s.start_point.time) == s.start_point.amount,
{
}

/// What the enabled schedules vest is bounded by what they grant, and that by
/// what all the schedules grant.
pub proof fn lemma_vested_total_bounded(ss: Seq<VestingSchedule>, now: u64)
    requires
        schedules_valid(ss),
    ensures
        vested_total(ss, now) <= enabled_total(ss),
        enabled_total(ss) <= total_amount(ss),
    decreases ss.len(),
{
    if ss.len() > 0 {
        assert(schedules_valid(ss.drop_last())) by {
            assert forall|i: int| 0 <= i < ss.drop_last().len() implies schedule_valid(
                #[trigger] ss.drop_last()[i],
            ) by {
                assert(ss.drop_last()[i] == ss[i]);
            }
        }
        assert(schedule_valid(ss[ss.len() - 1]));
        lemma_vested_total_bounded(ss.drop_last(), now);
        lemma_vested_le_total(ss.last(), now);
    }
}

/// What the enabled schedules vest never decreases with time.
pub proof fn lemma_vested_total_monotone(ss: Seq<VestingSchedule>, t1: u64, t2: u64)
    requires
        schedules_valid(ss),
        t1 <= t2,
    ensures
        vested_total(ss, t1) <= vested_total(ss, t2),
    decreases ss.len(),
{
    if ss.len() > 0 {
        assert(schedules_valid(ss.drop_last())) by {
            assert forall|i: int| 0 <= i < ss.drop_last().len() implies schedule_valid(
                #[trigger] ss.drop_last()[i],
            ) by {
                assert(ss.drop_last()[i] == ss[i]);
            }
        }
        assert(schedule_valid(ss[ss.len() - 1]));
        lemma_vested_total_monotone(ss.drop_last(), t1, t2);
        lemma_vested_monotone(ss.last(), t1, t2);
    }
}

/// What a schedule has vested at `now`.
pub fn compute_vested(s: &VestingSchedule, now: u64) -> (r: u128)
    requires
        schedule_valid(*s),
    ensures
        r == vested(*s, now),
{
    if now < s.start_point.time {
        return 0;
    }
    match s.end_point {
        None => s.start_point.amount,
        Some(e) => {
            let passed: u64 = if now < e.time {
                now - s.start_point.time
            } else {
                e.time - s.start_point.time
            };
            let period: u64 = e.time - s.start_point.time;
            let diff: u128 = e.amount - s.start_point.amount;
            proof {
                lemma_ratio_bounded(diff as int, passed as int, period as int);
            }
            let linear: u128 = multiply_ratio(diff, passed as u128, period as u128);
            s.start_point.amount + linear
        },
    }
}

/// Whether every schedule is valid; the error names `address` when one is not.
pub fn assert_vesting_schedules(address: &String, schedules: &Vec<VestingSchedule>) -> (r: Result<
    (),
    ContractError,
>)
    ensures
        r is Ok <==> schedules_valid(schedules@),
        r matches Err(e) ==> e == ContractError::VestingScheduleError(*address),
{
    let mut i: usize = 0;
    while i < schedules.len()
        invariant
            0 <= i <= schedules.len(),
            forall|j: int| 0 <= j < i ==> schedule_valid(#[trigger] schedules@[j]),
        decreases schedules.len() - i,
    {
        let s = schedules[i];
        match s.end_point {
            Some(e) => {
                if !(s.start_point.time < e.time && s.start_point.amount < e.amount) {
                    return Err(ContractError::VestingScheduleError(address.clone()));
                }
            },
            None => {},
        }
        i = i + 1;
    }
    Ok(())
}

/// What the schedules grant in all, or `None` when that does not fit in 128 bits.
pub fn compute_total_amount(schedules: &Vec<VestingSchedule>) -> (r: Option<u128>)
    ensures
        r matches Some(t) ==> t == total_amount(schedules@),
        r is None <==> total_amount(schedules@) > u128::MAX,
{
    let mut i: usize = 0;
    let mut total: u128 = 0;
    while i < schedules.len()
        invariant
            0 <= i <= schedules.len(),
            total == total_amount(schedules@.take(i as int)),
        decreases schedules.len() - i,
    {
        assert(schedules@.take(i + 1).drop_last() =~= schedules@.take(i as int));
        let s = schedules[i];
        let amount: u128 = match s.end_point {
            Some(e) => e.amount,
            None => s.start_point.amount,
        };
        match total.checked_add(amount) {
            Some(t) => {
                total = t;
            },
            None => {
                proof {
                    lemma_total_prefix_le(schedules@, i + 1);
                }
                return None;
            },
        }
        i = i + 1;
    }
    assert(schedules@.take(i as int) =~= schedules@);
    Some(total)
}

/// A prefix of the schedules grants no more than all of them.
pub proof fn lemma_total_prefix_le(ss: Seq<VestingSchedule>, n: int)
    requires
        0 <= n <= ss.len(),
    ensures
        total_amount(ss.take(n)) <= total_amount(ss),
    decreases ss.len(),
{
    if n < ss.len() {
        assert(ss.drop_last().take(n) =~= ss.take(n));
        lemma_total_prefix_le(ss.drop_last(), n);
    } else {
        assert(ss.take(n) =~= ss);
    }
}

/// A prefix of the schedules vests and grants no more than all of them.
pub proof fn lemma_enabled_prefix_le(ss: Seq<VestingSchedule>, n: int, now: u64)
    requires
        0 <= n <= ss.len(),
    ensures
        vested_total(ss.take(n), now) <= vested_total(ss, now),
        enabled_total(ss.take(n)) <= enabled_total(ss),
    decreases ss.len(),
{
    if n < ss.len() {
        assert(ss.drop_last().take(n) =~= ss.take(n));
        lemma_enabled_prefix_le(ss.drop_last(), n, now);
    } else {
        assert(ss.take(n) =~= ss);
    }
}

/// What the enabled schedules have vested at `now`, and what they grant.
pub fn compute_vested_total(schedules: &Vec<VestingSchedule>, now: u64) -> (r: (u128, u128))
    requires
        schedules_valid(schedules@),
        total_amount(schedules@) <= u128::MAX,
    ensures
        r.0 == vested_total(schedules@, now),
        r.1 == enabled_total(schedules@),
{
    let mut i: usize = 0;
    let mut vested_sum: u128 = 0;
    let mut enabled_sum: u128 = 0;
    proof {
        lemma_vested_total_bounded(schedules@, now);
    }
    while i < schedules.len()
        invariant
            0 <= i <= schedules.len(),
            schedules_valid(schedules@),
            vested_total(schedules@, now) <= enabled_total(schedules@),
            enabled_total(schedules@) <= total_amount(schedules@),
            total_amount(schedules@) <= u128::MAX,
            vested_sum == vested_total(schedules@.take(i as int), now),
            enabled_sum == enabled_total(schedules@.take(i as int)),
        decreases schedules.len() - i,
    {
        assert(schedules@.take(i + 1).drop_last() =~= schedules@.take(i as int));
        proof {
            lemma_enabled_prefix_le(schedules@, i + 1, now);
        }
        let s = schedules[i];
        assert(schedule_valid(schedules@[i as int]));
        if !s.disabled {
            let v: u128 = compute_vested(&s, now);
            vested_sum = vested_sum + v;
            let amount: u128 = match s.end_point {
                Some(e) => e.amount,
                None => s.start_point.amount,
            };
            enabled_sum = enabled_sum + amount;
        }
        i = i + 1;
    }
    assert(schedules@.take(i as int) =~= schedules@);
    (vested_sum, enabled_sum)
}

/// Disabling every schedule keeps what they grant and leaves nothing to vest.
pub proof fn lemma_all_disabled(ss: Seq<VestingSchedule>, now: u64)
    ensures
        all_disabled(ss).len() == ss.len(),
        total_amount(all_disabled(ss)) == total_amount(ss),
        enabled_total(all_disabled(ss)) == 0,
        vested_total(all_disabled(ss), now) == 0,
        schedules_valid(ss) ==> schedules_valid(all_disabled(ss)),
    decreases ss.len(),
{
    if ss.len() > 0 {
        assert(all_disabled(ss).drop_last() =~= all_disabled(ss.drop_last()));
        lemma_all_disabled(ss.drop_last(), now);
    }
    if schedules_valid(ss) {
        assert forall|i: int| 0 <= i < all_disabled(ss).len() implies schedule_valid(
            #[trigger] all_disabled(ss)[i],
        ) by {
            assert(schedule_valid(ss[i]));
        }
    }
}

/// The schedules with every one of them disabled.
pub fn disable_all(v: &Vec<VestingSchedule>) -> (r: Vec<VestingSchedule>)
    ensures
        r@ == all_disabled(v@),
{
    let mut r: Vec<VestingSchedule> = Vec::new();
    let mut i: usize = 0;
    while i < v.len()
        invariant
            i <= v.len(),
            r@ == all_disabled(v@.take(i as int)),
        decreases v.len() - i,
    {
        let s = v[i];
        r.push(VestingSchedule { disabled: true, ..s });
        i = i + 1;
        assert(r@ =~= all_disabled(v@.take(i as int)));
    }
    assert(v@.take(i as int) =~= v@);
    r
}

/// What two lists of schedules grant together is the sum of what each grants.
pub proof fn lemma_total_concat(a: Seq<VestingSchedule>, b: Seq<VestingSchedule>)
    ensures
        total_amount(a + b) == total_amount(a) + total_amount(b),
    decreases b.len(),
{
    if b.len() == 0 {
        assert(a + b =~= a);
    } else {
        assert((a + b).drop_last() =~= a + b.drop_last());
        lemma_total_concat(a, b.drop_last());
    }
}

} // verus!
