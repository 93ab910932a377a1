use vstd::prelude::*;

use crate::arith::text_lt;
use crate::contract::{
    registration_outcome, registration_total, unclaimed_in, with_added, VestingContract,
};
use crate::history::{
    histories_below, history_of, latest_height, lemma_value_after_latest, value_at, AddressHistory,
};
use crate::schedule::{
    all_disabled, available_amount, enabled_total, force_claim_amount, lemma_all_disabled,
    lemma_vested_at_end, lemma_vested_total_bounded, lemma_vested_total_monotone, schedule_valid,
    schedules_valid, total_amount, vested, vested_total,
};
use crate::types::{ContractError, Response, VestingAccount, VestingSchedule};

verus! {

/// What an account may claim never decreases as time goes on.
pub proof fn law_available_monotone(ss: Seq<VestingSchedule>, released: nat, t1: u64, t2: u64)
    requires
        schedules_valid(ss),
        t1 <= t2,
    ensures
        available_amount(ss, released, t1) <= available_amount(ss, released, t2),
{
    lemma_vested_total_monotone(ss, t1, t2);
}

/// Claiming `c` of what is available leaves exactly `c` less available at
/// that time; claiming all of it leaves nothing.
pub proof fn law_claim_reduces_available(ss: Seq<VestingSchedule>, released: nat, c: nat, t: u64)
    requires
        c <= available_amount(ss, released, t),
    ensures
        available_amount(ss, released + c, t) == available_amount(ss, released, t) - c,
        c == available_amount(ss, released, t) ==> available_amount(ss, released + c, t) == 0,
{
}

/// What may be claimed never exceeds what was granted and not yet paid.
pub proof fn law_available_le_unclaimed(ss: Seq<VestingSchedule>, released: nat, t: u64)
    requires
        schedules_valid(ss),
        released <= total_amount(ss),
    ensures
        available_amount(ss, released, t) + released <= total_amount(ss),
{
    lemma_vested_total_bounded(ss, t);
}

/// Once every enabled schedule has reached its end, all it grants is
/// available: claiming it all leaves the account paid what its enabled
/// schedules grant.
pub proof fn law_fully_vested_after_end(ss: Seq<VestingSchedule>, t: u64)
    requires
        schedules_valid(ss),
        forall|i: int|
            0 <= i < ss.len() ==> (#[trigger] ss[i]).start_point.time <= t && (ss[i].end_point is Some
                ==> ss[i].end_point->0.time <= t),
    ensures
        vested_total(ss, t) == enabled_total(ss),
        available_amount(ss, 0, t) == enabled_total(ss),
    decreases ss.len(),
{
    if ss.len() > 0 {
        let d = ss.drop_last();
        assert(schedules_valid(d)) by {
            assert forall|i: int| 0 <= i < d.len() implies schedule_valid(#[trigger] d[i]) by {
                assert(schedule_valid(ss[i]));
            }
        }
        assert forall|i: int| 0 <= i < d.len() implies (#[trigger] d[i]).start_point.time <= t && (
        d[i].end_point is Some ==> d[i].end_point->0.time <= t) by {
            assert(d[i] == ss[i]);
        }
        law_fully_vested_after_end(d, t);
        let last = ss[ss.len() - 1];
        assert(schedule_valid(last));
        lemma_vested_at_end(last, t);
    }
}

/// After a forced claim nothing more is ever available to the account:
/// its schedules are all disabled.
pub proof fn law_nothing_after_force_claim(ss: Seq<VestingSchedule>, released: nat, t: u64, later: u64)
    ensures
        available_amount(all_disabled(ss), released + force_claim_amount(ss, released, t), later)
            == 0,
        total_amount(all_disabled(ss)) == total_amount(ss),
{
    lemma_all_disabled(ss, later);
}

/// A forced claim pays what is available plus half of what is not vested
/// yet; what stays unclaimed is what the disabled schedules held and the
/// other half.
pub proof fn law_force_claim_split(ss: Seq<VestingSchedule>, released: nat, t: u64)
    requires
        schedules_valid(ss),
        released <= vested_total(ss, t),
    ensures
        released + force_claim_amount(ss, released, t) + (total_amount(ss) - enabled_total(ss)) + (
        enabled_total(ss) - vested_total(ss, t)) - (enabled_total(ss) - vested_total(ss, t)) / 2
            == total_amount(ss),
{
    lemma_vested_total_bounded(ss, t);
}

proof fn lemma_history_of_below(hs: Seq<AddressHistory>, a: Seq<char>, mark: u64)
    requires
        histories_below(hs, mark),
    ensures
        crate::history::heights_increasing(history_of(hs, a)),
        latest_height(history_of(hs, a)) <= mark,
    decreases hs.len(),
{
    if hs.len() > 0 {
        assert(hs[hs.len() - 1].history.wf());
        if hs.last().address@ != a {
            let d = hs.drop_last();
            assert forall|i: int| 0 <= i < d.len() implies (#[trigger] d[i]).history.wf()
                && latest_height(d[i].history.checkpoints@) <= mark by {
                assert(d[i] == hs[i]);
            }
            lemma_history_of_below(d, a, mark);
        }
    }
}

/// With the historical extension, a height above every write so far reads
/// what each address, and all accounts together, hold unclaimed now.
pub proof fn law_history_reads_current(c: VestingContract, a: Seq<char>, h: u64)
    requires
        c.wf(),
        c.config.extensions.historical,
        c.height_mark < h,
    ensures
        value_at(history_of(c.unclaimed@, a), h) == unclaimed_in(c.accounts_view(), a),
        value_at(c.unclaimed_total.checkpoints@, h) == c.state.total_granted
            - c.state.total_released,
{
    lemma_history_of_below(c.unclaimed@, a, c.height_mark);
    lemma_value_after_latest(history_of(c.unclaimed@, a), h);
    lemma_value_after_latest(c.unclaimed_total.checkpoints@, h);
    assert(c.consistent_for(a));
}

/// What was paid out never exceeds what was granted, and what was granted
/// and not paid is what the accounts hold unclaimed.
pub proof fn law_paid_within_granted(c: VestingContract)
    requires
        c.wf(),
    ensures
        c.state.total_released <= c.state.total_granted,
        forall|a: Seq<char>|
            #![trigger c.accounts_view()[a]]
            c.accounts_view().dom().contains(a) ==> c.accounts_view()[a].released <= total_amount(
                c.accounts_view()[a].schedules,
            ) && total_amount(c.accounts_view()[a].schedules) <= c.state.total_granted,
{
    assert forall|a: Seq<char>|
        #![trigger c.accounts_view()[a]]
        c.accounts_view().dom().contains(a) implies c.accounts_view()[a].released <= total_amount(
        c.accounts_view()[a].schedules,
    ) && total_amount(c.accounts_view()[a].schedules) <= c.state.total_granted by {
        crate::accounts::lemma_map_dom(c.accounts@, a);
        let k = choose|k: int| 0 <= k < c.accounts@.len() && #[trigger] c.accounts@[k].address@ == a;
        crate::accounts::lemma_map_at(c.accounts@, k);
        crate::accounts::lemma_sum_element(c.accounts@, k, crate::contract::total_of());
        assert(crate::accounts::entry_ok(c.accounts@[k]));
    }
}

/// Nothing of a schedule vests before its start time, with or without an
/// end point; so an account whose schedules all start later has nothing
/// available.
pub proof fn law_nothing_before_start(s: VestingSchedule, now: u64)
    requires
        now < s.start_point.time,
    ensures
        vested(s, now) == 0,
{
}

/// An account whose schedules all start after `now` may claim nothing.
pub proof fn law_nothing_available_before_start(ss: Seq<VestingSchedule>, released: nat, now: u64)
    requires
        forall|i: int| 0 <= i < ss.len() ==> now < (#[trigger] ss[i]).start_point.time,
    ensures
        vested_total(ss, now) == 0,
        available_amount(ss, released, now) == 0,
    decreases ss.len(),
{
    if ss.len() > 0 {
        let d = ss.drop_last();
        assert forall|i: int| 0 <= i < d.len() implies now < (#[trigger] d[i]).start_point.time by {
            assert(d[i] == ss[i]);
        }
        law_nothing_available_before_start(d, released, now);
        assert(now < ss[ss.len() - 1].start_point.time);
    }
}

/// Between its start and its end a schedule vests its start amount plus the
/// rest in proportion to the time passed, rounded down: with `q` the length
/// of the schedule, `p` the time passed and `d` the rest, the linear part `v`
/// satisfies `v * q <= d * p < (v + 1) * q`.
pub proof fn law_linear_between(s: VestingSchedule, now: u64)
    requires
        schedule_valid(s),
        s.end_point is Some,
        s.start_point.time <= now < s.end_point->0.time,
    ensures
        vested(s, now) >= s.start_point.amount,
        ({
            let e = s.end_point->0;
            let q: int = e.time - s.start_point.time;
            let p: int = now - s.start_point.time;
            let d: int = e.amount - s.start_point.amount;
            let v: int = vested(s, now) - s.start_point.amount;
            v * q <= d * p && d * p < (v + 1) * q
        }),
{
    let e = s.end_point->0;
    let q: int = e.time - s.start_point.time;
    let p: int = now - s.start_point.time;
    let d: int = e.amount - s.start_point.amount;
    vstd::arithmetic::mul::lemma_mul_nonnegative(d, p);
    vstd::arithmetic::div_mod::lemma_fundamental_div_mod(d * p, q);
    vstd::arithmetic::div_mod::lemma_mod_pos_bound(d * p, q);
    vstd::arithmetic::div_mod::lemma_div_pos_is_pos(d * p, q);
    let v: int = (d * p) / q;
    assert(vested(s, now) == s.start_point.amount + v);
    vstd::arithmetic::mul::lemma_mul_is_commutative(q, v);
    vstd::arithmetic::mul::lemma_mul_is_distributive_add(q, v, 1);
    vstd::arithmetic::mul::lemma_mul_is_commutative(q, v + 1);
}

/// A character below another makes every text that has it after a common
/// prefix come first; a text comes before every longer text it begins.
pub proof fn law_text_order(p: Seq<char>, x: char, y: char, a: Seq<char>, b: Seq<char>)
    ensures
        (x as int) < (y as int) ==> text_lt(p + seq![x] + a, p + seq![y] + b),
        text_lt(p, p + seq![x] + a),
    decreases p.len(),
{
    if p.len() > 0 {
        law_text_order(p.drop_first(), x, y, a, b);
        assert((p + seq![x] + a).drop_first() =~= p.drop_first() + seq![x] + a);
        assert((p + seq![y] + b).drop_first() =~= p.drop_first() + seq![y] + b);
        assert((p + seq![x] + a)[0] == p[0]);
        assert((p + seq![y] + b)[0] == p[0]);
    } else {
        assert((p + seq![x] + a)[0] == x);
        assert((p + seq![y] + b)[0] == y);
        assert(p + seq![x] + a =~= seq![x] + a);
    }
}

/// A registration succeeds only when what was deposited is exactly what the
/// schedules grant, and refuses any other amount with the amount error.
pub proof fn law_registration_exact_deposit(
    old: VestingContract,
    new: VestingContract,
    r: Result<Response, ContractError>,
    accs: Seq<VestingAccount>,
    amount: nat,
)
    requires
        registration_outcome(old, new, r, accs, amount),
    ensures
        r is Ok ==> registration_total(accs) == Ok::<nat, ContractError>(amount),
        registration_total(accs) matches Ok(t) && t != amount ==> r == Err::<Response, ContractError>(
            ContractError::VestingScheduleAmountError,
        ),
        r is Ok ==> new.state.total_granted == old.state.total_granted + amount,
{
}

/// Adding managers keeps the list there was as its beginning, puts every
/// given manager in the list, and appends only given managers that were not
/// there yet, each once.
pub proof fn law_managers_added(list: Seq<Seq<char>>, new: Seq<Seq<char>>)
    ensures
        with_added(list, new).len() >= list.len(),
        with_added(list, new).take(list.len() as int) == list,
        forall|i: int| 0 <= i < new.len() ==> with_added(list, new).contains(#[trigger] new[i]),
        forall|j: int|
            list.len() <= j < with_added(list, new).len() ==> new.contains(
                #[trigger] with_added(list, new)[j],
            ) && !list.contains(with_added(list, new)[j]),
        forall|j: int, k: int|
            list.len() <= j < k < with_added(list, new).len() ==> #[trigger] with_added(list, new)[j]
                != #[trigger] with_added(list, new)[k],
    decreases new.len(),
{
    if new.len() == 0 {
        assert(list.take(list.len() as int) =~= list);
    } else {
        let d = new.drop_last();
        let before = with_added(list, d);
        let x = new.last();
        law_managers_added(list, d);
        let w = with_added(list, new);
        if before.contains(x) {
            assert(w == before);
        } else {
            assert(w == before.push(x));
            assert(w.take(list.len() as int) =~= before.take(list.len() as int));
            if list.contains(x) {
                let j = choose|j: int| 0 <= j < list.len() && list[j] == x;
                assert(before.take(list.len() as int)[j] == x);
                assert(before.contains(x));
            }
            assert forall|j: int, k: int|
                list.len() <= j < k < w.len() implies #[trigger] w[j] != #[trigger] w[k] by {
                if k == w.len() - 1 {
                    assert(w[k] == x);
                    assert(w[j] == before[j]);
                } else {
                    assert(w[j] == before[j] && w[k] == before[k]);
                }
            }
        }
        assert forall|i: int| 0 <= i < new.len() implies w.contains(#[trigger] new[i]) by {
            if i < d.len() {
                assert(d[i] == new[i]);
                assert(before.contains(d[i]));
                let j = choose|j: int| 0 <= j < before.len() && before[j] == d[i];
                assert(w[j] == before[j]);
            } else {
                assert(new[i] == x);
                if before.contains(x) {
                } else {
                    assert(w[w.len() - 1] == x);
                }
            }
        }
        assert forall|j: int| list.len() <= j < w.len() implies new.contains(#[trigger] w[j])
            && !list.contains(w[j]) by {
            if j < before.len() {
                assert(w[j] == before[j]);
                assert(d.contains(before[j]));
                let i = choose|i: int| 0 <= i < d.len() && d[i] == before[j];
                assert(new[i] == d[i]);
            } else {
                assert(w[j] == x);
                assert(new[new.len() - 1] == x);
            }
        }
    }
}

} // verus!
