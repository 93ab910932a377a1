use vstd::prelude::*;

use crate::arith::{str_lt, text_lt};
use crate::schedule::{schedules_valid, total_amount};
use crate::types::{OrderBy, VestingAccountResponse, VestingInfo, VestingSchedule};

verus! {

/// An account as stored: its address and what is stored for it.
#[derive(Clone, Debug)]
pub struct AccountEntry {
    pub address: String,
    pub info: VestingInfo,
}

/// What an account holds, as a mathematical value.
pub struct AccountData {
    pub schedules: Seq<VestingSchedule>,
    pub released: nat,
}

pub open spec fn entry_data(e: AccountEntry) -> AccountData {
    AccountData { schedules: e.info.schedules@, released: e.info.released_amount as nat }
}

/// What the account has not been paid of what it was granted.
pub open spec fn data_unclaimed(d: AccountData) -> int {
    total_amount(d.schedules) - d.released
}

/// The entries are ordered by address, strictly: no address occurs twice.
pub open spec fn sorted_by_address(es: Seq<AccountEntry>) -> bool {
    forall|i: int, j: int|
        0 <= i < j < es.len() ==> text_lt(#[trigger] es[i].address@, #[trigger] es[j].address@)
}

pub open spec fn has_address(es: Seq<AccountEntry>, a: Seq<char>) -> bool {
    exists|i: int| 0 <= i < es.len() && #[trigger] es[i].address@ == a
}

/// The accounts as a map from address to what each holds.
pub open spec fn accounts_map(es: Seq<AccountEntry>) -> Map<Seq<char>, AccountData>
    decreases es.len(),
{
    if es.len() == 0 {
        Map::empty()
    } else {
        accounts_map(es.drop_last()).insert(es.last().address@, entry_data(es.last()))
    }
}

/// The sum of `f` over the entries.
pub open spec fn sum_by(es: Seq<AccountEntry>, f: spec_fn(AccountEntry) -> nat) -> nat
    decreases es.len(),
{
    if es.len() == 0 {
        0
    } else {
        sum_by(es.drop_last(), f) + f(es.last())
    }
}

// ---------------------------------------------------------------- text order

pub proof fn lemma_text_lt_irreflexive(a: Seq<char>)
    ensures
        !text_lt(a, a),
    decreases a.len(),
{
    if a.len() > 0 {
        lemma_text_lt_irreflexive(a.drop_first());
    }
}

pub proof fn lemma_text_lt_transitive(a: Seq<char>, b: Seq<char>, c: Seq<char>)
    requires
        text_lt(a, b),
        text_lt(b, c),
    ensures
        text_lt(a, c),
    decreases a.len(),
{
    if a.len() > 0 && b.len() > 0 && c.len() > 0 {
        if a[0] == b[0] && b[0] == c[0] {
            lemma_text_lt_transitive(a.drop_first(), b.drop_first(), c.drop_first());
        }
    }
}

pub proof fn lemma_text_lt_total(a: Seq<char>, b: Seq<char>)
    requires
        a != b,
    ensures
        text_lt(a, b) || text_lt(b, a),
    decreases a.len(),
{
    if a.len() > 0 && b.len() > 0 {
        if a[0] == b[0] {
            if a.drop_first() == b.drop_first() {
                assert(a =~= seq![a[0]] + a.drop_first());
                assert(b =~= seq![b[0]] + b.drop_first());
            }
            lemma_text_lt_total(a.drop_first(), b.drop_first());
        } else {
            assert((a[0] as int) != (b[0] as int));
        }
    } else if a.len() == 0 && b.len() == 0 {
        assert(a =~= b);
    }
}

// ---------------------------------------------------------------- the map

/// The map holds exactly the addresses of the entries.
pub proof fn lemma_map_dom(es: Seq<AccountEntry>, a: Seq<char>)
    ensures
        accounts_map(es).dom().contains(a) <==> has_address(es, a),
    decreases es.len(),
{
    if es.len() > 0 {
        lemma_map_dom(es.drop_last(), a);
        if has_address(es.drop_last(), a) {
            let j = choose|j: int| 0 <= j < es.drop_last().len() && #[trigger] es.drop_last()[j].address@ == a;
            assert(es[j].address@ == a);
        }
        if has_address(es, a) && a != es.last().address@ {
            let j = choose|j: int| 0 <= j < es.len() && #[trigger] es[j].address@ == a;
            assert(es.drop_last()[j].address@ == a);
        }
        if a == es.last().address@ {
            assert(es[es.len() - 1].address@ == a);
        }
    }
}

/// In ordered entries, the entry at `i` is what the map holds for its address.
pub proof fn lemma_map_at(es: Seq<AccountEntry>, i: int)
    requires
        sorted_by_address(es),
        0 <= i < es.len(),
    ensures
        accounts_map(es).dom().contains(es[i].address@),
        accounts_map(es)[es[i].address@] == entry_data(es[i]),
    decreases es.len(),
{
    if i < es.len() - 1 {
        let d = es.drop_last();
        assert(sorted_by_address(d)) by {
            assert forall|p: int, q: int| 0 <= p < q < d.len() implies text_lt(
                #[trigger] d[p].address@,
                #[trigger] d[q].address@,
            ) by {
                assert(text_lt(es[p].address@, es[q].address@));
            }
        }
        assert(d[i] == es[i]);
        lemma_map_at(d, i);
        assert(text_lt(es[i].address@, es[es.len() - 1].address@));
        lemma_text_lt_irreflexive(es[i].address@);
    }
}

/// An address that no entry has is not in the map.
pub proof fn lemma_map_absent(es: Seq<AccountEntry>, a: Seq<char>)
    requires
        !has_address(es, a),
    ensures
        !accounts_map(es).dom().contains(a),
{
    lemma_map_dom(es, a);
}

/// Replacing an entry by one with the same address replaces what the map
/// holds for that address, and keeps the entries ordered.
pub proof fn lemma_map_update(es: Seq<AccountEntry>, i: int, e: AccountEntry)
    requires
        sorted_by_address(es),
        0 <= i < es.len(),
        e.address@ == es[i].address@,
    ensures
        sorted_by_address(es.update(i, e)),
        accounts_map(es.update(i, e)) == accounts_map(es).insert(e.address@, entry_data(e)),
{
    let ns = es.update(i, e);
    assert(sorted_by_address(ns)) by {
        assert forall|p: int, q: int| 0 <= p < q < ns.len() implies text_lt(
            #[trigger] ns[p].address@,
            #[trigger] ns[q].address@,
        ) by {
            assert(text_lt(es[p].address@, es[q].address@));
        }
    }
    let m = accounts_map(es).insert(e.address@, entry_data(e));
    assert forall|a: Seq<char>| #[trigger] accounts_map(ns).dom().contains(a) <==> m.dom().contains(
        a,
    ) by {
        lemma_map_dom(ns, a);
        lemma_map_dom(es, a);
        if has_address(ns, a) {
            let j = choose|j: int| 0 <= j < ns.len() && #[trigger] ns[j].address@ == a;
            if j != i {
                assert(es[j].address@ == a);
            }
        }
        if has_address(es, a) && a != e.address@ {
            let j = choose|j: int| 0 <= j < es.len() && #[trigger] es[j].address@ == a;
            assert(ns[j].address@ == a);
        }
        if a == e.address@ {
            assert(ns[i].address@ == a);
        }
    }
    assert forall|a: Seq<char>| #[trigger] accounts_map(ns).dom().contains(a) implies accounts_map(
        ns,
    )[a] == m[a] by {
        lemma_map_dom(ns, a);
        let j = choose|j: int| 0 <= j < ns.len() && #[trigger] ns[j].address@ == a;
        lemma_map_at(ns, j);
        if j != i {
            lemma_map_at(es, j);
            if j < i {
                assert(text_lt(ns[j].address@, ns[i].address@));
            } else {
                assert(text_lt(ns[i].address@, ns[j].address@));
            }
            lemma_text_lt_irreflexive(a);
        } else {
            assert(ns[j] == e);
        }
    }
    assert(accounts_map(ns) =~= m);
}

/// Inserting an entry for a new address at its place in the order adds it to
/// the map and keeps the entries ordered.
pub proof fn lemma_map_insert(es: Seq<AccountEntry>, k: int, e: AccountEntry)
    requires
        sorted_by_address(es),
        0 <= k <= es.len(),
        forall|i: int| 0 <= i < k ==> text_lt(#[trigger] es[i].address@, e.address@),
        forall|i: int| k <= i < es.len() ==> text_lt(e.address@, #[trigger] es[i].address@),
    ensures
        sorted_by_address(es.insert(k, e)),
        accounts_map(es.insert(k, e)) == accounts_map(es).insert(e.address@, entry_data(e)),
{
    let ns = es.insert(k, e);
    assert(sorted_by_address(ns)) by {
        assert forall|p: int, q: int| 0 <= p < q < ns.len() implies text_lt(
            #[trigger] ns[p].address@,
            #[trigger] ns[q].address@,
        ) by {
            if q < k {
                assert(text_lt(es[p].address@, es[q].address@));
            } else if q == k {
            } else if p < k {
                assert(text_lt(es[p].address@, e.address@));
                assert(text_lt(e.address@, es[q - 1].address@));
                lemma_text_lt_transitive(es[p].address@, e.address@, es[q - 1].address@);
            } else if p == k {
            } else {
                assert(text_lt(es[p - 1].address@, es[q - 1].address@));
            }
        }
    }
    assert(!has_address(es, e.address@)) by {
        if has_address(es, e.address@) {
            let j = choose|j: int| 0 <= j < es.len() && #[trigger] es[j].address@ == e.address@;
            lemma_text_lt_irreflexive(e.address@);
        }
    }
    let m = accounts_map(es).insert(e.address@, entry_data(e));
    assert forall|a: Seq<char>| #[trigger] accounts_map(ns).dom().contains(a) <==> m.dom().contains(
        a,
    ) by {
        lemma_map_dom(ns, a);
        lemma_map_dom(es, a);
        if has_address(ns, a) {
            let j = choose|j: int| 0 <= j < ns.len() && #[trigger] ns[j].address@ == a;
            if j < k {
                assert(es[j].address@ == a);
            } else if j > k {
                assert(es[j - 1].address@ == a);
            }
        }
        if has_address(es, a) {
            let j = choose|j: int| 0 <= j < es.len() && #[trigger] es[j].address@ == a;
            if j < k {
                assert(ns[j].address@ == a);
            } else {
                assert(ns[j + 1].address@ == a);
            }
        }
        if a == e.address@ {
            assert(ns[k].address@ == a);
        }
    }
    assert forall|a: Seq<char>| #[trigger] accounts_map(ns).dom().contains(a) implies accounts_map(
        ns,
    )[a] == m[a] by {
        lemma_map_dom(ns, a);
        let j = choose|j: int| 0 <= j < ns.len() && #[trigger] ns[j].address@ == a;
        lemma_map_at(ns, j);
        if j < k {
            lemma_map_at(es, j);
        } else if j > k {
            lemma_map_at(es, j - 1);
        }
    }
    assert(accounts_map(ns) =~= m);
}

/// Removing an entry removes its address from the map and keeps the order.
pub proof fn lemma_map_remove(es: Seq<AccountEntry>, i: int)
    requires
        sorted_by_address(es),
        0 <= i < es.len(),
    ensures
        sorted_by_address(es.remove(i)),
        accounts_map(es.remove(i)) == accounts_map(es).remove(es[i].address@),
{
    let ns = es.remove(i);
    let r = es[i].address@;
    assert(sorted_by_address(ns)) by {
        assert forall|p: int, q: int| 0 <= p < q < ns.len() implies text_lt(
            #[trigger] ns[p].address@,
            #[trigger] ns[q].address@,
        ) by {
            let p0 = if p < i {
                p
            } else {
                p + 1
            };
            let q0 = if q < i {
                q
            } else {
                q + 1
            };
            assert(text_lt(es[p0].address@, es[q0].address@));
        }
    }
    let m = accounts_map(es).remove(r);
    assert forall|a: Seq<char>| #[trigger] accounts_map(ns).dom().contains(a) <==> m.dom().contains(
        a,
    ) by {
        lemma_map_dom(ns, a);
        lemma_map_dom(es, a);
        if has_address(ns, a) {
            let j = choose|j: int| 0 <= j < ns.len() && #[trigger] ns[j].address@ == a;
            let j0 = if j < i {
                j
            } else {
                j + 1
            };
            assert(es[j0].address@ == a);
            if a == r {
                if j0 < i {
                    assert(text_lt(es[j0].address@, es[i].address@));
                } else {
                    assert(text_lt(es[i].address@, es[j0].address@));
                }
                lemma_text_lt_irreflexive(a);
            }
        }
        if has_address(es, a) && a != r {
            let j = choose|j: int| 0 <= j < es.len() && #[trigger] es[j].address@ == a;
            if j < i {
                assert(ns[j].address@ == a);
            } else {
                assert(ns[j - 1].address@ == a);
            }
        }
    }
    assert forall|a: Seq<char>| #[trigger] accounts_map(ns).dom().contains(a) implies accounts_map(
        ns,
    )[a] == m[a] by {
        lemma_map_dom(ns, a);
        let j = choose|j: int| 0 <= j < ns.len() && #[trigger] ns[j].address@ == a;
        lemma_map_at(ns, j);
        if j < i {
            lemma_map_at(es, j);
        } else {
            lemma_map_at(es, j + 1);
        }
    }
    assert(accounts_map(ns) =~= m);
}

// ---------------------------------------------------------------- sums

pub proof fn lemma_sum_update(
    es: Seq<AccountEntry>,
    i: int,
    x: AccountEntry,
    f: spec_fn(AccountEntry) -> nat,
)
    requires
        0 <= i < es.len(),
    ensures
        sum_by(es.update(i, x), f) + f(es[i]) == sum_by(es, f) + f(x),
    decreases es.len(),
{
    if i == es.len() - 1 {
        assert(es.update(i, x).drop_last() =~= es.drop_last());
    } else {
        assert(es.update(i, x).drop_last() =~= es.drop_last().update(i, x));
        lemma_sum_update(es.drop_last(), i, x, f);
    }
}

pub proof fn lemma_sum_insert(
    es: Seq<AccountEntry>,
    k: int,
    x: AccountEntry,
    f: spec_fn(AccountEntry) -> nat,
)
    requires
        0 <= k <= es.len(),
    ensures
        sum_by(es.insert(k, x), f) == sum_by(es, f) + f(x),
    decreases es.len(),
{
    if k == es.len() {
        assert(es.insert(k, x).drop_last() =~= es);
    } else {
        assert(es.insert(k, x).drop_last() =~= es.drop_last().insert(k, x));
        lemma_sum_insert(es.drop_last(), k, x, f);
    }
}

pub proof fn lemma_sum_remove(es: Seq<AccountEntry>, i: int, f: spec_fn(AccountEntry) -> nat)
    requires
        0 <= i < es.len(),
    ensures
        sum_by(es.remove(i), f) + f(es[i]) == sum_by(es, f),
    decreases es.len(),
{
    if i == es.len() - 1 {
        assert(es.remove(i) =~= es.drop_last());
    } else {
        assert(es.remove(i).drop_last() =~= es.drop_last().remove(i));
        lemma_sum_remove(es.drop_last(), i, f);
    }
}

pub proof fn lemma_sum_element(es: Seq<AccountEntry>, i: int, f: spec_fn(AccountEntry) -> nat)
    requires
        0 <= i < es.len(),
    ensures
        f(es[i]) <= sum_by(es, f),
    decreases es.len(),
{
    if i < es.len() - 1 {
        lemma_sum_element(es.drop_last(), i, f);
    }
}

// ---------------------------------------------------------------- lookups

/// Where an address stands: its index when an entry has it, and otherwise the
/// index it would be inserted at to keep the order.
pub fn locate(es: &Vec<AccountEntry>, address: &String) -> (r: (usize, bool))
    requires
        sorted_by_address(es@),
    ensures
        r.0 <= es.len(),
        r.1 ==> r.0 < es.len() && es@[r.0 as int].address@ == address@,
        !r.1 ==> !has_address(es@, address@),
        !r.1 ==> forall|i: int|
            0 <= i < r.0 ==> text_lt(#[trigger] es@[i].address@, address@),
        !r.1 ==> forall|i: int|
            r.0 <= i < es.len() ==> text_lt(address@, #[trigger] es@[i].address@),
{
    let mut k: usize = 0;
    while k < es.len() && str_lt(es[k].address.as_str(), address.as_str())
        invariant
            k <= es.len(),
            sorted_by_address(es@),
            forall|i: int| 0 <= i < k ==> text_lt(#[trigger] es@[i].address@, address@),
        decreases es.len() - k,
    {
        k = k + 1;
    }
    if k < es.len() && es[k].address == *address {
        return (k, true);
    }
    proof {
        if k < es.len() {
            assert(!text_lt(es@[k as int].address@, address@));
            lemma_text_lt_total(es@[k as int].address@, address@);
            assert forall|i: int| k <= i < es.len() implies text_lt(
                address@,
                #[trigger] es@[i].address@,
            ) by {
                if i > k {
                    assert(text_lt(es@[k as int].address@, es@[i].address@));
                    lemma_text_lt_transitive(address@, es@[k as int].address@, es@[i].address@);
                }
            }
        }
        if has_address(es@, address@) {
            let j = choose|j: int| 0 <= j < es@.len() && #[trigger] es@[j].address@ == address@;
            lemma_text_lt_irreflexive(address@);
        }
    }
    (k, false)
}

/// A copy of the schedules.
pub fn copy_schedules(v: &Vec<VestingSchedule>) -> (r: Vec<VestingSchedule>)
    ensures
        r@ == v@,
{
    let mut r: Vec<VestingSchedule> = Vec::new();
    let mut i: usize = 0;
    while i < v.len()
        invariant
            i <= v.len(),
            r@ == v@.take(i as int),
        decreases v.len() - i,
    {
        r.push(v[i]);
        i = i + 1;
        assert(r@ =~= v@.take(i as int));
    }
    assert(v@.take(i as int) =~= v@);
    r
}

/// The response for a stored entry.
pub fn entry_response(e: &AccountEntry) -> (r: VestingAccountResponse)
    ensures
        response_of(r, *e),
{
    VestingAccountResponse {
        address: e.address.clone(),
        info: VestingInfo {
            schedules: copy_schedules(&e.info.schedules),
            released_amount: e.info.released_amount,
        },
    }
}

/// A response answers for an entry when it holds the entry's address and data.
pub open spec fn response_of(r: VestingAccountResponse, e: AccountEntry) -> bool {
    &&& r.address@ == e.address@
    &&& r.info.schedules@ == e.info.schedules@
    &&& r.info.released_amount == e.info.released_amount
}

// ---------------------------------------------------------------- pages

/// How many accounts a page holds at most: `limit`, ten when none is given,
/// and never more than thirty.
pub open spec fn page_limit(limit: Option<u32>) -> nat {
    let l: nat = match limit {
        Some(l) => l as nat,
        None => 10,
    };
    if l < 30 {
        l
    } else {
        30
    }
}

/// `k` splits the ordered entries at the bound: entries before `k` are below
/// or at it, those from `k` on above it.
pub open spec fn split_point(es: Seq<AccountEntry>, bound: Option<Seq<char>>, k: int) -> bool {
    &&& 0 <= k <= es.len()
    &&& forall|i: int|
        0 <= i < k ==> match bound {
            None => false,
            Some(s) => !text_lt(s, #[trigger] es[i].address@),
        }
    &&& forall|i: int|
        k <= i < es.len() ==> match bound {
            None => true,
            Some(s) => text_lt(s, #[trigger] es[i].address@),
        }
}

/// `k` splits the ordered entries below the bound from those at or above it.
pub open spec fn split_below(es: Seq<AccountEntry>, bound: Option<Seq<char>>, k: int) -> bool {
    &&& 0 <= k <= es.len()
    &&& forall|i: int|
        0 <= i < k ==> match bound {
            None => true,
            Some(s) => text_lt(#[trigger] es[i].address@, s),
        }
    &&& forall|i: int|
        k <= i < es.len() ==> match bound {
            None => false,
            Some(s) => !text_lt(#[trigger] es[i].address@, s),
        }
}

pub open spec fn bound_of(start_after: Option<String>) -> Option<Seq<char>> {
    match start_after {
        Some(s) => Some(s@),
        None => None,
    }
}

/// A page of accounts in the given order: at most `page_limit(limit)` of the
/// accounts in range, nearest to the bound first.
pub fn page(
    es: &Vec<AccountEntry>,
    start_after: Option<String>,
    limit: Option<u32>,
    order_by: Option<OrderBy>,
) -> (r: Vec<VestingAccountResponse>)
    requires
        sorted_by_address(es@),
    ensures
        match order_by {
            Some(OrderBy::Asc) => exists|k: int|
                #![trigger split_point(es@, bound_of(start_after), k)]
                split_point(es@, bound_of(start_after), k) && r@.len() == if es@.len() - k
                    < page_limit(limit) {
                    es@.len() - k
                } else {
                    page_limit(limit) as int
                } && forall|j: int|
                    0 <= j < r@.len() ==> response_of(#[trigger] r@[j], es@[k + j]),
            _ => exists|k: int|
                #![trigger split_below(es@, bound_of(start_after), k)]
                split_below(es@, bound_of(start_after), k) && r@.len() == if k < page_limit(
                    limit,
                ) {
                    k
                } else {
                    page_limit(limit) as int
                } && forall|j: int|
                    0 <= j < r@.len() ==> response_of(#[trigger] r@[j], es@[k - 1 - j]),
        },
{
    let n: usize = match limit {
        Some(l) => if l < 30 {
            l as usize
        } else {
            30
        },
        None => 10,
    };
    let mut r: Vec<VestingAccountResponse> = Vec::new();
    let ascending = match order_by {
        Some(OrderBy::Asc) => true,
        _ => false,
    };
    if ascending {
        let mut k: usize = 0;
        match &start_after {
            Some(s) => {
                while k < es.len() && !str_lt(s.as_str(), es[k].address.as_str())
                    invariant
                        k <= es.len(),
                        forall|i: int| 0 <= i < k ==> !text_lt(s@, #[trigger] es@[i].address@),
                    decreases es.len() - k,
                {
                    k = k + 1;
                }
                proof {
                    assert forall|i: int| k <= i < es@.len() implies text_lt(
                        s@,
                        #[trigger] es@[i].address@,
                    ) by {
                        if i > k {
                            assert(text_lt(es@[k as int].address@, es@[i].address@));
                            lemma_text_lt_transitive(s@, es@[k as int].address@, es@[i].address@);
                        }
                    }
                }
            },
            None => {},
        }
        assert(split_point(es@, bound_of(start_after), k as int));
        let mut j: usize = 0;
        while j < n && k + j < es.len()
            invariant
                k <= es.len(),
                j <= n,
                k + j <= es.len(),
                r@.len() == j,
                forall|p: int| 0 <= p < j ==> response_of(#[trigger] r@[p], es@[k + p]),
            decreases n - j,
        {
            r.push(entry_response(&es[k + j]));
            j = j + 1;
        }
        r
    } else {
        let mut k: usize = 0;
        match &start_after {
            Some(s) => {
                while k < es.len() && str_lt(es[k].address.as_str(), s.as_str())
                    invariant
                        k <= es.len(),
                        forall|i: int| 0 <= i < k ==> text_lt(#[trigger] es@[i].address@, s@),
                    decreases es.len() - k,
                {
                    k = k + 1;
                }
                proof {
                    assert forall|i: int| k <= i < es@.len() implies !text_lt(
                        #[trigger] es@[i].address@,
                        s@,
                    ) by {
                        if i > k && text_lt(es@[i].address@, s@) {
                            assert(text_lt(es@[k as int].address@, es@[i].address@));
                            lemma_text_lt_transitive(es@[k as int].address@, es@[i].address@, s@);
                        }
                    }
                }
            },
            None => {
                k = es.len();
            },
        }
        assert(split_below(es@, bound_of(start_after), k as int));
        let mut j: usize = 0;
        while j < n && j < k
            invariant
                k <= es.len(),
                j <= n,
                j <= k,
                r@.len() == j,
                forall|p: int| 0 <= p < j ==> response_of(#[trigger] r@[p], es@[k - 1 - p]),
            decreases n - j,
        {
            r.push(entry_response(&es[k - 1 - j]));
            j = j + 1;
        }
        r
    }
}

/// Whether the entries are valid account data: schedules valid and no more
/// paid than granted.
pub open spec fn entry_ok(e: AccountEntry) -> bool {
    &&& schedules_valid(e.info.schedules@)
    &&& e.info.released_amount <= total_amount(e.info.schedules@)
}

/// A prefix of the entries sums to no more than all of them.
pub proof fn lemma_sum_prefix_le(es: Seq<AccountEntry>, n: int, f: spec_fn(AccountEntry) -> nat)
    requires
        0 <= n <= es.len(),
    ensures
        sum_by(es.take(n), f) <= sum_by(es, f),
    decreases es.len(),
{
    if n < es.len() {
        assert(es.drop_last().take(n) =~= es.take(n));
        lemma_sum_prefix_le(es.drop_last(), n, f);
    } else {
        assert(es.take(n) =~= es);
    }
}

/// Whether the entries are strictly ordered by address.
pub fn check_sorted(es: &Vec<AccountEntry>) -> (r: bool)
    ensures
        r == sorted_by_address(es@),
{
    let n = es.len();
    if n == 0 {
        return true;
    }
    assert(sorted_by_address(es@.take(1)));
    let mut i: usize = 1;
    while i < n
        invariant
            n == es@.len(),
            1 <= i <= n,
            sorted_by_address(es@.take(i as int)),
        decreases n - i,
    {
        if !str_lt(es[i - 1].address.as_str(), es[i].address.as_str()) {
            return false;
        }
        proof {
            let t = es@.take(i + 1);
            let u = es@.take(i as int);
            assert forall|p: int, q: int| 0 <= p < q < t.len() implies text_lt(
                #[trigger] t[p].address@,
                #[trigger] t[q].address@,
            ) by {
                if q < i {
                    assert(u[p] == t[p] && u[q] == t[q]);
                } else if p < i - 1 {
                    assert(u[p] == t[p] && u[i - 1] == t[i - 1]);
                    assert(text_lt(u[p].address@, u[i - 1].address@));
                    lemma_text_lt_transitive(t[p].address@, t[i - 1].address@, t[q].address@);
                }
            }
        }
        i = i + 1;
    }
    assert(es@.take(n as int) =~= es@);
    true
}

} // verus!
