use vstd::prelude::*;

use crate::accounts::{
    check_sorted, has_address, lemma_sum_element, lemma_sum_prefix_le, accounts_map, bound_of, copy_schedules, entry_data, entry_ok, entry_response, lemma_map_absent,
    lemma_map_at, lemma_map_insert, lemma_map_remove, lemma_map_update, lemma_sum_insert,
    lemma_sum_remove, lemma_sum_update, locate, page, page_limit, response_of, sorted_by_address,
    split_below, split_point, sum_by, AccountData, AccountEntry,
};
use crate::arith::{amount_text, decimal_text};
use crate::history::{
    histories_below, histories_below_check, history_below, history_of, latest_for, latest_height,
    latest_value, lemma_history_absent, load_for, save_for, value_at, AddressHistory, History,
};
use crate::schedule::{
    all_disabled, assert_vesting_schedules, available_amount, compute_total_amount,
    compute_vested_total, disable_all, force_claim_amount, lemma_all_disabled, lemma_total_concat,
    lemma_vested_total_bounded, schedule_valid, schedules_valid, total_amount,
};
use crate::types::{
    asset_text, same_asset, AssetInfo, Attribute, BlockInfo, Coin, Config, ContractError,
    Cw20HookMsg, Cw20ReceiveMsg, Extensions, OrderBy, OwnershipProposal, PaymentError, Response,
    StdError, Transfer, VestingAccount, VestingAccountResponse, VestingAccountsResponse,
    VestingInfo, VestingState,
};

verus! {

/// The longest an ownership proposal may stay open, in seconds (two weeks).
pub const MAX_PROPOSAL_TTL: u64 = 1209600u64;

/// The whole state of a vesting contract.
#[derive(Debug)]
pub struct VestingContract {
    pub config: Config,
    pub managers: Vec<String>,
    pub state: VestingState,
    pub accounts: Vec<AccountEntry>,
    pub proposal: Option<OwnershipProposal>,
    pub unclaimed: Vec<AddressHistory>,
    pub unclaimed_total: History,
    /// No history holds a write above this height.
    pub height_mark: u64,
}

/// What `a` holds unclaimed in the map, or zero when it has no account.
pub open spec fn unclaimed_in(m: Map<Seq<char>, AccountData>, a: Seq<char>) -> nat {
    if m.dom().contains(a) {
        (total_amount(m[a].schedules) - m[a].released) as nat
    } else {
        0
    }
}

/// The accounts as the registration checks them, in order: the first
/// account with an invalid schedule, or a total that does not fit in 128
/// bits, fails it; otherwise it yields what they grant in all.
pub open spec fn registration_total(accs: Seq<VestingAccount>) -> Result<nat, ContractError>
    decreases accs.len(),
{
    if accs.len() == 0 {
        Ok(0)
    } else {
        match registration_total(accs.drop_last()) {
            Err(e) => Err(e),
            Ok(t) => if !schedules_valid(accs.last().schedules@) {
                Err(ContractError::VestingScheduleError(accs.last().address))
            } else if t + total_amount(accs.last().schedules@) > u128::MAX {
                Err(ContractError::Std(StdError::Overflow))
            } else {
                Ok(t + total_amount(accs.last().schedules@))
            },
        }
    }
}

/// An account after registering `acc`: its new schedules before those it
/// had, and what it was paid kept.
pub open spec fn register_one(m: Map<Seq<char>, AccountData>, acc: VestingAccount) -> Map<
    Seq<char>,
    AccountData,
> {
    let prior = if m.dom().contains(acc.address@) {
        m[acc.address@]
    } else {
        AccountData { schedules: Seq::empty(), released: 0 }
    };
    m.insert(
        acc.address@,
        AccountData { schedules: acc.schedules@ + prior.schedules, released: prior.released },
    )
}

/// The accounts after registering each of `accs` in turn.
pub open spec fn register_all(m: Map<Seq<char>, AccountData>, accs: Seq<VestingAccount>) -> Map<
    Seq<char>,
    AccountData,
>
    decreases accs.len(),
{
    if accs.len() == 0 {
        m
    } else {
        register_one(register_all(m, accs.drop_last()), accs.last())
    }
}

/// What registering `accs` with `amount` deposited does: it fails as the
/// check fails, when `amount` is not what they grant, or when the granted
/// total would not fit; otherwise it adds them and what they grant.
pub open spec fn registration_outcome(
    old: VestingContract,
    new: VestingContract,
    r: Result<Response, ContractError>,
    accs: Seq<VestingAccount>,
    amount: nat,
) -> bool {
    match registration_total(accs) {
        Err(e) => r == Err::<Response, ContractError>(e) && new == old,
        Ok(t) => if t != amount {
            r == Err::<Response, ContractError>(ContractError::VestingScheduleAmountError) && new
                == old
        } else if old.state.total_granted + t > u128::MAX {
            r == Err::<Response, ContractError>(ContractError::Std(StdError::Overflow)) && new == old
        } else {
            r matches Ok(resp) && {
                &&& new.keeps_setup(old)
                &&& new.accounts_view() == register_all(old.accounts_view(), accs)
                &&& new.state.total_granted == old.state.total_granted + t
                &&& new.state.total_released == old.state.total_released
                &&& resp.messages@.len() == 0
                &&& attributes_are(
                    resp.attributes@,
                    seq![("action"@, "register_vesting_accounts"@), ("deposited"@, decimal_text(t))],
                )
            }
        },
    }
}

/// A failed check of a prefix fails the whole.
pub proof fn lemma_registration_prefix_err(accs: Seq<VestingAccount>, n: int)
    requires
        0 <= n <= accs.len(),
        registration_total(accs.take(n)) is Err,
    ensures
        registration_total(accs) == registration_total(accs.take(n)),
    decreases accs.len(),
{
    if n < accs.len() {
        assert(accs.drop_last().take(n) =~= accs.take(n));
        lemma_registration_prefix_err(accs.drop_last(), n);
    } else {
        assert(accs.take(n) =~= accs);
    }
}

/// A passed check passes on every prefix, with no more in all.
pub proof fn lemma_registration_prefix(accs: Seq<VestingAccount>, n: int)
    requires
        0 <= n <= accs.len(),
        registration_total(accs) is Ok,
    ensures
        registration_total(accs.take(n)) matches Ok(t) && t <= registration_total(accs)->Ok_0,
    decreases accs.len(),
{
    if n < accs.len() {
        assert(accs.drop_last().take(n) =~= accs.take(n));
        lemma_registration_prefix(accs.drop_last(), n);
    } else {
        assert(accs.take(n) =~= accs);
    }
}

/// The vesting token is the cw20 contract at `a`.
pub open spec fn is_token_contract(token: Option<AssetInfo>, a: Seq<char>) -> bool {
    match token {
        Some(AssetInfo::Token { contract_addr }) => contract_addr@ == a,
        _ => false,
    }
}

/// The accounts after removing each of `addrs` in turn.
pub open spec fn remove_all(m: Map<Seq<char>, AccountData>, addrs: Seq<String>) -> Map<
    Seq<char>,
    AccountData,
>
    decreases addrs.len(),
{
    if addrs.len() == 0 {
        m
    } else {
        remove_all(m, addrs.drop_last()).remove(addrs.last()@)
    }
}

/// What removing each of `addrs` in turn claws back, in order, leaving out
/// the nothing clawed from an address without an account or without
/// anything unclaimed.
pub open spec fn clawed(m: Map<Seq<char>, AccountData>, addrs: Seq<String>) -> Seq<nat>
    decreases addrs.len(),
{
    if addrs.len() == 0 {
        Seq::empty()
    } else {
        let before = clawed(m, addrs.drop_last());
        let u = unclaimed_in(remove_all(m, addrs.drop_last()), addrs.last()@);
        if u > 0 {
            before.push(u)
        } else {
            before
        }
    }
}

pub open spec fn nat_sum(s: Seq<nat>) -> nat
    decreases s.len(),
{
    if s.len() == 0 {
        0
    } else {
        nat_sum(s.drop_last()) + s.last()
    }
}

pub proof fn lemma_nat_sum_push(s: Seq<nat>, x: nat)
    ensures
        nat_sum(s.push(x)) == nat_sum(s) + x,
{
    assert(s.push(x).drop_last() =~= s);
}

/// What a claim of `amount` takes: all that is available when none is given.
pub open spec fn claim_amount(amount: Option<u128>, available: nat) -> nat {
    match amount {
        Some(a) => a as nat,
        None => available,
    }
}

/// Who is paid: the recipient when one is given, else the sender.
pub open spec fn recipient_of(recipient: Option<String>, sender: Seq<char>) -> Seq<char> {
    match recipient {
        Some(r) => r@,
        None => sender,
    }
}

/// What an account was granted in all.
pub open spec fn entry_total(e: AccountEntry) -> nat {
    total_amount(e.info.schedules@)
}

/// What an account was granted and not paid.
pub open spec fn entry_unclaimed(e: AccountEntry) -> nat {
    (total_amount(e.info.schedules@) - e.info.released_amount) as nat
}

pub open spec fn total_of() -> spec_fn(AccountEntry) -> nat {
    |e: AccountEntry| entry_total(e)
}

pub open spec fn unclaimed_of() -> spec_fn(AccountEntry) -> nat {
    |e: AccountEntry| entry_unclaimed(e)
}

/// The attributes are, in order, the given keys and values.
pub open spec fn attributes_are(attrs: Seq<Attribute>, kv: Seq<(Seq<char>, Seq<char>)>) -> bool {
    &&& attrs.len() == kv.len()
    &&& forall|i: int|
        0 <= i < kv.len() ==> (#[trigger] attrs[i]).key@ == kv[i].0 && attrs[i].value@ == kv[i].1
}

/// A payment of `amount` of `asset` to `recipient`.
pub open spec fn transfer_is(t: Transfer, asset: AssetInfo, recipient: Seq<char>, amount: nat) -> bool {
    &&& same_asset(t.asset, asset)
    &&& t.recipient@ == recipient
    &&& t.amount == amount
}

/// The payments of a response: one of `amount`, or none when it is zero.
pub open spec fn pays(
    r: Response,
    asset: AssetInfo,
    recipient: Seq<char>,
    amount: nat,
) -> bool {
    if amount == 0 {
        r.messages@.len() == 0
    } else {
        r.messages@.len() == 1 && transfer_is(r.messages@[0], asset, recipient, amount)
    }
}

/// The error a disabled extension answers with.
pub open spec fn ext_unsupported_text(extension: Seq<char>) -> Seq<char> {
    "Extension is not enabled for the contract: "@ + extension + "."@
}

/// The error of an address without an account.
pub open spec fn is_account_not_found(e: StdError) -> bool {
    e matches StdError::NotFound { kind } && kind@ == "vesting_base::types::VestingInfo"@
}

pub open spec fn is_generic_err(e: StdError, msg: Seq<char>) -> bool {
    e matches StdError::GenericErr { msg: m } && m@ == msg
}

/// The error of a disabled extension.
pub fn ext_unsupported_err(extension: &str) -> (r: StdError)
    ensures
        is_generic_err(r, ext_unsupported_text(extension@)),
{
    let msg = String::from_str("Extension is not enabled for the contract: ").concat(
        extension,
    ).concat(".");
    StdError::GenericErr { msg }
}

/// An attribute with the given key and value.
fn attribute(key: &str, value: String) -> (r: Attribute)
    ensures
        r.key@ == key@,
        r.value@ == value@,
{
    Attribute { key: String::from_str(key), value }
}

fn text(s: &str) -> (r: String)
    ensures
        r@ == s@,
{
    String::from_str(s)
}

/// A copy of an asset.
pub fn copy_asset(a: &AssetInfo) -> (r: AssetInfo)
    ensures
        r == *a,
{
    match a {
        AssetInfo::Token { contract_addr } => AssetInfo::Token {
            contract_addr: contract_addr.clone(),
        },
        AssetInfo::NativeToken { denom } => AssetInfo::NativeToken { denom: denom.clone() },
    }
}

/// A copy of a list of strings.
pub fn copy_strings(v: &Vec<String>) -> (r: Vec<String>)
    ensures
        r@ == v@,
{
    let mut r: Vec<String> = Vec::new();
    let mut i: usize = 0;
    while i < v.len()
        invariant
            i <= v.len(),
            r@ == v@.take(i as int),
        decreases v.len() - i,
    {
        r.push(v[i].clone());
        i = i + 1;
        assert(r@ =~= v@.take(i as int));
    }
    assert(v@.take(i as int) =~= v@);
    r
}

/// Whether a string occurs in the list.
pub fn contains_string(v: &Vec<String>, s: &String) -> (r: bool)
    ensures
        r == exists|i: int| 0 <= i < v@.len() && #[trigger] v@[i]@ == s@,
{
    let mut i: usize = 0;
    while i < v.len()
        invariant
            i <= v.len(),
            forall|j: int| 0 <= j < i ==> (#[trigger] v@[j])@ != s@,
        decreases v.len() - i,
    {
        if v[i] == *s {
            return true;
        }
        i = i + 1;
    }
    false
}

/// The views of a list of strings.
pub open spec fn texts(v: Seq<String>) -> Seq<Seq<char>> {
    v.map_values(|s: String| s@)
}

/// Chooses the contract's optional parts, then builds it.
pub struct VestingBaseBuilder {
    pub historical: bool,
    pub managed: bool,
    pub with_managers: Option<Vec<String>>,
}

impl Default for VestingBaseBuilder {
    fn default() -> (r: VestingBaseBuilder)
        ensures
            !r.historical,
            !r.managed,
            r.with_managers is None,
    {
        VestingBaseBuilder { historical: false, managed: false, with_managers: None }
    }
}

impl VestingBaseBuilder {
    /// Also keeps the past of unclaimed amounts by block height.
    pub fn historical(self) -> (r: VestingBaseBuilder)
        ensures
            r.historical,
            r.managed == self.managed,
            r.with_managers == self.with_managers,
    {
        VestingBaseBuilder { historical: true, ..self }
    }

    /// Also lets the owner remove accounts and claw back what they hold.
    pub fn managed(self) -> (r: VestingBaseBuilder)
        ensures
            r.historical == self.historical,
            r.managed,
            r.with_managers == self.with_managers,
    {
        VestingBaseBuilder { managed: true, ..self }
    }

    /// Also lets the given managers register accounts.
    pub fn with_managers(self, managers: Vec<String>) -> (r: VestingBaseBuilder)
        ensures
            r.historical == self.historical,
            r.managed == self.managed,
            r.with_managers == Some(managers),
    {
        VestingBaseBuilder { with_managers: Some(managers), ..self }
    }

    /// A contract with the given owner and token manager, no vesting token
    /// and no accounts.
    pub fn build(self, owner: String, token_info_manager: String) -> (r: VestingContract)
        ensures
            r.wf(),
            r.config.owner == owner,
            r.config.token_info_manager == token_info_manager,
            r.config.vesting_token is None,
            r.config.extensions == (Extensions {
                historical: self.historical,
                managed: self.managed,
                with_managers: self.with_managers is Some,
            }),
            r.managers@ == match self.with_managers {
                Some(m) => m@,
                None => Seq::<String>::empty(),
            },
            r.state == (VestingState { total_granted: 0, total_released: 0 }),
            accounts_map(r.accounts@) == Map::<Seq<char>, AccountData>::empty(),
            r.proposal is None,
            r.unclaimed@.len() == 0,
            r.unclaimed_total.checkpoints@.len() == 0,
            r.height_mark == 0,
    {
        let with_managers = self.with_managers.is_some();
        let managers = match self.with_managers {
            Some(m) => m,
            None => Vec::new(),
        };
        let r = VestingContract {
            config: Config {
                owner,
                token_info_manager,
                vesting_token: None,
                extensions: Extensions {
                    historical: self.historical,
                    managed: self.managed,
                    with_managers,
                },
            },
            managers,
            state: VestingState { total_granted: 0, total_released: 0 },
            accounts: Vec::new(),
            proposal: None,
            unclaimed: Vec::new(),
            unclaimed_total: History::new(),
            height_mark: 0,
        };
        assert(accounts_map(r.accounts@) =~= Map::<Seq<char>, AccountData>::empty());
        r
    }
}

impl VestingContract {
    /// What holds of every state the contract is in.
    pub open spec fn wf(&self) -> bool {
        &&& self.wf_core()
        &&& self.histories_ok()
        &&& self.total_consistent()
        &&& forall|a: Seq<char>| #[trigger] self.consistent_for(a)
    }

    /// The accounts are ordered and valid, and the totals account for them:
    /// what was granted and not paid is what the accounts hold unclaimed.
    pub open spec fn wf_core(&self) -> bool {
        &&& sorted_by_address(self.accounts@)
        &&& forall|i: int| 0 <= i < self.accounts@.len() ==> entry_ok(#[trigger] self.accounts@[i])
        &&& sum_by(self.accounts@, total_of()) <= self.state.total_granted
        &&& self.state.total_released <= self.state.total_granted
        &&& self.state.total_granted - self.state.total_released == sum_by(
            self.accounts@,
            unclaimed_of(),
        )
    }

    /// The histories are well formed and written no higher than the mark.
    pub open spec fn histories_ok(&self) -> bool {
        &&& self.unclaimed_total.wf()
        &&& latest_height(self.unclaimed_total.checkpoints@) <= self.height_mark
        &&& histories_below(self.unclaimed@, self.height_mark)
    }

    /// With the historical extension, the last written total is what is
    /// unclaimed now.
    pub open spec fn total_consistent(&self) -> bool {
        self.config.extensions.historical ==> latest_value(self.unclaimed_total.checkpoints@)
            == self.state.total_granted - self.state.total_released
    }

    /// With the historical extension, the last written amount of `a` is what
    /// it holds unclaimed now.
    pub open spec fn consistent_for(&self, a: Seq<char>) -> bool {
        self.config.extensions.historical ==> latest_value(history_of(self.unclaimed@, a))
            == unclaimed_in(self.accounts_view(), a)
    }

    /// No history changes at or below `height` from `old` to `self`.
    pub open spec fn past_kept(&self, old: VestingContract, height: u64) -> bool {
        &&& forall|h: u64|
            h <= height ==> #[trigger] value_at(self.unclaimed_total.checkpoints@, h) == value_at(
                old.unclaimed_total.checkpoints@,
                h,
            )
        &&& forall|b: Seq<char>, h: u64|
            h <= height ==> #[trigger] value_at(history_of(self.unclaimed@, b), h) == value_at(
                history_of(old.unclaimed@, b),
                h,
            )
    }

    /// After a change at `height`: with the historical extension the mark is
    /// that height, without it the mark is unchanged.
    pub open spec fn marked_at(&self, old: VestingContract, height: u64) -> bool {
        self.height_mark == if old.config.extensions.historical {
            height
        } else {
            old.height_mark
        }
    }

    /// Moves the mark to `height` when the historical extension is enabled.
    fn mark_height(&mut self, height: u64)
        requires
            old(self).wf(),
            old(self).height_mark <= height,
        ensures
            final(self).wf(),
            *final(self) == (VestingContract {
                height_mark: if old(self).config.extensions.historical {
                    height
                } else {
                    old(self).height_mark
                },
                ..*old(self)
            }),
    {
        if self.config.extensions.historical {
            let ghost before = *self;
            self.height_mark = height;
            proof {
                assert forall|a: Seq<char>| #[trigger] self.consistent_for(a) by {
                    assert(before.consistent_for(a));
                }
            }
        }
    }

    /// The configuration, managers and proposal are those of `old`.
    pub open spec fn keeps_setup(&self, old: VestingContract) -> bool {
        &&& self.config == old.config
        &&& self.managers == old.managers
        &&& self.proposal == old.proposal
    }

    /// The accounts, by address.
    pub open spec fn accounts_view(&self) -> Map<Seq<char>, AccountData> {
        accounts_map(self.accounts@)
    }

    pub open spec fn is_owner(&self, a: Seq<char>) -> bool {
        self.config.owner@ == a
    }

    /// Who may register accounts: the owner, and the managers when that
    /// extension is enabled.
    pub open spec fn is_whitelisted(&self, a: Seq<char>) -> bool {
        ||| self.config.owner@ == a
        ||| self.config.extensions.with_managers && exists|i: int|
            0 <= i < self.managers@.len() && #[trigger] self.managers@[i]@ == a
    }

    /// Whether `sender` may register accounts.
    pub fn whitelisted(&self, sender: &String) -> (r: bool)
        ensures
            r == self.is_whitelisted(sender@),
    {
        if self.config.owner == *sender {
            return true;
        }
        self.config.extensions.with_managers && contains_string(&self.managers, sender)
    }

    /// What an entry was granted fits the totals.
    proof fn lemma_entry_bounds(&self, k: int)
        requires
            self.wf_core(),
            0 <= k < self.accounts@.len(),
        ensures
            entry_total(self.accounts@[k]) <= self.state.total_granted,
            entry_unclaimed(self.accounts@[k]) <= self.state.total_granted
                - self.state.total_released,
            entry_ok(self.accounts@[k]),
    {
        lemma_sum_element(self.accounts@, k, total_of());
        lemma_sum_element(self.accounts@, k, unclaimed_of());
    }

    /// What `address` holds unclaimed.
    fn unclaimed_of_address(&self, address: &String) -> (r: u128)
        requires
            self.wf_core(),
        ensures
            r == unclaimed_in(self.accounts_view(), address@),
    {
        let (k, found) = locate(&self.accounts, address);
        if !found {
            proof {
                lemma_map_absent(self.accounts@, address@);
            }
            return 0;
        }
        proof {
            lemma_map_at(self.accounts@, k as int);
            self.lemma_entry_bounds(k as int);
        }
        let e = &self.accounts[k];
        match compute_total_amount(&e.info.schedules) {
            Some(t) => t - e.info.released_amount,
            None => 0,
        }
    }

    /// With the historical extension, writes at `height` what `address` and
    /// all accounts together now hold unclaimed.
    fn record_unclaimed(&mut self, height: u64, address: &String)
        requires
            old(self).wf_core(),
            old(self).histories_ok(),
            old(self).height_mark <= height,
            forall|b: Seq<char>| b != address@ ==> #[trigger] old(self).consistent_for(b),
        ensures
            final(self).wf(),
            final(self).config == old(self).config,
            final(self).managers == old(self).managers,
            final(self).state == old(self).state,
            final(self).accounts == old(self).accounts,
            final(self).proposal == old(self).proposal,
            final(self).height_mark == if old(self).config.extensions.historical {
                height
            } else {
                old(self).height_mark
            },
            final(self).past_kept(*old(self), height),
    {
        if !self.config.extensions.historical {
            proof {
                assert forall|a: Seq<char>| #[trigger] self.consistent_for(a) by {}
            }
            return;
        }
        let value = self.unclaimed_of_address(address);
        let ghost old_self = *self;
        save_for(&mut self.unclaimed, address, height, value, self.height_mark);
        let total: u128 = self.state.total_granted - self.state.total_released;
        self.unclaimed_total.save(height, total);
        self.height_mark = height;
        proof {
            assert forall|a: Seq<char>| #[trigger] self.consistent_for(a) by {
                if a != address@ {
                    assert(old_self.consistent_for(a));
                }
            }
        }
    }

    // ------------------------------------------------------------ checking a state

    /// Whether the accounts and totals hold what `wf_core` asks.
    fn check_accounts(&self) -> (r: bool)
        ensures
            r == self.wf_core(),
    {
        if !check_sorted(&self.accounts) {
            return false;
        }
        let es = &self.accounts;
        let granted = self.state.total_granted;
        let mut i: usize = 0;
        let mut total_sum: u128 = 0;
        let mut unclaimed_sum: u128 = 0;
        while i < es.len()
            invariant
                i <= es.len(),
                es == &self.accounts,
                granted == self.state.total_granted,
                sorted_by_address(es@),
                forall|j: int| 0 <= j < i ==> entry_ok(#[trigger] es@[j]),
                total_sum == sum_by(es@.take(i as int), total_of()),
                unclaimed_sum == sum_by(es@.take(i as int), unclaimed_of()),
                unclaimed_sum <= total_sum,
            decreases es.len() - i,
        {
            proof {
                assert(es@.take(i + 1).drop_last() =~= es@.take(i as int));
                lemma_sum_prefix_le(es@, i + 1, total_of());
                lemma_sum_element(es@, i as int, total_of());
            }
            let e = &es[i];
            if assert_vesting_schedules(&e.address, &e.info.schedules).is_err() {
                return false;
            }
            let t: u128 = match compute_total_amount(&e.info.schedules) {
                None => {
                    return false;
                },
                Some(t) => t,
            };
            if e.info.released_amount > t {
                return false;
            }
            total_sum = match total_sum.checked_add(t) {
                None => {
                    return false;
                },
                Some(x) => x,
            };
            unclaimed_sum = unclaimed_sum + (t - e.info.released_amount);
            i = i + 1;
        }
        assert(es@.take(i as int) =~= es@);
        total_sum <= granted && self.state.total_released <= granted && granted
            - self.state.total_released == unclaimed_sum
    }

    /// Whether, with the historical extension, every address's last written
    /// amount is what it holds unclaimed.
    fn check_consistency(&self) -> (r: bool)
        requires
            self.wf_core(),
        ensures
            r == forall|a: Seq<char>| #[trigger] self.consistent_for(a),
    {
        if !self.config.extensions.historical {
            return true;
        }
        let es = &self.accounts;
        let hs = &self.unclaimed;
        let mut i: usize = 0;
        while i < es.len()
            invariant
                i <= es.len(),
                es == &self.accounts,
                hs == &self.unclaimed,
                self.wf_core(),
                self.config.extensions.historical,
                forall|j: int|
                    0 <= j < i ==> latest_value(history_of(hs@, (#[trigger] es@[j]).address@))
                        == entry_unclaimed(es@[j]),
            decreases es.len() - i,
        {
            proof {
                self.lemma_entry_bounds(i as int);
                lemma_map_at(es@, i as int);
            }
            let e = &es[i];
            let t: u128 = match compute_total_amount(&e.info.schedules) {
                Some(t) => t,
                None => 0,
            };
            if latest_for(hs, &e.address) != t - e.info.released_amount {
                proof {
                    assert(!self.consistent_for(e.address@));
                }
                return false;
            }
            i = i + 1;
        }
        let mut k: usize = 0;
        while k < hs.len()
            invariant
                k <= hs.len(),
                es == &self.accounts,
                hs == &self.unclaimed,
                self.wf_core(),
                self.config.extensions.historical,
                forall|j: int|
                    0 <= j < k ==> (has_address(es@, (#[trigger] hs@[j]).address@) || latest_value(
                        history_of(hs@, hs@[j].address@),
                    ) == 0),
            decreases hs.len() - k,
        {
            let (p, found) = locate(es, &hs[k].address);
            if !found && latest_for(hs, &hs[k].address) != 0 {
                proof {
                    lemma_map_absent(es@, hs@[k as int].address@);
                    assert(!self.consistent_for(hs@[k as int].address@));
                }
                return false;
            }
            proof {
                if found {
                    assert(es@[p as int].address@ == hs@[k as int].address@);
                }
            }
            k = k + 1;
        }
        proof {
            assert forall|a: Seq<char>| #[trigger] self.consistent_for(a) by {
                if has_address(es@, a) {
                    let j = choose|j: int| 0 <= j < es@.len() && #[trigger] es@[j].address@ == a;
                    lemma_map_at(es@, j);
                    assert(latest_value(history_of(hs@, es@[j].address@)) == entry_unclaimed(
                        es@[j],
                    ));
                } else {
                    lemma_map_absent(es@, a);
                    if exists|j: int| 0 <= j < hs@.len() && #[trigger] hs@[j].address@ == a {
                        let j = choose|j: int| 0 <= j < hs@.len() && #[trigger] hs@[j].address@ == a;
                        assert(latest_value(history_of(hs@, hs@[j].address@)) == 0);
                    } else {
                        lemma_history_absent(hs@, a);
                    }
                }
            }
        }
        true
    }

    /// Whether the state holds the contract's invariant; a state rebuilt from
    /// storage is checked with this before it is handled.
    pub fn is_well_formed(&self) -> (r: bool)
        ensures
            r == self.wf(),
    {
        if !self.check_accounts() {
            return false;
        }
        if !history_below(&self.unclaimed_total, self.height_mark) {
            return false;
        }
        if !histories_below_check(&self.unclaimed, self.height_mark) {
            return false;
        }
        if self.config.extensions.historical && self.unclaimed_total.latest()
            != self.state.total_granted - self.state.total_released {
            return false;
        }
        self.check_consistency()
    }

    // ------------------------------------------------------------ token

    /// Sets the vesting token, once; only the owner or the token manager may.
    pub fn set_vesting_token(&mut self, sender: &String, vesting_token: AssetInfo) -> (r: Result<
        Response,
        ContractError,
    >)
        requires
            old(self).wf(),
        ensures
            final(self).wf(),
            !(sender@ == old(self).config.owner@ || sender@ == old(self).config.token_info_manager@)
                ==> r == Err::<Response, ContractError>(ContractError::Unauthorized),
            (sender@ == old(self).config.owner@ || sender@ == old(
                self,
            ).config.token_info_manager@) && old(self).config.vesting_token is Some ==> r == Err::<
                Response,
                ContractError,
            >(ContractError::VestingTokenAlreadySet),
            (sender@ == old(self).config.owner@ || sender@ == old(
                self,
            ).config.token_info_manager@) && old(self).config.vesting_token is None ==> r is Ok,
            r is Err ==> *final(self) == *old(self),
            r matches Ok(resp) ==> {
                &&& *final(self) == (VestingContract {
                    config: Config { vesting_token: Some(vesting_token), ..old(self).config },
                    ..*old(self)
                })
                &&& resp.messages@.len() == 0
                &&& attributes_are(
                    resp.attributes@,
                    seq![
                        ("action"@, "set_vesting_token"@),
                        ("vesting_token"@, asset_text(vesting_token)),
                    ],
                )
            },
    {
        if !(self.config.owner == *sender || self.config.token_info_manager == *sender) {
            return Err(ContractError::Unauthorized);
        }
        if self.config.vesting_token.is_some() {
            return Err(ContractError::VestingTokenAlreadySet);
        }
        let shown = vesting_token.to_text();
        self.config.vesting_token = Some(vesting_token);
        let mut attributes: Vec<Attribute> = Vec::new();
        attributes.push(attribute("action", text("set_vesting_token")));
        attributes.push(attribute("vesting_token", shown));
        proof {
            lemma_wf_frame(*old(self), *self);
        }
        Ok(Response { messages: Vec::new(), attributes })
    }

    // ------------------------------------------------------------ registration

    /// Registers the accounts with the deposited `amount`, which must be what
    /// their schedules grant in all. New schedules come before those an
    /// account already has; what it was paid stays.
    fn register_vesting_accounts(
        &mut self,
        env: &BlockInfo,
        vesting_accounts: Vec<VestingAccount>,
        amount: u128,
    ) -> (r: Result<Response, ContractError>)
        requires
            old(self).wf(),
            old(self).height_mark <= env.height,
        ensures
            final(self).wf(),
            final(self).past_kept(*old(self), env.height),
            r is Ok ==> final(self).marked_at(*old(self), env.height),
            registration_outcome(*old(self), *final(self), r, vesting_accounts@, amount as nat),
            r is Ok ==> registration_total(vesting_accounts@) == Ok::<nat, ContractError>(
                amount as nat,
            ),
    {
        let mut to_deposit: u128 = 0;
        let mut i: usize = 0;
        while i < vesting_accounts.len()
            invariant
                i <= vesting_accounts.len(),
                *self == *old(self),
                old(self).wf(),
                registration_total(vesting_accounts@.take(i as int)) == Ok::<nat, ContractError>(
                    to_deposit as nat,
                ),
            decreases vesting_accounts.len() - i,
        {
            let acc = &vesting_accounts[i];
            assert(vesting_accounts@.take(i + 1).drop_last() =~= vesting_accounts@.take(i as int));
            let checked = assert_vesting_schedules(&acc.address, &acc.schedules);
            match checked {
                Err(e) => {
                    proof {
                        lemma_registration_prefix_err(vesting_accounts@, i + 1);
                    }
                    return Err(e);
                },
                Ok(()) => {},
            }
            let acc_total: u128 = match compute_total_amount(&acc.schedules) {
                Some(t) => t,
                None => {
                    proof {
                        lemma_registration_prefix_err(vesting_accounts@, i + 1);
                    }
                    return Err(ContractError::Std(StdError::Overflow));
                },
            };
            match to_deposit.checked_add(acc_total) {
                Some(t) => {
                    to_deposit = t;
                },
                None => {
                    proof {
                        lemma_registration_prefix_err(vesting_accounts@, i + 1);
                    }
                    return Err(ContractError::Std(StdError::Overflow));
                },
            }
            i = i + 1;
        }
        assert(vesting_accounts@.take(i as int) =~= vesting_accounts@);
        if to_deposit != amount {
            return Err(ContractError::VestingScheduleAmountError);
        }
        match self.state.total_granted.checked_add(to_deposit) {
            None => {
                return Err(ContractError::Std(StdError::Overflow));
            },
            Some(_) => {},
        }
        let ghost old_self = *self;
        let mut j: usize = 0;
        while j < vesting_accounts.len()
            invariant
                j <= vesting_accounts.len(),
                self.wf(),
                self.keeps_setup(old_self),
                self.past_kept(old_self, env.height),
                self.height_mark <= env.height,
                !old_self.config.extensions.historical ==> self.height_mark
                    == old_self.height_mark,
                old_self.state.total_granted + to_deposit <= u128::MAX,
                registration_total(vesting_accounts@) == Ok::<nat, ContractError>(to_deposit as nat),
                registration_total(vesting_accounts@.take(j as int)) matches Ok(t) && self.state.total_granted
                    == old_self.state.total_granted + t && t <= to_deposit,
                self.state.total_released == old_self.state.total_released,
                self.accounts_view() == register_all(
                    old_self.accounts_view(),
                    vesting_accounts@.take(j as int),
                ),
            decreases vesting_accounts.len() - j,
        {
            proof {
                lemma_registration_prefix(vesting_accounts@, j + 1);
                assert(vesting_accounts@.take(j + 1).drop_last() =~= vesting_accounts@.take(
                    j as int,
                ));
            }
            let ghost before = *self;
            self.merge_account(env, &vesting_accounts[j]);
            proof {
                lemma_past_kept_trans(old_self, before, *self, env.height);
            }
            j = j + 1;
        }
        assert(vesting_accounts@.take(j as int) =~= vesting_accounts@);
        self.mark_height(env.height);
        let mut attributes: Vec<Attribute> = Vec::new();
        attributes.push(attribute("action", text("register_vesting_accounts")));
        attributes.push(attribute("deposited", amount_text(to_deposit)));
        Ok(Response { messages: Vec::new(), attributes })
    }

    /// Adds one account's schedules, and what they grant to the granted total.
    fn merge_account(&mut self, env: &BlockInfo, acc: &VestingAccount)
        requires
            old(self).wf(),
            old(self).height_mark <= env.height,
            schedules_valid(acc.schedules@),
            old(self).state.total_granted + total_amount(acc.schedules@) <= u128::MAX,
        ensures
            final(self).wf(),
            final(self).keeps_setup(*old(self)),
            final(self).past_kept(*old(self), env.height),
            final(self).height_mark <= env.height,
            !old(self).config.extensions.historical ==> final(self).height_mark == old(
                self,
            ).height_mark,
            final(self).state.total_granted == old(self).state.total_granted + total_amount(
                acc.schedules@,
            ),
            final(self).state.total_released == old(self).state.total_released,
            final(self).accounts_view() == register_one(old(self).accounts_view(), *acc),
    {
        let acc_total: u128 = match compute_total_amount(&acc.schedules) {
            Some(t) => t,
            None => 0,
        };
        let ghost old_self = *self;
        let (k, found) = locate(&self.accounts, &acc.address);
        if found {
            proof {
                lemma_map_at(self.accounts@, k as int);
                self.lemma_entry_bounds(k as int);
            }
            let mut schedules = copy_schedules(&acc.schedules);
            let mut prior = copy_schedules(&self.accounts[k].info.schedules);
            schedules.append(&mut prior);
            let new_entry = AccountEntry {
                address: self.accounts[k].address.clone(),
                info: VestingInfo {
                    schedules,
                    released_amount: self.accounts[k].info.released_amount,
                },
            };
            proof {
                let es = old_self.accounts@;
                lemma_total_concat(acc.schedules@, es[k as int].info.schedules@);
                lemma_map_update(es, k as int, new_entry);
                lemma_sum_update(es, k as int, new_entry, total_of());
                lemma_sum_update(es, k as int, new_entry, unclaimed_of());
                assert(schedules_valid(new_entry.info.schedules@)) by {
                    let a = acc.schedules@;
                    let b = es[k as int].info.schedules@;
                    assert forall|p: int| 0 <= p < a.len() + b.len() implies schedule_valid(
                        #[trigger] (a + b)[p],
                    ) by {
                        if p < a.len() {
                            assert(schedule_valid(a[p]));
                        } else {
                            assert(schedule_valid(b[p - a.len()]));
                        }
                    }
                }
            }
            self.accounts.set(k, new_entry);
        } else {
            proof {
                lemma_map_absent(self.accounts@, acc.address@);
            }
            let new_entry = AccountEntry {
                address: acc.address.clone(),
                info: VestingInfo { schedules: copy_schedules(&acc.schedules), released_amount: 0 },
            };
            proof {
                let es = old_self.accounts@;
                lemma_map_insert(es, k as int, new_entry);
                lemma_sum_insert(es, k as int, new_entry, total_of());
                lemma_sum_insert(es, k as int, new_entry, unclaimed_of());
            }
            self.accounts.insert(k, new_entry);
        }
        self.state.total_granted = self.state.total_granted + acc_total;
        proof {
            assert(self.accounts_view() =~= register_one(old_self.accounts_view(), *acc));
            assert forall|i: int| 0 <= i < self.accounts@.len() implies entry_ok(
                #[trigger] self.accounts@[i],
            ) by {
                if found {
                    if i != k {
                        assert(self.accounts@[i] == old_self.accounts@[i]);
                    }
                } else {
                    if i < k {
                        assert(self.accounts@[i] == old_self.accounts@[i]);
                    } else if i > k {
                        assert(self.accounts@[i] == old_self.accounts@[i - 1]);
                    }
                }
            }
            assert forall|b: Seq<char>| b != acc.address@ implies #[trigger] self.consistent_for(
                b,
            ) by {
                assert(old_self.consistent_for(b));
            }
        }
        self.record_unclaimed(env.height, &acc.address);
    }

    /// Tokens arriving from a cw20 contract: when it is the vesting token and
    /// the sender may register, registers the accounts with what arrived.
    pub fn receive(&mut self, env: &BlockInfo, token_sender: &String, msg: Cw20ReceiveMsg) -> (r:
        Result<Response, ContractError>)
        requires
            old(self).wf(),
            old(self).height_mark <= env.height,
        ensures
            final(self).wf(),
            final(self).past_kept(*old(self), env.height),
            r is Ok ==> final(self).marked_at(*old(self), env.height),
            old(self).config.vesting_token is None ==> r == Err::<Response, ContractError>(
                ContractError::VestingTokenIsNotSet,
            ) && *final(self) == *old(self),
            old(self).config.vesting_token is Some && !(old(self).is_whitelisted(msg.sender@)
                && is_token_contract(old(self).config.vesting_token, token_sender@)) ==> r == Err::<
                Response,
                ContractError,
            >(ContractError::Unauthorized) && *final(self) == *old(self),
            old(self).is_whitelisted(msg.sender@) && is_token_contract(
                old(self).config.vesting_token,
                token_sender@,
            ) ==> registration_outcome(*old(self), *final(self), r, match msg.msg {
                Cw20HookMsg::RegisterVestingAccounts { vesting_accounts } => vesting_accounts@,
            }, msg.amount as nat),
    {
        let authorized = match &self.config.vesting_token {
            None => {
                return Err(ContractError::VestingTokenIsNotSet);
            },
            Some(AssetInfo::Token { contract_addr }) => *contract_addr == *token_sender,
            Some(AssetInfo::NativeToken { .. }) => false,
        };
        if !authorized || !self.whitelisted(&msg.sender) {
            return Err(ContractError::Unauthorized);
        }
        match msg.msg {
            Cw20HookMsg::RegisterVestingAccounts { vesting_accounts } => {
                self.register_vesting_accounts(env, vesting_accounts, msg.amount)
            },
        }
    }

    /// Registers accounts paid for with the native vesting token attached to
    /// the message; only those who may register can.
    pub fn register_vesting_accounts_native(
        &mut self,
        env: &BlockInfo,
        sender: &String,
        funds: &Vec<Coin>,
        vesting_accounts: Vec<VestingAccount>,
    ) -> (r: Result<Response, ContractError>)
        requires
            old(self).wf(),
            old(self).height_mark <= env.height,
        ensures
            final(self).wf(),
            final(self).past_kept(*old(self), env.height),
            r is Ok ==> final(self).marked_at(*old(self), env.height),
            old(self).config.vesting_token is None ==> r == Err::<Response, ContractError>(
                ContractError::VestingTokenIsNotSet,
            ) && *final(self) == *old(self),
            old(self).config.vesting_token is Some && !(old(self).is_whitelisted(sender@)
                && old(self).config.vesting_token->0 is NativeToken) ==> r == Err::<
                Response,
                ContractError,
            >(ContractError::Unauthorized) && *final(self) == *old(self),
            match old(self).config.vesting_token {
                Some(AssetInfo::NativeToken { denom }) => old(self).is_whitelisted(sender@) ==> {
                &&& (funds@.len() == 0 || (funds@.len() == 1 && funds@[0].amount == 0)) ==> r
                    == Err::<Response, ContractError>(
                    ContractError::Payment(PaymentError::NoFunds),
                ) && *final(self) == *old(self)
                &&& funds@.len() > 1 ==> r == Err::<Response, ContractError>(
                    ContractError::Payment(PaymentError::MultipleDenoms),
                ) && *final(self) == *old(self)
                &&& funds@.len() == 1 && funds@[0].amount != 0 && funds@[0].denom@ != denom@ ==> r
                    == Err::<Response, ContractError>(
                    ContractError::Payment(PaymentError::MissingDenom(denom)),
                ) && *final(self) == *old(self)
                &&& funds@.len() == 1 && funds@[0].amount != 0 && funds@[0].denom@ == denom@
                    ==> registration_outcome(
                    *old(self),
                    *final(self),
                    r,
                    vesting_accounts@,
                    funds@[0].amount as nat,
                )
                },
                _ => true,
            },
    {
        let denom = match &self.config.vesting_token {
            None => {
                return Err(ContractError::VestingTokenIsNotSet);
            },
            Some(AssetInfo::NativeToken { denom }) => denom.clone(),
            Some(AssetInfo::Token { .. }) => {
                return Err(ContractError::Unauthorized);
            },
        };
        if !self.whitelisted(sender) {
            return Err(ContractError::Unauthorized);
        }
        if funds.len() == 0 {
            return Err(ContractError::Payment(PaymentError::NoFunds));
        }
        if funds.len() > 1 {
            return Err(ContractError::Payment(PaymentError::MultipleDenoms));
        }
        if funds[0].amount == 0 {
            return Err(ContractError::Payment(PaymentError::NoFunds));
        }
        if funds[0].denom != denom {
            return Err(ContractError::Payment(PaymentError::MissingDenom(denom)));
        }
        self.register_vesting_accounts(env, vesting_accounts, funds[0].amount)
    }

    // ------------------------------------------------------------ claims

    /// Claims `amount` (all that is available when `None`) of what vested for
    /// the sender, paid to `recipient` (the sender when `None`).
    pub fn claim(
        &mut self,
        env: &BlockInfo,
        sender: &String,
        recipient: Option<String>,
        amount: Option<u128>,
    ) -> (r: Result<Response, ContractError>)
        requires
            old(self).wf(),
            old(self).height_mark <= env.height,
        ensures
            final(self).wf(),
            final(self).past_kept(*old(self), env.height),
            r is Ok ==> final(self).marked_at(*old(self), env.height),
            r is Err ==> *final(self) == *old(self),
            old(self).config.vesting_token is None ==> r == Err::<Response, ContractError>(
                ContractError::VestingTokenIsNotSet,
            ),
            old(self).config.vesting_token is Some && !old(self).accounts_view().dom().contains(
                sender@,
            ) ==> (r matches Err(ContractError::Std(e)) && is_account_not_found(e)),
            old(self).config.vesting_token is Some && old(self).accounts_view().dom().contains(
                sender@,
            ) ==> ({
                let d = old(self).accounts_view()[sender@];
                let avail = available_amount(d.schedules, d.released, env.time);
                let claimed = claim_amount(amount, avail);
                &&& claimed > avail ==> r == Err::<Response, ContractError>(
                    ContractError::AmountIsNotAvailable,
                )
                &&& claimed <= avail ==> (r matches Ok(resp) && {
                    &&& final(self).keeps_setup(*old(self))
                    &&& final(self).accounts_view() == old(self).accounts_view().insert(
                        sender@,
                        AccountData { schedules: d.schedules, released: d.released + claimed },
                    )
                    &&& final(self).state.total_granted == old(self).state.total_granted
                    &&& final(self).state.total_released == old(self).state.total_released
                        + claimed
                    &&& pays(
                        resp,
                        old(self).config.vesting_token->0,
                        recipient_of(recipient, sender@),
                        claimed,
                    )
                    &&& attributes_are(
                        resp.attributes@,
                        seq![
                            ("action"@, "claim"@),
                            ("address"@, sender@),
                            ("available_amount"@, decimal_text(avail)),
                            ("claimed_amount"@, decimal_text(claimed)),
                        ],
                    )
                })
            }),
    {
        let token = match &self.config.vesting_token {
            None => {
                return Err(ContractError::VestingTokenIsNotSet);
            },
            Some(t) => copy_asset(t),
        };
        let (k, found) = locate(&self.accounts, sender);
        if !found {
            proof {
                lemma_map_absent(self.accounts@, sender@);
            }
            return Err(ContractError::Std(StdError::NotFound { kind: text("vesting_base::types::VestingInfo") }));
        }
        proof {
            lemma_map_at(self.accounts@, k as int);
            self.lemma_entry_bounds(k as int);
            lemma_vested_total_bounded(self.accounts@[k as int].info.schedules@, env.time);
        }
        let released: u128 = self.accounts[k].info.released_amount;
        let (vested, _enabled) = compute_vested_total(&self.accounts[k].info.schedules, env.time);
        let available: u128 = if vested > released {
            vested - released
        } else {
            0
        };
        let claimed: u128 = match amount {
            Some(a) => a,
            None => available,
        };
        if claimed > available {
            return Err(ContractError::AmountIsNotAvailable);
        }
        let ghost old_self = *self;
        let new_entry = AccountEntry {
            address: self.accounts[k].address.clone(),
            info: VestingInfo {
                schedules: copy_schedules(&self.accounts[k].info.schedules),
                released_amount: released + claimed,
            },
        };
        proof {
            let es = old_self.accounts@;
            lemma_map_update(es, k as int, new_entry);
            lemma_sum_update(es, k as int, new_entry, total_of());
            lemma_sum_update(es, k as int, new_entry, unclaimed_of());
        }
        self.accounts.set(k, new_entry);
        self.state.total_released = self.state.total_released + claimed;
        proof {
            assert forall|i: int| 0 <= i < self.accounts@.len() implies entry_ok(
                #[trigger] self.accounts@[i],
            ) by {
                if i != k {
                    assert(self.accounts@[i] == old_self.accounts@[i]);
                }
            }
            assert forall|b: Seq<char>| b != sender@ implies #[trigger] self.consistent_for(b) by {
                assert(old_self.consistent_for(b));
            }
        }
        self.record_unclaimed(env.height, sender);
        let to = match recipient {
            Some(a) => a,
            None => sender.clone(),
        };
        let mut messages: Vec<Transfer> = Vec::new();
        if claimed > 0 {
            messages.push(Transfer { asset: token, recipient: to, amount: claimed });
        }
        let mut attributes: Vec<Attribute> = Vec::new();
        attributes.push(attribute("action", text("claim")));
        attributes.push(attribute("address", sender.clone()));
        attributes.push(attribute("available_amount", amount_text(available)));
        attributes.push(attribute("claimed_amount", amount_text(claimed)));
        Ok(Response { messages, attributes })
    }

    /// Claims at once what is available and half of what has not vested yet;
    /// the other half stays unclaimed and every schedule of the sender is
    /// disabled. Paid to `recipient` (the sender when `None`).
    pub fn force_claim(&mut self, env: &BlockInfo, sender: &String, recipient: Option<String>) -> (r:
        Result<Response, ContractError>)
        requires
            old(self).wf(),
            old(self).height_mark <= env.height,
        ensures
            final(self).wf(),
            final(self).past_kept(*old(self), env.height),
            r is Ok ==> final(self).marked_at(*old(self), env.height),
            r is Err ==> *final(self) == *old(self),
            old(self).config.vesting_token is None ==> r == Err::<Response, ContractError>(
                ContractError::VestingTokenIsNotSet,
            ),
            old(self).config.vesting_token is Some && !old(self).accounts_view().dom().contains(
                sender@,
            ) ==> (r matches Err(ContractError::Std(e)) && is_account_not_found(e)),
            old(self).config.vesting_token is Some && old(self).accounts_view().dom().contains(
                sender@,
            ) ==> ({
                let d = old(self).accounts_view()[sender@];
                let paid = force_claim_amount(d.schedules, d.released, env.time);
                &&& d.released + paid > total_amount(d.schedules) ==> r == Err::<
                    Response,
                    ContractError,
                >(ContractError::Std(StdError::Overflow))
                &&& d.released + paid <= total_amount(d.schedules) ==> (r matches Ok(resp) && {
                    &&& final(self).keeps_setup(*old(self))
                    &&& final(self).accounts_view() == old(self).accounts_view().insert(
                        sender@,
                        AccountData {
                            schedules: all_disabled(d.schedules),
                            released: d.released + paid,
                        },
                    )
                    &&& final(self).state.total_granted == old(self).state.total_granted
                    &&& final(self).state.total_released == old(self).state.total_released
                        + paid
                    &&& pays(
                        resp,
                        old(self).config.vesting_token->0,
                        recipient_of(recipient, sender@),
                        paid,
                    )
                    &&& attributes_are(
                        resp.attributes@,
                        seq![
                            ("action"@, "force_claim"@),
                            ("address"@, sender@),
                            ("claimed_amount"@, decimal_text(paid)),
                        ],
                    )
                })
            }),
    {
        let token = match &self.config.vesting_token {
            None => {
                return Err(ContractError::VestingTokenIsNotSet);
            },
            Some(t) => copy_asset(t),
        };
        let (k, found) = locate(&self.accounts, sender);
        if !found {
            proof {
                lemma_map_absent(self.accounts@, sender@);
            }
            return Err(ContractError::Std(StdError::NotFound { kind: text("vesting_base::types::VestingInfo") }));
        }
        proof {
            lemma_map_at(self.accounts@, k as int);
            self.lemma_entry_bounds(k as int);
            lemma_vested_total_bounded(self.accounts@[k as int].info.schedules@, env.time);
            lemma_all_disabled(self.accounts@[k as int].info.schedules@, env.time);
        }
        let released: u128 = self.accounts[k].info.released_amount;
        let (vested, enabled) = compute_vested_total(&self.accounts[k].info.schedules, env.time);
        let available: u128 = if vested > released {
            vested - released
        } else {
            0
        };
        let paid: u128 = available + (enabled - vested) / 2;
        let new_released: u128 = match released.checked_add(paid) {
            Some(n) => n,
            None => {
                return Err(ContractError::Std(StdError::Overflow));
            },
        };
        let total: u128 = match compute_total_amount(&self.accounts[k].info.schedules) {
            Some(t) => t,
            None => {
                return Err(ContractError::Std(StdError::Overflow));
            },
        };
        if new_released > total {
            return Err(ContractError::Std(StdError::Overflow));
        }
        let ghost old_self = *self;
        let new_entry = AccountEntry {
            address: self.accounts[k].address.clone(),
            info: VestingInfo {
                schedules: disable_all(&self.accounts[k].info.schedules),
                released_amount: new_released,
            },
        };
        proof {
            let es = old_self.accounts@;
            lemma_map_update(es, k as int, new_entry);
            lemma_sum_update(es, k as int, new_entry, total_of());
            lemma_sum_update(es, k as int, new_entry, unclaimed_of());
        }
        self.accounts.set(k, new_entry);
        self.state.total_released = self.state.total_released + paid;
        proof {
            assert forall|i: int| 0 <= i < self.accounts@.len() implies entry_ok(
                #[trigger] self.accounts@[i],
            ) by {
                if i != k {
                    assert(self.accounts@[i] == old_self.accounts@[i]);
                }
            }
            assert forall|b: Seq<char>| b != sender@ implies #[trigger] self.consistent_for(b) by {
                assert(old_self.consistent_for(b));
            }
        }
        self.record_unclaimed(env.height, sender);
        let to = match recipient {
            Some(a) => a,
            None => sender.clone(),
        };
        let mut messages: Vec<Transfer> = Vec::new();
        if paid > 0 {
            messages.push(Transfer { asset: token, recipient: to, amount: paid });
        }
        let mut attributes: Vec<Attribute> = Vec::new();
        attributes.push(attribute("action", text("force_claim")));
        attributes.push(attribute("address", sender.clone()));
        attributes.push(attribute("claimed_amount", amount_text(paid)));
        Ok(Response { messages, attributes })
    }

    // ------------------------------------------------------------ removal

    /// The owner removes accounts; what each held unclaimed is paid to
    /// `clawback_account` and leaves the granted total. Addresses without an
    /// account are passed over.
    pub fn remove_vesting_accounts(
        &mut self,
        env: &BlockInfo,
        sender: &String,
        vesting_accounts: Vec<String>,
        clawback_account: String,
    ) -> (r: Result<Response, ContractError>)
        requires
            old(self).wf(),
            old(self).height_mark <= env.height,
        ensures
            final(self).wf(),
            final(self).past_kept(*old(self), env.height),
            r is Ok ==> final(self).marked_at(*old(self), env.height),
            r is Err ==> *final(self) == *old(self),
            !old(self).config.extensions.managed ==> (r matches Err(ContractError::Std(e))
                && is_generic_err(e, ext_unsupported_text("managed"@))),
            old(self).config.extensions.managed && !old(self).is_owner(sender@) ==> r == Err::<
                Response,
                ContractError,
            >(ContractError::Unauthorized),
            old(self).config.extensions.managed && old(self).is_owner(sender@)
                && old(self).config.vesting_token is None ==> r == Err::<Response, ContractError>(
                ContractError::VestingTokenIsNotSet,
            ),
            old(self).config.extensions.managed && old(self).is_owner(sender@)
                && old(self).config.vesting_token is Some ==> (r matches Ok(resp) && {
                let claws = clawed(old(self).accounts_view(), vesting_accounts@);
                &&& final(self).keeps_setup(*old(self))
                &&& final(self).accounts_view() == remove_all(
                    old(self).accounts_view(),
                    vesting_accounts@,
                )
                &&& final(self).state.total_released == old(self).state.total_released
                &&& final(self).state.total_granted + nat_sum(claws) == old(
                    self,
                ).state.total_granted
                &&& resp.messages@.len() == claws.len()
                &&& forall|i: int|
                    0 <= i < claws.len() ==> transfer_is(
                        #[trigger] resp.messages@[i],
                        old(self).config.vesting_token->0,
                        clawback_account@,
                        claws[i],
                    )
                &&& attributes_are(resp.attributes@, seq![("action"@, "remove_vesting_accounts"@)])
            }),
    {
        if !self.config.extensions.managed {
            return Err(ContractError::Std(ext_unsupported_err("managed")));
        }
        if self.config.owner != *sender {
            return Err(ContractError::Unauthorized);
        }
        let token = match &self.config.vesting_token {
            None => {
                return Err(ContractError::VestingTokenIsNotSet);
            },
            Some(t) => copy_asset(t),
        };
        let ghost old_self = *self;
        let mut messages: Vec<Transfer> = Vec::new();
        let mut j: usize = 0;
        while j < vesting_accounts.len()
            invariant
                j <= vesting_accounts.len(),
                self.wf(),
                self.keeps_setup(old_self),
                self.past_kept(old_self, env.height),
                self.height_mark <= env.height,
                !old_self.config.extensions.historical ==> self.height_mark
                    == old_self.height_mark,
                self.state.total_released == old_self.state.total_released,
                token == old_self.config.vesting_token->0,
                self.accounts_view() == remove_all(
                    old_self.accounts_view(),
                    vesting_accounts@.take(j as int),
                ),
                self.state.total_granted + nat_sum(
                    clawed(old_self.accounts_view(), vesting_accounts@.take(j as int)),
                ) == old_self.state.total_granted,
                messages@.len() == clawed(
                    old_self.accounts_view(),
                    vesting_accounts@.take(j as int),
                ).len(),
                forall|i: int|
                    0 <= i < messages@.len() ==> transfer_is(
                        #[trigger] messages@[i],
                        token,
                        clawback_account@,
                        clawed(old_self.accounts_view(), vesting_accounts@.take(j as int))[i],
                    ),
            decreases vesting_accounts.len() - j,
        {
            let ghost prefix = vesting_accounts@.take(j as int);
            let ghost next = vesting_accounts@.take(j + 1);
            assert(next.drop_last() =~= prefix);
            let address = &vesting_accounts[j];
            let ghost before = *self;
            let ghost claws_before = clawed(old_self.accounts_view(), prefix);
            let claw = self.remove_account(env, address);
            proof {
                lemma_past_kept_trans(old_self, before, *self, env.height);
            }
            if claw > 0 {
                messages.push(
                    Transfer { asset: copy_asset(&token), recipient: clawback_account.clone(), amount: claw },
                );
                proof {
                    assert(clawed(old_self.accounts_view(), next) =~= claws_before.push(claw as nat));
                    lemma_nat_sum_push(claws_before, claw as nat);
                }
            } else {
                assert(clawed(old_self.accounts_view(), next) =~= claws_before);
            }
            j = j + 1;
        }
        assert(vesting_accounts@.take(j as int) =~= vesting_accounts@);
        self.mark_height(env.height);
        let mut attributes: Vec<Attribute> = Vec::new();
        attributes.push(attribute("action", text("remove_vesting_accounts")));
        Ok(Response { messages, attributes })
    }

    /// Removes the account of `address`, if any, and answers what it held
    /// unclaimed, which leaves the granted total.
    fn remove_account(&mut self, env: &BlockInfo, address: &String) -> (claw: u128)
        requires
            old(self).wf(),
            old(self).height_mark <= env.height,
        ensures
            final(self).wf(),
            final(self).keeps_setup(*old(self)),
            final(self).past_kept(*old(self), env.height),
            final(self).height_mark <= env.height,
            !old(self).config.extensions.historical ==> final(self).height_mark == old(
                self,
            ).height_mark,
            claw == unclaimed_in(old(self).accounts_view(), address@),
            final(self).accounts_view() == old(self).accounts_view().remove(address@),
            final(self).state.total_released == old(self).state.total_released,
            final(self).state.total_granted + claw == old(self).state.total_granted,
    {
        let (k, found) = locate(&self.accounts, address);
        if !found {
            proof {
                lemma_map_absent(self.accounts@, address@);
                assert(self.accounts_view() =~= self.accounts_view().remove(address@));
            }
            return 0;
        }
        proof {
            lemma_map_at(self.accounts@, k as int);
            self.lemma_entry_bounds(k as int);
        }
        let claw: u128 = self.unclaimed_of_address(address);
        let ghost old_self = *self;
        proof {
            let es = old_self.accounts@;
            lemma_map_remove(es, k as int);
            lemma_sum_remove(es, k as int, total_of());
            lemma_sum_remove(es, k as int, unclaimed_of());
        }
        self.accounts.remove(k);
        self.state.total_granted = self.state.total_granted - claw;
        proof {
            assert forall|i: int| 0 <= i < self.accounts@.len() implies entry_ok(
                #[trigger] self.accounts@[i],
            ) by {
                if i < k {
                    assert(self.accounts@[i] == old_self.accounts@[i]);
                } else {
                    assert(self.accounts@[i] == old_self.accounts@[i + 1]);
                }
            }
            assert forall|b: Seq<char>| b != address@ implies #[trigger] self.consistent_for(b) by {
                assert(old_self.consistent_for(b));
            }
        }
        self.record_unclaimed(env.height, address);
        claw
    }

    // ------------------------------------------------------------ ownership

    /// The owner proposes a new owner, who may claim ownership until
    /// `expires_in` seconds from now.
    pub fn propose_new_owner(
        &mut self,
        env: &BlockInfo,
        sender: &String,
        new_owner: String,
        expires_in: u64,
    ) -> (r: Result<Response, ContractError>)
        requires
            old(self).wf(),
        ensures
            final(self).wf(),
            r is Err ==> *final(self) == *old(self),
            !old(self).is_owner(sender@) ==> (r matches Err(ContractError::Std(e)) && is_generic_err(
                e,
                "Unauthorized"@,
            )),
            old(self).is_owner(sender@) && new_owner@ == old(self).config.owner@ ==> (r matches Err(
                ContractError::Std(e),
            ) && is_generic_err(e, "New owner cannot be same"@)),
            old(self).is_owner(sender@) && new_owner@ != old(self).config.owner@ && expires_in
                > MAX_PROPOSAL_TTL ==> (r matches Err(ContractError::Std(e)) && is_generic_err(
                e,
                "Parameter expires_in cannot be higher than 1209600"@,
            )),
            old(self).is_owner(sender@) && new_owner@ != old(self).config.owner@ && expires_in
                <= MAX_PROPOSAL_TTL && env.time + expires_in > u64::MAX ==> r == Err::<
                Response,
                ContractError,
            >(ContractError::Std(StdError::Overflow)),
            old(self).is_owner(sender@) && new_owner@ != old(self).config.owner@ && expires_in
                <= MAX_PROPOSAL_TTL && env.time + expires_in <= u64::MAX ==> r is Ok,
            r matches Ok(resp) ==> {
                &&& *final(self) == (VestingContract {
                    proposal: Some(
                        OwnershipProposal { owner: new_owner, ttl: (env.time + expires_in) as u64 },
                    ),
                    ..*old(self)
                })
                &&& resp.messages@.len() == 0
                &&& attributes_are(
                    resp.attributes@,
                    seq![("action"@, "propose_new_owner"@), ("new_owner"@, new_owner@)],
                )
            },
    {
        if self.config.owner != *sender {
            return Err(ContractError::Std(StdError::GenericErr { msg: text("Unauthorized") }));
        }
        if new_owner == self.config.owner {
            return Err(
                ContractError::Std(StdError::GenericErr { msg: text("New owner cannot be same") }),
            );
        }
        if expires_in > MAX_PROPOSAL_TTL {
            return Err(
                ContractError::Std(
                    StdError::GenericErr {
                        msg: text("Parameter expires_in cannot be higher than 1209600"),
                    },
                ),
            );
        }
        let ttl = match env.time.checked_add(expires_in) {
            Some(t) => t,
            None => {
                return Err(ContractError::Std(StdError::Overflow));
            },
        };
        let shown = new_owner.clone();
        self.proposal = Some(OwnershipProposal { owner: new_owner, ttl });
        let mut attributes: Vec<Attribute> = Vec::new();
        attributes.push(attribute("action", text("propose_new_owner")));
        attributes.push(attribute("new_owner", shown));
        proof {
            lemma_wf_frame(*old(self), *self);
        }
        Ok(Response { messages: Vec::new(), attributes })
    }

    /// The owner withdraws the open ownership proposal.
    pub fn drop_ownership_proposal(&mut self, sender: &String) -> (r: Result<
        Response,
        ContractError,
    >)
        requires
            old(self).wf(),
        ensures
            final(self).wf(),
            r is Err ==> *final(self) == *old(self),
            !old(self).is_owner(sender@) ==> (r matches Err(ContractError::Std(e)) && is_generic_err(
                e,
                "Unauthorized"@,
            )),
            old(self).is_owner(sender@) ==> r is Ok,
            r matches Ok(resp) ==> {
                &&& *final(self) == (VestingContract { proposal: None, ..*old(self) })
                &&& resp.messages@.len() == 0
                &&& attributes_are(resp.attributes@, seq![("action"@, "drop_ownership_proposal"@)])
            },
    {
        if self.config.owner != *sender {
            return Err(ContractError::Std(StdError::GenericErr { msg: text("Unauthorized") }));
        }
        self.proposal = None;
        let mut attributes: Vec<Attribute> = Vec::new();
        attributes.push(attribute("action", text("drop_ownership_proposal")));
        proof {
            lemma_wf_frame(*old(self), *self);
        }
        Ok(Response { messages: Vec::new(), attributes })
    }

    /// The proposed owner takes ownership while the proposal has not expired.
    pub fn claim_ownership(&mut self, env: &BlockInfo, sender: &String) -> (r: Result<
        Response,
        ContractError,
    >)
        requires
            old(self).wf(),
        ensures
            final(self).wf(),
            r is Err ==> *final(self) == *old(self),
            old(self).proposal is None ==> (r matches Err(ContractError::Std(e)) && is_generic_err(
                e,
                "Ownership proposal not found"@,
            )),
            old(self).proposal matches Some(p) && p.owner@ != sender@ ==> (r matches Err(
                ContractError::Std(e),
            ) && is_generic_err(e, "Unauthorized"@)),
            old(self).proposal matches Some(p) && p.owner@ == sender@ && env.time > p.ttl
                ==> (r matches Err(ContractError::Std(e)) && is_generic_err(
                e,
                "Ownership proposal expired"@,
            )),
            old(self).proposal matches Some(p) && p.owner@ == sender@ && env.time <= p.ttl
                ==> r is Ok,
            r matches Ok(resp) ==> {
                &&& old(self).proposal matches Some(p) && *final(self) == (VestingContract {
                    config: Config { owner: p.owner, ..old(self).config },
                    proposal: None,
                    ..*old(self)
                }) && attributes_are(
                    resp.attributes@,
                    seq![("action"@, "claim_ownership"@), ("new_owner"@, p.owner@)],
                )
                &&& resp.messages@.len() == 0
            },
    {
        let p = match &self.proposal {
            None => {
                return Err(
                    ContractError::Std(
                        StdError::GenericErr { msg: text("Ownership proposal not found") },
                    ),
                );
            },
            Some(p) => OwnershipProposal { owner: p.owner.clone(), ttl: p.ttl },
        };
        if p.owner != *sender {
            return Err(ContractError::Std(StdError::GenericErr { msg: text("Unauthorized") }));
        }
        if env.time > p.ttl {
            return Err(
                ContractError::Std(StdError::GenericErr { msg: text("Ownership proposal expired") }),
            );
        }
        let shown = p.owner.clone();
        self.proposal = None;
        self.config.owner = p.owner;
        let mut attributes: Vec<Attribute> = Vec::new();
        attributes.push(attribute("action", text("claim_ownership")));
        attributes.push(attribute("new_owner", shown));
        proof {
            lemma_wf_frame(*old(self), *self);
        }
        Ok(Response { messages: Vec::new(), attributes })
    }

    // ------------------------------------------------------------ managers

    /// The owner adds managers; one already there is not added again.
    pub fn add_vesting_managers(&mut self, sender: &String, managers: Vec<String>) -> (r: Result<
        Response,
        ContractError,
    >)
        requires
            old(self).wf(),
        ensures
            final(self).wf(),
            r is Err ==> *final(self) == *old(self),
            !old(self).config.extensions.with_managers ==> (r matches Err(ContractError::Std(e))
                && is_generic_err(e, ext_unsupported_text("with_managers"@))),
            old(self).config.extensions.with_managers && !old(self).is_owner(sender@) ==> r
                == Err::<Response, ContractError>(ContractError::Unauthorized),
            old(self).config.extensions.with_managers && old(self).is_owner(sender@) ==> r is Ok,
            r matches Ok(resp) ==> {
                &&& final(self).config == old(self).config
                &&& final(self).state == old(self).state
                &&& final(self).accounts == old(self).accounts
                &&& final(self).proposal == old(self).proposal
                &&& final(self).unclaimed == old(self).unclaimed
                &&& final(self).unclaimed_total == old(self).unclaimed_total
                &&& final(self).height_mark == old(self).height_mark
                &&& texts(final(self).managers@) == with_added(
                    texts(old(self).managers@),
                    texts(managers@),
                )
                &&& forall|i: int|
                    0 <= i < managers@.len() ==> texts(final(self).managers@).contains(
                        (#[trigger] managers@[i])@,
                    )
                &&& resp.messages@.len() == 0
                &&& attributes_are(
                    resp.attributes@,
                    seq![("action"@, "add_vesting_managers"@)] + texts(final(self).managers@).skip(
                        old(self).managers@.len() as int,
                    ).map_values(|m: Seq<char>| ("vesting_manager"@, m)),
                )
            },
    {
        if !self.config.extensions.with_managers {
            return Err(ContractError::Std(ext_unsupported_err("with_managers")));
        }
        if self.config.owner != *sender {
            return Err(ContractError::Unauthorized);
        }
        let mut attributes: Vec<Attribute> = Vec::new();
        attributes.push(attribute("action", text("add_vesting_managers")));
        let mut i: usize = 0;
        while i < managers.len()
            invariant
                i <= managers.len(),
                texts(self.managers@) == with_added(
                    texts(old(self).managers@),
                    texts(managers@).take(i as int),
                ),
                self.config == old(self).config,
                self.state == old(self).state,
                self.accounts == old(self).accounts,
                self.proposal == old(self).proposal,
                self.unclaimed == old(self).unclaimed,
                self.unclaimed_total == old(self).unclaimed_total,
                self.height_mark == old(self).height_mark,
                old(self).wf(),
                self.managers@.len() >= old(self).managers@.len(),
                attributes_are(
                    attributes@,
                    seq![("action"@, "add_vesting_managers"@)] + texts(self.managers@).skip(
                        old(self).managers@.len() as int,
                    ).map_values(|m: Seq<char>| ("vesting_manager"@, m)),
                ),
            decreases managers.len() - i,
        {
            let m = &managers[i];
            let ghost before = texts(self.managers@);
            assert(texts(managers@).take(i + 1).drop_last() =~= texts(managers@).take(i as int));
            assert(texts(managers@).take(i + 1).last() == m@);
            if !contains_string(&self.managers, m) {
                self.managers.push(m.clone());
                attributes.push(attribute("vesting_manager", m.clone()));
                assert(texts(self.managers@) =~= before.push(m@));
                assert(texts(self.managers@).skip(old(self).managers@.len() as int) =~= before.skip(
                    old(self).managers@.len() as int,
                ).push(m@));
            } else {
                assert(before.contains(m@)) by {
                    let j = choose|j: int|
                        0 <= j < self.managers@.len() && #[trigger] self.managers@[j]@ == m@;
                    assert(before[j] == m@);
                }
            }
            i = i + 1;
        }
        assert(texts(managers@).take(i as int) =~= texts(managers@));
        proof {
            lemma_wf_frame(*old(self), *self);
            crate::laws::law_managers_added(texts(old(self).managers@), texts(managers@));
            assert forall|k: int| 0 <= k < managers@.len() implies texts(self.managers@).contains(
                (#[trigger] managers@[k])@,
            ) by {
                assert(texts(managers@)[k] == managers@[k]@);
            }
        }
        Ok(Response { messages: Vec::new(), attributes })
    }

    /// The owner removes managers.
    pub fn remove_vesting_managers(&mut self, sender: &String, managers: Vec<String>) -> (r:
        Result<Response, ContractError>)
        requires
            old(self).wf(),
        ensures
            final(self).wf(),
            r is Err ==> *final(self) == *old(self),
            !old(self).config.extensions.with_managers ==> (r matches Err(ContractError::Std(e))
                && is_generic_err(e, ext_unsupported_text("with_managers"@))),
            old(self).config.extensions.with_managers && !old(self).is_owner(sender@) ==> r
                == Err::<Response, ContractError>(ContractError::Unauthorized),
            old(self).config.extensions.with_managers && old(self).is_owner(sender@) ==> r is Ok,
            r matches Ok(resp) ==> {
                &&& final(self).config == old(self).config
                &&& final(self).state == old(self).state
                &&& final(self).accounts == old(self).accounts
                &&& final(self).proposal == old(self).proposal
                &&& final(self).unclaimed == old(self).unclaimed
                &&& final(self).unclaimed_total == old(self).unclaimed_total
                &&& final(self).height_mark == old(self).height_mark
                &&& texts(final(self).managers@) == texts(old(self).managers@).filter(
                    |a: Seq<char>| !texts(managers@).contains(a),
                )
                &&& resp.messages@.len() == 0
                &&& attributes_are(resp.attributes@, seq![("action"@, "remove_vesting_managers"@)])
            },
    {
        if !self.config.extensions.with_managers {
            return Err(ContractError::Std(ext_unsupported_err("with_managers")));
        }
        if self.config.owner != *sender {
            return Err(ContractError::Unauthorized);
        }
        let ghost removed = texts(managers@);
        let ghost keep = |a: Seq<char>| !removed.contains(a);
        let mut kept: Vec<String> = Vec::new();
        let mut i: usize = 0;
        while i < self.managers.len()
            invariant
                i <= self.managers.len(),
                removed == texts(managers@),
                keep == (|a: Seq<char>| !removed.contains(a)),
                texts(kept@) == texts(self.managers@).take(i as int).filter(keep),
            decreases self.managers.len() - i,
        {
            let m = &self.managers[i];
            let found = contains_string(&managers, m);
            assert(found == removed.contains(m@)) by {
                if found {
                    let j = choose|j: int| 0 <= j < managers@.len() && #[trigger] managers@[j]@ == m@;
                    assert(removed[j] == m@);
                }
                if removed.contains(m@) {
                    let j = choose|j: int| 0 <= j < removed.len() && removed[j] == m@;
                    assert(managers@[j]@ == m@);
                }
            }
            let ghost before = texts(kept@);
            assert(texts(self.managers@).take(i + 1).drop_last() =~= texts(self.managers@).take(
                i as int,
            ));
            reveal_with_fuel(Seq::filter, 1);
            if !found {
                kept.push(m.clone());
                assert(texts(kept@) =~= before.push(m@));
            } else {
                assert(texts(kept@) =~= before);
            }
            i = i + 1;
        }
        assert(texts(self.managers@).take(i as int) =~= texts(self.managers@));
        self.managers = kept;
        let mut attributes: Vec<Attribute> = Vec::new();
        attributes.push(attribute("action", text("remove_vesting_managers")));
        proof {
            lemma_wf_frame(*old(self), *self);
        }
        Ok(Response { messages: Vec::new(), attributes })
    }

    // ------------------------------------------------------------ queries

    /// A copy of the configuration.
    pub fn query_config(&self) -> (r: Config)
        ensures
            r == self.config,
    {
        Config {
            owner: self.config.owner.clone(),
            token_info_manager: self.config.token_info_manager.clone(),
            vesting_token: match &self.config.vesting_token {
                Some(t) => Some(copy_asset(t)),
                None => None,
            },
            extensions: self.config.extensions,
        }
    }

    /// The totals of granted and paid amounts.
    pub fn query_vesting_state(&self) -> (r: VestingState)
        ensures
            r == self.state,
    {
        self.state
    }

    /// The managers, when that extension is enabled.
    pub fn query_vesting_managers(&self) -> (r: Result<Vec<String>, StdError>)
        ensures
            !self.config.extensions.with_managers ==> (r matches Err(e) && is_generic_err(
                e,
                ext_unsupported_text("with_managers"@),
            )),
            self.config.extensions.with_managers ==> (r matches Ok(m) && m@ == self.managers@),
    {
        if !self.config.extensions.with_managers {
            return Err(ext_unsupported_err("with_managers"));
        }
        Ok(copy_strings(&self.managers))
    }

    /// The account of `address`.
    pub fn query_vesting_account(&self, address: &String) -> (r: Result<
        VestingAccountResponse,
        StdError,
    >)
        requires
            self.wf(),
        ensures
            !self.accounts_view().dom().contains(address@) ==> (r matches Err(e) && is_account_not_found(e)),
            self.accounts_view().dom().contains(address@) ==> (r matches Ok(resp) && resp.address@
                == address@ && resp.info.schedules@ == self.accounts_view()[address@].schedules
                && resp.info.released_amount == self.accounts_view()[address@].released),
    {
        let (k, found) = locate(&self.accounts, address);
        if !found {
            proof {
                lemma_map_absent(self.accounts@, address@);
            }
            return Err(StdError::NotFound { kind: text("vesting_base::types::VestingInfo") });
        }
        proof {
            lemma_map_at(self.accounts@, k as int);
        }
        Ok(entry_response(&self.accounts[k]))
    }

    /// What `address` may claim at time `now`.
    pub fn query_available_amount(&self, address: &String, now: u64) -> (r: Result<u128, StdError>)
        requires
            self.wf(),
        ensures
            !self.accounts_view().dom().contains(address@) ==> (r matches Err(e) && is_account_not_found(e)),
            self.accounts_view().dom().contains(address@) ==> r == Ok::<u128, StdError>(
                available_amount(
                    self.accounts_view()[address@].schedules,
                    self.accounts_view()[address@].released,
                    now,
                ) as u128,
            ),
            r matches Ok(a) ==> a == available_amount(
                self.accounts_view()[address@].schedules,
                self.accounts_view()[address@].released,
                now,
            ),
    {
        let (k, found) = locate(&self.accounts, address);
        if !found {
            proof {
                lemma_map_absent(self.accounts@, address@);
            }
            return Err(StdError::NotFound { kind: text("vesting_base::types::VestingInfo") });
        }
        proof {
            lemma_map_at(self.accounts@, k as int);
            self.lemma_entry_bounds(k as int);
        }
        let released: u128 = self.accounts[k].info.released_amount;
        let (vested, _enabled) = compute_vested_total(&self.accounts[k].info.schedules, now);
        if vested > released {
            Ok(vested - released)
        } else {
            Ok(0)
        }
    }

    /// What `address` held unclaimed at the start of block `height`, when the
    /// historical extension is enabled.
    pub fn query_unclaimed_amount_at_height(&self, address: &String, height: u64) -> (r: Result<
        u128,
        StdError,
    >)
        ensures
            !self.config.extensions.historical ==> (r matches Err(e) && is_generic_err(
                e,
                ext_unsupported_text("historical"@),
            )),
            self.config.extensions.historical ==> (r matches Ok(a) && a == value_at(
                history_of(self.unclaimed@, address@),
                height,
            )),
    {
        if !self.config.extensions.historical {
            return Err(ext_unsupported_err("historical"));
        }
        Ok(load_for(&self.unclaimed, address, height))
    }

    /// What all accounts together held unclaimed at the start of block
    /// `height`, when the historical extension is enabled.
    pub fn query_unclaimed_total_amount_at_height(&self, height: u64) -> (r: Result<u128, StdError>)
        ensures
            !self.config.extensions.historical ==> (r matches Err(e) && is_generic_err(
                e,
                ext_unsupported_text("historical"@),
            )),
            self.config.extensions.historical ==> (r matches Ok(a) && a == value_at(
                self.unclaimed_total.checkpoints@,
                height,
            )),
    {
        if !self.config.extensions.historical {
            return Err(ext_unsupported_err("historical"));
        }
        Ok(self.unclaimed_total.load_at(height))
    }

    /// A page of accounts; see `page`.
    pub fn query_vesting_accounts(
        &self,
        start_after: Option<String>,
        limit: Option<u32>,
        order_by: Option<OrderBy>,
    ) -> (r: VestingAccountsResponse)
        requires
            self.wf(),
        ensures
            match order_by {
                Some(OrderBy::Asc) => exists|k: int|
                    #![trigger split_point(self.accounts@, bound_of(start_after), k)]
                    split_point(
                        self.accounts@,
                        bound_of(start_after),
                        k,
                    ) && r.vesting_accounts@.len() == if self.accounts@.len() - k
                        < page_limit(limit) {
                        self.accounts@.len() - k
                    } else {
                        page_limit(limit) as int
                    } && forall|j: int|
                        0 <= j < r.vesting_accounts@.len() ==> response_of(
                            #[trigger] r.vesting_accounts@[j],
                            self.accounts@[k + j],
                        ),
                _ => exists|k: int|
                    #![trigger split_below(self.accounts@, bound_of(start_after), k)]
                    split_below(
                        self.accounts@,
                        bound_of(start_after),
                        k,
                    ) && r.vesting_accounts@.len() == if k < page_limit(limit) {
                        k
                    } else {
                        page_limit(limit) as int
                    } && forall|j: int|
                        0 <= j < r.vesting_accounts@.len() ==> response_of(
                            #[trigger] r.vesting_accounts@[j],
                            self.accounts@[k - 1 - j],
                        ),
            },
    {
        VestingAccountsResponse { vesting_accounts: page(&self.accounts, start_after, limit, order_by) }
    }
}

/// Keeping the past from `a` to `b` and from `b` to `c` keeps it from `a`
/// to `c`.
pub proof fn lemma_past_kept_trans(
    a: VestingContract,
    b: VestingContract,
    c: VestingContract,
    height: u64,
)
    requires
        b.past_kept(a, height),
        c.past_kept(b, height),
    ensures
        c.past_kept(a, height),
{
    assert forall|h: u64| h <= height implies #[trigger] value_at(
        c.unclaimed_total.checkpoints@,
        h,
    ) == value_at(a.unclaimed_total.checkpoints@, h) by {
        assert(value_at(c.unclaimed_total.checkpoints@, h) == value_at(
            b.unclaimed_total.checkpoints@,
            h,
        ));
    }
    assert forall|x: Seq<char>, h: u64| h <= height implies #[trigger] value_at(
        history_of(c.unclaimed@, x),
        h,
    ) == value_at(history_of(a.unclaimed@, x), h) by {
        assert(value_at(history_of(c.unclaimed@, x), h) == value_at(history_of(b.unclaimed@, x), h));
    }
}

/// A state that keeps the accounts, totals, histories and extensions of a
/// well-formed one is well formed.
pub proof fn lemma_wf_frame(old: VestingContract, new: VestingContract)
    requires
        old.wf(),
        new.accounts == old.accounts,
        new.state == old.state,
        new.unclaimed == old.unclaimed,
        new.unclaimed_total == old.unclaimed_total,
        new.height_mark == old.height_mark,
        new.config.extensions == old.config.extensions,
    ensures
        new.wf(),
{
    assert forall|a: Seq<char>| #[trigger] new.consistent_for(a) by {
        assert(old.consistent_for(a));
    }
}

/// The list with each new text appended unless it is already there.
pub open spec fn with_added(list: Seq<Seq<char>>, new: Seq<Seq<char>>) -> Seq<Seq<char>>
    decreases new.len(),
{
    if new.len() == 0 {
        list
    } else {
        let before = with_added(list, new.drop_last());
        if before.contains(new.last()) {
            before
        } else {
            before.push(new.last())
        }
    }
}

/// The current time of a block, in seconds.
pub fn query_timestamp(env: &BlockInfo) -> (r: u64)
    ensures
        r == env.time,
{
    env.time
}

} // verus!
