use vstd::prelude::*;

verus! {

/// The asset that is vested: a cw20 token contract or a native denomination.
#[derive(Clone, Debug, PartialEq, Eq)]
pub enum AssetInfo {
    Token { contract_addr: String },
    NativeToken { denom: String },
}

/// A cw20 token asset for the given contract address.
pub fn token_asset_info(contract_addr: String) -> (r: AssetInfo)
    ensures
        r == (AssetInfo::Token { contract_addr }),
{
    AssetInfo::Token { contract_addr }
}

/// A native asset for the given denomination.
pub fn native_asset_info(denom: String) -> (r: AssetInfo)
    ensures
        r == (AssetInfo::NativeToken { denom }),
{
    AssetInfo::NativeToken { denom }
}

/// The text an asset is shown as: the token contract or the denomination.
pub open spec fn asset_text(a: AssetInfo) -> Seq<char> {
    match a {
        AssetInfo::Token { contract_addr } => contract_addr@,
        AssetInfo::NativeToken { denom } => denom@,
    }
}

/// Two assets are the same when they are of one kind and name the same text.
pub open spec fn same_asset(a: AssetInfo, b: AssetInfo) -> bool {
    match (a, b) {
        (AssetInfo::Token { contract_addr: x }, AssetInfo::Token { contract_addr: y }) => x@ == y@,
        (AssetInfo::NativeToken { denom: x }, AssetInfo::NativeToken { denom: y }) => x@ == y@,
        _ => false,
    }
}

impl AssetInfo {
    /// The text this asset is shown as.
    pub fn to_text(&self) -> (r: String)
        ensures
            r@ == asset_text(*self),
    {
        match self {
            AssetInfo::Token { contract_addr } => contract_addr.clone(),
            AssetInfo::NativeToken { denom } => denom.clone(),
        }
    }
}

/// A point of a schedule: at `time` (seconds), `amount` has vested.
#[derive(Clone, Copy, Debug, PartialEq, Eq, Structural)]
pub struct VestingSchedulePoint {
    pub time: u64,
    pub amount: u128,
}

/// A schedule: `start_point.amount` vests at `start_point.time`; with an end
/// point the rest up to `end_point.amount` vests linearly until its time.
/// A disabled schedule vests nothing more.
#[derive(Clone, Copy, Debug, PartialEq, Eq, Structural)]
pub struct VestingSchedule {
    pub start_point: VestingSchedulePoint,
    pub end_point: Option<VestingSchedulePoint>,
    pub disabled: bool,
}

/// A schedule built from its start and optional end; the end point is there
/// only when both its time and its amount are given.
pub fn create_vesting_schedule(
    start_time: u64,
    start_amount: u128,
    end_time: Option<u64>,
    end_amount: Option<u128>,
) -> (r: VestingSchedule)
    ensures
        r.start_point == (VestingSchedulePoint { time: start_time, amount: start_amount }),
        r.end_point == (match (end_time, end_amount) {
            (Some(time), Some(amount)) => Some(VestingSchedulePoint { time, amount }),
            _ => None,
        }),
        !r.disabled,
{
    VestingSchedule {
        start_point: VestingSchedulePoint { time: start_time, amount: start_amount },
        end_point: match (end_time, end_amount) {
            (Some(time), Some(amount)) => Some(VestingSchedulePoint { time, amount }),
            _ => None,
        },
        disabled: false,
    }
}

/// Schedules to register for an address.
#[derive(Clone, Debug, PartialEq, Eq)]
pub struct VestingAccount {
    pub address: String,
    pub schedules: Vec<VestingSchedule>,
}

/// What is stored for an account: its schedules and what it has been paid.
#[derive(Clone, Debug, PartialEq, Eq)]
pub struct VestingInfo {
    pub schedules: Vec<VestingSchedule>,
    pub released_amount: u128,
}

/// The optional parts of the contract.
#[derive(Clone, Copy, Debug, PartialEq, Eq, Structural)]
pub struct Extensions {
    pub historical: bool,
    pub managed: bool,
    pub with_managers: bool,
}

/// The contract's configuration.
#[derive(Clone, Debug, PartialEq, Eq)]
pub struct Config {
    pub owner: String,
    pub token_info_manager: String,
    pub vesting_token: Option<AssetInfo>,
    pub extensions: Extensions,
}

/// Totals over all accounts: deposited (less what was clawed back) and paid.
#[derive(Clone, Copy, Debug, PartialEq, Eq, Structural)]
pub struct VestingState {
    pub total_granted: u128,
    pub total_released: u128,
}

/// Order of a listing of accounts by address.
#[derive(Clone, Copy, Debug, PartialEq, Eq, Structural)]
pub enum OrderBy {
    Asc,
    Desc,
}

/// A pending transfer of ownership, valid up to and including `ttl`.
#[derive(Clone, Debug, PartialEq, Eq)]
pub struct OwnershipProposal {
    pub owner: String,
    pub ttl: u64,
}

/// An account as answered by a query.
#[derive(Clone, Debug, PartialEq, Eq)]
pub struct VestingAccountResponse {
    pub address: String,
    pub info: VestingInfo,
}

/// A page of accounts.
#[derive(Clone, Debug, PartialEq, Eq)]
pub struct VestingAccountsResponse {
    pub vesting_accounts: Vec<VestingAccountResponse>,
}

/// The block a message is handled in.
#[derive(Clone, Copy, Debug, PartialEq, Eq, Structural)]
pub struct BlockInfo {
    pub height: u64,
    pub time: u64,
}

/// Funds attached to a message.
#[derive(Clone, Debug, PartialEq, Eq)]
pub struct Coin {
    pub denom: String,
    pub amount: u128,
}

/// A payment the contract makes.
#[derive(Clone, Debug, PartialEq, Eq)]
pub struct Transfer {
    pub asset: AssetInfo,
    pub recipient: String,
    pub amount: u128,
}

/// A key and value reported with a response.
#[derive(Clone, Debug, PartialEq, Eq)]
pub struct Attribute {
    pub key: String,
    pub value: String,
}

/// What a handled message answers: payments to make and attributes.
#[derive(Clone, Debug, PartialEq, Eq)]
pub struct Response {
    pub messages: Vec<Transfer>,
    pub attributes: Vec<Attribute>,
}

/// Errors of the kind the host's standard library reports.
#[derive(Clone, Debug, PartialEq, Eq)]
pub enum StdError {
    NotFound { kind: String },
    GenericErr { msg: String },
    Overflow,
}

/// Errors of the attached funds.
#[derive(Clone, Debug, PartialEq, Eq)]
pub enum PaymentError {
    NoFunds,
    MultipleDenoms,
    MissingDenom(String),
}

/// Errors of the contract.
#[derive(Clone, Debug, PartialEq, Eq)]
pub enum ContractError {
    Std(StdError),
    Payment(PaymentError),
    Unauthorized,
    VestingTokenAlreadySet,
    VestingTokenIsNotSet,
    VestingScheduleError(String),
    VestingScheduleAmountError,
    AmountIsNotAvailable,
}

/// What a cw20 token contract may ask of the vesting contract when it sends
/// it tokens.
#[derive(Clone, Debug)]
pub enum Cw20HookMsg {
    RegisterVestingAccounts { vesting_accounts: Vec<VestingAccount> },
}

/// Tokens received from a cw20 contract: who sent them, how many, and what
/// to do with them.
#[derive(Clone, Debug)]
pub struct Cw20ReceiveMsg {
    pub sender: String,
    pub amount: u128,
    pub msg: Cw20HookMsg,
}

} // verus!
