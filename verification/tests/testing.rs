use vesting_base::contract::{ext_unsupported_err, query_timestamp, VestingBaseBuilder, VestingContract};
use vesting_base::types::{
    create_vesting_schedule, native_asset_info, token_asset_info, AssetInfo, BlockInfo, Coin, Config,
    ContractError, Cw20HookMsg, Cw20ReceiveMsg, Extensions, OrderBy, Response, StdError,
    VestingAccount, VestingSchedule,
};

fn mock_env() -> BlockInfo {
    BlockInfo { height: 12_345, time: 1_571_797_419 }
}

fn addr(s: &str) -> String {
    s.to_string()
}

fn setup_contract() -> (VestingContract, BlockInfo, String, String) {
    let env = mock_env();
    let owner = addr("owner");
    let token_info_manager = addr("token_info_manager");
    let contract = VestingBaseBuilder::default().build(owner.clone(), token_info_manager.clone());
    (contract, env, owner, token_info_manager)
}

fn setup_contract_with_token() -> (VestingContract, BlockInfo, String, String, String) {
    let (_, env, owner, token_info_manager) = setup_contract();
    let vesting_token = addr("vesting_token");
    let mut contract = VestingBaseBuilder::default()
        .historical()
        .managed()
        .build(owner.clone(), token_info_manager.clone());
    contract
        .set_vesting_token(&token_info_manager, token_asset_info(vesting_token.clone()))
        .unwrap();
    (contract, env, owner, token_info_manager, vesting_token)
}

fn setup_contract_with_extensions() -> (VestingContract, BlockInfo, String, String, Vec<String>) {
    let env = mock_env();
    let owner = addr("owner");
    let token_info_manager = addr("token_info_manager");
    let vesting_managers = vec![addr("manager1"), addr("manager2")];
    let contract = VestingBaseBuilder::default()
        .historical()
        .managed()
        .with_managers(vesting_managers.clone())
        .build(owner.clone(), token_info_manager.clone());
    (contract, env, owner, token_info_manager, vesting_managers)
}

fn register_cw20(
    contract: &mut VestingContract,
    env: &BlockInfo,
    token: &String,
    sender: &String,
    amount: u128,
    vesting_accounts: Vec<VestingAccount>,
) -> Result<Response, ContractError> {
    contract.receive(
        env,
        token,
        Cw20ReceiveMsg {
            sender: sender.clone(),
            amount,
            msg: Cw20HookMsg::RegisterVestingAccounts { vesting_accounts },
        },
    )
}

fn one_account(address: &String, schedule: VestingSchedule) -> Vec<VestingAccount> {
    vec![VestingAccount { address: address.clone(), schedules: vec![schedule] }]
}

fn config_of(
    owner: &String,
    token_info_manager: &String,
    vesting_token: Option<AssetInfo>,
    historical: bool,
    managed: bool,
    with_managers: bool,
) -> Config {
    Config {
        owner: owner.clone(),
        token_info_manager: token_info_manager.clone(),
        vesting_token,
        extensions: Extensions { historical, managed, with_managers },
    }
}

fn single_transfer(res: &Response) -> (AssetInfo, String, u128) {
    assert_eq!(res.messages.len(), 1);
    let t = &res.messages[0];
    (t.asset.clone(), t.recipient.clone(), t.amount)
}

// ========== BUILDER TESTS ==========

#[test]
fn test_proper_building_standard() {
    let owner = addr("owner");
    let token_info_manager = addr("token_info_manager");
    let env = mock_env();
    let mut contract = VestingBaseBuilder::default().build(owner.clone(), token_info_manager.clone());

    assert_eq!(
        contract.query_config(),
        config_of(&owner, &token_info_manager, None, false, false, false)
    );
    assert_eq!(
        contract.query_vesting_managers().unwrap_err(),
        ext_unsupported_err("with_managers")
    );
    assert_eq!(
        contract.query_unclaimed_total_amount_at_height(1000u64).unwrap_err(),
        ext_unsupported_err("historical")
    );
    assert_eq!(
        contract
            .remove_vesting_accounts(&env, &owner, vec![], String::from("clawback"))
            .unwrap_err(),
        ContractError::Std(ext_unsupported_err("managed"))
    );
}

#[test]
fn test_proper_building_managers() {
    let owner = addr("owner");
    let token_info_manager = addr("token_info_manager");
    let env = mock_env();
    let vesting_managers = vec![addr("manager1"), addr("manager2")];
    let mut contract = VestingBaseBuilder::default()
        .with_managers(vesting_managers.clone())
        .build(owner.clone(), token_info_manager.clone());

    assert_eq!(
        contract.query_config(),
        config_of(&owner, &token_info_manager, None, false, false, true)
    );
    assert_eq!(contract.query_vesting_managers().unwrap(), vesting_managers);
    assert_eq!(
        contract.query_unclaimed_total_amount_at_height(1000u64).unwrap_err(),
        ext_unsupported_err("historical")
    );
    assert_eq!(
        contract
            .remove_vesting_accounts(&env, &owner, vec![], String::from("clawback"))
            .unwrap_err(),
        ContractError::Std(ext_unsupported_err("managed"))
    );
}

#[test]
fn test_proper_building_historical() {
    let owner = addr("owner");
    let token_info_manager = addr("token_info_manager");
    let env = mock_env();
    let mut contract = VestingBaseBuilder::default()
        .historical()
        .build(owner.clone(), token_info_manager.clone());

    assert_eq!(
        contract.query_config(),
        config_of(&owner, &token_info_manager, None, true, false, false)
    );
    assert_eq!(
        contract.query_vesting_managers().unwrap_err(),
        ext_unsupported_err("with_managers")
    );
    contract.query_unclaimed_total_amount_at_height(1000u64).unwrap();
    assert_eq!(
        contract
            .remove_vesting_accounts(&env, &owner, vec![], String::from("clawback"))
            .unwrap_err(),
        ContractError::Std(ext_unsupported_err("managed"))
    );
}

#[test]
fn test_proper_building_managed() {
    let owner = addr("owner");
    let token_info_manager = addr("token_info_manager");
    let env = mock_env();
    let mut contract = VestingBaseBuilder::default()
        .managed()
        .build(owner.clone(), token_info_manager.clone());

    assert_eq!(
        contract.query_config(),
        config_of(&owner, &token_info_manager, None, false, true, false)
    );

    let ntrn_token = addr("ntrn_token");
    contract.set_vesting_token(&token_info_manager, token_asset_info(ntrn_token)).unwrap();

    assert_eq!(
        contract.query_vesting_managers().unwrap_err(),
        ext_unsupported_err("with_managers")
    );
    assert_eq!(
        contract.query_unclaimed_total_amount_at_height(1000u64).unwrap_err(),
        ext_unsupported_err("historical")
    );

    let clawback = addr("ntrn_token");
    contract.remove_vesting_accounts(&env, &owner, vec![], clawback).unwrap();
}

#[test]
fn test_proper_building_all_extensions() {
    let owner = addr("owner");
    let token_info_manager = addr("token_info_manager");
    let env = mock_env();
    let vesting_managers = vec![addr("manager1"), addr("manager2")];
    let mut contract = VestingBaseBuilder::default()
        .historical()
        .managed()
        .with_managers(vesting_managers.clone())
        .build(owner.clone(), token_info_manager.clone());

    assert_eq!(
        contract.query_config(),
        config_of(&owner, &token_info_manager, None, true, true, true)
    );

    let ntrn_token = addr("ntrn_token");
    contract.set_vesting_token(&token_info_manager, token_asset_info(ntrn_token)).unwrap();

    assert_eq!(contract.query_vesting_managers().unwrap(), vesting_managers);
    contract.query_unclaimed_total_amount_at_height(1000u64).unwrap();

    let clawback = addr("ntrn_token");
    contract.remove_vesting_accounts(&env, &owner, vec![], clawback).unwrap();
}

// ========== EXECUTE MESSAGE TESTS ==========

#[test]
fn test_set_vesting_token() {
    let owner = addr("owner");
    let token_info_manager = addr("token_info_manager");
    let mut contract = VestingBaseBuilder::default().build(owner.clone(), token_info_manager.clone());

    assert_eq!(
        contract.query_config(),
        config_of(&owner, &token_info_manager, None, false, false, false)
    );

    let ntrn_token = addr("ntrn_token");
    assert_eq!(
        contract
            .set_vesting_token(&addr("stranger"), token_asset_info(ntrn_token.clone()))
            .unwrap_err(),
        ContractError::Unauthorized
    );

    contract
        .set_vesting_token(&token_info_manager, token_asset_info(ntrn_token.clone()))
        .unwrap();
    assert_eq!(
        contract.query_config(),
        config_of(
            &owner,
            &token_info_manager,
            Some(token_asset_info(ntrn_token.clone())),
            false,
            false,
            false
        )
    );

    let not_ntrn_token = addr("not_ntrn_token");
    assert_eq!(
        contract.set_vesting_token(&owner, token_asset_info(not_ntrn_token)).unwrap_err(),
        ContractError::VestingTokenAlreadySet
    );
    assert_eq!(
        contract.query_config(),
        config_of(
            &owner,
            &token_info_manager,
            Some(token_asset_info(ntrn_token)),
            false,
            false,
            false
        )
    );
}

#[test]
fn test_set_vesting_token_by_owner() {
    let (mut contract, _env, owner, _) = setup_contract();
    let vesting_token = addr("vesting_token");

    let res = contract.set_vesting_token(&owner, token_asset_info(vesting_token.clone())).unwrap();
    assert_eq!(res.attributes[0].key, "action");
    assert_eq!(res.attributes[0].value, "set_vesting_token");
    assert_eq!(res.attributes[1].key, "vesting_token");
    assert_eq!(res.attributes[1].value, vesting_token.to_string());

    let config = contract.query_config();
    assert_eq!(config.vesting_token, Some(token_asset_info(vesting_token)));
}

#[test]
fn test_set_vesting_token_native() {
    let (mut contract, _env, owner, _) = setup_contract();
    let native_denom = "uatom";

    let res = contract
        .set_vesting_token(&owner, native_asset_info(native_denom.to_string()))
        .unwrap();
    assert_eq!(res.attributes[0].key, "action");
    assert_eq!(res.attributes[0].value, "set_vesting_token");
    assert_eq!(res.attributes[1].key, "vesting_token");
    assert_eq!(res.attributes[1].value, native_denom);

    let config = contract.query_config();
    assert_eq!(config.vesting_token, Some(native_asset_info(native_denom.to_string())));
}

#[test]
fn test_register_vesting_accounts_cw20() {
    let (mut contract, env, owner, _, vesting_token) = setup_contract_with_token();
    let user1 = addr("user1");
    let user2 = addr("user2");
    let amount = 1000u128;

    let vesting_accounts = vec![
        VestingAccount {
            address: user1.clone(),
            schedules: vec![create_vesting_schedule(env.time, 500, None, None)],
        },
        VestingAccount {
            address: user2.clone(),
            schedules: vec![create_vesting_schedule(env.time, 500, None, None)],
        },
    ];

    let res = register_cw20(&mut contract, &env, &vesting_token, &owner, amount, vesting_accounts)
        .unwrap();
    assert_eq!(res.attributes[0].key, "action");
    assert_eq!(res.attributes[0].value, "register_vesting_accounts");
    assert_eq!(res.attributes[1].key, "deposited");
    assert_eq!(res.attributes[1].value, amount.to_string());

    let user1_account = contract.query_vesting_account(&user1).unwrap();
    assert_eq!(user1_account.address, user1);
    assert_eq!(user1_account.info.schedules.len(), 1);

    let user2_account = contract.query_vesting_account(&user2).unwrap();
    assert_eq!(user2_account.address, user2);
    assert_eq!(user2_account.info.schedules.len(), 1);
}

#[test]
fn test_register_vesting_accounts_native() {
    let (mut contract, env, owner, _) = setup_contract();
    let native_denom = "uatom";
    contract.set_vesting_token(&owner, native_asset_info(native_denom.to_string())).unwrap();

    let user1 = addr("user1");
    let amount = 1000u128;
    let vesting_accounts = one_account(&user1, create_vesting_schedule(env.time, amount, None, None));

    let funds = vec![Coin { denom: native_denom.to_string(), amount }];
    let res = contract
        .register_vesting_accounts_native(&env, &owner, &funds, vesting_accounts)
        .unwrap();
    assert_eq!(res.attributes[0].key, "action");
    assert_eq!(res.attributes[0].value, "register_vesting_accounts");
    assert_eq!(res.attributes[1].key, "deposited");
    assert_eq!(res.attributes[1].value, amount.to_string());

    let user1_account = contract.query_vesting_account(&user1).unwrap();
    assert_eq!(user1_account.address, user1);
    assert_eq!(user1_account.info.schedules.len(), 1);
}

#[test]
fn test_register_vesting_accounts_unauthorized() {
    let (mut contract, env, _, _, vesting_token) = setup_contract_with_token();
    let stranger = addr("stranger");
    let user1 = addr("user1");
    let amount = 1000u128;
    let vesting_accounts = one_account(&user1, create_vesting_schedule(env.time, amount, None, None));

    let err = register_cw20(&mut contract, &env, &vesting_token, &stranger, amount, vesting_accounts)
        .unwrap_err();
    assert_eq!(err, ContractError::Unauthorized);
}

#[test]
fn test_register_vesting_accounts_amount_mismatch() {
    let (mut contract, env, owner, _, vesting_token) = setup_contract_with_token();
    let user1 = addr("user1");
    let sent_amount = 1000u128;
    let schedule_amount = 500u128;
    let vesting_accounts =
        one_account(&user1, create_vesting_schedule(env.time, schedule_amount, None, None));

    let err = register_cw20(&mut contract, &env, &vesting_token, &owner, sent_amount, vesting_accounts)
        .unwrap_err();
    assert_eq!(err, ContractError::VestingScheduleAmountError);
}

#[test]
fn test_register_vesting_accounts_invalid_schedule() {
    let (mut contract, env, owner, _, vesting_token) = setup_contract_with_token();
    let user1 = addr("user1");
    let amount = 1000u128;
    let vesting_accounts = one_account(
        &user1,
        create_vesting_schedule(env.time + 100, 500, Some(env.time), Some(amount)),
    );

    let err = register_cw20(&mut contract, &env, &vesting_token, &owner, amount, vesting_accounts)
        .unwrap_err();
    assert_eq!(err, ContractError::VestingScheduleError(user1.to_string()));
}

#[test]
fn test_claim_tokens_cw20() {
    let (mut contract, mut env, owner, _, vesting_token) = setup_contract_with_token();
    let user1 = addr("user1");
    let amount = 1000u128;
    let vesting_accounts = one_account(
        &user1,
        create_vesting_schedule(env.time, 500, Some(env.time + 100), Some(amount)),
    );
    register_cw20(&mut contract, &env, &vesting_token, &owner, amount, vesting_accounts).unwrap();

    env.time += 50;

    let res = contract.claim(&env, &user1, None, None).unwrap();
    assert_eq!(res.attributes[0].key, "action");
    assert_eq!(res.attributes[0].value, "claim");
    assert_eq!(res.attributes[1].key, "address");
    assert_eq!(res.attributes[1].value, user1.to_string());

    let (asset, recipient, amount) = single_transfer(&res);
    assert_eq!(asset, token_asset_info(vesting_token));
    assert_eq!(recipient, user1.to_string());
    assert!(amount > 0);
}

#[test]
fn test_claim_tokens_native() {
    let (mut contract, env, owner, _) = setup_contract();
    let native_denom = "uatom";
    contract.set_vesting_token(&owner, native_asset_info(native_denom.to_string())).unwrap();

    let user1 = addr("user1");
    let amount = 1000u128;
    let vesting_accounts = one_account(&user1, create_vesting_schedule(env.time, amount, None, None));
    let funds = vec![Coin { denom: native_denom.to_string(), amount }];
    contract.register_vesting_accounts_native(&env, &owner, &funds, vesting_accounts).unwrap();

    let res = contract.claim(&env, &user1, None, None).unwrap();
    assert_eq!(res.attributes[0].key, "action");
    assert_eq!(res.attributes[0].value, "claim");
    assert_eq!(res.attributes[1].key, "address");
    assert_eq!(res.attributes[1].value, user1.to_string());

    let (asset, to_address, coin_amount) = single_transfer(&res);
    assert_eq!(to_address, user1.to_string());
    assert_eq!(asset, native_asset_info(native_denom.to_string()));
    assert_eq!(coin_amount, amount);
}

#[test]
fn test_claim_tokens_with_recipient() {
    let (mut contract, env, owner, _, vesting_token) = setup_contract_with_token();
    let user1 = addr("user1");
    let recipient = addr("recipient");
    let amount = 1000u128;
    let vesting_accounts = one_account(&user1, create_vesting_schedule(env.time, amount, None, None));
    register_cw20(&mut contract, &env, &vesting_token, &owner, amount, vesting_accounts).unwrap();

    let res = contract.claim(&env, &user1, Some(recipient.to_string()), None).unwrap();
    let (_, msg_recipient, _) = single_transfer(&res);
    assert_eq!(msg_recipient, recipient.to_string());
}

#[test]
fn test_claim_tokens_partial_amount() {
    let (mut contract, env, owner, _, vesting_token) = setup_contract_with_token();
    let user1 = addr("user1");
    let total_amount = 1000u128;
    let claim_amount = 500u128;
    let vesting_accounts =
        one_account(&user1, create_vesting_schedule(env.time, total_amount, None, None));
    register_cw20(&mut contract, &env, &vesting_token, &owner, total_amount, vesting_accounts)
        .unwrap();

    let res = contract.claim(&env, &user1, None, Some(claim_amount)).unwrap();
    let (_, _, amount) = single_transfer(&res);
    assert_eq!(amount, claim_amount);
}

#[test]
fn test_claim_tokens_insufficient_amount() {
    let (mut contract, env, owner, _, vesting_token) = setup_contract_with_token();
    let user1 = addr("user1");
    let total_amount = 1000u128;
    let claim_amount = 1500u128;
    let vesting_accounts =
        one_account(&user1, create_vesting_schedule(env.time, total_amount, None, None));
    register_cw20(&mut contract, &env, &vesting_token, &owner, total_amount, vesting_accounts)
        .unwrap();

    let err = contract.claim(&env, &user1, None, Some(claim_amount)).unwrap_err();
    assert_eq!(err, ContractError::AmountIsNotAvailable);
}

#[test]
fn test_claim_tokens_no_vesting_account() {
    let (mut contract, env, _, _, _) = setup_contract_with_token();
    let user1 = addr("user1");
    let err = contract.claim(&env, &user1, None, None).unwrap_err();
    assert!(matches!(err, ContractError::Std(_)));
}

#[test]
fn test_force_claim_tokens() {
    let (mut contract, mut env, owner, _, vesting_token) = setup_contract_with_token();
    let user1 = addr("user1");
    let amount = 1000u128;
    let vesting_accounts = one_account(
        &user1,
        create_vesting_schedule(env.time, 0, Some(env.time + 1000), Some(amount)),
    );
    register_cw20(&mut contract, &env, &vesting_token, &owner, amount, vesting_accounts).unwrap();

    env.time += 200;

    let res = contract.force_claim(&env, &user1, None).unwrap();
    assert_eq!(res.attributes[0].key, "action");
    assert_eq!(res.attributes[0].value, "force_claim");
    assert_eq!(res.attributes[1].key, "address");
    assert_eq!(res.attributes[1].value, user1.to_string());

    let (_, _, claimed) = single_transfer(&res);
    assert_eq!(claimed, 600); // 200 + 800 / 2 = 600 (available to claim + 50% of the remaining)

    let available = contract.query_available_amount(&user1, env.time).unwrap();
    assert_eq!(available, 0);

    let res = contract.claim(&env, &user1, None, None).unwrap();
    assert_eq!(res.messages.len(), 0);
    assert_eq!(res.attributes[2].value, "0");
    assert_eq!(res.attributes[3].value, "0");

    let clawback_account = addr("clawback");
    let res = contract
        .remove_vesting_accounts(&env, &owner, vec![user1.to_string()], clawback_account.to_string())
        .unwrap();
    assert_eq!(res.attributes[0].key, "action");
    assert_eq!(res.attributes[0].value, "remove_vesting_accounts");
    let (_, recipient, clawed) = single_transfer(&res);
    assert_eq!(clawed, 400); // 400 - the remaining of the users vesting
    assert_eq!(recipient, clawback_account.to_string());
}

#[test]
fn test_ownership_proposal() {
    let (mut contract, env, owner, _) = setup_contract();
    let new_owner = addr("new_owner");
    let expires_in = 86400u64;

    let res = contract.propose_new_owner(&env, &owner, new_owner.to_string(), expires_in).unwrap();
    assert_eq!(res.attributes[0].key, "action");
    assert_eq!(res.attributes[0].value, "propose_new_owner");
    assert_eq!(res.attributes[1].key, "new_owner");
    assert_eq!(res.attributes[1].value, new_owner.to_string());

    let res = contract.claim_ownership(&env, &new_owner).unwrap();
    assert_eq!(res.attributes[0].key, "action");
    assert_eq!(res.attributes[0].value, "claim_ownership");
    assert_eq!(res.attributes[1].key, "new_owner");
    assert_eq!(res.attributes[1].value, new_owner.to_string());

    let config = contract.query_config();
    assert_eq!(config.owner, new_owner);
}

#[test]
fn test_ownership_proposal_unauthorized() {
    let (mut contract, env, _, _) = setup_contract();
    let stranger = addr("stranger");
    let new_owner = addr("new_owner");
    let err = contract
        .propose_new_owner(&env, &stranger, new_owner.to_string(), 86400u64)
        .unwrap_err();
    assert!(matches!(err, ContractError::Std(_)));
}

#[test]
fn test_ownership_proposal_expired() {
    let (mut contract, mut env, owner, _) = setup_contract();
    let new_owner = addr("new_owner");
    let expires_in = 100u64;
    contract.propose_new_owner(&env, &owner, new_owner.to_string(), expires_in).unwrap();

    env.time += expires_in + 1;

    let err = contract.claim_ownership(&env, &new_owner).unwrap_err();
    assert!(matches!(err, ContractError::Std(_)));
}

#[test]
fn test_drop_ownership_proposal() {
    let (mut contract, env, owner, _) = setup_contract();
    let new_owner = addr("new_owner");
    contract.propose_new_owner(&env, &owner, new_owner.to_string(), 86400u64).unwrap();

    let res = contract.drop_ownership_proposal(&owner).unwrap();
    assert_eq!(res.attributes[0].key, "action");
    assert_eq!(res.attributes[0].value, "drop_ownership_proposal");

    let err = contract.claim_ownership(&env, &new_owner).unwrap_err();
    assert!(matches!(err, ContractError::Std(_)));
}

// ========== QUERY MESSAGE TESTS ==========

#[test]
fn test_query_config() {
    let (contract, _env, owner, token_info_manager) = setup_contract();
    let config = contract.query_config();
    assert_eq!(config.owner, owner);
    assert_eq!(config.token_info_manager, token_info_manager);
    assert_eq!(config.vesting_token, None);
    assert!(!config.extensions.historical);
    assert!(!config.extensions.managed);
    assert!(!config.extensions.with_managers);
}

#[test]
fn test_query_vesting_account() {
    let (mut contract, env, owner, _, vesting_token) = setup_contract_with_token();
    let user1 = addr("user1");
    let amount = 1000u128;
    let vesting_accounts = one_account(&user1, create_vesting_schedule(env.time, amount, None, None));
    register_cw20(&mut contract, &env, &vesting_token, &owner, amount, vesting_accounts).unwrap();

    let account = contract.query_vesting_account(&user1).unwrap();
    assert_eq!(account.address, user1);
    assert_eq!(account.info.schedules.len(), 1);
    assert_eq!(account.info.released_amount, 0);
    assert_eq!(account.info.schedules[0].start_point.amount, amount);
}

#[test]
fn test_query_vesting_account_not_found() {
    let (contract, _env, _, _, _) = setup_contract_with_token();
    let user1 = addr("user1");
    let err = contract.query_vesting_account(&user1).unwrap_err();
    assert!(matches!(err, StdError::NotFound { .. }));
}

#[test]
fn test_query_vesting_accounts() {
    let (mut contract, env, owner, _, vesting_token) = setup_contract_with_token();
    let user1 = addr("user1");
    let user2 = addr("user2");
    let amount = 1000u128;
    let vesting_accounts = vec![
        VestingAccount {
            address: user1.clone(),
            schedules: vec![create_vesting_schedule(env.time, 500, None, None)],
        },
        VestingAccount {
            address: user2.clone(),
            schedules: vec![create_vesting_schedule(env.time, 500, None, None)],
        },
    ];
    register_cw20(&mut contract, &env, &vesting_token, &owner, amount, vesting_accounts).unwrap();

    let accounts = contract.query_vesting_accounts(None, None, None);
    assert_eq!(accounts.vesting_accounts.len(), 2);

    let accounts = contract.query_vesting_accounts(None, Some(1), None);
    assert_eq!(accounts.vesting_accounts.len(), 1);

    let accounts = contract.query_vesting_accounts(Some(user1.to_string()), None, Some(OrderBy::Asc));
    assert_eq!(accounts.vesting_accounts.len(), 1);
    assert_eq!(accounts.vesting_accounts[0].address, user2);
}

#[test]
fn test_query_available_amount() {
    let (mut contract, mut env, owner, _, vesting_token) = setup_contract_with_token();
    let user1 = addr("user1");
    let amount = 1000u128;
    let vesting_accounts = one_account(
        &user1,
        create_vesting_schedule(env.time, 500, Some(env.time + 100), Some(amount)),
    );
    register_cw20(&mut contract, &env, &vesting_token, &owner, amount, vesting_accounts).unwrap();

    let available = contract.query_available_amount(&user1, env.time).unwrap();
    assert_eq!(available, 500); // Start amount

    env.time += 50;
    let available = contract.query_available_amount(&user1, env.time).unwrap();
    assert_eq!(available, 750); // Start + half of linear vesting

    env.time += 50;
    let available = contract.query_available_amount(&user1, env.time).unwrap();
    assert_eq!(available, amount); // Full amount
}

#[test]
fn test_query_vesting_state() {
    let (mut contract, env, owner, _, vesting_token) = setup_contract_with_token();
    let user1 = addr("user1");
    let amount = 1000u128;
    let vesting_accounts = one_account(&user1, create_vesting_schedule(env.time, amount, None, None));
    register_cw20(&mut contract, &env, &vesting_token, &owner, amount, vesting_accounts).unwrap();

    let state = contract.query_vesting_state();
    assert_eq!(state.total_granted, amount);
    assert_eq!(state.total_released, 0);
}

#[test]
fn test_query_timestamp() {
    let (_contract, env, _, _) = setup_contract();
    let timestamp = query_timestamp(&env);
    assert_eq!(timestamp, env.time);
}

// ========== EXTENSION TESTS ==========

#[test]
fn test_with_managers_extension() {
    let (mut contract, _env, owner, _, vesting_managers) = setup_contract_with_extensions();

    assert_eq!(contract.query_vesting_managers().unwrap(), vesting_managers);

    let new_managers = vec![addr("manager3")];
    let res = contract.add_vesting_managers(&owner, new_managers.clone()).unwrap();
    assert_eq!(res.attributes[0].key, "action");
    assert_eq!(res.attributes[0].value, "add_vesting_managers");

    let res = contract
        .remove_vesting_managers(&owner, vec![vesting_managers[0].clone()])
        .unwrap();
    assert_eq!(res.attributes[0].key, "action");
    assert_eq!(res.attributes[0].value, "remove_vesting_managers");
}

#[test]
fn test_historical_extension() {
    let (mut contract, _env, _, token_info_manager, _) = setup_contract_with_extensions();
    let vesting_token = addr("vesting_token");
    contract.set_vesting_token(&token_info_manager, token_asset_info(vesting_token)).unwrap();

    let _result = contract.query_unclaimed_total_amount_at_height(1000u64).unwrap();
    let user1 = addr("user1");
    let _result = contract.query_unclaimed_amount_at_height(&user1, 1000u64).unwrap();
}

#[test]
fn test_managed_extension() {
    let (mut contract, env, owner, token_info_manager, _) = setup_contract_with_extensions();
    let vesting_token = addr("vesting_token");
    contract
        .set_vesting_token(&token_info_manager, token_asset_info(vesting_token.clone()))
        .unwrap();

    let user1 = addr("user1");
    let amount = 1000u128;
    let vesting_accounts = one_account(&user1, create_vesting_schedule(env.time, amount, None, None));
    register_cw20(&mut contract, &env, &vesting_token, &owner, amount, vesting_accounts).unwrap();

    let clawback_account = addr("clawback");
    let res = contract
        .remove_vesting_accounts(&env, &owner, vec![user1.to_string()], clawback_account.to_string())
        .unwrap();
    assert_eq!(res.attributes[0].key, "action");
    assert_eq!(res.attributes[0].value, "remove_vesting_accounts");
}

#[test]
fn test_extension_disabled_errors() {
    let (mut contract, env, owner, _) = setup_contract();

    let err = contract.query_vesting_managers().unwrap_err();
    assert_eq!(err, ext_unsupported_err("with_managers"));

    let err = contract.query_unclaimed_total_amount_at_height(1000u64).unwrap_err();
    assert_eq!(err, ext_unsupported_err("historical"));

    let err = contract
        .remove_vesting_accounts(&env, &owner, vec![], String::from("clawback"))
        .unwrap_err();
    assert_eq!(err, ContractError::Std(ext_unsupported_err("managed")));
}

// ========== EDGE CASE TESTS ==========

#[test]
fn test_vesting_schedule_edge_cases() {
    let (mut contract, env, owner, _, vesting_token) = setup_contract_with_token();
    let user1 = addr("user1");
    let amount = 1000u128;
    let vesting_accounts = one_account(
        &user1,
        create_vesting_schedule(env.time, 500, Some(env.time), Some(amount)),
    );
    let err = register_cw20(&mut contract, &env, &vesting_token, &owner, amount, vesting_accounts)
        .unwrap_err();
    assert_eq!(err, ContractError::VestingScheduleError(user1.to_string()));
}

#[test]
fn test_multiple_schedules_same_user() {
    let (mut contract, env, owner, _, vesting_token) = setup_contract_with_token();
    let user1 = addr("user1");

    let vesting_accounts = one_account(&user1, create_vesting_schedule(env.time, 500, None, None));
    register_cw20(&mut contract, &env, &vesting_token, &owner, 500, vesting_accounts).unwrap();

    let vesting_accounts =
        one_account(&user1, create_vesting_schedule(env.time + 100, 500, None, None));
    register_cw20(&mut contract, &env, &vesting_token, &owner, 500, vesting_accounts).unwrap();

    let account = contract.query_vesting_account(&user1).unwrap();
    assert_eq!(account.info.schedules.len(), 2);
}

#[test]
fn test_zero_amount_claim() {
    let (mut contract, env, owner, _, vesting_token) = setup_contract_with_token();
    let user1 = addr("user1");
    let amount = 1000u128;
    let vesting_accounts =
        one_account(&user1, create_vesting_schedule(env.time + 1000, amount, None, None));
    register_cw20(&mut contract, &env, &vesting_token, &owner, amount, vesting_accounts).unwrap();

    let res = contract.claim(&env, &user1, None, None).unwrap();
    assert_eq!(res.messages.len(), 0);
    assert_eq!(res.attributes[3].key, "claimed_amount");
    assert_eq!(res.attributes[3].value, "0");
}

#[test]
fn test_vesting_token_not_set_error() {
    let (mut contract, env, _owner, _) = setup_contract();
    let user1 = addr("user1");
    let err = contract.claim(&env, &user1, None, None).unwrap_err();
    assert_eq!(err, ContractError::VestingTokenIsNotSet);
}

#[test]
fn test_register_with_manager() {
    let (mut contract, env, _owner, token_info_manager, _vesting_managers) =
        setup_contract_with_extensions();
    let native_denom = "uatom";
    contract
        .set_vesting_token(&token_info_manager, native_asset_info(native_denom.to_string()))
        .unwrap();

    let user1 = addr("user1");
    let amount = 1000u128;
    let vesting_accounts = one_account(&user1, create_vesting_schedule(env.time, amount, None, None));

    let managers = contract.query_vesting_managers().unwrap();
    let manager = &managers[0];

    let funds = vec![Coin { denom: native_denom.to_string(), amount }];
    let res = contract
        .register_vesting_accounts_native(&env, manager, &funds, vesting_accounts)
        .unwrap();
    assert_eq!(res.attributes[0].key, "action");
    assert_eq!(res.attributes[0].value, "register_vesting_accounts");
}

#[test]
fn test_full_vesting_lifecycle() {
    let (mut contract, mut env, owner, _, vesting_token) = setup_contract_with_token();
    let user1 = addr("user1");
    let total_amount = 1000u128;
    let start_amount = 200u128;
    let vesting_duration = 100u64;
    let vesting_accounts = one_account(
        &user1,
        create_vesting_schedule(
            env.time,
            start_amount,
            Some(env.time + vesting_duration),
            Some(total_amount),
        ),
    );
    register_cw20(&mut contract, &env, &vesting_token, &owner, total_amount, vesting_accounts)
        .unwrap();

    let available = contract.query_available_amount(&user1, env.time).unwrap();
    assert_eq!(available, start_amount);

    contract.claim(&env, &user1, None, Some(start_amount)).unwrap();

    env.time += vesting_duration / 2;
    let available = contract.query_available_amount(&user1, env.time).unwrap();
    let expected = start_amount + (total_amount - start_amount) / 2;
    assert_eq!(available, expected - start_amount);

    env.time += vesting_duration / 2;
    let available = contract.query_available_amount(&user1, env.time).unwrap();
    assert_eq!(available, total_amount - start_amount);

    contract.claim(&env, &user1, None, None).unwrap();

    let available = contract.query_available_amount(&user1, env.time).unwrap();
    assert_eq!(available, 0);

    let state = contract.query_vesting_state();
    assert_eq!(state.total_granted, total_amount);
    assert_eq!(state.total_released, total_amount);
}
