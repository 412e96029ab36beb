use cnuns_staking::{Adder, StakingError, TokenPayment};

const STAKE_TOKEN: &[u8] = b"CNUN-123456";
const INVALID_STAKE_TOKEN: &[u8] = b"RANDOM-123456";
const REWARD_TOKEN: &[u8] = b"REW-abcdef";
const EGLD: &[u8] = b"EGLD";
const REWARD_AMOUNT: u64 = 1_000_000_000;

struct StakingSetup {
    sc: Adder,
    epoch: u64,
    owner_address: Vec<u8>,
    client_address: Vec<u8>,
    client2_address: Vec<u8>,
    client3_address: Vec<u8>,
}

fn setup_staking() -> StakingSetup {
    let owner_address = b"owner".to_vec();
    let mut sc = Adder::new(owner_address.clone());
    sc.init(STAKE_TOKEN.to_vec(), 0);
    StakingSetup {
        sc,
        epoch: 0,
        owner_address,
        client_address: b"client1".to_vec(),
        client2_address: b"client2".to_vec(),
        client3_address: b"client3".to_vec(),
    }
}

fn nft(token: &[u8], nonce: u64) -> TokenPayment {
    TokenPayment::new(token.to_vec(), nonce, 1)
}

fn stake_nfts(setup: &mut StakingSetup, caller: &Vec<u8>, nonces: &[u64]) {
    let units: Vec<TokenPayment> = nonces.iter().map(|n| nft(STAKE_TOKEN, *n)).collect();
    let epoch = setup.epoch;
    assert_eq!(setup.sc.stake(caller, &units, epoch), Ok(()));
}

fn unstake_nfts(setup: &mut StakingSetup, caller: &Vec<u8>, nonces: &[u64]) {
    let transfers = setup.sc.unstake(caller, &nonces.to_vec()).unwrap();
    let returned: Vec<u64> = transfers.iter().map(|t| t.token_nonce).collect();
    assert_eq!(returned, nonces.to_vec());
    for t in transfers.iter() {
        assert_eq!(t.token_identifier, STAKE_TOKEN.to_vec());
        assert_eq!(t.amount, 1);
    }
    let still: Vec<u64> = setup.sc.get_staked_nfts(caller).iter().map(|n| n.nonce).collect();
    for n in nonces.iter() {
        assert!(!still.contains(n));
    }
}

fn deposit_rewards(setup: &mut StakingSetup, token: &[u8], expected_reward_per_unit: u64) {
    let payment = TokenPayment::new(token.to_vec(), 0, REWARD_AMOUNT as u128);
    let owner = setup.owner_address.clone();
    let epoch = setup.epoch;
    let reward_per_epoch_per_nonce = setup.sc.deposit_reward(&owner, &payment, epoch);
    assert_eq!(reward_per_epoch_per_nonce, Ok(expected_reward_per_unit as u128));
}

fn deposit_egld_rewards(setup: &mut StakingSetup, expected_reward_per_unit: u64) {
    deposit_rewards(setup, EGLD, expected_reward_per_unit);
}

fn deposit_esdt_rewards(setup: &mut StakingSetup, expected_reward_per_unit: u64) {
    deposit_rewards(setup, REWARD_TOKEN, expected_reward_per_unit);
}

fn claim_rewards_and_check_balance(
    setup: &mut StakingSetup,
    caller: &Vec<u8>,
    expected_total_egld_reward: u64,
    expected_total_esdt_reward: u64,
) {
    let transfers = setup.sc.claim_reward(caller).unwrap();
    let mut egld_balance: u128 = 0;
    let mut esdt_balance: u128 = 0;
    for t in transfers.iter() {
        if t.token_identifier == EGLD.to_vec() {
            egld_balance += t.amount;
        } else if t.token_identifier == REWARD_TOKEN.to_vec() {
            esdt_balance += t.amount;
        } else {
            panic!("unexpected reward asset");
        }
    }
    assert_eq!(expected_total_egld_reward as u128, egld_balance);
    assert_eq!(expected_total_esdt_reward as u128, esdt_balance);
    assert!(setup.sc.get_claimable_rewards(caller).is_empty());
}

fn check_total_payable_epochs(
    setup: &StakingSetup,
    address: &Vec<u8>,
    last_payment_epoch: u64,
    current_epoch: u64,
    expected: u64,
) {
    let total_payable_epochs = setup.sc.get_total_payable_epochs(current_epoch, last_payment_epoch, address);
    assert_eq!(Ok(expected as u128), total_payable_epochs);
}

#[test]
fn init_test() {
    let setup = setup_staking();
    assert_eq!(setup.sc.get_origin_epoch(), 0);
    assert_eq!(setup.sc.get_stake_token(), STAKE_TOKEN.to_vec());
}

#[test]
fn test_invalid_stake_attempts() {
    let mut setup = setup_staking();
    let caller = setup.client_address.clone();

    // only stake an invalid NFT
    let mut vec = vec![nft(INVALID_STAKE_TOKEN, 1)];
    let r = setup.sc.stake(&caller, &vec, 0);
    assert_eq!(r, Err(StakingError::IneligibleAsset));
    assert_eq!(r.unwrap_err().message(), "one or more NFTs is not eligible for staking");

    // stake invalid NFT combined with other NFTs
    for nonce in [1, 2, 3, 4, 5].iter() {
        vec.push(nft(STAKE_TOKEN, *nonce));
    }
    let r = setup.sc.stake(&caller, &vec, 0);
    assert_eq!(r, Err(StakingError::IneligibleAsset));
    assert_eq!(r.unwrap_err().message(), "one or more NFTs is not eligible for staking");

    // stake nothing
    let r = setup.sc.stake(&caller, &Vec::new(), 0);
    assert_eq!(r, Err(StakingError::NoItemsToStake));
    assert_eq!(r.unwrap_err().message(), "cannot stake nothing");

    assert!(setup.sc.get_staked_nfts(&caller).is_empty());
}

#[test]
fn test_stake_unstake_attempts() {
    let mut setup = setup_staking();
    let caller1 = setup.client_address.clone();
    stake_nfts(&mut setup, &caller1, &[1]);
    stake_nfts(&mut setup, &caller1, &[2, 3]);
    stake_nfts(&mut setup, &caller1, &[4, 5]);

    let caller2 = setup.client2_address.clone();
    stake_nfts(&mut setup, &caller2, &[6, 7, 8, 9, 10]);

    let caller3 = setup.client3_address.clone();
    stake_nfts(&mut setup, &caller3, &[11, 12]);
    stake_nfts(&mut setup, &caller3, &[13, 14, 15]);

    unstake_nfts(&mut setup, &caller1, &[1, 2, 3, 4, 5]);
    unstake_nfts(&mut setup, &caller2, &[6, 7, 8, 9, 10]);
    unstake_nfts(&mut setup, &caller3, &[11, 12]);
    unstake_nfts(&mut setup, &caller3, &[13, 14, 15]);
}

#[test]
fn test_simple_split_rewards() {
    let mut setup = setup_staking();

    // stake one nft in epoch 0
    let caller1 = setup.client_address.clone();
    stake_nfts(&mut setup, &caller1, &[1]);

    // distribute EGLD rewards in epoch 10
    setup.epoch = 10;
    deposit_egld_rewards(&mut setup, REWARD_AMOUNT / 10);

    // distribute ESDT rewards in epoch 20
    setup.epoch = 20;
    deposit_esdt_rewards(&mut setup, REWARD_AMOUNT / 20);

    claim_rewards_and_check_balance(&mut setup, &caller1, REWARD_AMOUNT, REWARD_AMOUNT);
}

#[test]
fn test_simple_split_rewards_unstake_before_claim() {
    let mut setup = setup_staking();

    // stake one nft in epoch 0
    let caller1 = setup.client_address.clone();
    stake_nfts(&mut setup, &caller1, &[1]);

    // distribute EGLD rewards in epoch 10
    setup.epoch = 10;
    deposit_egld_rewards(&mut setup, REWARD_AMOUNT / 10);

    // distribute ESDT rewards in epoch 20
    setup.epoch = 20;
    deposit_esdt_rewards(&mut setup, REWARD_AMOUNT / 20);
    unstake_nfts(&mut setup, &caller1, &[1]);

    claim_rewards_and_check_balance(&mut setup, &caller1, REWARD_AMOUNT, REWARD_AMOUNT);
}

#[test]
fn test_complex_split_rewards() {
    let mut setup = setup_staking();

    let caller1 = setup.client_address.clone();
    let caller2 = setup.client2_address.clone();
    let caller3 = setup.client3_address.clone();
    stake_nfts(&mut setup, &caller1, &[1]); // 1 unit staked

    setup.epoch = 5;
    stake_nfts(&mut setup, &caller2, &[6, 7, 8]); // 3 more units staked in epoch 5

    // distribute EGLD rewards in epoch 10
    setup.epoch = 10;
    // c1: 10 epochs * 1 unit = 10
    // c2: 5 epochs * 3 units = 15
    let expected_egld_unit_reward = REWARD_AMOUNT / 25;

    check_total_payable_epochs(&setup, &caller1, 0, 10, 10);
    check_total_payable_epochs(&setup, &caller2, 0, 10, 15);

    deposit_egld_rewards(&mut setup, expected_egld_unit_reward);

    let c1_egld_rewards = expected_egld_unit_reward * 10;
    let c2_egld_rewards = expected_egld_unit_reward * 15;
    let c3_egld_rewards = 0;

    setup.epoch = 15;
    stake_nfts(&mut setup, &caller1, &[2, 3, 4, 5]);
    stake_nfts(&mut setup, &caller2, &[9, 10]);
    stake_nfts(&mut setup, &caller3, &[11, 12, 13, 14, 15]);

    // distribute ESDT rewards in epoch 20
    setup.epoch = 20;
    // c1: 15 epochs * 1 + 5 epochs * 5 = 15 + 25 = 40
    // c2: 10 epochs * 3 + 5 epochs * 5 = 30 + 25 = 55
    // c3: 25 epochs = 25
    check_total_payable_epochs(&setup, &caller1, 0, 20, 40);
    check_total_payable_epochs(&setup, &caller2, 0, 20, 55);
    check_total_payable_epochs(&setup, &caller3, 0, 20, 25);

    // total = 40 + 55 + 25 = 120
    let expected_esdt_reward_per_unit = REWARD_AMOUNT / 120;
    deposit_esdt_rewards(&mut setup, expected_esdt_reward_per_unit);

    let c1_esdt_rewards = expected_esdt_reward_per_unit * 40;
    let c2_esdt_rewards = expected_esdt_reward_per_unit * 55;
    let c3_esdt_rewards = expected_esdt_reward_per_unit * 25;

    claim_rewards_and_check_balance(&mut setup, &caller1, c1_egld_rewards, c1_esdt_rewards);
    claim_rewards_and_check_balance(&mut setup, &caller2, c2_egld_rewards, c2_esdt_rewards);
    claim_rewards_and_check_balance(&mut setup, &caller3, c3_egld_rewards, c3_esdt_rewards);

    // one more round of rewards, 20 epochs later
    setup.epoch = 40;

    // since epoch 20, every holder has 5 units staked for 20 epochs
    check_total_payable_epochs(&setup, &caller1, 20, 40, 100);
    check_total_payable_epochs(&setup, &caller2, 20, 40, 100);
    check_total_payable_epochs(&setup, &caller3, 20, 40, 100);

    // counted from epoch 10
    check_total_payable_epochs(&setup, &caller1, 10, 40, 130);
    check_total_payable_epochs(&setup, &caller2, 10, 40, 140);
    check_total_payable_epochs(&setup, &caller3, 10, 40, 125);
}
