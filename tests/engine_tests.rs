use cnuns_staking::{Adder, RewardPaymentInfo, StakedNftInfo, StakingError, TokenPayment};

const STAKE: &[u8] = b"CNUN-123456";
const REWARD: &[u8] = b"REW-abcdef";
const EGLD: &[u8] = b"EGLD";

fn owner() -> Vec<u8> {
    b"owner".to_vec()
}

fn engine() -> Adder {
    let mut sc = Adder::new(owner());
    sc.init(STAKE.to_vec(), 0);
    sc
}

fn units(nonces: &[u64]) -> Vec<TokenPayment> {
    nonces.iter().map(|n| TokenPayment::new(STAKE.to_vec(), *n, 1)).collect()
}

fn pay(token: &[u8], amount: u128) -> TokenPayment {
    TokenPayment::new(token.to_vec(), 0, amount)
}

fn claimed_total(transfers: &[TokenPayment], token: &[u8]) -> u128 {
    transfers.iter().filter(|t| t.token_identifier == token.to_vec()).map(|t| t.amount).sum()
}

#[test]
fn stake_then_unstake_same_epoch_removes_entry() {
    let mut sc = engine();
    let alice = b"alice".to_vec();
    assert_eq!(sc.stake(&alice, &units(&[7]), 3), Ok(()));
    assert_eq!(sc.get_staked_nfts(&alice), vec![StakedNftInfo { nonce: 7, stake_epoch: 3 }]);
    let out = sc.unstake(&alice, &vec![7]).unwrap();
    assert_eq!(out, vec![TokenPayment::new(STAKE.to_vec(), 7, 1)]);
    assert!(sc.get_staked_nfts(&alice).is_empty());
    assert_eq!(sc.unstake(&alice, &vec![7]), Err(StakingError::NothingStaked));
}

#[test]
fn stake_then_unstake_keeps_other_units() {
    let mut sc = engine();
    let alice = b"alice".to_vec();
    assert_eq!(sc.stake(&alice, &units(&[1, 2]), 0), Ok(()));
    assert_eq!(sc.stake(&alice, &units(&[3]), 4), Ok(()));
    let out = sc.unstake(&alice, &vec![3]).unwrap();
    assert_eq!(out, vec![TokenPayment::new(STAKE.to_vec(), 3, 1)]);
    assert_eq!(
        sc.get_staked_nfts(&alice),
        vec![StakedNftInfo { nonce: 1, stake_epoch: 0 }, StakedNftInfo { nonce: 2, stake_epoch: 0 }]
    );
}

#[test]
fn unstake_skips_unknown_serials() {
    let mut sc = engine();
    let alice = b"alice".to_vec();
    assert_eq!(sc.stake(&alice, &units(&[1, 2, 3]), 0), Ok(()));
    let out = sc.unstake(&alice, &vec![9, 2, 42]).unwrap();
    assert_eq!(out, vec![TokenPayment::new(STAKE.to_vec(), 2, 1)]);
    let left: Vec<u64> = sc.get_staked_nfts(&alice).iter().map(|n| n.nonce).collect();
    assert_eq!(left, vec![1, 3]);
    let none = sc.unstake(&alice, &vec![99]).unwrap();
    assert!(none.is_empty());
}

#[test]
fn unstake_without_entry_fails() {
    let mut sc = engine();
    let r = sc.unstake(&b"nobody".to_vec(), &vec![1]);
    assert_eq!(r, Err(StakingError::NothingStaked));
    assert_eq!(r.unwrap_err().message(), "nothing to unstake");
}

#[test]
fn payable_epochs_zero_without_units() {
    let sc = engine();
    let nobody = b"nobody".to_vec();
    assert_eq!(sc.get_total_payable_epochs(0, 0, &nobody), Ok(0));
    assert_eq!(sc.get_total_payable_epochs(100, 7, &nobody), Ok(0));
    assert_eq!(sc.get_total_payable_epochs(3, 50, &nobody), Ok(0));
    assert_eq!(sc.get_total_payable_epochs(u64::MAX, u64::MAX, &nobody), Ok(0));
}

#[test]
fn payable_epochs_underflow() {
    let mut sc = engine();
    let alice = b"alice".to_vec();
    assert_eq!(sc.stake(&alice, &units(&[1]), 10), Ok(()));
    assert_eq!(sc.get_total_payable_epochs(5, 0, &alice), Err(StakingError::EpochUnderflow));
    assert_eq!(sc.get_total_payable_epochs(5, 8, &alice), Err(StakingError::EpochUnderflow));
    assert_eq!(sc.get_total_payable_epochs(12, 0, &alice), Ok(2));
}

#[test]
fn scenario_single_unit_full_deposit() {
    let mut sc = engine();
    let alice = b"alice".to_vec();
    assert_eq!(sc.stake(&alice, &units(&[1]), 0), Ok(()));
    assert_eq!(sc.get_total_payable_epochs(10, 0, &alice), Ok(10));
    assert_eq!(sc.deposit_reward(&owner(), &pay(EGLD, 1000), 10), Ok(100));
    let out = sc.claim_reward(&alice).unwrap();
    assert_eq!(out, vec![TokenPayment::new(EGLD.to_vec(), 1, 1000)]);
    assert_eq!(claimed_total(&out, EGLD), 1000);
    assert_eq!(
        sc.get_reward_payment_info(&EGLD.to_vec()),
        Some(RewardPaymentInfo {
            last_paid_epoch: 10,
            total_paid_so_far: 1000,
            last_reward_payment: 1000,
            last_reward_per_epoch_per_nonce: 100,
        })
    );
}

#[test]
fn scenario_cutoff_boundary_equal_weights() {
    let mut sc = engine();
    let alice = b"alice".to_vec();
    let bob = b"bob".to_vec();
    assert_eq!(sc.stake(&alice, &units(&[1]), 0), Ok(()));
    assert_eq!(sc.deposit_reward(&owner(), &pay(EGLD, 1000), 10), Ok(100));
    assert_eq!(sc.stake(&bob, &units(&[2]), 10), Ok(()));
    // unit 1 staked before the cutoff, unit 2 exactly at it: both credited 10 epochs
    assert_eq!(sc.get_total_payable_epochs(20, 10, &alice), Ok(10));
    assert_eq!(sc.get_total_payable_epochs(20, 10, &bob), Ok(10));
    assert_eq!(sc.deposit_reward(&owner(), &pay(EGLD, 2000), 20), Ok(100));
    let a = sc.claim_reward(&alice).unwrap();
    let b = sc.claim_reward(&bob).unwrap();
    assert_eq!(claimed_total(&a, EGLD), 1000 + 1000);
    assert_eq!(claimed_total(&b, EGLD), 1000);
}

#[test]
fn three_holders_two_deposits_split_proportionally() {
    let mut sc = engine();
    let (h1, h2, h3) = (b"h1".to_vec(), b"h2".to_vec(), b"h3".to_vec());
    assert_eq!(sc.stake(&h1, &units(&[1, 2]), 0), Ok(()));
    assert_eq!(sc.stake(&h2, &units(&[3]), 4), Ok(()));
    assert_eq!(sc.stake(&h3, &units(&[4, 5, 6]), 8), Ok(()));
    // at 10: h1 2*10 = 20, h2 6, h3 3*2 = 6; total 32
    assert_eq!(sc.deposit_reward(&owner(), &pay(EGLD, 3200), 10), Ok(100));
    // the fungible token was never paid: counted from the origin epoch, at 20:
    // h1 2*20 = 40, h2 16, h3 3*12 = 36; total 92
    assert_eq!(sc.deposit_reward(&owner(), &pay(REWARD, 9200), 20), Ok(100));
    let c1 = sc.claim_reward(&h1).unwrap();
    let c2 = sc.claim_reward(&h2).unwrap();
    let c3 = sc.claim_reward(&h3).unwrap();
    assert_eq!((claimed_total(&c1, EGLD), claimed_total(&c1, REWARD)), (2000, 4000));
    assert_eq!((claimed_total(&c2, EGLD), claimed_total(&c2, REWARD)), (600, 1600));
    assert_eq!((claimed_total(&c3, EGLD), claimed_total(&c3, REWARD)), (600, 3600));
}

#[test]
fn deposit_with_no_stakers_fails_and_changes_nothing() {
    let mut sc = engine();
    let r = sc.deposit_reward(&owner(), &pay(EGLD, 1000), 10);
    assert_eq!(r, Err(StakingError::NoClaimableEpochs));
    assert_eq!(sc.get_reward_payment_info(&EGLD.to_vec()), None);
    assert!(sc.get_claimable_rewards(&owner()).is_empty());
}

#[test]
fn deposit_with_zero_weight_fails() {
    let mut sc = engine();
    let alice = b"alice".to_vec();
    assert_eq!(sc.stake(&alice, &units(&[1]), 10), Ok(()));
    assert_eq!(sc.deposit_reward(&owner(), &pay(EGLD, 1000), 10), Err(StakingError::NoClaimableEpochs));
    assert!(sc.get_claimable_rewards(&alice).is_empty());
    assert_eq!(sc.get_staked_nfts(&alice).len(), 1);
}

#[test]
fn deposit_keeps_remainder() {
    let mut sc = engine();
    let (a, b) = (b"a".to_vec(), b"b".to_vec());
    assert_eq!(sc.stake(&a, &units(&[1]), 0), Ok(()));
    assert_eq!(sc.stake(&b, &units(&[2, 3]), 0), Ok(()));
    // total weight 3, 1000 / 3 = 333, one unit of dust is never distributed
    assert_eq!(sc.deposit_reward(&owner(), &pay(REWARD, 1000), 1), Ok(333));
    let ca = sc.claim_reward(&a).unwrap();
    let cb = sc.claim_reward(&b).unwrap();
    assert_eq!(claimed_total(&ca, REWARD) + claimed_total(&cb, REWARD), 999);
    assert_eq!(cb.len(), 2);
    assert_eq!(sc.get_reward_payment_info(&REWARD.to_vec()).unwrap().total_paid_so_far, 1000);
}

#[test]
fn deposit_errors() {
    let mut sc = engine();
    let alice = b"alice".to_vec();
    assert_eq!(sc.stake(&alice, &units(&[1]), 5), Ok(()));
    let r = sc.deposit_reward(&alice, &pay(EGLD, 1000), 10);
    assert_eq!(r, Err(StakingError::Unauthorized));
    let r = sc.deposit_reward(&owner(), &pay(EGLD, 0), 10);
    assert_eq!(r, Err(StakingError::NoPaymentSent));
    assert_eq!(r.unwrap_err().message(), "No payment sent");
    // the clock is behind the unit's stake epoch
    assert_eq!(sc.deposit_reward(&owner(), &pay(EGLD, 1000), 4), Err(StakingError::EpochUnderflow));
    assert_eq!(sc.deposit_reward(&owner(), &pay(EGLD, 1000), 10), Ok(200));
    // the clock is behind the previous distribution of this asset
    assert_eq!(sc.deposit_reward(&owner(), &pay(EGLD, 1000), 9), Err(StakingError::EpochUnderflow));
    assert_eq!(sc.get_reward_payment_info(&EGLD.to_vec()).unwrap().last_paid_epoch, 10);
    assert_eq!(sc.get_claimable_rewards(&alice).len(), 1);
}

#[test]
fn claim_errors_and_order() {
    let mut sc = engine();
    let alice = b"alice".to_vec();
    let r = sc.claim_reward(&alice);
    assert_eq!(r, Err(StakingError::NothingToClaim));
    assert_eq!(r.unwrap_err().message(), "no rewards to claim");
    assert_eq!(sc.stake(&alice, &units(&[1, 2]), 0), Ok(()));
    assert_eq!(sc.deposit_reward(&owner(), &pay(EGLD, 100), 5), Ok(10));
    assert_eq!(sc.deposit_reward(&owner(), &pay(REWARD, 60), 3), Ok(10));
    let queued = sc.get_claimable_rewards(&alice);
    let out = sc.claim_reward(&alice).unwrap();
    assert_eq!(queued, out);
    assert_eq!(
        out,
        vec![
            TokenPayment::new(EGLD.to_vec(), 1, 50),
            TokenPayment::new(EGLD.to_vec(), 2, 50),
            TokenPayment::new(REWARD.to_vec(), 1, 30),
            TokenPayment::new(REWARD.to_vec(), 2, 30),
        ]
    );
    assert_eq!(sc.claim_reward(&alice), Err(StakingError::NothingToClaim));
}

#[test]
fn init_sets_each_value_once() {
    let mut sc = Adder::new(owner());
    assert_eq!(sc.get_stake_token(), Vec::<u8>::new());
    assert_eq!(sc.get_origin_epoch(), 0);
    let alice = b"alice".to_vec();
    assert_eq!(sc.stake(&alice, &units(&[1]), 0), Err(StakingError::IneligibleAsset));
    sc.init(STAKE.to_vec(), 7);
    sc.init(b"OTHER-000000".to_vec(), 9);
    assert_eq!(sc.get_stake_token(), STAKE.to_vec());
    assert_eq!(sc.get_origin_epoch(), 7);
    assert_eq!(sc.stake(&alice, &units(&[1]), 8), Ok(()));
    // first distribution of an asset counts from the origin epoch
    assert_eq!(sc.deposit_reward(&owner(), &pay(EGLD, 30), 10), Ok(15));
}

#[test]
fn staked_unit_count_follows_stake_and_unstake() {
    let mut sc = engine();
    let (a, b) = (b"a".to_vec(), b"b".to_vec());
    assert_eq!(sc.get_staked_unit_count(), 0);
    assert_eq!(sc.stake(&a, &units(&[1, 2, 3]), 0), Ok(()));
    assert_eq!(sc.stake(&b, &units(&[4]), 1), Ok(()));
    assert_eq!(sc.get_staked_unit_count(), 4);
    assert_eq!(sc.unstake(&a, &vec![1, 3]).unwrap().len(), 2);
    assert_eq!(sc.get_staked_unit_count(), 2);
}
