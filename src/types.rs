use vstd::prelude::*;

verus! {

/// One collectible unit held by the registry: its serial and the epoch it was staked in.
#[derive(Clone, Copy, Debug, PartialEq, Eq, Structural)]
pub struct StakedNftInfo {
    pub nonce: u64,
    pub stake_epoch: u64,
}

/// Running statistics kept for each reward asset that was ever deposited.
#[derive(Clone, Copy, Debug, PartialEq, Eq, Structural)]
pub struct RewardPaymentInfo {
    pub last_paid_epoch: u64,
    pub total_paid_so_far: u128,
    pub last_reward_payment: u128,
    pub last_reward_per_epoch_per_nonce: u128,
}

/// A transfer of `amount` of the asset `token_identifier` (with serial `token_nonce`).
///
/// It describes units handed in for staking, a reward deposit, a queued claim entry
/// and a transfer the host must perform.
#[derive(Clone, Debug, PartialEq, Eq)]
pub struct TokenPayment {
    pub token_identifier: Vec<u8>,
    pub token_nonce: u64,
    pub amount: u128,
}

/// The mathematical value of a `TokenPayment`.
pub struct PaymentModel {
    pub token: Seq<u8>,
    pub nonce: u64,
    pub amount: nat,
}

impl View for TokenPayment {
    type V = PaymentModel;

    open spec fn view(&self) -> PaymentModel {
        PaymentModel {
            token: self.token_identifier@,
            nonce: self.token_nonce,
            amount: self.amount as nat,
        }
    }
}

pub open spec fn payments_model(v: Seq<TokenPayment>) -> Seq<PaymentModel> {
    v.map_values(|p: TokenPayment| p@)
}

impl TokenPayment {
    pub fn new(token_identifier: Vec<u8>, token_nonce: u64, amount: u128) -> (r: TokenPayment)
        ensures
            r.token_identifier@ == token_identifier@,
            r.token_nonce == token_nonce,
            r.amount == amount,
    {
        TokenPayment { token_identifier, token_nonce, amount }
    }
}

/// Why an operation was refused. A refused operation changes nothing.
#[derive(Clone, Copy, Debug, PartialEq, Eq, Structural)]
pub enum StakingError {
    Unauthorized,
    NoPaymentSent,
    NoItemsToStake,
    IneligibleAsset,
    NothingStaked,
    NothingToClaim,
    NoClaimableEpochs,
    EpochUnderflow,
}

pub open spec fn error_message(e: StakingError) -> &'static str {
    match e {
        StakingError::Unauthorized => "Endpoint can only be called by owner",
        StakingError::NoPaymentSent => "No payment sent",
        StakingError::NoItemsToStake => "cannot stake nothing",
        StakingError::IneligibleAsset => "one or more NFTs is not eligible for staking",
        StakingError::NothingStaked => "nothing to unstake",
        StakingError::NothingToClaim => "no rewards to claim",
        StakingError::NoClaimableEpochs => "no claimable epochs",
        StakingError::EpochUnderflow => "current epoch precedes a stake or the last payment",
    }
}

impl StakingError {
    /// The text with which the operation is aborted.
    pub fn message(&self) -> (r: &'static str)
        ensures
            r == error_message(*self),
    {
        match self {
            StakingError::Unauthorized => "Endpoint can only be called by owner",
            StakingError::NoPaymentSent => "No payment sent",
            StakingError::NoItemsToStake => "cannot stake nothing",
            StakingError::IneligibleAsset => "one or more NFTs is not eligible for staking",
            StakingError::NothingStaked => "nothing to unstake",
            StakingError::NothingToClaim => "no rewards to claim",
            StakingError::NoClaimableEpochs => "no claimable epochs",
            StakingError::EpochUnderflow => "current epoch precedes a stake or the last payment",
        }
    }
}

/// Compares two byte strings.
pub fn bytes_eq(a: &Vec<u8>, b: &Vec<u8>) -> (r: bool)
    ensures
        r == (a@ == b@),
{
    if a.len() != b.len() {
        return false;
    }
    let mut i: usize = 0;
    while i < a.len()
        invariant
            a@.len() == b@.len(),
            i <= a@.len(),
            forall|j: int| 0 <= j < i ==> a@[j] == b@[j],
        decreases a@.len() - i,
    {
        if a[i] != b[i] {
            return false;
        }
        i = i + 1;
    }
    assert(a@ =~= b@);
    true
}

/// Copies a byte string.
pub fn bytes_copy(a: &Vec<u8>) -> (r: Vec<u8>)
    ensures
        r@ == a@,
{
    let mut r: Vec<u8> = Vec::new();
    let mut i: usize = 0;
    while i < a.len()
        invariant
            i <= a@.len(),
            r@ == a@.subrange(0, i as int),
        decreases a@.len() - i,
    {
        r.push(a[i]);
        i = i + 1;
        assert(r@ =~= a@.subrange(0, i as int));
    }
    assert(a@.subrange(0, a@.len() as int) =~= a@);
    r
}

} // verus!
