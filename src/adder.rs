use vstd::prelude::*;
use crate::types::{
    StakedNftInfo, RewardPaymentInfo, TokenPayment, PaymentModel, StakingError, payments_model,
    bytes_eq, bytes_copy,
};
use crate::weights::{
    units_epochs_ok, payable_epochs, claim_entries, claim_entry, units_payable_epochs,
    lemma_payable_bounded, lemma_weight_le_payable,
};

verus! {

/// What the registry and the claim ledger hold for one holder.
pub struct Account {
    holder: Vec<u8>,
    staked: Vec<StakedNftInfo>,
    claimable: Vec<TokenPayment>,
}

/// The running statistics of one reward asset.
pub struct RewardRecord {
    token: Vec<u8>,
    info: RewardPaymentInfo,
}

pub struct AccountModel {
    pub holder: Seq<u8>,
    /// Staked units, in the order they were staked; the holder has a registry entry
    /// exactly when this is not empty.
    pub staked: Seq<StakedNftInfo>,
    /// Queued, unpaid claim entries, in the order they were queued.
    pub claimable: Seq<PaymentModel>,
}

pub struct RewardModel {
    pub token: Seq<u8>,
    pub info: RewardPaymentInfo,
}

/// The mathematical state of the engine.
pub struct AdderModel {
    pub owner: Seq<u8>,
    pub stake_token: Option<Seq<u8>>,
    pub origin_epoch: Option<u64>,
    pub accounts: Seq<AccountModel>,
    pub rewards: Seq<RewardModel>,
}

impl View for Account {
    type V = AccountModel;

    closed spec fn view(&self) -> AccountModel {
        AccountModel {
            holder: self.holder@,
            staked: self.staked@,
            claimable: payments_model(self.claimable@),
        }
    }
}

impl View for RewardRecord {
    type V = RewardModel;

    closed spec fn view(&self) -> RewardModel {
        RewardModel { token: self.token@, info: self.info }
    }
}

/// Number of staked units over all accounts.
pub open spec fn units_count(accounts: Seq<AccountModel>) -> int
    decreases accounts.len(),
{
    if accounts.len() == 0 {
        0
    } else {
        units_count(accounts.drop_last()) + accounts.last().staked.len()
    }
}

/// Sum of the credits of every staked unit of every account.
pub open spec fn total_weight(accounts: Seq<AccountModel>, current_epoch: u64, last_epoch: u64) -> int
    decreases accounts.len(),
{
    if accounts.len() == 0 {
        0
    } else {
        total_weight(accounts.drop_last(), current_epoch, last_epoch)
            + payable_epochs(accounts.last().staked, current_epoch, last_epoch)
    }
}

/// No staked unit of any account has a negative credit.
pub open spec fn accounts_epochs_ok(accounts: Seq<AccountModel>, current_epoch: u64, last_epoch: u64) -> bool {
    forall|i: int| 0 <= i < accounts.len()
        ==> units_epochs_ok(#[trigger] accounts[i].staked, current_epoch, last_epoch)
}

impl AdderModel {
    /// Holders are unique, reward assets are unique, and the registry holds no more
    /// units than there are serials.
    pub open spec fn wf(self) -> bool {
        &&& forall|i: int, j: int|
            0 <= i < self.accounts.len() && 0 <= j < self.accounts.len() && i != j
                ==> #[trigger] self.accounts[i].holder != #[trigger] self.accounts[j].holder
        &&& forall|i: int, j: int|
            0 <= i < self.rewards.len() && 0 <= j < self.rewards.len() && i != j
                ==> #[trigger] self.rewards[i].token != #[trigger] self.rewards[j].token
        &&& units_count(self.accounts) <= u64::MAX
    }

    pub open spec fn has_account(self, holder: Seq<u8>) -> bool {
        exists|i: int| 0 <= i < self.accounts.len() && #[trigger] self.accounts[i].holder == holder
    }

    pub open spec fn account_index(self, holder: Seq<u8>) -> int {
        choose|i: int| 0 <= i < self.accounts.len() && #[trigger] self.accounts[i].holder == holder
    }

    /// The units staked by `holder`; empty when it has no registry entry.
    pub open spec fn staked_of(self, holder: Seq<u8>) -> Seq<StakedNftInfo> {
        if self.has_account(holder) {
            self.accounts[self.account_index(holder)].staked
        } else {
            Seq::empty()
        }
    }

    /// The claim entries queued for `holder`.
    pub open spec fn claims_of(self, holder: Seq<u8>) -> Seq<PaymentModel> {
        if self.has_account(holder) {
            self.accounts[self.account_index(holder)].claimable
        } else {
            Seq::empty()
        }
    }

    pub open spec fn has_reward(self, token: Seq<u8>) -> bool {
        exists|i: int| 0 <= i < self.rewards.len() && #[trigger] self.rewards[i].token == token
    }

    pub open spec fn reward_index(self, token: Seq<u8>) -> int {
        choose|i: int| 0 <= i < self.rewards.len() && #[trigger] self.rewards[i].token == token
    }

    /// The statistics of reward asset `token`, if it was ever deposited.
    pub open spec fn reward_info_of(self, token: Seq<u8>) -> Option<RewardPaymentInfo> {
        if self.has_reward(token) {
            Some(self.rewards[self.reward_index(token)].info)
        } else {
            None
        }
    }

    /// The configured stake asset, empty while unset.
    pub open spec fn stake_token_or_empty(self) -> Seq<u8> {
        match self.stake_token {
            Some(t) => t,
            None => Seq::empty(),
        }
    }

    /// The origin epoch, zero while unset.
    pub open spec fn origin_epoch_or_zero(self) -> u64 {
        match self.origin_epoch {
            Some(e) => e,
            None => 0,
        }
    }

    /// The epoch of the previous distribution of `token`, or the origin epoch.
    pub open spec fn last_paid_epoch(self, token: Seq<u8>) -> u64 {
        match self.reward_info_of(token) {
            Some(info) => info.last_paid_epoch,
            None => self.origin_epoch_or_zero(),
        }
    }

    /// The amount of `token` deposited so far.
    pub open spec fn paid_so_far(self, token: Seq<u8>) -> nat {
        match self.reward_info_of(token) {
            Some(info) => info.total_paid_so_far as nat,
            None => 0,
        }
    }

    /// Whether `init` has been called: it sets both values together.
    pub open spec fn initialized(self, stake_token: Seq<u8>, current_epoch: u64) -> AdderModel {
        AdderModel {
            stake_token: match self.stake_token {
                Some(t) => Some(t),
                None => Some(stake_token),
            },
            origin_epoch: match self.origin_epoch {
                Some(e) => Some(e),
                None => Some(current_epoch),
            },
            ..self
        }
    }

    /// Why a stake of `units` is refused, if it is.
    pub open spec fn stake_error(self, units: Seq<PaymentModel>) -> Option<StakingError> {
        if units.len() == 0 {
            Some(StakingError::NoItemsToStake)
        } else if exists|i: int|
            0 <= i < units.len() && Some(#[trigger] units[i].token) != self.stake_token {
            Some(StakingError::IneligibleAsset)
        } else {
            None
        }
    }

    /// Why a deposit of `amount` of `token` by `caller` at `current_epoch` is refused,
    /// if it is.
    pub open spec fn deposit_error(self, caller: Seq<u8>, token: Seq<u8>, amount: u128, current_epoch: u64) -> Option<StakingError> {
        let last = self.last_paid_epoch(token);
        if caller != self.owner {
            Some(StakingError::Unauthorized)
        } else if amount == 0 {
            Some(StakingError::NoPaymentSent)
        } else if current_epoch < last || !accounts_epochs_ok(self.accounts, current_epoch, last) {
            Some(StakingError::EpochUnderflow)
        } else if total_weight(self.accounts, current_epoch, last) == 0 {
            Some(StakingError::NoClaimableEpochs)
        } else {
            None
        }
    }

    /// The reward per epoch credit of a deposit: the amount divided, rounding down,
    /// by the total credit of the registry.
    pub open spec fn reward_per_epoch(self, token: Seq<u8>, amount: u128, current_epoch: u64) -> nat {
        (amount as int / total_weight(self.accounts, current_epoch, self.last_paid_epoch(token))) as nat
    }

    /// The statistics of `token` after a deposit of `amount` at `current_epoch`.
    pub open spec fn deposit_info(self, token: Seq<u8>, amount: u128, current_epoch: u64) -> RewardPaymentInfo {
        RewardPaymentInfo {
            last_paid_epoch: current_epoch,
            total_paid_so_far: (self.paid_so_far(token) + amount) as u128,
            last_reward_payment: amount,
            last_reward_per_epoch_per_nonce: self.reward_per_epoch(token, amount, current_epoch) as u128,
        }
    }

    /// The state after a deposit of `amount` of `token` at `current_epoch`: every
    /// staked unit of every holder gets a claim entry for its credit times the reward
    /// per credit, and the asset's statistics are updated.
    pub open spec fn deposited(self, token: Seq<u8>, amount: u128, current_epoch: u64) -> AdderModel {
        let last = self.last_paid_epoch(token);
        let rpw = self.reward_per_epoch(token, amount, current_epoch);
        let rec = RewardModel { token, info: self.deposit_info(token, amount, current_epoch) };
        AdderModel {
            accounts: self.accounts.map_values(
                |a: AccountModel|
                    AccountModel {
                        claimable: a.claimable + claim_entries(token, a.staked, current_epoch, last, rpw),
                        ..a
                    },
            ),
            rewards: if self.has_reward(token) {
                self.rewards.update(self.reward_index(token), rec)
            } else {
                self.rewards.push(rec)
            },
            ..self
        }
    }

    /// Why an unstake by `holder` is refused, if it is: the holder has no registry entry.
    pub open spec fn unstake_error(self, holder: Seq<u8>) -> Option<StakingError> {
        if self.staked_of(holder).len() == 0 {
            Some(StakingError::NothingStaked)
        } else {
            None
        }
    }

    /// The units of `holder` whose serial is among `nonces`, in the holder's order.
    pub open spec fn released_units(self, holder: Seq<u8>, nonces: Seq<u64>) -> Seq<StakedNftInfo> {
        self.staked_of(holder).filter(|n: StakedNftInfo| nonces.contains(n.nonce))
    }

    /// The transfers that return `units`: one unit of the stake asset per serial.
    pub open spec fn return_transfers(self, units: Seq<StakedNftInfo>) -> Seq<PaymentModel> {
        units.map_values(|n: StakedNftInfo| PaymentModel { token: self.stake_token_or_empty(), nonce: n.nonce, amount: 1 })
    }

    /// The state after `holder` unstakes the serials `nonces`: its units with those
    /// serials leave the registry, the others stay in their order; serials it does
    /// not hold are ignored.
    pub open spec fn unstaked(self, holder: Seq<u8>, nonces: Seq<u64>) -> AdderModel {
        let i = self.account_index(holder);
        let a = self.accounts[i];
        AdderModel {
            accounts: self.accounts.update(
                i,
                AccountModel { staked: a.staked.filter(|n: StakedNftInfo| !nonces.contains(n.nonce)), ..a },
            ),
            ..self
        }
    }

    /// Why a claim by `holder` is refused, if it is: nothing is queued for it.
    pub open spec fn claim_error(self, holder: Seq<u8>) -> Option<StakingError> {
        if self.claims_of(holder).len() == 0 {
            Some(StakingError::NothingToClaim)
        } else {
            None
        }
    }

    /// The state after `holder` claims: its queue is empty.
    pub open spec fn claimed(self, holder: Seq<u8>) -> AdderModel {
        let i = self.account_index(holder);
        let a = self.accounts[i];
        AdderModel {
            accounts: self.accounts.update(i, AccountModel { claimable: Seq::empty(), ..a }),
            ..self
        }
    }

    /// The units that a stake of `units` at `current_epoch` registers.
    pub open spec fn new_stakes(units: Seq<PaymentModel>, current_epoch: u64) -> Seq<StakedNftInfo> {
        units.map_values(|u: PaymentModel| StakedNftInfo { nonce: u.nonce, stake_epoch: current_epoch })
    }

    /// The state after `holder` stakes `units` at `current_epoch`: the new units are
    /// appended to the holder's list, which is created when absent.
    pub open spec fn staked(self, holder: Seq<u8>, units: Seq<PaymentModel>, current_epoch: u64) -> AdderModel {
        let added = Self::new_stakes(units, current_epoch);
        if self.has_account(holder) {
            let i = self.account_index(holder);
            let a = self.accounts[i];
            AdderModel {
                accounts: self.accounts.update(i, AccountModel { staked: a.staked + added, ..a }),
                ..self
            }
        } else {
            AdderModel {
                accounts: self.accounts.push(AccountModel { holder, staked: added, claimable: Seq::empty() }),
                ..self
            }
        }
    }
}

pub struct Adder {
    owner: Vec<u8>,
    stake_token: Option<Vec<u8>>,
    origin_epoch: Option<u64>,
    accounts: Vec<Account>,
    rewards: Vec<RewardRecord>,
}

impl View for Adder {
    type V = AdderModel;

    closed spec fn view(&self) -> AdderModel {
        AdderModel {
            owner: self.owner@,
            stake_token: match self.stake_token {
                Some(t) => Some(t@),
                None => None,
            },
            origin_epoch: self.origin_epoch,
            accounts: self.accounts@.map_values(|a: Account| a@),
            rewards: self.rewards@.map_values(|r: RewardRecord| r@),
        }
    }
}

/// Under unique holders, the account at `i` is the one found for its holder.
pub proof fn lemma_account_index(s: AdderModel, i: int)
    requires
        s.wf(),
        0 <= i < s.accounts.len(),
    ensures
        s.has_account(s.accounts[i].holder),
        s.account_index(s.accounts[i].holder) == i,
{
    let h = s.accounts[i].holder;
    assert(s.accounts[i].holder == h);
    let k = s.account_index(h);
    assert(0 <= k < s.accounts.len() && s.accounts[k].holder == h);
}

/// Under unique assets, the record at `i` is the one found for its asset.
pub proof fn lemma_reward_index(s: AdderModel, i: int)
    requires
        s.wf(),
        0 <= i < s.rewards.len(),
    ensures
        s.has_reward(s.rewards[i].token),
        s.reward_index(s.rewards[i].token) == i,
{
    let t = s.rewards[i].token;
    assert(s.rewards[i].token == t);
    let k = s.reward_index(t);
    assert(0 <= k < s.rewards.len() && s.rewards[k].token == t);
}

/// Replacing one account changes the unit count by the difference of their sizes.
pub proof fn lemma_units_count_update(accounts: Seq<AccountModel>, i: int, a: AccountModel)
    requires
        0 <= i < accounts.len(),
    ensures
        units_count(accounts.update(i, a)) == units_count(accounts) - accounts[i].staked.len() + a.staked.len(),
    decreases accounts.len(),
{
    let u = accounts.update(i, a);
    if i == accounts.len() - 1 {
        assert(u.drop_last() =~= accounts.drop_last());
    } else {
        assert(u.drop_last() =~= accounts.drop_last().update(i, a));
        lemma_units_count_update(accounts.drop_last(), i, a);
    }
}

pub proof fn lemma_units_count_nonneg(accounts: Seq<AccountModel>)
    ensures
        0 <= units_count(accounts),
    decreases accounts.len(),
{
    if accounts.len() > 0 {
        lemma_units_count_nonneg(accounts.drop_last());
    }
}

/// A prefix of the accounts holds no more units than all of them.
pub proof fn lemma_units_count_prefix(accounts: Seq<AccountModel>, k: int)
    requires
        0 <= k <= accounts.len(),
    ensures
        units_count(accounts.subrange(0, k)) <= units_count(accounts),
    decreases accounts.len(),
{
    if k == accounts.len() {
        assert(accounts.subrange(0, k) =~= accounts);
    } else {
        assert(accounts.drop_last().subrange(0, k) =~= accounts.subrange(0, k));
        lemma_units_count_prefix(accounts.drop_last(), k);
    }
}

/// Accounts with the same staked lists hold the same number of units.
pub proof fn lemma_units_count_same_staked(a: Seq<AccountModel>, b: Seq<AccountModel>)
    requires
        a.len() == b.len(),
        forall|j: int| 0 <= j < a.len() ==> #[trigger] a[j].staked == b[j].staked,
    ensures
        units_count(a) == units_count(b),
    decreases a.len(),
{
    if a.len() > 0 {
        assert(a.last().staked == b[b.len() - 1].staked);
        lemma_units_count_same_staked(a.drop_last(), b.drop_last());
    }
}

/// With no negative credit, one account's credit is at most the total.
pub proof fn lemma_payable_le_total(accounts: Seq<AccountModel>, current_epoch: u64, last_epoch: u64, k: int)
    requires
        accounts_epochs_ok(accounts, current_epoch, last_epoch),
        0 <= k < accounts.len(),
    ensures
        0 <= payable_epochs(accounts[k].staked, current_epoch, last_epoch)
            <= total_weight(accounts, current_epoch, last_epoch),
    decreases accounts.len(),
{
    let d = accounts.drop_last();
    assert forall|i: int| 0 <= i < d.len() implies units_epochs_ok(#[trigger] d[i].staked, current_epoch, last_epoch) by {
        assert(d[i] == accounts[i]);
    }
    lemma_total_nonneg(d, current_epoch, last_epoch);
    assert(accounts.last() == accounts[accounts.len() - 1]);
    lemma_payable_bounded(accounts[k].staked, current_epoch, last_epoch);
    lemma_payable_bounded(accounts.last().staked, current_epoch, last_epoch);
    if k < accounts.len() - 1 {
        assert(d[k] == accounts[k]);
        lemma_payable_le_total(d, current_epoch, last_epoch, k);
    }
}

/// With no negative credit, the total credit is not negative and is bounded by the
/// number of units.
pub proof fn lemma_total_nonneg(accounts: Seq<AccountModel>, current_epoch: u64, last_epoch: u64)
    requires
        accounts_epochs_ok(accounts, current_epoch, last_epoch),
    ensures
        0 <= total_weight(accounts, current_epoch, last_epoch) <= units_count(accounts) * (u64::MAX as int),
    decreases accounts.len(),
{
    if accounts.len() > 0 {
        let d = accounts.drop_last();
        assert forall|i: int| 0 <= i < d.len() implies units_epochs_ok(#[trigger] d[i].staked, current_epoch, last_epoch) by {
            assert(d[i] == accounts[i]);
        }
        lemma_total_nonneg(d, current_epoch, last_epoch);
        assert(accounts.last() == accounts[accounts.len() - 1]);
        let st = accounts.last().staked;
        lemma_payable_bounded(st, current_epoch, last_epoch);
        let c = units_count(d);
        assert((c + st.len()) * (u64::MAX as int) == c * (u64::MAX as int) + st.len() * (u64::MAX as int))
            by (nonlinear_arith);
    }
}

/// Whether `nonces` holds `nonce`.
fn contains_nonce(nonces: &Vec<u64>, nonce: u64) -> (r: bool)
    ensures
        r == nonces@.contains(nonce),
{
    let mut i: usize = 0;
    while i < nonces.len()
        invariant
            i <= nonces@.len(),
            forall|j: int| 0 <= j < i ==> nonces@[j] != nonce,
        decreases nonces@.len() - i,
    {
        if nonces[i] == nonce {
            assert(nonces@[i as int] == nonce);
            return true;
        }
        i = i + 1;
    }
    false
}

/// Appends a unit staked at `current_epoch` for each of `units`.
fn push_stakes(staked: &mut Vec<StakedNftInfo>, units: &Vec<TokenPayment>, current_epoch: u64)
    ensures
        final(staked)@ == old(staked)@ + AdderModel::new_stakes(payments_model(units@), current_epoch),
{
    let ghost added = AdderModel::new_stakes(payments_model(units@), current_epoch);
    let ghost before = staked@;
    let mut j: usize = 0;
    while j < units.len()
        invariant
            j <= units@.len(),
            added == AdderModel::new_stakes(payments_model(units@), current_epoch),
            staked@ == before + added.subrange(0, j as int),
        decreases units@.len() - j,
    {
        staked.push(StakedNftInfo { nonce: units[j].token_nonce, stake_epoch: current_epoch });
        j = j + 1;
        assert(staked@ =~= before + added.subrange(0, j as int));
    }
    assert(added.subrange(0, units@.len() as int) =~= added);
}

impl Adder {
    /// A fresh engine administered by `owner`, not yet initialized.
    pub fn new(owner: Vec<u8>) -> (r: Adder)
        ensures
            r@ == (AdderModel {
                owner: owner@,
                stake_token: None,
                origin_epoch: None,
                accounts: Seq::empty(),
                rewards: Seq::empty(),
            }),
            r@.wf(),
    {
        let r = Adder {
            owner,
            stake_token: None,
            origin_epoch: None,
            accounts: Vec::new(),
            rewards: Vec::new(),
        };
        assert(r@.accounts =~= Seq::empty());
        assert(r@.rewards =~= Seq::empty());
        r
    }

    /// Sets the stake asset and the origin epoch, each only if it is still unset.
    pub fn init(&mut self, stake_token: Vec<u8>, current_epoch: u64)
        requires
            old(self)@.wf(),
        ensures
            final(self)@ == old(self)@.initialized(stake_token@, current_epoch),
            final(self)@.wf(),
    {
        if self.stake_token.is_none() {
            self.stake_token = Some(stake_token);
        }
        if self.origin_epoch.is_none() {
            self.origin_epoch = Some(current_epoch);
        }
    }

    /// Finds the account of `holder`.
    fn find_account(&self, holder: &Vec<u8>) -> (r: Option<usize>)
        requires
            self@.wf(),
        ensures
            r is None <==> !self@.has_account(holder@),
            r matches Some(i) ==> i < self@.accounts.len() && i == self@.account_index(holder@),
    {
        let mut i: usize = 0;
        while i < self.accounts.len()
            invariant
                self@.wf(),
                i <= self@.accounts.len(),
                forall|j: int| 0 <= j < i ==> #[trigger] self@.accounts[j].holder != holder@,
            decreases self@.accounts.len() - i,
        {
            if bytes_eq(&self.accounts[i].holder, holder) {
                proof {
                    assert(self@.accounts[i as int] == self.accounts@[i as int]@);
                    lemma_account_index(self@, i as int);
                }
                return Some(i);
            }
            assert(self@.accounts[i as int] == self.accounts@[i as int]@);
            i = i + 1;
        }
        None
    }

    /// Finds the statistics record of reward asset `token`.
    fn find_reward(&self, token: &Vec<u8>) -> (r: Option<usize>)
        requires
            self@.wf(),
        ensures
            r is None <==> !self@.has_reward(token@),
            r matches Some(i) ==> i < self@.rewards.len() && i == self@.reward_index(token@),
    {
        let mut i: usize = 0;
        while i < self.rewards.len()
            invariant
                self@.wf(),
                i <= self@.rewards.len(),
                forall|j: int| 0 <= j < i ==> #[trigger] self@.rewards[j].token != token@,
            decreases self@.rewards.len() - i,
        {
            if bytes_eq(&self.rewards[i].token, token) {
                proof {
                    assert(self@.rewards[i as int] == self.rewards@[i as int]@);
                    lemma_reward_index(self@, i as int);
                }
                return Some(i);
            }
            assert(self@.rewards[i as int] == self.rewards@[i as int]@);
            i = i + 1;
        }
        None
    }

    /// First pass: the total credit of the registry; refuses when a credit would be
    /// negative.
    fn registry_payable_epochs(&self, current_epoch: u64, last_epoch: u64) -> (r: Result<u128, StakingError>)
        requires
            self@.wf(),
        ensures
            r is Ok <==> accounts_epochs_ok(self@.accounts, current_epoch, last_epoch),
            r matches Ok(v) ==> v == total_weight(self@.accounts, current_epoch, last_epoch),
            r matches Err(e) ==> e == StakingError::EpochUnderflow,
    {
        let ghost accts = self@.accounts;
        let mut total: u128 = 0;
        let mut k: usize = 0;
        while k < self.accounts.len()
            invariant
                self@.wf(),
                accts == self@.accounts,
                k <= accts.len(),
                accounts_epochs_ok(accts.subrange(0, k as int), current_epoch, last_epoch),
                total == total_weight(accts.subrange(0, k as int), current_epoch, last_epoch),
            decreases accts.len() - k,
        {
            let ghost prefix = accts.subrange(0, k as int);
            let ghost next = accts.subrange(0, k + 1);
            proof {
                assert(accts[k as int] == self.accounts@[k as int]@);
                assert(next.drop_last() =~= prefix);
                assert(next.last() == accts[k as int]);
                lemma_units_count_prefix(accts, k + 1);
                lemma_units_count_nonneg(prefix);
                assert(next.last().staked.len() <= units_count(next));
            }
            let w = match units_payable_epochs(&self.accounts[k].staked, current_epoch, last_epoch) {
                Ok(w) => w,
                Err(e) => {
                    return Err(e);
                },
            };
            proof {
                lemma_total_nonneg(prefix, current_epoch, last_epoch);
                lemma_payable_bounded(accts[k as int].staked, current_epoch, last_epoch);
                let c = units_count(prefix);
                let n = accts[k as int].staked.len();
                assert(c * (u64::MAX as int) + n * (u64::MAX as int) <= u128::MAX) by (nonlinear_arith)
                    requires
                        0 <= c,
                        0 <= n,
                        c + n <= u64::MAX,
                ;
                assert forall|i: int| 0 <= i < next.len() implies units_epochs_ok(#[trigger] next[i].staked, current_epoch, last_epoch) by {
                    if i < prefix.len() {
                        assert(next[i] == prefix[i]);
                    }
                }
            }
            total = total + w;
            k = k + 1;
        }
        assert(accts.subrange(0, accts.len() as int) =~= accts);
        Ok(total)
    }

    /// Second pass: queues, for every staked unit of every holder, a claim entry of
    /// `token` for the unit's credit times `reward_per_epoch`.
    fn queue_rewards(&mut self, token: &Vec<u8>, current_epoch: u64, last_epoch: u64, reward_per_epoch: u128)
        requires
            old(self)@.wf(),
            accounts_epochs_ok(old(self)@.accounts, current_epoch, last_epoch),
            total_weight(old(self)@.accounts, current_epoch, last_epoch) * reward_per_epoch <= u128::MAX,
        ensures
            final(self)@.wf(),
            final(self)@ == (AdderModel {
                accounts: old(self)@.accounts.map_values(
                    |a: AccountModel|
                        AccountModel {
                            claimable: a.claimable
                                + claim_entries(token@, a.staked, current_epoch, last_epoch, reward_per_epoch as nat),
                            ..a
                        },
                ),
                ..old(self)@
            }),
    {
        let ghost s0 = self@;
        let ghost rpw = reward_per_epoch as nat;
        let ghost total = total_weight(s0.accounts, current_epoch, last_epoch);
        let ghost f = |a: AccountModel|
            AccountModel {
                claimable: a.claimable + claim_entries(token@, a.staked, current_epoch, last_epoch, rpw),
                ..a
            };
        let mut k: usize = 0;
        while k < self.accounts.len()
            invariant
                k <= self@.accounts.len() == s0.accounts.len(),
                s0.wf(),
                accounts_epochs_ok(s0.accounts, current_epoch, last_epoch),
                total == total_weight(s0.accounts, current_epoch, last_epoch),
                total * reward_per_epoch <= u128::MAX,
                rpw == reward_per_epoch as nat,
                forall|a: AccountModel| #[trigger] f(a) == (AccountModel {
                    claimable: a.claimable + claim_entries(token@, a.staked, current_epoch, last_epoch, rpw),
                    ..a
                }),
                forall|j: int| 0 <= j < k ==> #[trigger] self@.accounts[j] == f(s0.accounts[j]),
                forall|j: int| k <= j < s0.accounts.len() ==> #[trigger] self@.accounts[j] == s0.accounts[j],
                self@.owner == s0.owner,
                self@.stake_token == s0.stake_token,
                self@.origin_epoch == s0.origin_epoch,
                self@.rewards == s0.rewards,
            decreases s0.accounts.len() - k,
        {
            let ghost prev = self@.accounts;
            assert(prev[k as int] == self.accounts@[k as int]@);
            let mut a = Account { holder: Vec::new(), staked: Vec::new(), claimable: Vec::new() };
            self.accounts.set_and_swap(k, &mut a);
            let ghost a0 = a@;
            assert(a0 == s0.accounts[k as int]);
            let ghost st = a0.staked;
            proof {
                lemma_payable_le_total(s0.accounts, current_epoch, last_epoch, k as int);
            }
            let mut j: usize = 0;
            while j < a.staked.len()
                invariant
                    j <= a@.staked.len(),
                    a@.holder == a0.holder,
                    a@.staked == st,
                    st == s0.accounts[k as int].staked,
                    units_epochs_ok(st, current_epoch, last_epoch),
                    payable_epochs(st, current_epoch, last_epoch) <= total,
                    total * reward_per_epoch <= u128::MAX,
                    rpw == reward_per_epoch as nat,
                    a@.claimable == a0.claimable
                        + claim_entries(token@, st.subrange(0, j as int), current_epoch, last_epoch, rpw),
                decreases st.len() - j,
            {
                let nft = a.staked[j];
                let start = if last_epoch > nft.stake_epoch { last_epoch } else { nft.stake_epoch };
                proof {
                    assert(st[j as int] == nft);
                    lemma_weight_le_payable(st, current_epoch, last_epoch, j as int);
                }
                let w = (current_epoch - start) as u128;
                proof {
                    assert(w * reward_per_epoch <= total * reward_per_epoch) by (nonlinear_arith)
                        requires
                            w <= total,
                            0 <= w,
                    ;
                }
                let amount = w * reward_per_epoch;
                let ghost before = a.claimable@;
                a.claimable.push(TokenPayment { token_identifier: bytes_copy(token), token_nonce: nft.nonce, amount });
                j = j + 1;
                proof {
                    assert(payments_model(a.claimable@) =~= payments_model(before).push(
                        claim_entry(token@, nft, current_epoch, last_epoch, rpw),
                    ));
                    assert(claim_entries(token@, st.subrange(0, j as int), current_epoch, last_epoch, rpw)
                        =~= claim_entries(token@, st.subrange(0, j - 1), current_epoch, last_epoch, rpw).push(
                            claim_entry(token@, nft, current_epoch, last_epoch, rpw),
                        ));
                    assert(a@.claimable =~= a0.claimable
                        + claim_entries(token@, st.subrange(0, j as int), current_epoch, last_epoch, rpw));
                }
            }
            proof {
                assert(st.subrange(0, st.len() as int) =~= st);
                assert(a@ == f(a0));
            }
            self.accounts.set(k, a);
            assert(self@.accounts =~= prev.update(k as int, f(a0)));
            k = k + 1;
        }
        proof {
            let target = s0.accounts.map_values(f);
            assert(self@.accounts =~= target);
            assert forall|j: int| 0 <= j < target.len() implies #[trigger] target[j].staked == s0.accounts[j].staked by {}
            lemma_units_count_same_staked(target, s0.accounts);
            assert forall|x: int, y: int|
                0 <= x < target.len() && 0 <= y < target.len() && x != y
                implies #[trigger] target[x].holder != #[trigger] target[y].holder by {
                assert(target[x].holder == s0.accounts[x].holder);
                assert(target[y].holder == s0.accounts[y].holder);
            }
        }
    }

    /// Distributes `payment`, deposited by `caller` at `current_epoch`, among all staked
    /// units in proportion to their epoch credit since the asset's previous distribution,
    /// and returns the reward per credit. What the division leaves over is not distributed.
    pub fn deposit_reward(&mut self, caller: &Vec<u8>, payment: &TokenPayment, current_epoch: u64) -> (r: Result<u128, StakingError>)
        requires
            old(self)@.wf(),
            old(self)@.paid_so_far(payment.token_identifier@) + payment.amount <= u128::MAX,
        ensures
            final(self)@.wf(),
            r is Ok <==> old(self)@.deposit_error(caller@, payment.token_identifier@, payment.amount, current_epoch) is None,
            r matches Err(e) ==> old(self)@.deposit_error(caller@, payment.token_identifier@, payment.amount, current_epoch) == Some(e)
                && final(self)@ == old(self)@,
            r matches Ok(v) ==> v == old(self)@.reward_per_epoch(payment.token_identifier@, payment.amount, current_epoch)
                && final(self)@ == old(self)@.deposited(payment.token_identifier@, payment.amount, current_epoch),
    {
        let ghost s0 = self@;
        let ghost token = payment.token_identifier@;
        if !bytes_eq(caller, &self.owner) {
            return Err(StakingError::Unauthorized);
        }
        if payment.amount == 0 {
            return Err(StakingError::NoPaymentSent);
        }
        let found = self.find_reward(&payment.token_identifier);
        let (last_epoch, paid) = match found {
            Some(i) => {
                assert(s0.rewards[i as int] == self.rewards@[i as int]@);
                (self.rewards[i].info.last_paid_epoch, self.rewards[i].info.total_paid_so_far)
            },
            None => {
                let origin = match self.origin_epoch {
                    Some(e) => e,
                    None => 0,
                };
                (origin, 0)
            },
        };
        assert(last_epoch == s0.last_paid_epoch(token));
        assert(paid == s0.paid_so_far(token));
        if current_epoch < last_epoch {
            return Err(StakingError::EpochUnderflow);
        }
        let total = match self.registry_payable_epochs(current_epoch, last_epoch) {
            Ok(t) => t,
            Err(e) => {
                return Err(e);
            },
        };
        if total == 0 {
            return Err(StakingError::NoClaimableEpochs);
        }
        let reward_per_epoch = payment.amount / total;
        proof {
            let a = payment.amount as int;
            let t = total as int;
            assert(t * (a / t) <= a) by (nonlinear_arith)
                requires
                    t > 0,
                    a >= 0,
            ;
            assert(total * reward_per_epoch <= u128::MAX);
        }
        self.queue_rewards(&payment.token_identifier, current_epoch, last_epoch, reward_per_epoch);
        let info = RewardPaymentInfo {
            last_paid_epoch: current_epoch,
            total_paid_so_far: paid + payment.amount,
            last_reward_payment: payment.amount,
            last_reward_per_epoch_per_nonce: reward_per_epoch,
        };
        let ghost s1 = self@;
        let rec = RewardRecord { token: bytes_copy(&payment.token_identifier), info };
        match found {
            Some(i) => {
                self.rewards.set(i, rec);
                proof {
                    assert(self@.rewards =~= s1.rewards.update(i as int, rec@));
                    assert forall|x: int, y: int|
                        0 <= x < self@.rewards.len() && 0 <= y < self@.rewards.len() && x != y
                        implies #[trigger] self@.rewards[x].token != #[trigger] self@.rewards[y].token by {
                        assert(s0.rewards[i as int].token == token);
                    }
                }
            },
            None => {
                self.rewards.push(rec);
                proof {
                    assert(self@.rewards =~= s1.rewards.push(rec@));
                    assert forall|x: int| 0 <= x < s0.rewards.len() implies #[trigger] s0.rewards[x].token != token by {
                        if s0.rewards[x].token == token {
                            assert(s0.has_reward(token));
                        }
                    }
                }
            },
        }
        assert(self@ == s0.deposited(token, payment.amount, current_epoch));
        Ok(reward_per_epoch)
    }

    /// Takes the serials `nonces` of `caller` out of the registry and returns the
    /// transfers that send them back, one unit each, in the order they were staked.
    pub fn unstake(&mut self, caller: &Vec<u8>, nonces: &Vec<u64>) -> (r: Result<Vec<TokenPayment>, StakingError>)
        requires
            old(self)@.wf(),
        ensures
            final(self)@.wf(),
            r is Ok <==> old(self)@.unstake_error(caller@) is None,
            r matches Err(e) ==> old(self)@.unstake_error(caller@) == Some(e) && final(self)@ == old(self)@,
            r matches Ok(out) ==> final(self)@ == old(self)@.unstaked(caller@, nonces@)
                && payments_model(out@) == old(self)@.return_transfers(old(self)@.released_units(caller@, nonces@)),
    {
        let ghost s0 = self@;
        let i = match self.find_account(caller) {
            Some(i) => i,
            None => {
                return Err(StakingError::NothingStaked);
            },
        };
        assert(s0.accounts[i as int] == self.accounts@[i as int]@);
        if self.accounts[i].staked.len() == 0 {
            return Err(StakingError::NothingStaked);
        }
        let token = match &self.stake_token {
            Some(t) => bytes_copy(t),
            None => Vec::new(),
        };
        assert(token@ =~= s0.stake_token_or_empty());
        let mut a = Account { holder: Vec::new(), staked: Vec::new(), claimable: Vec::new() };
        self.accounts.set_and_swap(i, &mut a);
        let ghost a0 = a@;
        let ghost st = a0.staked;
        let ghost keep = |n: StakedNftInfo| !nonces@.contains(n.nonce);
        let ghost release = |n: StakedNftInfo| nonces@.contains(n.nonce);
        let mut kept: Vec<StakedNftInfo> = Vec::new();
        let mut out: Vec<TokenPayment> = Vec::new();
        let mut j: usize = 0;
        while j < a.staked.len()
            invariant
                j <= st.len(),
                a@ == a0,
                st == a0.staked,
                token@ == s0.stake_token_or_empty(),
                forall|n: StakedNftInfo| #[trigger] keep(n) == !nonces@.contains(n.nonce),
                forall|n: StakedNftInfo| #[trigger] release(n) == nonces@.contains(n.nonce),
                kept@ == st.subrange(0, j as int).filter(keep),
                payments_model(out@) == s0.return_transfers(st.subrange(0, j as int).filter(release)),
            decreases st.len() - j,
        {
            let nft = a.staked[j];
            let ghost prev = st.subrange(0, j as int);
            let ghost next = st.subrange(0, j + 1);
            let ghost out0 = out@;
            proof {
                reveal(Seq::filter);
                assert(next.drop_last() =~= prev);
                assert(next.last() == nft);
            }
            if contains_nonce(nonces, nft.nonce) {
                out.push(TokenPayment { token_identifier: bytes_copy(&token), token_nonce: nft.nonce, amount: 1 });
                proof {
                    reveal(Seq::filter);
                    assert(release(nft));
                    assert(!keep(nft));
                    assert(next.filter(release) == prev.filter(release).push(nft));
                    assert(next.filter(keep) == prev.filter(keep));
                    assert(payments_model(out@) =~= payments_model(out0).push(
                        PaymentModel { token: s0.stake_token_or_empty(), nonce: nft.nonce, amount: 1 },
                    ));
                    assert(s0.return_transfers(next.filter(release)) =~= s0.return_transfers(prev.filter(release)).push(
                        PaymentModel { token: s0.stake_token_or_empty(), nonce: nft.nonce, amount: 1 },
                    ));
                }
            } else {
                kept.push(nft);
                proof {
                    reveal(Seq::filter);
                    assert(!release(nft));
                    assert(keep(nft));
                    assert(next.filter(release) == prev.filter(release));
                    assert(next.filter(keep) == prev.filter(keep).push(nft));
                }
            }
            j = j + 1;
        }
        proof {
            assert(st.subrange(0, st.len() as int) =~= st);
            assert(st.filter(keep).len() <= st.len()) by {
                st.lemma_filter_len(keep);
            }
        }
        a.staked = kept;
        self.accounts.set(i, a);
        proof {
            let na = AccountModel { staked: st.filter(keep), ..a0 };
            assert(a0 == s0.accounts[i as int]);
            assert(self@.accounts =~= s0.accounts.update(i as int, na));
            lemma_units_count_update(s0.accounts, i as int, na);
            assert(st.filter(keep) =~= a0.staked.filter(|n: StakedNftInfo| !nonces@.contains(n.nonce)));
        }
        Ok(out)
    }

    /// Empties the claim queue of `caller` and returns its entries, in the order they
    /// were queued, as the transfers to perform.
    pub fn claim_reward(&mut self, caller: &Vec<u8>) -> (r: Result<Vec<TokenPayment>, StakingError>)
        requires
            old(self)@.wf(),
        ensures
            final(self)@.wf(),
            r is Ok <==> old(self)@.claim_error(caller@) is None,
            r matches Err(e) ==> old(self)@.claim_error(caller@) == Some(e) && final(self)@ == old(self)@,
            r matches Ok(out) ==> final(self)@ == old(self)@.claimed(caller@)
                && payments_model(out@) == old(self)@.claims_of(caller@),
    {
        let ghost s0 = self@;
        let i = match self.find_account(caller) {
            Some(i) => i,
            None => {
                return Err(StakingError::NothingToClaim);
            },
        };
        assert(s0.accounts[i as int] == self.accounts@[i as int]@);
        if self.accounts[i].claimable.len() == 0 {
            return Err(StakingError::NothingToClaim);
        }
        let mut a = Account { holder: Vec::new(), staked: Vec::new(), claimable: Vec::new() };
        self.accounts.set_and_swap(i, &mut a);
        let ghost a0 = a@;
        let mut out: Vec<TokenPayment> = Vec::new();
        core::mem::swap(&mut a.claimable, &mut out);
        self.accounts.set(i, a);
        proof {
            let na = AccountModel { claimable: Seq::empty(), ..a0 };
            assert(payments_model(Seq::<TokenPayment>::empty()) =~= Seq::empty());
            assert(self@.accounts =~= s0.accounts.update(i as int, na));
            lemma_units_count_update(s0.accounts, i as int, na);
        }
        Ok(out)
    }

    /// Registers `units`, the collectibles the caller handed in, as staked by `caller`
    /// at `current_epoch`.
    pub fn stake(&mut self, caller: &Vec<u8>, units: &Vec<TokenPayment>, current_epoch: u64) -> (r: Result<(), StakingError>)
        requires
            old(self)@.wf(),
            units_count(old(self)@.accounts) + units@.len() <= u64::MAX,
        ensures
            final(self)@.wf(),
            r is Ok <==> old(self)@.stake_error(payments_model(units@)) is None,
            r matches Err(e) ==> old(self)@.stake_error(payments_model(units@)) == Some(e)
                && final(self)@ == old(self)@,
            r is Ok ==> final(self)@ == old(self)@.staked(caller@, payments_model(units@), current_epoch),
    {
        let ghost pm = payments_model(units@);
        if units.len() == 0 {
            return Err(StakingError::NoItemsToStake);
        }
        let eligible = match &self.stake_token {
            Some(t) => t,
            None => {
                assert(pm[0].token == units@[0].token_identifier@);
                return Err(StakingError::IneligibleAsset);
            }
        };
        let mut k: usize = 0;
        while k < units.len()
            invariant
                k <= units@.len(),
                self@.wf(),
                self@ == old(self)@,
                pm == payments_model(units@),
                Some(eligible@) == self@.stake_token,
                forall|j: int| 0 <= j < k ==> Some(#[trigger] pm[j].token) == self@.stake_token,
            decreases units@.len() - k,
        {
            if !bytes_eq(&units[k].token_identifier, eligible) {
                assert(pm[k as int].token == units@[k as int].token_identifier@);
                return Err(StakingError::IneligibleAsset);
            }
            assert(pm[k as int].token == units@[k as int].token_identifier@);
            k = k + 1;
        }
        let ghost s0 = self@;
        let ghost added = AdderModel::new_stakes(pm, current_epoch);
        match self.find_account(caller) {
            Some(i) => {
                let mut a = Account { holder: Vec::new(), staked: Vec::new(), claimable: Vec::new() };
                self.accounts.set_and_swap(i, &mut a);
                push_stakes(&mut a.staked, units, current_epoch);
                self.accounts.set(i, a);
                proof {
                    let na = s0.accounts[i as int];
                    assert(self@.accounts =~= s0.accounts.update(
                        i as int,
                        AccountModel { staked: na.staked + added, ..na },
                    ));
                    lemma_units_count_update(s0.accounts, i as int, AccountModel { staked: na.staked + added, ..na });
                }
            },
            None => {
                let mut a = Account { holder: bytes_copy(caller), staked: Vec::new(), claimable: Vec::new() };
                push_stakes(&mut a.staked, units, current_epoch);
                self.accounts.push(a);
                proof {
                    let na = AccountModel { holder: caller@, staked: added, claimable: Seq::empty() };
                    assert(a@.claimable =~= Seq::empty());
                    assert(self@.accounts =~= s0.accounts.push(na));
                    assert(self@.accounts.drop_last() =~= s0.accounts);
                    assert forall|x: int| 0 <= x < s0.accounts.len() implies #[trigger] s0.accounts[x].holder != caller@ by {
                        if s0.accounts[x].holder == caller@ {
                            assert(s0.has_account(caller@));
                        }
                    }
                }
            },
        }
        Ok(())
    }

    /// Sum of the epoch credits of the units of `address`, for a distribution at
    /// `current_epoch` after one at `last_reward_epoch`; zero for a holder with no units.
    pub fn get_total_payable_epochs(&self, current_epoch: u64, last_reward_epoch: u64, address: &Vec<u8>) -> (r: Result<u128, StakingError>)
        requires
            self@.wf(),
        ensures
            r is Ok <==> units_epochs_ok(self@.staked_of(address@), current_epoch, last_reward_epoch),
            r matches Ok(v) ==> v == payable_epochs(self@.staked_of(address@), current_epoch, last_reward_epoch),
            r matches Err(e) ==> e == StakingError::EpochUnderflow,
            self@.staked_of(address@).len() == 0 ==> r == Ok::<u128, StakingError>(0),
    {
        match self.find_account(address) {
            Some(i) => {
                proof {
                    assert(self@.accounts[i as int] == self.accounts@[i as int]@);
                    lemma_units_count_prefix(self@.accounts, i + 1);
                    lemma_units_count_nonneg(self@.accounts.subrange(0, i as int));
                    assert(self@.accounts.subrange(0, i + 1).drop_last() =~= self@.accounts.subrange(0, i as int));
                }
                units_payable_epochs(&self.accounts[i].staked, current_epoch, last_reward_epoch)
            },
            None => Ok(0),
        }
    }

    /// The units staked by `address`; empty when it has no registry entry.
    pub fn get_staked_nfts(&self, address: &Vec<u8>) -> (r: Vec<StakedNftInfo>)
        requires
            self@.wf(),
        ensures
            r@ == self@.staked_of(address@),
    {
        let mut r: Vec<StakedNftInfo> = Vec::new();
        match self.find_account(address) {
            Some(i) => {
                assert(self@.accounts[i as int] == self.accounts@[i as int]@);
                let staked = &self.accounts[i].staked;
                let mut j: usize = 0;
                while j < staked.len()
                    invariant
                        j <= staked@.len(),
                        r@ == staked@.subrange(0, j as int),
                    decreases staked@.len() - j,
                {
                    r.push(staked[j]);
                    j = j + 1;
                    assert(r@ =~= staked@.subrange(0, j as int));
                }
                assert(staked@.subrange(0, staked@.len() as int) =~= staked@);
            },
            None => {
                assert(r@ =~= Seq::empty());
            },
        }
        r
    }

    /// The claim entries queued for `address`, in the order they were queued.
    pub fn get_claimable_rewards(&self, address: &Vec<u8>) -> (r: Vec<TokenPayment>)
        requires
            self@.wf(),
        ensures
            payments_model(r@) == self@.claims_of(address@),
    {
        let mut r: Vec<TokenPayment> = Vec::new();
        match self.find_account(address) {
            Some(i) => {
                assert(self@.accounts[i as int] == self.accounts@[i as int]@);
                let queue = &self.accounts[i].claimable;
                let mut j: usize = 0;
                while j < queue.len()
                    invariant
                        j <= queue@.len(),
                        payments_model(r@) == payments_model(queue@.subrange(0, j as int)),
                    decreases queue@.len() - j,
                {
                    let p = &queue[j];
                    let ghost r0 = r@;
                    r.push(TokenPayment { token_identifier: bytes_copy(&p.token_identifier), token_nonce: p.token_nonce, amount: p.amount });
                    proof {
                        assert(payments_model(r@) =~= payments_model(r0).push(queue@[j as int]@));
                        assert(payments_model(queue@.subrange(0, j + 1)) =~= payments_model(
                            queue@.subrange(0, j as int),
                        ).push(queue@[j as int]@));
                    }
                    j = j + 1;
                }
                assert(queue@.subrange(0, queue@.len() as int) =~= queue@);
            },
            None => {
                assert(payments_model(r@) =~= Seq::empty());
            },
        }
        r
    }

    /// Number of units staked over all holders.
    pub fn get_staked_unit_count(&self) -> (r: u64)
        requires
            self@.wf(),
        ensures
            r == units_count(self@.accounts),
    {
        let ghost accts = self@.accounts;
        let mut count: u64 = 0;
        let mut k: usize = 0;
        while k < self.accounts.len()
            invariant
                self@.wf(),
                accts == self@.accounts,
                k <= accts.len(),
                count == units_count(accts.subrange(0, k as int)),
            decreases accts.len() - k,
        {
            proof {
                assert(accts[k as int] == self.accounts@[k as int]@);
                assert(accts.subrange(0, k + 1).drop_last() =~= accts.subrange(0, k as int));
                lemma_units_count_prefix(accts, k + 1);
            }
            count = count + self.accounts[k].staked.len() as u64;
            k = k + 1;
        }
        assert(accts.subrange(0, accts.len() as int) =~= accts);
        count
    }

    /// The origin epoch, zero while unset.
    pub fn get_origin_epoch(&self) -> (r: u64)
        ensures
            r == self@.origin_epoch_or_zero(),
    {
        match self.origin_epoch {
            Some(e) => e,
            None => 0,
        }
    }

    /// The stake asset, empty while unset.
    pub fn get_stake_token(&self) -> (r: Vec<u8>)
        ensures
            r@ == self@.stake_token_or_empty(),
    {
        match &self.stake_token {
            Some(t) => bytes_copy(t),
            None => Vec::new(),
        }
    }

    /// The statistics of reward asset `token`, if it was ever deposited.
    pub fn get_reward_payment_info(&self, token: &Vec<u8>) -> (r: Option<RewardPaymentInfo>)
        requires
            self@.wf(),
        ensures
            r == self@.reward_info_of(token@),
    {
        match self.find_reward(token) {
            Some(i) => {
                assert(self@.rewards[i as int] == self.rewards@[i as int]@);
                Some(self.rewards[i].info)
            },
            None => None,
        }
    }
}

} // verus!
