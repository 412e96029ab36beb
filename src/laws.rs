use vstd::prelude::*;
use vstd::arithmetic::div_mod::{lemma_fundamental_div_mod, lemma_mod_bound};
use crate::types::{PaymentModel, StakedNftInfo};
use crate::weights::{amount_total, claim_entries, payable_epochs, units_epochs_ok, lemma_entries_total};
use crate::adder::{
    AccountModel, AdderModel, accounts_epochs_ok, total_weight, units_count, lemma_account_index,
    lemma_units_count_update, lemma_total_nonneg,
};

verus! {

/// Sum of the amounts queued over all claim queues.
pub open spec fn queued_total(accounts: Seq<AccountModel>) -> int
    decreases accounts.len(),
{
    if accounts.len() == 0 {
        0
    } else {
        queued_total(accounts.drop_last()) + amount_total(accounts.last().claimable)
    }
}

pub proof fn lemma_amount_total_concat(a: Seq<PaymentModel>, b: Seq<PaymentModel>)
    ensures
        amount_total(a + b) == amount_total(a) + amount_total(b),
    decreases b.len(),
{
    if b.len() > 0 {
        assert((a + b).drop_last() =~= a + b.drop_last());
        lemma_amount_total_concat(a, b.drop_last());
    }
}

/// Queuing the distribution's entries adds the reward per credit times the total credit.
proof fn lemma_queued_after_distribution(
    accounts: Seq<AccountModel>,
    token: Seq<u8>,
    current_epoch: u64,
    last_epoch: u64,
    reward_per_epoch: nat,
)
    requires
        accounts_epochs_ok(accounts, current_epoch, last_epoch),
    ensures
        queued_total(
            accounts.map_values(
                |a: AccountModel|
                    AccountModel {
                        claimable: a.claimable + claim_entries(token, a.staked, current_epoch, last_epoch, reward_per_epoch),
                        ..a
                    },
            ),
        ) == queued_total(accounts) + total_weight(accounts, current_epoch, last_epoch) * reward_per_epoch,
    decreases accounts.len(),
{
    let f = |a: AccountModel|
        AccountModel {
            claimable: a.claimable + claim_entries(token, a.staked, current_epoch, last_epoch, reward_per_epoch),
            ..a
        };
    if accounts.len() > 0 {
        let d = accounts.drop_last();
        let l = accounts.last();
        assert forall|i: int| 0 <= i < d.len() implies units_epochs_ok(#[trigger] d[i].staked, current_epoch, last_epoch) by {
            assert(d[i] == accounts[i]);
        }
        lemma_queued_after_distribution(d, token, current_epoch, last_epoch, reward_per_epoch);
        assert(accounts.map_values(f).drop_last() =~= d.map_values(f));
        assert(l == accounts[accounts.len() - 1]);
        lemma_amount_total_concat(l.claimable, claim_entries(token, l.staked, current_epoch, last_epoch, reward_per_epoch));
        lemma_entries_total(token, l.staked, current_epoch, last_epoch, reward_per_epoch);
        let tw = total_weight(d, current_epoch, last_epoch);
        let pw = payable_epochs(l.staked, current_epoch, last_epoch);
        assert((tw + pw) * reward_per_epoch == tw * reward_per_epoch + pw * reward_per_epoch) by (nonlinear_arith);
    }
}

/// A distribution queues at most the deposited amount over all holders, and exactly
/// the deposited amount when the total credit divides it.
pub proof fn lemma_distribution_within_deposit(
    s: AdderModel,
    caller: Seq<u8>,
    token: Seq<u8>,
    amount: u128,
    current_epoch: u64,
)
    requires
        s.wf(),
        s.deposit_error(caller, token, amount, current_epoch) is None,
    ensures
        queued_total(s.deposited(token, amount, current_epoch).accounts) - queued_total(s.accounts) <= amount,
        queued_total(s.deposited(token, amount, current_epoch).accounts) - queued_total(s.accounts) == amount
            <==> (amount as int) % total_weight(s.accounts, current_epoch, s.last_paid_epoch(token)) == 0,
{
    let last = s.last_paid_epoch(token);
    let t = total_weight(s.accounts, current_epoch, last);
    let rpw = s.reward_per_epoch(token, amount, current_epoch);
    lemma_total_nonneg(s.accounts, current_epoch, last);
    assert(t > 0);
    let a = amount as int;
    lemma_fundamental_div_mod(a, t);
    lemma_mod_bound(a, t);
    assert(a / t >= 0) by (nonlinear_arith)
        requires
            a >= 0,
            t > 0,
    ;
    assert(rpw == a / t);
    lemma_queued_after_distribution(s.accounts, token, current_epoch, last, rpw);
    assert(t * rpw == rpw * t) by (nonlinear_arith);
}

proof fn lemma_filter_keeps_all(s: Seq<StakedNftInfo>, pred: spec_fn(StakedNftInfo) -> bool)
    requires
        forall|j: int| 0 <= j < s.len() ==> pred(#[trigger] s[j]),
    ensures
        s.filter(pred) == s,
    decreases s.len(),
{
    reveal(Seq::filter);
    if s.len() > 0 {
        let d = s.drop_last();
        assert forall|j: int| 0 <= j < d.len() implies pred(#[trigger] d[j]) by {
            assert(d[j] == s[j]);
        }
        lemma_filter_keeps_all(d, pred);
        assert(pred(s[s.len() - 1]));
        assert(d.push(s.last()) =~= s);
    }
}

proof fn lemma_filter_keeps_none(s: Seq<StakedNftInfo>, pred: spec_fn(StakedNftInfo) -> bool)
    requires
        forall|j: int| 0 <= j < s.len() ==> !pred(#[trigger] s[j]),
    ensures
        s.filter(pred) == Seq::<StakedNftInfo>::empty(),
    decreases s.len(),
{
    reveal(Seq::filter);
    if s.len() > 0 {
        let d = s.drop_last();
        assert forall|j: int| 0 <= j < d.len() implies !pred(#[trigger] d[j]) by {
            assert(d[j] == s[j]);
        }
        lemma_filter_keeps_none(d, pred);
        assert(!pred(s[s.len() - 1]));
    }
}

/// Two states whose accounts have the same holders, in the same places, find a holder
/// at the same place.
proof fn lemma_same_holders_index(s: AdderModel, t: AdderModel, holder: Seq<u8>)
    requires
        s.wf(),
        t.accounts.len() == s.accounts.len(),
        forall|j: int| 0 <= j < s.accounts.len() ==> #[trigger] t.accounts[j].holder == s.accounts[j].holder,
    ensures
        t.has_account(holder) == s.has_account(holder),
        s.has_account(holder) ==> t.account_index(holder) == s.account_index(holder),
{
    if s.has_account(holder) {
        let i = s.account_index(holder);
        assert(t.accounts[i].holder == holder);
        let j = t.account_index(holder);
        assert(s.accounts[j].holder == holder);
    }
    if t.has_account(holder) {
        let j = t.account_index(holder);
        assert(s.accounts[j].holder == holder);
    }
}

/// In a distribution every holder keeps its staked units and is queued one entry per
/// unit, which together amount to the reward per credit times the holder's own credit.
pub proof fn lemma_distribution_per_holder(
    s: AdderModel,
    caller: Seq<u8>,
    token: Seq<u8>,
    amount: u128,
    current_epoch: u64,
    holder: Seq<u8>,
)
    requires
        s.wf(),
        s.deposit_error(caller, token, amount, current_epoch) is None,
    ensures
        ({
            let s1 = s.deposited(token, amount, current_epoch);
            let last = s.last_paid_epoch(token);
            let rpw = s.reward_per_epoch(token, amount, current_epoch);
            &&& s1.staked_of(holder) == s.staked_of(holder)
            &&& s1.claims_of(holder)
                == s.claims_of(holder) + claim_entries(token, s.staked_of(holder), current_epoch, last, rpw)
            &&& amount_total(s1.claims_of(holder))
                == amount_total(s.claims_of(holder)) + rpw * payable_epochs(s.staked_of(holder), current_epoch, last)
        }),
{
    let s1 = s.deposited(token, amount, current_epoch);
    let last = s.last_paid_epoch(token);
    let rpw = s.reward_per_epoch(token, amount, current_epoch);
    assert forall|j: int| 0 <= j < s.accounts.len() implies #[trigger] s1.accounts[j].holder == s.accounts[j].holder by {}
    lemma_same_holders_index(s, s1, holder);
    let st = s.staked_of(holder);
    let cl = s.claims_of(holder);
    if s.has_account(holder) {
        let i = s.account_index(holder);
        assert(units_epochs_ok(s.accounts[i].staked, current_epoch, last));
        assert(s1.accounts[i].claimable == cl + claim_entries(token, st, current_epoch, last, rpw));
    } else {
        assert(claim_entries(token, st, current_epoch, last, rpw) =~= Seq::<PaymentModel>::empty());
        assert(cl + Seq::<PaymentModel>::empty() =~= cl);
    }
    lemma_amount_total_concat(cl, claim_entries(token, st, current_epoch, last, rpw));
    lemma_entries_total(token, st, current_epoch, last, rpw);
    assert(payable_epochs(st, current_epoch, last) * rpw == rpw * payable_epochs(st, current_epoch, last))
        by (nonlinear_arith);
}

/// Staking one unit and unstaking its serial right after returns exactly that unit,
/// with one unit of the stake asset, and leaves every holder's staked units and claim
/// queue as they were before the stake: a holder whose only unit it was has no
/// registry entry again.
pub proof fn lemma_stake_then_unstake(s: AdderModel, holder: Seq<u8>, unit: PaymentModel, current_epoch: u64)
    requires
        s.wf(),
        units_count(s.accounts) + 1 <= u64::MAX,
        s.stake_error(seq![unit]) is None,
        forall|j: int| 0 <= j < s.staked_of(holder).len() ==> #[trigger] s.staked_of(holder)[j].nonce != unit.nonce,
    ensures
        ({
            let s1 = s.staked(holder, seq![unit], current_epoch);
            let s2 = s1.unstaked(holder, seq![unit.nonce]);
            let x = StakedNftInfo { nonce: unit.nonce, stake_epoch: current_epoch };
            &&& s1.wf()
            &&& s1.unstake_error(holder) is None
            &&& s1.released_units(holder, seq![unit.nonce]) == seq![x]
            &&& s1.return_transfers(seq![x])
                == seq![PaymentModel { token: s.stake_token_or_empty(), nonce: unit.nonce, amount: 1 }]
            &&& s2.wf()
            &&& forall|h: Seq<u8>| s2.staked_of(h) == s.staked_of(h) && s2.claims_of(h) == s.claims_of(h)
        }),
{
    let s1 = s.staked(holder, seq![unit], current_epoch);
    let nonces = seq![unit.nonce];
    let s2 = s1.unstaked(holder, nonces);
    let x = StakedNftInfo { nonce: unit.nonce, stake_epoch: current_epoch };
    let keep = |n: StakedNftInfo| !nonces.contains(n.nonce);
    let release = |n: StakedNftInfo| nonces.contains(n.nonce);
    assert(AdderModel::new_stakes(seq![unit], current_epoch) =~= seq![x]);
    assert(nonces[0] == unit.nonce);
    assert(release(x));
    assert(s1.return_transfers(seq![x])
        =~= seq![PaymentModel { token: s.stake_token_or_empty(), nonce: unit.nonce, amount: 1 }]);
    if s.has_account(holder) {
        let i = s.account_index(holder);
        let a = s.accounts[i];
        let a1 = AccountModel { staked: a.staked + seq![x], ..a };
        assert(s1.accounts == s.accounts.update(i, a1));
        lemma_units_count_update(s.accounts, i, a1);
        assert forall|p: int, q: int|
            0 <= p < s1.accounts.len() && 0 <= q < s1.accounts.len() && p != q
            implies #[trigger] s1.accounts[p].holder != #[trigger] s1.accounts[q].holder by {
            assert(s1.accounts[p].holder == s.accounts[p].holder);
            assert(s1.accounts[q].holder == s.accounts[q].holder);
        }
        lemma_account_index(s1, i);
        assert(s1.staked_of(holder) == a.staked.push(x)) by {
            assert(a.staked + seq![x] =~= a.staked.push(x));
        }
        assert forall|j: int| 0 <= j < a.staked.len() implies !release(#[trigger] a.staked[j]) by {
            assert(s.staked_of(holder)[j] == a.staked[j]);
            if release(a.staked[j]) {
                assert(nonces[0] == a.staked[j].nonce);
            }
        }
        assert forall|j: int| 0 <= j < a.staked.len() implies keep(#[trigger] a.staked[j]) by {
            assert(!release(a.staked[j]));
        }
        lemma_filter_keeps_none(a.staked, release);
        lemma_filter_keeps_all(a.staked, keep);
        reveal(Seq::filter);
        assert(a.staked.push(x).drop_last() =~= a.staked);
        assert(a.staked.push(x).filter(release) =~= seq![x]);
        assert(a.staked.push(x).filter(keep) == a.staked);
        assert(s2.accounts =~= s.accounts);
        assert(s2 == s);
    } else {
        let n1 = AccountModel { holder, staked: seq![x], claimable: Seq::empty() };
        let k = s.accounts.len() as int;
        assert(s1.accounts == s.accounts.push(n1));
        assert(s1.accounts.drop_last() =~= s.accounts);
        assert forall|p: int| 0 <= p < s.accounts.len() implies #[trigger] s.accounts[p].holder != holder by {
            if s.accounts[p].holder == holder {
                assert(s.has_account(holder));
            }
        }
        assert forall|p: int, q: int|
            0 <= p < s1.accounts.len() && 0 <= q < s1.accounts.len() && p != q
            implies #[trigger] s1.accounts[p].holder != #[trigger] s1.accounts[q].holder by {
            if p < k {
                assert(s1.accounts[p] == s.accounts[p]);
            }
            if q < k {
                assert(s1.accounts[q] == s.accounts[q]);
            }
        }
        assert(s1.accounts[k] == n1);
        lemma_account_index(s1, k);
        reveal(Seq::filter);
        assert(seq![x].drop_last() =~= Seq::<StakedNftInfo>::empty());
        assert(Seq::<StakedNftInfo>::empty().filter(keep) == Seq::<StakedNftInfo>::empty());
        assert(Seq::<StakedNftInfo>::empty().filter(release) == Seq::<StakedNftInfo>::empty());
        assert(seq![x].last() == x);
        assert(seq![x].filter(release) =~= seq![x]);
        assert(!keep(x));
        assert(seq![x].filter(keep) =~= Seq::<StakedNftInfo>::empty());
        let n2 = AccountModel { holder, staked: Seq::empty(), claimable: Seq::empty() };
        assert(s2.accounts =~= s.accounts.push(n2));
        lemma_units_count_update(s1.accounts, k, n2);
        assert forall|p: int, q: int|
            0 <= p < s2.accounts.len() && 0 <= q < s2.accounts.len() && p != q
            implies #[trigger] s2.accounts[p].holder != #[trigger] s2.accounts[q].holder by {
            assert(s2.accounts[p].holder == s1.accounts[p].holder);
            assert(s2.accounts[q].holder == s1.accounts[q].holder);
        }
        assert forall|h: Seq<u8>| s2.staked_of(h) == s.staked_of(h) && s2.claims_of(h) == s.claims_of(h) by {
            if h == holder {
                assert(s2.accounts[k].holder == holder);
                lemma_account_index(s2, k);
            } else if s.has_account(h) {
                let j = s.account_index(h);
                assert(s2.accounts[j] == s.accounts[j]);
                lemma_account_index(s2, j);
            } else {
                if s2.has_account(h) {
                    let j = s2.account_index(h);
                    if j < k {
                        assert(s.accounts[j] == s2.accounts[j]);
                        assert(s.has_account(h));
                    }
                }
            }
        }
    }
}

} // verus!
