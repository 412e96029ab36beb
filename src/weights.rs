use vstd::prelude::*;
use crate::types::{StakedNftInfo, StakingError, PaymentModel};

verus! {

/// Epoch credit of one unit for a distribution at `current_epoch` whose previous
/// distribution of the same asset happened at `last_epoch`.
///
/// A unit staked strictly before the cutoff is credited the span since the cutoff;
/// one staked at or after it is credited its own span.
pub open spec fn nft_weight(nft: StakedNftInfo, current_epoch: u64, last_epoch: u64) -> int {
    if last_epoch > nft.stake_epoch {
        current_epoch - last_epoch
    } else {
        current_epoch - nft.stake_epoch
    }
}

/// No unit's credit is negative: the current epoch is not before its start.
pub open spec fn units_epochs_ok(nfts: Seq<StakedNftInfo>, current_epoch: u64, last_epoch: u64) -> bool {
    forall|j: int| 0 <= j < nfts.len() ==> nft_weight(#[trigger] nfts[j], current_epoch, last_epoch) >= 0
}

/// Sum of the credits of `nfts`.
pub open spec fn payable_epochs(nfts: Seq<StakedNftInfo>, current_epoch: u64, last_epoch: u64) -> int
    decreases nfts.len(),
{
    if nfts.len() == 0 {
        0
    } else {
        payable_epochs(nfts.drop_last(), current_epoch, last_epoch)
            + nft_weight(nfts.last(), current_epoch, last_epoch)
    }
}

/// The claim entry that a distribution of `token` queues for one unit.
pub open spec fn claim_entry(
    token: Seq<u8>,
    nft: StakedNftInfo,
    current_epoch: u64,
    last_epoch: u64,
    reward_per_epoch: nat,
) -> PaymentModel {
    PaymentModel {
        token,
        nonce: nft.nonce,
        amount: (nft_weight(nft, current_epoch, last_epoch) * reward_per_epoch) as nat,
    }
}

/// The claim entries that a distribution queues for a holder's units, in their order.
pub open spec fn claim_entries(
    token: Seq<u8>,
    nfts: Seq<StakedNftInfo>,
    current_epoch: u64,
    last_epoch: u64,
    reward_per_epoch: nat,
) -> Seq<PaymentModel> {
    nfts.map_values(|n: StakedNftInfo| claim_entry(token, n, current_epoch, last_epoch, reward_per_epoch))
}

/// Sum of the amounts of `entries`.
pub open spec fn amount_total(entries: Seq<PaymentModel>) -> int
    decreases entries.len(),
{
    if entries.len() == 0 {
        0
    } else {
        amount_total(entries.drop_last()) + entries.last().amount
    }
}

/// Every credit is at most `u64::MAX`, so a sum of them is bounded by the count.
pub proof fn lemma_payable_bounded(nfts: Seq<StakedNftInfo>, current_epoch: u64, last_epoch: u64)
    requires
        units_epochs_ok(nfts, current_epoch, last_epoch),
    ensures
        0 <= payable_epochs(nfts, current_epoch, last_epoch) <= nfts.len() * (u64::MAX as int),
    decreases nfts.len(),
{
    if nfts.len() > 0 {
        let d = nfts.drop_last();
        assert forall|j: int| 0 <= j < d.len() implies nft_weight(#[trigger] d[j], current_epoch, last_epoch) >= 0 by {
            assert(d[j] == nfts[j]);
        }
        lemma_payable_bounded(d, current_epoch, last_epoch);
        assert(nfts.last() == nfts[nfts.len() - 1]);
    }
}

/// With no negative credit, one unit's credit is at most the sum.
pub proof fn lemma_weight_le_payable(nfts: Seq<StakedNftInfo>, current_epoch: u64, last_epoch: u64, j: int)
    requires
        units_epochs_ok(nfts, current_epoch, last_epoch),
        0 <= j < nfts.len(),
    ensures
        nft_weight(nfts[j], current_epoch, last_epoch) <= payable_epochs(nfts, current_epoch, last_epoch),
    decreases nfts.len(),
{
    let d = nfts.drop_last();
    assert forall|k: int| 0 <= k < d.len() implies nft_weight(#[trigger] d[k], current_epoch, last_epoch) >= 0 by {
        assert(d[k] == nfts[k]);
    }
    assert(nfts.last() == nfts[nfts.len() - 1]);
    lemma_payable_bounded(d, current_epoch, last_epoch);
    if j < nfts.len() - 1 {
        assert(d[j] == nfts[j]);
        lemma_weight_le_payable(d, current_epoch, last_epoch, j);
    }
}

/// The entries queued for `nfts` add up to the reward per epoch times their credit.
pub proof fn lemma_entries_total(
    token: Seq<u8>,
    nfts: Seq<StakedNftInfo>,
    current_epoch: u64,
    last_epoch: u64,
    reward_per_epoch: nat,
)
    requires
        units_epochs_ok(nfts, current_epoch, last_epoch),
    ensures
        amount_total(claim_entries(token, nfts, current_epoch, last_epoch, reward_per_epoch))
            == payable_epochs(nfts, current_epoch, last_epoch) * reward_per_epoch,
    decreases nfts.len(),
{
    let e = claim_entries(token, nfts, current_epoch, last_epoch, reward_per_epoch);
    if nfts.len() > 0 {
        let d = nfts.drop_last();
        assert forall|k: int| 0 <= k < d.len() implies nft_weight(#[trigger] d[k], current_epoch, last_epoch) >= 0 by {
            assert(d[k] == nfts[k]);
        }
        lemma_entries_total(token, d, current_epoch, last_epoch, reward_per_epoch);
        assert(e.drop_last() =~= claim_entries(token, d, current_epoch, last_epoch, reward_per_epoch));
        let w = nft_weight(nfts.last(), current_epoch, last_epoch);
        assert(nfts.last() == nfts[nfts.len() - 1]);
        assert(w >= 0);
        assert(e.last().amount == w * reward_per_epoch) by (nonlinear_arith)
            requires
                w >= 0,
                e.last().amount == (w * reward_per_epoch) as nat,
        ;
        let p = payable_epochs(d, current_epoch, last_epoch);
        assert((p + w) * reward_per_epoch == p * reward_per_epoch + w * reward_per_epoch) by (nonlinear_arith);
    }
}

/// Sums the credits of `nfts`; refuses when some credit would be negative.
pub fn units_payable_epochs(nfts: &Vec<StakedNftInfo>, current_epoch: u64, last_epoch: u64) -> (r: Result<u128, StakingError>)
    requires
        nfts@.len() <= u64::MAX,
    ensures
        r is Ok <==> units_epochs_ok(nfts@, current_epoch, last_epoch),
        r matches Ok(v) ==> v == payable_epochs(nfts@, current_epoch, last_epoch),
        r matches Err(e) ==> e == StakingError::EpochUnderflow,
{
    let mut total: u128 = 0;
    let mut i: usize = 0;
    while i < nfts.len()
        invariant
            i <= nfts@.len() <= u64::MAX,
            units_epochs_ok(nfts@.subrange(0, i as int), current_epoch, last_epoch),
            total == payable_epochs(nfts@.subrange(0, i as int), current_epoch, last_epoch),
        decreases nfts@.len() - i,
    {
        let nft = nfts[i];
        let start = if last_epoch > nft.stake_epoch { last_epoch } else { nft.stake_epoch };
        if current_epoch < start {
            assert(nfts@[i as int] == nft);
            return Err(StakingError::EpochUnderflow);
        }
        let w = current_epoch - start;
        let ghost prefix = nfts@.subrange(0, i as int);
        let ghost next = nfts@.subrange(0, i + 1);
        proof {
            lemma_payable_bounded(prefix, current_epoch, last_epoch);
            assert(i * (u64::MAX as int) + u64::MAX <= u128::MAX) by (nonlinear_arith)
                requires
                    i < u64::MAX,
            ;
            assert(prefix.len() * (u64::MAX as int) == i * (u64::MAX as int));
            assert(next.drop_last() =~= prefix);
            assert(next.last() == nft);
        }
        total = total + w as u128;
        i = i + 1;
        assert forall|j: int| 0 <= j < next.len() implies nft_weight(#[trigger] next[j], current_epoch, last_epoch) >= 0 by {
            if j < prefix.len() {
                assert(next[j] == prefix[j]);
            }
        }
    }
    assert(nfts@.subrange(0, nfts@.len() as int) =~= nfts@);
    Ok(total)
}

} // verus!
