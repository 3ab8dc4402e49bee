//! The batch of a settlement run and its commit to the ledger.
use vstd::prelude::*;
use crate::arith::{pro_rata_share, share_of};
use crate::ledger::{find_user, index_of, is_registered, lemma_index_of_unique, wallets_distinct, User};

verus! {

/// The participants selected in one run, with the amounts captured at
/// selection time.
#[derive(Clone, Debug)]
pub struct Batch {
    /// Selected accounts, in selection order.
    pub batch_users: Vec<String>,
    /// Per-cycle amount of each selected account, in the same order.
    pub amounts: Vec<u128>,
    /// Sum of `amounts`.
    pub batch_amount: u128,
    /// What is sent to the exchange once the fee is kept.
    pub batch_amount_total: u128,
}

/// Sum of a sequence of amounts.
pub open spec fn seq_sum(s: Seq<u128>) -> int
    decreases s.len(),
{
    if s.len() == 0 {
        0
    } else {
        seq_sum(s.drop_last()) + s.last()
    }
}

/// Every term of a sum of amounts is at most the sum.
pub proof fn lemma_seq_sum_bounds(s: Seq<u128>)
    ensures
        seq_sum(s) >= 0,
        forall|j: int| 0 <= j < s.len() ==> #[trigger] s[j] <= seq_sum(s),
    decreases s.len(),
{
    if s.len() > 0 {
        lemma_seq_sum_bounds(s.drop_last());
        assert forall|j: int| 0 <= j < s.len() implies #[trigger] s[j] <= seq_sum(s) by {
            if j < s.len() - 1 {
                assert(s[j] == s.drop_last()[j]);
            }
        }
    }
}

/// A record after a confirmed conversion: one cycle taken from the deposit,
/// the share credited, and the time of the run recorded.
pub open spec fn settled(before: User, after: User, amount: int, share: int, now: u64) -> bool {
    &&& after.wallet == before.wallet
    &&& after.amount_per_swap == before.amount_per_swap
    &&& after.swap_interval == before.swap_interval
    &&& after.pause == before.pause
    &&& after.amount == before.amount - amount
    &&& after.total_swapped == before.total_swapped + share
    &&& after.last_swap_timestamp == now
}

impl Batch {
    /// Account of the `j`-th selected participant.
    pub open spec fn wallet_at(&self, j: int) -> Seq<char> {
        self.batch_users@[j]@
    }

    /// The account `w` is in the batch.
    pub open spec fn contains(&self, w: Seq<char>) -> bool {
        exists|j: int| 0 <= j < self.batch_users@.len() && self.wallet_at(j) == w
    }

    /// Proceeds owed to the `j`-th selected participant.
    pub open spec fn share(&self, j: int) -> int {
        share_of(self.amounts@[j] as int, self.batch_amount_total as int, self.batch_amount as int)
    }

    /// A batch as selection builds it: one amount per account, accounts
    /// distinct, a positive total that is the sum of the amounts, and a net
    /// amount within it.
    pub open spec fn wf(&self) -> bool {
        &&& self.batch_users@.len() == self.amounts@.len()
        &&& self.batch_amount > 0
        &&& self.batch_amount == seq_sum(self.amounts@)
        &&& self.batch_amount_total <= self.batch_amount
        &&& forall|a: int, b: int|
            0 <= a < self.batch_users@.len() && 0 <= b < self.batch_users@.len() && a != b
                ==> #[trigger] self.wallet_at(a) != #[trigger] self.wallet_at(b)
    }

    /// Every selected account still has a record that covers its cycle and
    /// can take its share without overflow.
    pub open spec fn commit_ready(&self, users: Seq<User>) -> bool {
        forall|j: int|
            0 <= j < self.batch_users@.len() ==> {
                let w = #[trigger] self.wallet_at(j);
                let u = users[index_of(users, w)];
                &&& is_registered(users, w)
                &&& u.amount >= self.amounts@[j]
                &&& u.total_swapped + self.share(j) <= u128::MAX
            }
    }
}

/// Checks, before anything is written, that the batch can be committed, and
/// finds each record's position and share.
pub fn plan_commit(users: &Vec<User>, batch: &Batch) -> (r: Option<(Vec<usize>, Vec<u128>)>)
    requires
        wallets_distinct(users@),
        batch.wf(),
    ensures
        r is Some <==> batch.commit_ready(users@),
        match r {
            Some((idxs, shares)) => {
                &&& idxs@.len() == batch.batch_users@.len()
                &&& shares@.len() == batch.batch_users@.len()
                &&& forall|j: int|
                    0 <= j < idxs@.len() ==> #[trigger] idxs@[j] as int == index_of(
                        users@,
                        batch.wallet_at(j),
                    ) && idxs@[j] < users@.len()
                &&& forall|j: int| 0 <= j < shares@.len() ==> #[trigger] shares@[j] == batch.share(j)
            },
            None => true,
        },
{
    let mut idxs: Vec<usize> = Vec::new();
    let mut shares: Vec<u128> = Vec::new();
    let n = batch.batch_users.len();
    proof {
        lemma_seq_sum_bounds(batch.amounts@);
    }
    let mut j: usize = 0;
    while j < n
        invariant
            n == batch.batch_users@.len(),
            batch.wf(),
            wallets_distinct(users@),
            j <= n,
            idxs@.len() == j,
            shares@.len() == j,
            forall|k: int| 0 <= k < batch.amounts@.len() ==> #[trigger] batch.amounts@[k] <= batch.batch_amount,
            forall|k: int|
                0 <= k < j ==> #[trigger] idxs@[k] as int == index_of(users@, batch.wallet_at(k))
                    && idxs@[k] < users@.len(),
            forall|k: int| 0 <= k < j ==> #[trigger] shares@[k] == batch.share(k),
            forall|k: int|
                0 <= k < j ==> {
                    let w = #[trigger] batch.wallet_at(k);
                    let u = users@[index_of(users@, w)];
                    &&& is_registered(users@, w)
                    &&& u.amount >= batch.amounts@[k]
                    &&& u.total_swapped + batch.share(k) <= u128::MAX
                },
        decreases n - j,
    {
        let found = find_user(users, &batch.batch_users[j]);
        let i = match found {
            Some(i) => i,
            None => {
                assert(!is_registered(users@, batch.wallet_at(j as int)));
                return None;
            },
        };
        proof {
            lemma_index_of_unique(users@, batch.wallet_at(j as int), i as int);
        }
        let amount = batch.amounts[j];
        if users[i].amount < amount {
            return None;
        }
        let share = pro_rata_share(amount, batch.batch_amount_total, batch.batch_amount);
        if users[i].total_swapped > u128::MAX - share {
            return None;
        }
        idxs.push(i);
        shares.push(share);
        j = j + 1;
    }
    Some((idxs, shares))
}

/// Some of the first `j` planned positions is `p`.
pub open spec fn touched(idxs: Seq<usize>, j: int, p: int) -> bool {
    exists|k: int| 0 <= k < j && idxs[k] as int == p
}

/// Writes a planned batch into the ledger: each selected record is settled
/// with its share, every other record is left as it was.
pub fn apply_commit(
    users: &mut Vec<User>,
    batch: &Batch,
    idxs: &Vec<usize>,
    shares: &Vec<u128>,
    now: u64,
)
    requires
        wallets_distinct(old(users)@),
        batch.wf(),
        batch.commit_ready(old(users)@),
        idxs@.len() == batch.batch_users@.len(),
        shares@.len() == batch.batch_users@.len(),
        forall|j: int|
            0 <= j < idxs@.len() ==> #[trigger] idxs@[j] as int == index_of(
                old(users)@,
                batch.wallet_at(j),
            ) && idxs@[j] < old(users)@.len(),
        forall|j: int| 0 <= j < shares@.len() ==> #[trigger] shares@[j] == batch.share(j),
    ensures
        final(users)@.len() == old(users)@.len(),
        forall|j: int|
            0 <= j < batch.batch_users@.len() ==> settled(
                old(users)@[index_of(old(users)@, #[trigger] batch.wallet_at(j))],
                final(users)@[index_of(old(users)@, batch.wallet_at(j))],
                batch.amounts@[j] as int,
                batch.share(j),
                now,
            ),
        forall|p: int|
            0 <= p < old(users)@.len() && !batch.contains(#[trigger] old(users)@[p].wallet@)
                ==> final(users)@[p] == old(users)@[p],
{
    let ghost before = users@;
    let n = idxs.len();
    proof {
        // distinct accounts in the batch have distinct records
        assert forall|a: int, b: int| 0 <= a < n && 0 <= b < n && a != b implies #[trigger] idxs@[a]
            != #[trigger] idxs@[b] by {
            assert(before[idxs@[a] as int].wallet@ == batch.wallet_at(a));
            assert(before[idxs@[b] as int].wallet@ == batch.wallet_at(b));
        }
    }
    let mut j: usize = 0;
    while j < n
        invariant
            n == idxs@.len(),
            n == batch.batch_users@.len(),
            n == shares@.len(),
            j <= n,
            users@.len() == before.len(),
            forall|a: int, b: int| 0 <= a < n && 0 <= b < n && a != b ==> #[trigger] idxs@[a]
                != #[trigger] idxs@[b],
            forall|k: int|
                0 <= k < j ==> settled(
                    before[#[trigger] idxs@[k] as int],
                    users@[idxs@[k] as int],
                    batch.amounts@[k] as int,
                    batch.share(k),
                    now,
                ),
            forall|p: int|
                0 <= p < before.len() && !touched(idxs@, j as int, p) ==> #[trigger] users@[p]
                    == before[p],
            before == old(users)@,
            batch.wf(),
            batch.commit_ready(before),
            forall|k: int|
                0 <= k < n ==> #[trigger] idxs@[k] as int == index_of(before, batch.wallet_at(k))
                    && idxs@[k] < before.len(),
            forall|k: int| 0 <= k < n ==> #[trigger] shares@[k] == batch.share(k),
        decreases n - j,
    {
        let i = idxs[j];
        proof {
            assert(!touched(idxs@, j as int, i as int));
            assert(users@[i as int] == before[i as int]);
            let w = batch.wallet_at(j as int);
            assert(before[index_of(before, w)].amount >= batch.amounts@[j as int]);
        }
        let amount = batch.amounts[j];
        let share = shares[j];
        users[i].amount = users[i].amount - amount;
        users[i].total_swapped = users[i].total_swapped + share;
        users[i].last_swap_timestamp = now;
        proof {
            assert forall|p: int|
                0 <= p < before.len() && !touched(idxs@, j as int + 1, p) implies #[trigger] users@[p]
                == before[p] by {
                assert(!touched(idxs@, j as int, p));
                assert(idxs@[j as int] != p);
            }
        }
        j = j + 1;
    }
    proof {
        assert forall|p: int|
            0 <= p < before.len() && !batch.contains(#[trigger] before[p].wallet@) implies users@[p]
            == before[p] by {
            assert forall|k: int| 0 <= k < n implies idxs@[k] != p by {
                assert(before[idxs@[k] as int].wallet@ == batch.wallet_at(k));
            }
            assert(!touched(idxs@, n as int, p));
        }
        assert forall|k: int| 0 <= k < n implies settled(
            before[index_of(before, #[trigger] batch.wallet_at(k))],
            users@[index_of(before, batch.wallet_at(k))],
            batch.amounts@[k] as int,
            batch.share(k),
            now,
        ) by {
            assert(idxs@[k] as int == index_of(before, batch.wallet_at(k)));
        }
    }
}

} // verus!
