//! Participant records and the errors of ledger operations.
use vstd::prelude::*;

verus! {

/// One participant's record, keyed by the participant's account name.
#[derive(Clone, Debug)]
pub struct User {
    /// The participant's account.
    pub wallet: String,
    /// The fixed amount converted in each cycle; always positive.
    pub amount_per_swap: u128,
    /// Least time between two conversions.
    pub swap_interval: u64,
    /// Time of the last confirmed conversion; 0 before the first.
    pub last_swap_timestamp: u64,
    /// Proceeds owed to the participant.
    pub total_swapped: u128,
    /// Deposit still available to convert.
    pub amount: u128,
    /// A paused participant is never selected.
    pub pause: bool,
}

impl User {
    /// A copy of the record.
    pub fn copy(&self) -> (r: User)
        ensures
            r == *self,
    {
        User {
            wallet: self.wallet.clone(),
            amount_per_swap: self.amount_per_swap,
            swap_interval: self.swap_interval,
            last_swap_timestamp: self.last_swap_timestamp,
            total_swapped: self.total_swapped,
            amount: self.amount,
            pause: self.pause,
        }
    }
}

/// Why an operation was refused.
#[derive(Clone, Copy, Debug, PartialEq, Eq, Structural)]
pub enum DcaError {
    /// A zero or otherwise nonsensical amount.
    InvalidAmount,
    /// The caller has no record.
    NotRegistered,
    /// The caller has a record already.
    AlreadyRegistered,
    /// The amount exceeds the balance it is taken from.
    InsufficientBalance,
    /// A redundant pause or resume.
    AlreadyInState,
    /// The caller is not the owner.
    Unauthorized,
    /// A settlement run has not yet reached its commit or abort.
    RunInProgress,
    /// An outside stage of a settlement run did not confirm success.
    ExternalStageFailed,
    /// An internal invariant broke; the operation must halt.
    IntegrityFault,
}

/// No two records belong to the same account.
pub open spec fn wallets_distinct(users: Seq<User>) -> bool {
    forall|i: int, j: int|
        0 <= i < users.len() && 0 <= j < users.len() && i != j ==> #[trigger] users[i].wallet@
            != #[trigger] users[j].wallet@
}

/// Every record converts a positive amount per cycle.
pub open spec fn amounts_positive(users: Seq<User>) -> bool {
    forall|i: int| 0 <= i < users.len() ==> #[trigger] users[i].amount_per_swap > 0
}

/// The account `w` has a record.
pub open spec fn is_registered(users: Seq<User>, w: Seq<char>) -> bool {
    exists|i: int| 0 <= i < users.len() && #[trigger] users[i].wallet@ == w
}

/// The position of the record of `w`.
pub open spec fn index_of(users: Seq<User>, w: Seq<char>) -> int
    recommends
        is_registered(users, w),
{
    choose|i: int| 0 <= i < users.len() && #[trigger] users[i].wallet@ == w
}

/// With distinct wallets, the record found for `w` is the one at `index_of`.
pub proof fn lemma_index_of_unique(users: Seq<User>, w: Seq<char>, i: int)
    requires
        wallets_distinct(users),
        0 <= i < users.len(),
        users[i].wallet@ == w,
    ensures
        is_registered(users, w),
        index_of(users, w) == i,
{
    assert(is_registered(users, w));
    let k = index_of(users, w);
    assert(users[k].wallet@ == w);
}

/// Finds the record of `wallet`.
pub fn find_user(users: &Vec<User>, wallet: &String) -> (r: Option<usize>)
    ensures
        match r {
            Some(i) => i < users@.len() && users@[i as int].wallet@ == wallet@,
            None => !is_registered(users@, wallet@),
        },
{
    let mut i: usize = 0;
    while i < users.len()
        invariant
            i <= users@.len(),
            forall|k: int| 0 <= k < i ==> users@[k].wallet@ != wallet@,
        decreases users@.len() - i,
    {
        if users[i].wallet == *wallet {
            return Some(i);
        }
        i = i + 1;
    }
    None
}

} // verus!
