//! The scheduler's state and its operations: the ledger operations of each
//! participant, the owner's settings, and the stages of a settlement run.
//!
//! Each operation takes the authenticated caller and, where it matters, the
//! current time or the attached deposit as plain values. Outside work (value
//! transfers, the exchange stages) is performed by the host, which reports
//! each stage's outcome back to the matching callback.
use vstd::prelude::*;
use crate::arith::{net_amount, net_of, MAX_FEE_RATE};
use crate::ledger::{
    amounts_positive, find_user, index_of, is_registered, lemma_index_of_unique, wallets_distinct,
    DcaError, User,
};
use crate::message::{render_swap_message, swap_message};
use crate::selector::{amounts_sum, lemma_selection_shape, select_batch, selection};
use crate::settlement::{apply_commit, lemma_seq_sum_bounds, plan_commit, seq_sum, settled, Batch};

verus! {

/// Batch capacity of a freshly initialised scheduler.
pub const DEFAULT_BATCH_SWAP_THRESHOLD: u8 = 10;

/// The scheduler's whole state.
pub struct Contract {
    /// The ledger, in registration order.
    pub users: Vec<User>,
    /// Most participants settled in one run.
    pub batch_swap_threshold: u8,
    /// Exchange that performs the swap stage.
    pub pool_address: String,
    /// Token that participants receive.
    pub token_address: String,
    /// The only account allowed to run settlements and change settings.
    pub owner: String,
    /// Fee rate in percent, at most 100.
    pub fees: u8,
    /// Wrapping service of the conversion stage.
    pub wrap_account: String,
    /// Pool used at the exchange.
    pub pool_id: u16,
    /// The batch of the run in flight, if any.
    pub pending: Option<Batch>,
}

/// Records other than the one at `i` are unchanged and none was added or removed.
pub open spec fn only_changed_at(before: Seq<User>, after: Seq<User>, i: int) -> bool {
    &&& after.len() == before.len()
    &&& forall|p: int| 0 <= p < before.len() && p != i ==> #[trigger] after[p] == before[p]
}

/// `after` differs from `before` at most in its deposit, its proceeds and its pause flag.
pub open spec fn same_schedule(before: User, after: User) -> bool {
    &&& after.wallet == before.wallet
    &&& after.amount_per_swap == before.amount_per_swap
    &&& after.swap_interval == before.swap_interval
    &&& after.last_swap_timestamp == before.last_swap_timestamp
}

/// A record made by registration.
pub open spec fn fresh_record(u: User, w: Seq<char>, amount_per_swap: u128, swap_interval: u64, deposit: u128) -> bool {
    &&& u.wallet@ == w
    &&& u.amount_per_swap == amount_per_swap
    &&& u.swap_interval == swap_interval
    &&& u.last_swap_timestamp == 0
    &&& u.total_swapped == 0
    &&& u.amount == deposit
    &&& !u.pause
}

/// The batch that a run at `now` selects from `c`'s ledger.
pub open spec fn selected_batch(c: Contract, now: u64, b: Batch) -> bool {
    let sel = selection(c.users@, now, c.batch_swap_threshold as nat);
    &&& b.batch_users@.len() == sel.len()
    &&& b.amounts@.len() == sel.len()
    &&& forall|j: int|
        0 <= j < sel.len() ==> #[trigger] b.wallet_at(j) == c.users@[sel[j]].wallet@
            && b.amounts@[j] == c.users@[sel[j]].amount_per_swap
    &&& b.batch_amount == amounts_sum(c.users@, sel)
    &&& b.batch_amount_total == net_of(b.batch_amount as int, c.fees as int)
}

/// A settlement run may start: the owner asks, no run is in flight, and the
/// selected amounts fit in one total.
pub open spec fn swap_allowed(c: Contract, caller: Seq<char>, now: u64) -> bool {
    &&& caller == c.owner@
    &&& c.pending is None
    &&& amounts_sum(c.users@, selection(c.users@, now, c.batch_swap_threshold as nat))
        <= u128::MAX
}

/// The ledgers hold the same accounts and per-cycle amounts, position by position.
pub open spec fn same_keys(before: Seq<User>, after: Seq<User>) -> bool {
    &&& after.len() == before.len()
    &&& forall|p: int|
        0 <= p < before.len() ==> (#[trigger] after[p]).wallet == before[p].wallet
            && after[p].amount_per_swap == before[p].amount_per_swap
}

/// Ledgers with the same keys keep the invariant.
proof fn lemma_same_keys(before: Seq<User>, after: Seq<User>)
    requires
        wallets_distinct(before),
        amounts_positive(before),
        same_keys(before, after),
    ensures
        wallets_distinct(after),
        amounts_positive(after),
{
    assert forall|a: int, b: int|
        0 <= a < after.len() && 0 <= b < after.len() && a != b implies #[trigger] after[a].wallet@
        != #[trigger] after[b].wallet@ by {
        assert(after[a].wallet == before[a].wallet);
        assert(after[b].wallet == before[b].wallet);
    }
    assert forall|a: int| 0 <= a < after.len() implies #[trigger] after[a].amount_per_swap > 0 by {
        assert(after[a].amount_per_swap == before[a].amount_per_swap);
    }
}

/// The amounts gathered for a selection sum to the selection's total.
proof fn lemma_gathered_sum(users: Seq<User>, sel: Seq<int>, amounts: Seq<u128>)
    requires
        amounts.len() == sel.len(),
        forall|j: int| 0 <= j < sel.len() ==> #[trigger] amounts[j] == users[sel[j]].amount_per_swap,
    ensures
        seq_sum(amounts) == amounts_sum(users, sel),
    decreases sel.len(),
{
    if sel.len() > 0 {
        let (a2, s2) = (amounts.drop_last(), sel.drop_last());
        assert forall|j: int| 0 <= j < s2.len() implies #[trigger] a2[j] == users[s2[j]].amount_per_swap by {
            assert(a2[j] == amounts[j]);
            assert(s2[j] == sel[j]);
        }
        lemma_gathered_sum(users, s2, a2);
    }
}

/// Outcome of a registration.
pub open spec fn register_result(c: Contract, w: Seq<char>, amount_per_swap: u128, deposit: u128) -> Result<(), DcaError> {
    if deposit == 0 || deposit <= amount_per_swap || amount_per_swap == 0 {
        Err(DcaError::InvalidAmount)
    } else if c.registered(w) {
        Err(DcaError::AlreadyRegistered)
    } else {
        Ok(())
    }
}

/// Outcome of a deposit.
pub open spec fn topup_result(c: Contract, w: Seq<char>, deposit: u128) -> Result<(), DcaError> {
    if deposit == 0 {
        Err(DcaError::InvalidAmount)
    } else if !c.registered(w) {
        Err(DcaError::NotRegistered)
    } else if c.user(w).amount + deposit > u128::MAX {
        Err(DcaError::IntegrityFault)
    } else {
        Ok(())
    }
}

/// Outcome of a withdrawal from a balance of `balance`.
pub open spec fn withdraw_result(registered: bool, balance: u128, amount: u128) -> Result<(), DcaError> {
    if !registered {
        Err(DcaError::NotRegistered)
    } else if amount > balance {
        Err(DcaError::InsufficientBalance)
    } else {
        Ok(())
    }
}

/// Outcome of setting the pause flag to `flag`.
pub open spec fn pause_result(c: Contract, w: Seq<char>, flag: bool) -> Result<(), DcaError> {
    if !c.registered(w) {
        Err(DcaError::NotRegistered)
    } else if c.user(w).pause == flag {
        Err(DcaError::AlreadyInState)
    } else {
        Ok(())
    }
}

/// `after` is `before` with the pause flag of `w` set to `flag`.
pub open spec fn paused_as(before: Contract, after: Contract, w: Seq<char>, flag: bool) -> bool {
    let i = index_of(before.users@, w);
    &&& after.same_settings(before)
    &&& only_changed_at(before.users@, after.users@, i)
    &&& same_schedule(before.users@[i], after.users@[i])
    &&& after.users@[i].amount == before.users@[i].amount
    &&& after.users@[i].total_swapped == before.users@[i].total_swapped
    &&& after.users@[i].pause == flag
}

impl Contract {
    /// The state's invariant.
    pub open spec fn wf(&self) -> bool {
        &&& wallets_distinct(self.users@)
        &&& amounts_positive(self.users@)
        &&& self.fees <= MAX_FEE_RATE
        &&& match self.pending {
            Some(b) => b.wf(),
            None => true,
        }
    }

    /// The account `w` has a record.
    pub open spec fn registered(&self, w: Seq<char>) -> bool {
        is_registered(self.users@, w)
    }

    /// The record of `w`.
    pub open spec fn user(&self, w: Seq<char>) -> User {
        self.users@[index_of(self.users@, w)]
    }

    /// Everything but the ledger is as in `other`.
    pub open spec fn same_settings(&self, other: Contract) -> bool {
        &&& self.same_config(other)
        &&& self.pending == other.pending
    }

    /// The owner, the token, the wrapping service and the pool are as in `other`.
    pub open spec fn same_identities(&self, other: Contract) -> bool {
        &&& self.owner == other.owner
        &&& self.token_address == other.token_address
        &&& self.wrap_account == other.wrap_account
        &&& self.pool_id == other.pool_id
    }

    /// The owner's settings are as in `other`.
    pub open spec fn same_config(&self, other: Contract) -> bool {
        &&& self.batch_swap_threshold == other.batch_swap_threshold
        &&& self.pool_address == other.pool_address
        &&& self.token_address == other.token_address
        &&& self.owner == other.owner
        &&& self.fees == other.fees
        &&& self.wrap_account == other.wrap_account
        &&& self.pool_id == other.pool_id
    }

    /// A scheduler with an empty ledger and no run in flight.
    pub fn init(
        pool_address: String,
        token_address: String,
        owner: String,
        fees: u8,
        wrap_account: String,
        pool_id: u16,
    ) -> (c: Self)
        requires
            fees <= MAX_FEE_RATE,
        ensures
            c.wf(),
            c.users@.len() == 0,
            c.batch_swap_threshold == DEFAULT_BATCH_SWAP_THRESHOLD,
            c.pool_address == pool_address,
            c.token_address == token_address,
            c.owner == owner,
            c.fees == fees,
            c.wrap_account == wrap_account,
            c.pool_id == pool_id,
            c.pending is None,
    {
        Contract {
            users: Vec::new(),
            batch_swap_threshold: DEFAULT_BATCH_SWAP_THRESHOLD,
            pool_address,
            token_address,
            owner,
            fees,
            wrap_account,
            pool_id,
            pending: None,
        }
    }

    /// Registers `caller` with its schedule and its first deposit.
    pub fn register_user(
        &mut self,
        caller: &String,
        amount_per_swap: u128,
        swap_interval: u64,
        deposit: u128,
    ) -> (r: Result<(), DcaError>)
        requires
            old(self).wf(),
        ensures
            final(self).wf(),
            r == register_result(*old(self), caller@, amount_per_swap, deposit),
            r is Err ==> *final(self) == *old(self),
            r is Ok ==> {
                &&& final(self).same_settings(*old(self))
                &&& final(self).users@.drop_last() == old(self).users@
                &&& final(self).users@.len() == old(self).users@.len() + 1
                &&& fresh_record(
                    final(self).users@.last(),
                    caller@,
                    amount_per_swap,
                    swap_interval,
                    deposit,
                )
            },
    {
        if deposit == 0 || deposit <= amount_per_swap || amount_per_swap == 0 {
            return Err(DcaError::InvalidAmount);
        }
        match find_user(&self.users, caller) {
            Some(i) => {
                proof {
                    lemma_index_of_unique(self.users@, caller@, i as int);
                }
                return Err(DcaError::AlreadyRegistered);
            },
            None => {},
        }
        let user = User {
            wallet: caller.clone(),
            amount_per_swap,
            swap_interval,
            last_swap_timestamp: 0,
            total_swapped: 0,
            amount: deposit,
            pause: false,
        };
        let ghost before = self.users@;
        self.users.push(user);
        proof {
            assert(self.users@.drop_last() =~= before);
            assert forall|a: int, b: int|
                0 <= a < self.users@.len() && 0 <= b < self.users@.len() && a != b implies #[trigger] self.users@[a].wallet@
                != #[trigger] self.users@[b].wallet@ by {
                if a < before.len() && b < before.len() {
                    assert(self.users@[a] == before[a]);
                    assert(self.users@[b] == before[b]);
                } else if a < before.len() {
                    assert(self.users@[a] == before[a]);
                } else {
                    assert(self.users@[b] == before[b]);
                }
            }
            assert forall|a: int| 0 <= a < self.users@.len() implies #[trigger] self.users@[a].amount_per_swap > 0 by {
                if a < before.len() {
                    assert(self.users@[a] == before[a]);
                }
            }
        }
        Ok(())
    }

    /// Finds the record of `caller`, tying it to `index_of`.
    fn locate(&self, caller: &String) -> (r: Option<usize>)
        requires
            self.wf(),
        ensures
            r is None <==> !self.registered(caller@),
            r matches Some(i) ==> i as int == index_of(self.users@, caller@) && i < self.users@.len(),
    {
        let r = find_user(&self.users, caller);
        proof {
            if let Some(i) = r {
                lemma_index_of_unique(self.users@, caller@, i as int);
            }
        }
        r
    }

    /// Adds `deposit` to the caller's deposit.
    pub fn topup(&mut self, caller: &String, deposit: u128) -> (r: Result<(), DcaError>)
        requires
            old(self).wf(),
        ensures
            final(self).wf(),
            r == topup_result(*old(self), caller@, deposit),
            r is Err ==> *final(self) == *old(self),
            r is Ok ==> {
                let i = index_of(old(self).users@, caller@);
                let (u, v) = (old(self).users@[i], final(self).users@[i]);
                &&& final(self).same_settings(*old(self))
                &&& only_changed_at(old(self).users@, final(self).users@, i)
                &&& same_schedule(u, v)
                &&& v.pause == u.pause
                &&& v.total_swapped == u.total_swapped
                &&& v.amount == u.amount + deposit
            },
    {
        if deposit == 0 {
            return Err(DcaError::InvalidAmount);
        }
        let i = match self.locate(caller) {
            Some(i) => i,
            None => {
                return Err(DcaError::NotRegistered);
            },
        };
        if self.users[i].amount > u128::MAX - deposit {
            return Err(DcaError::IntegrityFault);
        }
        let ghost before = self.users@;
        self.users[i].amount = self.users[i].amount + deposit;
        proof {
            self.lemma_wf_after_edit(before, i as int);
        }
        Ok(())
    }

    /// Editing one record without touching its account or its per-cycle
    /// amount keeps the invariant.
    proof fn lemma_wf_after_edit(&self, before: Seq<User>, i: int)
        requires
            wallets_distinct(before),
            amounts_positive(before),
            0 <= i < before.len(),
            only_changed_at(before, self.users@, i),
            self.users@[i].wallet == before[i].wallet,
            self.users@[i].amount_per_swap == before[i].amount_per_swap,
        ensures
            wallets_distinct(self.users@),
            amounts_positive(self.users@),
    {
        assert forall|a: int, b: int|
            0 <= a < self.users@.len() && 0 <= b < self.users@.len() && a != b implies #[trigger] self.users@[a].wallet@
            != #[trigger] self.users@[b].wallet@ by {
            assert(self.users@[a].wallet == before[a].wallet);
            assert(self.users@[b].wallet == before[b].wallet);
        }
        assert forall|a: int| 0 <= a < self.users@.len() implies #[trigger] self.users@[a].amount_per_swap > 0 by {
            assert(self.users@[a].amount_per_swap == before[a].amount_per_swap);
        }
    }

    /// Takes `amount` from the caller's deposit; the host then transfers it
    /// to the caller. The balance is debited before the transfer starts.
    pub fn withdraw_near(&mut self, caller: &String, amount: u128) -> (r: Result<(), DcaError>)
        requires
            old(self).wf(),
        ensures
            final(self).wf(),
            r == withdraw_result(
                old(self).registered(caller@),
                old(self).user(caller@).amount,
                amount,
            ),
            r is Err ==> *final(self) == *old(self),
            r is Ok ==> {
                let i = index_of(old(self).users@, caller@);
                let (u, v) = (old(self).users@[i], final(self).users@[i]);
                &&& final(self).same_settings(*old(self))
                &&& only_changed_at(old(self).users@, final(self).users@, i)
                &&& same_schedule(u, v)
                &&& v.pause == u.pause
                &&& v.total_swapped == u.total_swapped
                &&& v.amount == u.amount - amount
            },
    {
        let i = match self.locate(caller) {
            Some(i) => i,
            None => {
                return Err(DcaError::NotRegistered);
            },
        };
        if amount > self.users[i].amount {
            return Err(DcaError::InsufficientBalance);
        }
        let ghost before = self.users@;
        self.users[i].amount = self.users[i].amount - amount;
        proof {
            self.lemma_wf_after_edit(before, i as int);
        }
        Ok(())
    }

    /// Takes `amount` from the caller's converted proceeds; the host then
    /// transfers that much of the token to the caller. The balance is
    /// debited before the transfer starts.
    pub fn withdraw_ft(&mut self, caller: &String, amount: u128) -> (r: Result<(), DcaError>)
        requires
            old(self).wf(),
        ensures
            final(self).wf(),
            r == withdraw_result(
                old(self).registered(caller@),
                old(self).user(caller@).total_swapped,
                amount,
            ),
            r is Err ==> *final(self) == *old(self),
            r is Ok ==> {
                let i = index_of(old(self).users@, caller@);
                let (u, v) = (old(self).users@[i], final(self).users@[i]);
                &&& final(self).same_settings(*old(self))
                &&& only_changed_at(old(self).users@, final(self).users@, i)
                &&& same_schedule(u, v)
                &&& v.pause == u.pause
                &&& v.amount == u.amount
                &&& v.total_swapped == u.total_swapped - amount
            },
    {
        let i = match self.locate(caller) {
            Some(i) => i,
            None => {
                return Err(DcaError::NotRegistered);
            },
        };
        if amount > self.users[i].total_swapped {
            return Err(DcaError::InsufficientBalance);
        }
        let ghost before = self.users@;
        self.users[i].total_swapped = self.users[i].total_swapped - amount;
        proof {
            self.lemma_wf_after_edit(before, i as int);
        }
        Ok(())
    }

    /// Continuation of a proceeds transfer; there is nothing to settle.
    pub fn callback_post_withdraw_reward() {
    }

    /// Sets the caller's pause flag to `flag`.
    fn set_pause(&mut self, caller: &String, flag: bool) -> (r: Result<(), DcaError>)
        requires
            old(self).wf(),
        ensures
            final(self).wf(),
            r == pause_result(*old(self), caller@, flag),
            r is Err ==> *final(self) == *old(self),
            r is Ok ==> paused_as(*old(self), *final(self), caller@, flag),
    {
        let i = match self.locate(caller) {
            Some(i) => i,
            None => {
                return Err(DcaError::NotRegistered);
            },
        };
        if self.users[i].pause == flag {
            return Err(DcaError::AlreadyInState);
        }
        let ghost before = self.users@;
        self.users[i].pause = flag;
        proof {
            self.lemma_wf_after_edit(before, i as int);
        }
        Ok(())
    }

    /// Pauses the caller: it is not selected until it resumes.
    pub fn pause(&mut self, caller: &String) -> (r: Result<(), DcaError>)
        requires
            old(self).wf(),
        ensures
            final(self).wf(),
            r == pause_result(*old(self), caller@, true),
            r is Err ==> *final(self) == *old(self),
            r is Ok ==> paused_as(*old(self), *final(self), caller@, true),
    {
        self.set_pause(caller, true)
    }

    /// Resumes a paused caller.
    pub fn resume(&mut self, caller: &String) -> (r: Result<(), DcaError>)
        requires
            old(self).wf(),
        ensures
            final(self).wf(),
            r == pause_result(*old(self), caller@, false),
            r is Err ==> *final(self) == *old(self),
            r is Ok ==> paused_as(*old(self), *final(self), caller@, false),
    {
        self.set_pause(caller, false)
    }

    /// Drains both of the caller's balances and deletes its record. Returns
    /// the deposit and the proceeds that the host must transfer to the caller.
    pub fn remove_user(&mut self, caller: &String) -> (r: Result<(u128, u128), DcaError>)
        requires
            old(self).wf(),
        ensures
            final(self).wf(),
            r is Err <==> !old(self).registered(caller@),
            r matches Err(e) ==> e == DcaError::NotRegistered && *final(self) == *old(self),
            r matches Ok((deposit, proceeds)) ==> {
                let i = index_of(old(self).users@, caller@);
                &&& deposit == old(self).users@[i].amount
                &&& proceeds == old(self).users@[i].total_swapped
                &&& final(self).same_settings(*old(self))
                &&& final(self).users@ == old(self).users@.remove(i)
                &&& !final(self).registered(caller@)
            },
    {
        let i = match self.locate(caller) {
            Some(i) => i,
            None => {
                return Err(DcaError::NotRegistered);
            },
        };
        let ghost before = self.users@;
        let u = self.users.remove(i);
        proof {
            assert forall|a: int, b: int|
                0 <= a < self.users@.len() && 0 <= b < self.users@.len() && a != b implies #[trigger] self.users@[a].wallet@
                != #[trigger] self.users@[b].wallet@ by {
                let a0 = if a < i { a } else { a + 1 };
                let b0 = if b < i { b } else { b + 1 };
                assert(self.users@[a] == before[a0]);
                assert(self.users@[b] == before[b0]);
            }
            assert forall|a: int| 0 <= a < self.users@.len() implies #[trigger] self.users@[a].amount_per_swap > 0 by {
                let a0 = if a < i { a } else { a + 1 };
                assert(self.users@[a] == before[a0]);
            }
            if is_registered(self.users@, caller@) {
                let k = choose|k: int| 0 <= k < self.users@.len() && #[trigger] self.users@[k].wallet@ == caller@;
                let k0 = if k < i { k } else { k + 1 };
                assert(self.users@[k] == before[k0]);
                assert(before[i as int].wallet@ == caller@);
            }
        }
        Ok((u.amount, u.total_swapped))
    }

    /// Starts a settlement run at `now`: selects the due participants,
    /// records the batch as in flight, and returns the net amount that the
    /// host must send to the conversion stage. An empty selection changes
    /// nothing and returns `None`.
    pub fn swap(&mut self, caller: &String, now: u64) -> (r: Result<Option<u128>, DcaError>)
        requires
            old(self).wf(),
        ensures
            final(self).wf(),
            r is Ok <==> swap_allowed(*old(self), caller@, now),
            caller@ != old(self).owner@ ==> r == Err::<Option<u128>, DcaError>(DcaError::Unauthorized),
            caller@ == old(self).owner@ && old(self).pending is Some ==> r == Err::<Option<u128>, DcaError>(
                DcaError::RunInProgress,
            ),
            caller@ == old(self).owner@ && old(self).pending is None && amounts_sum(
                old(self).users@,
                selection(old(self).users@, now, old(self).batch_swap_threshold as nat),
            ) > u128::MAX ==> r == Err::<Option<u128>, DcaError>(DcaError::IntegrityFault),
            r is Err ==> *final(self) == *old(self),
            r matches Ok(None) ==> *final(self) == *old(self) && selection(
                old(self).users@,
                now,
                old(self).batch_swap_threshold as nat,
            ).len() == 0,
            r matches Ok(Some(net)) ==> {
                &&& selection(old(self).users@, now, old(self).batch_swap_threshold as nat).len() > 0
                &&& final(self).users@ == old(self).users@
                &&& final(self).same_config(*old(self))
                &&& final(self).pending matches Some(b) && selected_batch(*old(self), now, b)
                    && b.batch_amount_total == net
            },
    {
        if *caller != self.owner {
            return Err(DcaError::Unauthorized);
        }
        if self.pending.is_some() {
            return Err(DcaError::RunInProgress);
        }
        let (wallets, amounts, total) = match select_batch(
            &self.users,
            now,
            self.batch_swap_threshold,
        ) {
            Ok(t) => t,
            Err(e) => {
                return Err(e);
            },
        };
        if wallets.len() == 0 {
            return Ok(None);
        }
        let net = net_amount(total, self.fees);
        let ghost sel = selection(self.users@, now, self.batch_swap_threshold as nat);
        let batch = Batch {
            batch_users: wallets,
            amounts,
            batch_amount: total,
            batch_amount_total: net,
        };
        proof {
            lemma_selection_shape(self.users@, now, self.batch_swap_threshold as nat);
            lemma_gathered_sum(self.users@, sel, batch.amounts@);
            lemma_seq_sum_bounds(batch.amounts@);
            assert(batch.amounts@[0] > 0);
            assert forall|a: int, b: int|
                0 <= a < batch.batch_users@.len() && 0 <= b < batch.batch_users@.len() && a != b
                    implies #[trigger] batch.wallet_at(a) != #[trigger] batch.wallet_at(b) by {
                assert(sel[a] != sel[b]) by {
                    if a < b {
                        assert(sel[a] < sel[b]);
                    } else {
                        assert(sel[b] < sel[a]);
                    }
                }
            }
        }
        self.pending = Some(batch);
        Ok(Some(net))
    }

    /// Continuation of the conversion stage. On success the run goes on, and
    /// the host must send the returned net amount to the exchange; on
    /// failure the run is dropped and the ledger is untouched.
    pub fn callback_post_wrap(&mut self, wrap_ok: bool) -> (r: Result<u128, DcaError>)
        requires
            old(self).wf(),
        ensures
            final(self).wf(),
            final(self).users@ == old(self).users@,
            final(self).same_config(*old(self)),
            old(self).pending is None ==> r == Err::<u128, DcaError>(DcaError::IntegrityFault) && *final(self)
                == *old(self),
            old(self).pending matches Some(b) ==> if wrap_ok {
                r == Ok::<u128, DcaError>(b.batch_amount_total) && *final(self) == *old(self)
            } else {
                r == Err::<u128, DcaError>(DcaError::ExternalStageFailed) && final(self).pending is None
            },
    {
        match &self.pending {
            None => Err(DcaError::IntegrityFault),
            Some(b) => {
                if wrap_ok {
                    Ok(b.batch_amount_total)
                } else {
                    self.pending = None;
                    Err(DcaError::ExternalStageFailed)
                }
            },
        }
    }

    /// Continuation of the exchange stage, at time `now`. On success each
    /// selected participant is settled in one step and their new converted
    /// balances are returned in selection order; on failure the run is
    /// dropped and the ledger is untouched. A batch that can no longer be
    /// committed (a record gone, short of its cycle, or without room for its
    /// share) ends the run with an integrity fault and an untouched ledger.
    pub fn callback_post_swap(&mut self, swap_ok: bool, now: u64) -> (r: Result<
        Vec<u128>,
        DcaError,
    >)
        requires
            old(self).wf(),
        ensures
            final(self).wf(),
            final(self).same_config(*old(self)),
            old(self).pending is None ==> r == Err::<Vec<u128>, DcaError>(DcaError::IntegrityFault) && *final(self)
                == *old(self),
            old(self).pending matches Some(b) ==> {
                &&& !swap_ok ==> r == Err::<Vec<u128>, DcaError>(DcaError::ExternalStageFailed) && final(self).pending is None
                    && final(self).users@ == old(self).users@
                &&& swap_ok && !b.commit_ready(old(self).users@) ==> r == Err::<Vec<u128>, DcaError>(
                    DcaError::IntegrityFault,
                ) && final(self).pending is None && final(self).users@ == old(self).users@
                &&& swap_ok && b.commit_ready(old(self).users@) ==> r is Ok
            },
            r matches Ok(balances) ==> old(self).pending matches Some(b) && {
                let (before, after) = (old(self).users@, final(self).users@);
                &&& final(self).pending is None
                &&& balances@.len() == b.batch_users@.len()
                &&& forall|j: int|
                    0 <= j < balances@.len() ==> #[trigger] balances@[j] == after[index_of(
                        before,
                        b.wallet_at(j),
                    )].total_swapped
                &&& after.len() == before.len()
                &&& forall|j: int|
                    0 <= j < b.batch_users@.len() ==> settled(
                        before[index_of(before, #[trigger] b.wallet_at(j))],
                        after[index_of(before, b.wallet_at(j))],
                        b.amounts@[j] as int,
                        b.share(j),
                        now,
                    )
                &&& forall|p: int|
                    0 <= p < before.len() && !b.contains(#[trigger] before[p].wallet@)
                        ==> after[p] == before[p]
            },
    {
        let batch = match self.pending.take() {
            None => {
                return Err(DcaError::IntegrityFault);
            },
            Some(b) => b,
        };
        if !swap_ok {
            return Err(DcaError::ExternalStageFailed);
        }
        let (idxs, shares) = match plan_commit(&self.users, &batch) {
            None => {
                return Err(DcaError::IntegrityFault);
            },
            Some(plan) => plan,
        };
        let ghost before = self.users@;
        apply_commit(&mut self.users, &batch, &idxs, &shares, now);
        proof {
            assert forall|p: int| 0 <= p < before.len() implies (#[trigger] self.users@[p]).wallet
                == before[p].wallet && self.users@[p].amount_per_swap
                == before[p].amount_per_swap by {
                if batch.contains(before[p].wallet@) {
                    let j = choose|j: int|
                        0 <= j < batch.batch_users@.len() && batch.wallet_at(j) == before[p].wallet@;
                    lemma_index_of_unique(before, batch.wallet_at(j), p);
                }
            }
            lemma_same_keys(before, self.users@);
        }
        let ghost after = self.users@;
        let mut balances: Vec<u128> = Vec::new();
        let mut j: usize = 0;
        while j < idxs.len()
            invariant
                self.users@ == after,
                after.len() == before.len(),
                idxs@.len() == batch.batch_users@.len(),
                j <= idxs@.len(),
                balances@.len() == j,
                forall|k: int|
                    0 <= k < idxs@.len() ==> #[trigger] idxs@[k] as int == index_of(
                        before,
                        batch.wallet_at(k),
                    ) && idxs@[k] < before.len(),
                forall|k: int|
                    0 <= k < j ==> #[trigger] balances@[k] == after[index_of(
                        before,
                        batch.wallet_at(k),
                    )].total_swapped,
            decreases idxs@.len() - j,
        {
            balances.push(self.users[idxs[j]].total_swapped);
            j = j + 1;
        }
        Ok(balances)
    }

    /// Sets the batch capacity; owner only.
    pub fn set_batch_swap_threshold(&mut self, caller: &String, new_threshold: u8) -> (r: Result<(), DcaError>)
        requires
            old(self).wf(),
        ensures
            final(self).wf(),
            r is Ok <==> caller@ == old(self).owner@,
            r matches Err(e) ==> e == DcaError::Unauthorized && *final(self) == *old(self),
            r is Ok ==> final(self).batch_swap_threshold == new_threshold && final(self).users@
                == old(self).users@ && final(self).pending == old(self).pending
                && final(self).pool_address == old(self).pool_address && final(self).fees
                == old(self).fees && final(self).same_identities(*old(self)),
    {
        if *caller != self.owner {
            return Err(DcaError::Unauthorized);
        }
        self.batch_swap_threshold = new_threshold;
        Ok(())
    }

    /// The batch capacity.
    pub fn get_batch_swap_threshold(&self) -> (r: u8)
        ensures
            r == self.batch_swap_threshold,
    {
        self.batch_swap_threshold
    }

    /// Sets the exchange account; owner only.
    pub fn set_pool_address(&mut self, caller: &String, new_pool_address: String) -> (r: Result<(), DcaError>)
        requires
            old(self).wf(),
        ensures
            final(self).wf(),
            r is Ok <==> caller@ == old(self).owner@,
            r matches Err(e) ==> e == DcaError::Unauthorized && *final(self) == *old(self),
            r is Ok ==> final(self).pool_address == new_pool_address && final(self).users@
                == old(self).users@ && final(self).pending == old(self).pending
                && final(self).batch_swap_threshold == old(self).batch_swap_threshold
                && final(self).fees == old(self).fees && final(self).same_identities(*old(self)),
    {
        if *caller != self.owner {
            return Err(DcaError::Unauthorized);
        }
        self.pool_address = new_pool_address;
        Ok(())
    }

    /// The exchange account.
    pub fn get_pool_address(&self) -> (r: String)
        ensures
            r == self.pool_address,
    {
        self.pool_address.clone()
    }

    /// Sets the fee rate in percent; owner only, and at most 100.
    pub fn set_fees(&mut self, caller: &String, new_fees: u8) -> (r: Result<(), DcaError>)
        requires
            old(self).wf(),
        ensures
            final(self).wf(),
            caller@ != old(self).owner@ ==> r == Err::<(), DcaError>(DcaError::Unauthorized),
            caller@ == old(self).owner@ && new_fees > MAX_FEE_RATE ==> r == Err::<(), DcaError>(
                DcaError::InvalidAmount,
            ),
            r is Err ==> *final(self) == *old(self),
            r is Ok ==> final(self).fees == new_fees && final(self).users@ == old(self).users@
                && final(self).pending == old(self).pending && final(self).batch_swap_threshold
                == old(self).batch_swap_threshold && final(self).pool_address
                == old(self).pool_address && final(self).same_identities(*old(self)),
            r is Ok <==> caller@ == old(self).owner@ && new_fees <= MAX_FEE_RATE,
    {
        if *caller != self.owner {
            return Err(DcaError::Unauthorized);
        }
        if new_fees > MAX_FEE_RATE {
            return Err(DcaError::InvalidAmount);
        }
        self.fees = new_fees;
        Ok(())
    }

    /// The fee rate in percent.
    pub fn get_fees(&self) -> (r: u8)
        ensures
            r == self.fees,
    {
        self.fees
    }

    /// The instruction for the exchange stage: swap `amount_in` of the
    /// wrapped asset for the target token on the configured pool.
    pub fn swap_instruction(&self, amount_in: u128, min_amount_out: u128) -> (r: String)
        ensures
            r@ == swap_message(
                self.pool_id as nat,
                self.wrap_account@,
                self.token_address@,
                amount_in as nat,
                min_amount_out as nat,
            ),
    {
        render_swap_message(
            self.pool_id,
            &self.wrap_account,
            &self.token_address,
            amount_in,
            min_amount_out,
        )
    }

    /// The caller's record.
    pub fn get_user(&self, caller: &String) -> (r: Result<User, DcaError>)
        requires
            self.wf(),
        ensures
            r is Ok <==> self.registered(caller@),
            r matches Ok(u) ==> u == self.user(caller@),
            r matches Err(e) ==> e == DcaError::NotRegistered,
    {
        match self.locate(caller) {
            Some(i) => Ok(self.users[i].copy()),
            None => Err(DcaError::NotRegistered),
        }
    }
}

} // verus!
