//! Selection of the participants due in a settlement run.
use vstd::prelude::*;
use crate::ledger::User;

verus! {

/// A participant is due at `now`: not paused, its interval has elapsed since
/// its last conversion, and its deposit covers one cycle.
pub open spec fn eligible(u: User, now: u64) -> bool {
    !u.pause && now as int >= u.last_swap_timestamp as int + u.swap_interval as int
        && u.amount >= u.amount_per_swap
}

/// Positions of the selected records: the first `cap` eligible ones, in
/// registration order.
pub open spec fn selection(users: Seq<User>, now: u64, cap: nat) -> Seq<int>
    decreases users.len(),
{
    if users.len() == 0 {
        Seq::empty()
    } else {
        let prev = selection(users.drop_last(), now, cap);
        if prev.len() < cap && eligible(users.last(), now) {
            prev.push(users.len() - 1)
        } else {
            prev
        }
    }
}

/// Sum of the per-cycle amounts of the records at `sel`.
pub open spec fn amounts_sum(users: Seq<User>, sel: Seq<int>) -> int
    decreases sel.len(),
{
    if sel.len() == 0 {
        0
    } else {
        amounts_sum(users, sel.drop_last()) + users[sel.last()].amount_per_swap
    }
}

/// The selection is increasing, in range, of eligible records, and within `cap`.
pub proof fn lemma_selection_shape(users: Seq<User>, now: u64, cap: nat)
    ensures
        selection(users, now, cap).len() <= cap,
        selection(users, now, cap).len() <= users.len(),
        forall|j: int|
            0 <= j < selection(users, now, cap).len() ==> 0 <= #[trigger] selection(
                users,
                now,
                cap,
            )[j] < users.len() && eligible(users[selection(users, now, cap)[j]], now),
        forall|a: int, b: int|
            0 <= a < b < selection(users, now, cap).len() ==> #[trigger] selection(
                users,
                now,
                cap,
            )[a] < #[trigger] selection(users, now, cap)[b],
    decreases users.len(),
{
    if users.len() > 0 {
        let pre = users.drop_last();
        lemma_selection_shape(pre, now, cap);
        let prev = selection(pre, now, cap);
        assert forall|j: int| 0 <= j < prev.len() implies users[prev[j]] == pre[prev[j]] by {}
    }
}

/// The selection of a prefix is a prefix of the selection.
pub proof fn lemma_selection_prefix(users: Seq<User>, now: u64, cap: nat, k: int)
    requires
        0 <= k <= users.len(),
    ensures
        selection(users.take(k), now, cap).len() <= selection(users, now, cap).len(),
        selection(users, now, cap).take(selection(users.take(k), now, cap).len() as int)
            == selection(users.take(k), now, cap),
    decreases users.len() - k,
{
    if k == users.len() {
        assert(users.take(k) =~= users);
        assert(selection(users, now, cap).take(selection(users, now, cap).len() as int)
            =~= selection(users, now, cap));
    } else {
        lemma_selection_prefix(users, now, cap, k + 1);
        let small = users.take(k);
        let big = users.take(k + 1);
        assert(big.drop_last() =~= small);
        let s = selection(users, now, cap);
        let sb = selection(big, now, cap);
        let ss = selection(small, now, cap);
        assert(s.take(ss.len() as int) =~= sb.take(ss.len() as int));
        assert(sb.take(ss.len() as int) =~= ss);
    }
}

/// A longer prefix of a selection sums to no less.
pub proof fn lemma_amounts_sum_prefix(users: Seq<User>, sel: Seq<int>, k: int)
    requires
        0 <= k <= sel.len(),
    ensures
        amounts_sum(users, sel.take(k)) <= amounts_sum(users, sel),
    decreases sel.len() - k,
{
    if k < sel.len() {
        lemma_amounts_sum_prefix(users, sel, k + 1);
        assert(sel.take(k + 1).drop_last() =~= sel.take(k));
    } else {
        assert(sel.take(k) =~= sel);
    }
}

/// Whether `u` is due at `now`.
pub fn is_eligible(u: &User, now: u64) -> (r: bool)
    ensures
        r == eligible(*u, now),
{
    !u.pause && now >= u.last_swap_timestamp && now - u.last_swap_timestamp >= u.swap_interval
        && u.amount >= u.amount_per_swap
}

/// Scans the records in order and picks the first `cap` eligible ones,
/// returning their accounts, their per-cycle amounts and the sum of those.
/// Fails with `IntegrityFault` when that sum does not fit.
pub fn select_batch(users: &Vec<User>, now: u64, cap: u8) -> (r: Result<
    (Vec<String>, Vec<u128>, u128),
    crate::ledger::DcaError,
>)
    ensures
        match r {
            Ok((wallets, amounts, total)) => {
                let sel = selection(users@, now, cap as nat);
                &&& wallets@.len() == sel.len()
                &&& amounts@.len() == sel.len()
                &&& forall|j: int|
                    0 <= j < sel.len() ==> (#[trigger] wallets@[j])@ == users@[sel[j]].wallet@
                &&& forall|j: int|
                    0 <= j < sel.len() ==> #[trigger] amounts@[j] == users@[sel[j]].amount_per_swap
                &&& total == amounts_sum(users@, sel)
            },
            Err(e) => e == crate::ledger::DcaError::IntegrityFault && amounts_sum(
                users@,
                selection(users@, now, cap as nat),
            ) > u128::MAX,
        },
{
    let mut wallets: Vec<String> = Vec::new();
    let mut amounts: Vec<u128> = Vec::new();
    let mut total: u128 = 0;
    let ghost full = users@;
    let ghost mut sel: Seq<int> = Seq::empty();
    let mut i: usize = 0;
    while i < users.len()
        invariant
            i <= full.len(),
            full == users@,
            sel == selection(full.take(i as int), now, cap as nat),
            wallets@.len() == sel.len(),
            amounts@.len() == sel.len(),
            forall|j: int| 0 <= j < sel.len() ==> (#[trigger] wallets@[j])@ == full[sel[j]].wallet@,
            forall|j: int|
                0 <= j < sel.len() ==> #[trigger] amounts@[j] == full[sel[j]].amount_per_swap,
            total == amounts_sum(full, sel),
        decreases full.len() - i,
    {
        let ghost pre = full.take(i as int);
        let ghost next = full.take(i as int + 1);
        proof {
            assert(next.drop_last() =~= pre);
            assert(next.last() == full[i as int]);
        }
        let u = &users[i];
        if wallets.len() < cap as usize && is_eligible(u, now) {
            let ghost sn = sel.push(i as int);
            proof {
                assert(selection(next, now, cap as nat) == sn);
                assert(sn.drop_last() =~= sel);
                assert(amounts_sum(full, sn) == total + full[i as int].amount_per_swap);
            }
            if total > u128::MAX - u.amount_per_swap {
                proof {
                    lemma_selection_prefix(full, now, cap as nat, i as int + 1);
                    let s = selection(full, now, cap as nat);
                    lemma_amounts_sum_prefix(full, s, sn.len() as int);
                    assert(s.take(sn.len() as int) == sn);
                }
                return Err(crate::ledger::DcaError::IntegrityFault);
            }
            total = total + u.amount_per_swap;
            let ghost old_wallets = wallets@;
            let ghost old_amounts = amounts@;
            wallets.push(u.wallet.clone());
            amounts.push(u.amount_per_swap);
            let ghost old_sel = sel;
            proof {
                sel = sn;
                assert forall|j: int| 0 <= j < sel.len() implies (#[trigger] wallets@[j])@
                    == full[sel[j]].wallet@ && amounts@[j] == full[sel[j]].amount_per_swap by {
                    if j < old_sel.len() {
                        assert(wallets@[j] == old_wallets[j]);
                        assert(amounts@[j] == old_amounts[j]);
                        assert(sel[j] == old_sel[j]);
                    } else {
                        assert(sel[j] == i as int);
                        assert(wallets@[j] == u.wallet);
                    }
                }
            }
        } else {
            proof {
                assert(selection(next, now, cap as nat) == sel);
            }

        }
        i = i + 1;
    }
    proof {
        assert(full.take(full.len() as int) =~= full);
    }
    Ok((wallets, amounts, total))
}

} // verus!
