//! Properties of the scheduler that relate several operations or hold of
//! every run.
use vstd::prelude::*;
use crate::arith::{net_of, share_of, MAX_FEE_RATE};
use crate::contract::{pause_result, paused_as, same_schedule, Contract};
use crate::ledger::{index_of, lemma_index_of_unique, DcaError, User};
use crate::selector::{eligible, lemma_selection_shape, selection};
use crate::settlement::{seq_sum, settled, Batch};

verus! {

/// Sum of the pro-rata shares of `net` for the given amounts out of `total`.
pub open spec fn shares_sum(amounts: Seq<u128>, net: int, total: int) -> int
    decreases amounts.len(),
{
    if amounts.len() == 0 {
        0
    } else {
        shares_sum(amounts.drop_last(), net, total) + share_of(amounts.last() as int, net, total)
    }
}

proof fn lemma_shares_bracket(amounts: Seq<u128>, net: int, total: int)
    requires
        total > 0,
        net >= 0,
    ensures
        shares_sum(amounts, net, total) * total <= seq_sum(amounts) * net,
        seq_sum(amounts) * net < (shares_sum(amounts, net, total) + amounts.len()) * total
            || amounts.len() == 0,
        shares_sum(amounts, net, total) >= 0,
    decreases amounts.len(),
{
    if amounts.len() > 0 {
        let pre = amounts.drop_last();
        lemma_shares_bracket(pre, net, total);
        let a = amounts.last() as int;
        let s = share_of(a, net, total);
        let sp = shares_sum(pre, net, total);
        let tp = seq_sum(pre);
        vstd::arithmetic::div_mod::lemma_fundamental_div_mod(a * net, total);
        vstd::arithmetic::div_mod::lemma_mod_bound(a * net, total);
        assert(a * net >= 0) by (nonlinear_arith)
            requires
                a >= 0,
                net >= 0,
        ;
        vstd::arithmetic::div_mod::lemma_div_pos_is_pos(a * net, total);
        assert(s * total <= a * net < (s + 1) * total) by (nonlinear_arith)
            requires
                a * net == total * s + (a * net) % total,
                0 <= (a * net) % total < total,
        ;
        let n = pre.len() as int;
        assert((sp + s) * total <= (tp + a) * net) by (nonlinear_arith)
            requires
                sp * total <= tp * net,
                s * total <= a * net,
        ;
        if n == 0 {
            assert(sp == 0 && tp == 0);
            assert((tp + a) * net < (sp + s + n + 1) * total) by (nonlinear_arith)
                requires
                    sp == 0,
                    tp == 0,
                    n == 0,
                    a * net < (s + 1) * total,
            ;
        } else {
            assert((tp + a) * net < (sp + s + n + 1) * total) by (nonlinear_arith)
                requires
                    tp * net < (sp + n) * total,
                    a * net < (s + 1) * total,
            ;
        }
    }
}

/// Conservation: the shares handed out for a batch never exceed the net
/// amount, and rounding leaves less than one unit per participant
/// unassigned.
pub proof fn lemma_conservation(amounts: Seq<u128>, net: int, total: int)
    requires
        total > 0,
        seq_sum(amounts) == total,
        0 <= net <= total,
    ensures
        0 <= shares_sum(amounts, net, total) <= net,
        net - shares_sum(amounts, net, total) < amounts.len(),
{
    lemma_shares_bracket(amounts, net, total);
    let s = shares_sum(amounts, net, total);
    assert(s <= net) by (nonlinear_arith)
        requires
            s * total <= total * net,
            total > 0,
    ;
    if amounts.len() == 0 {
        assert(seq_sum(amounts) == 0);
    }
    assert(net < s + amounts.len()) by (nonlinear_arith)
        requires
            total * net < (s + amounts.len()) * total,
            total > 0,
    ;
}

/// The fee never takes more than the amount: `0 <= net <= gross`.
pub proof fn lemma_net_within_gross(gross: int, rate: int)
    requires
        gross >= 0,
        0 <= rate <= MAX_FEE_RATE,
    ensures
        0 <= net_of(gross, rate) <= gross,
{
    assert(0 <= gross * rate <= gross * 100) by (nonlinear_arith)
        requires
            gross >= 0,
            0 <= rate <= 100,
    ;
    vstd::arithmetic::div_mod::lemma_div_pos_is_pos(gross * rate, 100);
    assert((gross * rate) / 100 <= (gross * 100) / 100) by {
        vstd::arithmetic::div_mod::lemma_div_is_ordered(gross * rate, gross * 100, 100);
    }
    vstd::arithmetic::div_mod::lemma_div_multiples_vanish(gross, 100);
}

/// Conservation of a confirmed run: the shares that a commit returns, in
/// selection order, sum to at most the batch's net amount, leave less than
/// one unit per participant, and the net amount is within the batch's total.
pub proof fn lemma_run_conserves_value(b: Batch, shares: Seq<u128>)
    requires
        b.wf(),
        shares.len() == b.batch_users@.len(),
        forall|j: int| 0 <= j < shares.len() ==> #[trigger] shares[j] == b.share(j),
    ensures
        seq_sum(shares) <= b.batch_amount_total,
        b.batch_amount_total - seq_sum(shares) < shares.len(),
        b.batch_amount_total <= b.batch_amount,
{
    lemma_shares_match(b.amounts@, shares, b.batch_amount_total as int, b.batch_amount as int);
    lemma_conservation(b.amounts@, b.batch_amount_total as int, b.batch_amount as int);
}

/// What a commit credited to each batch member, in selection order.
pub open spec fn credited(b: Batch, before: Seq<User>, after: Seq<User>) -> Seq<u128> {
    Seq::new(
        b.batch_users@.len(),
        |j: int|
            (after[index_of(before, b.wallet_at(j))].total_swapped - before[index_of(
                before,
                b.wallet_at(j),
            )].total_swapped) as u128,
    )
}

/// Conservation over the ledger: the converted balances that a confirmed
/// run raises grow, in all, by at most the batch's net amount, and by less
/// than one unit per participant below it.
pub proof fn lemma_commit_conserves_value(b: Batch, before: Seq<User>, after: Seq<User>, now: u64)
    requires
        b.wf(),
        forall|j: int|
            0 <= j < b.batch_users@.len() ==> settled(
                before[index_of(before, #[trigger] b.wallet_at(j))],
                after[index_of(before, b.wallet_at(j))],
                b.amounts@[j] as int,
                b.share(j),
                now,
            ),
    ensures
        seq_sum(credited(b, before, after)) <= b.batch_amount_total,
        b.batch_amount_total - seq_sum(credited(b, before, after)) < b.batch_users@.len(),
        b.batch_amount_total <= b.batch_amount,
{
    let c = credited(b, before, after);
    assert forall|j: int| 0 <= j < c.len() implies #[trigger] c[j] == b.share(j) by {
        let w = b.wallet_at(j);
        assert(settled(
            before[index_of(before, w)],
            after[index_of(before, w)],
            b.amounts@[j] as int,
            b.share(j),
            now,
        ));
    }
    lemma_run_conserves_value(b, c);
}

proof fn lemma_shares_match(amounts: Seq<u128>, shares: Seq<u128>, net: int, total: int)
    requires
        shares.len() == amounts.len(),
        forall|j: int|
            0 <= j < shares.len() ==> #[trigger] shares[j] == share_of(amounts[j] as int, net, total),
    ensures
        seq_sum(shares) == shares_sum(amounts, net, total),
    decreases shares.len(),
{
    if shares.len() > 0 {
        let (s2, a2) = (shares.drop_last(), amounts.drop_last());
        assert forall|j: int| 0 <= j < s2.len() implies #[trigger] s2[j] == share_of(
            a2[j] as int,
            net,
            total,
        ) by {
            assert(s2[j] == shares[j]);
            assert(a2[j] == amounts[j]);
        }
        lemma_shares_match(a2, s2, net, total);
    }
}

/// A participant settled at time `t` is not selected again until its
/// interval has elapsed since `t`, whatever happens to its balances and pause
/// flag in between.
pub proof fn lemma_no_reselection_before_interval(
    before: User,
    after: User,
    amount: int,
    share: int,
    t: u64,
    users: Seq<User>,
    p: int,
    now: u64,
    cap: nat,
)
    requires
        settled(before, after, amount, share, t),
        0 <= p < users.len(),
        same_schedule(after, users[p]),
        selection(users, now, cap).contains(p),
    ensures
        now as int >= t as int + before.swap_interval as int,
{
    lemma_selection_shape(users, now, cap);
    let sel = selection(users, now, cap);
    let j = choose|j: int| 0 <= j < sel.len() && sel[j] == p;
    assert(eligible(users[sel[j]], now));
}

/// Pausing twice in a row fails the second time with `AlreadyInState`.
pub proof fn lemma_pause_twice(c1: Contract, c2: Contract, w: Seq<char>)
    requires
        c1.wf(),
        c2.wf(),
        pause_result(c1, w, true) is Ok,
        paused_as(c1, c2, w, true),
    ensures
        pause_result(c2, w, true) == Err::<(), DcaError>(DcaError::AlreadyInState),
{
    lemma_flag_set(c1, c2, w, true);
}

/// Resuming twice in a row fails the second time with `AlreadyInState`.
pub proof fn lemma_resume_twice(c1: Contract, c2: Contract, w: Seq<char>)
    requires
        c1.wf(),
        c2.wf(),
        pause_result(c1, w, false) is Ok,
        paused_as(c1, c2, w, false),
    ensures
        pause_result(c2, w, false) == Err::<(), DcaError>(DcaError::AlreadyInState),
{
    lemma_flag_set(c1, c2, w, false);
}

proof fn lemma_flag_set(c1: Contract, c2: Contract, w: Seq<char>, flag: bool)
    requires
        c1.wf(),
        c2.wf(),
        c1.registered(w),
        paused_as(c1, c2, w, flag),
    ensures
        c2.registered(w),
        c2.user(w).pause == flag,
{
    let i = index_of(c1.users@, w);
    assert(c1.users@[i].wallet@ == w);
    assert(c2.users@[i].wallet == c1.users@[i].wallet);
    lemma_index_of_unique(c2.users@, w, i);
}

} // verus!
