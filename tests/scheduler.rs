use near_dca::arith::{net_amount, pro_rata_share};
use near_dca::contract::Contract;
use near_dca::ledger::DcaError;
use near_dca::message::render_swap_message;

fn s(x: &str) -> String {
    x.to_string()
}

fn new_contract(fees: u8) -> Contract {
    Contract::init(s("pool.near"), s("token.near"), s("owner.near"), fees, s("wrap.near"), 974)
}

fn run_ok(c: &mut Contract, now: u64) -> Vec<u128> {
    c.swap(&s("owner.near"), now).unwrap().expect("a non-empty batch");
    c.callback_post_wrap(true).unwrap();
    c.callback_post_swap(true, now).unwrap()
}

#[test]
fn sole_participant_waits_for_interval_then_settles() {
    let mut c = new_contract(0);
    c.register_user(&s("alice.near"), 100, 3600, 1000).unwrap();
    assert_eq!(c.swap(&s("owner.near"), 3599), Ok(None));
    assert!(c.pending.is_none());
    let net = c.swap(&s("owner.near"), 3600).unwrap().unwrap();
    assert_eq!(net, 100);
    assert_eq!(c.callback_post_wrap(true), Ok(100));
    let shares = c.callback_post_swap(true, 3600).unwrap();
    assert_eq!(shares, vec![100]);
    let u = c.get_user(&s("alice.near")).unwrap();
    assert_eq!(u.amount, 900);
    assert_eq!(u.last_swap_timestamp, 3600);
    assert_eq!(u.total_swapped, net);
    assert!(c.pending.is_none());
}

#[test]
fn sole_participant_gets_whole_net_after_fee() {
    let mut c = new_contract(5);
    c.register_user(&s("alice.near"), 100, 3600, 1000).unwrap();
    let shares = run_ok(&mut c, 5000);
    assert_eq!(shares, vec![95]);
    let u = c.get_user(&s("alice.near")).unwrap();
    assert_eq!(u.amount, 900);
    assert_eq!(u.total_swapped, 95);
    assert_eq!(u.last_swap_timestamp, 5000);
}

#[test]
fn two_participants_share_pro_rata() {
    let mut c = new_contract(5);
    c.register_user(&s("a.near"), 100, 10, 1000).unwrap();
    c.register_user(&s("b.near"), 300, 10, 1000).unwrap();
    assert_eq!(c.swap(&s("owner.near"), 10), Ok(Some(380)));
    let b = c.pending.as_ref().unwrap();
    assert_eq!(b.batch_amount, 400);
    assert_eq!(b.batch_amount_total, 380);
    c.callback_post_wrap(true).unwrap();
    let shares = c.callback_post_swap(true, 10).unwrap();
    assert_eq!(shares, vec![95, 285]);
    let sum: u128 = shares.iter().sum();
    assert!(sum <= 380);
    assert!(380 - sum < shares.len() as u128);
    assert_eq!(c.get_user(&s("a.near")).unwrap().amount, 900);
    assert_eq!(c.get_user(&s("b.near")).unwrap().amount, 700);
}

#[test]
fn rounding_leaves_less_than_one_unit_each() {
    let mut c = new_contract(10);
    c.register_user(&s("a.near"), 7, 1, 100).unwrap();
    c.register_user(&s("b.near"), 11, 1, 100).unwrap();
    c.register_user(&s("c.near"), 13, 1, 100).unwrap();
    let net = c.swap(&s("owner.near"), 1).unwrap().unwrap();
    assert_eq!(net, 28);
    c.callback_post_wrap(true).unwrap();
    let shares = c.callback_post_swap(true, 1).unwrap();
    assert_eq!(shares, vec![6, 9, 11]);
    let sum: u128 = shares.iter().sum();
    assert!(sum <= net);
    assert!(net - sum < 3);
}

#[test]
fn capacity_one_selects_first_registered() {
    let mut c = new_contract(0);
    c.register_user(&s("a.near"), 10, 5, 100).unwrap();
    c.register_user(&s("b.near"), 20, 5, 100).unwrap();
    c.register_user(&s("c.near"), 30, 5, 100).unwrap();
    c.set_batch_swap_threshold(&s("owner.near"), 1).unwrap();
    assert_eq!(c.swap(&s("owner.near"), 5), Ok(Some(10)));
    assert_eq!(c.pending.as_ref().unwrap().batch_users, vec![s("a.near")]);
    c.callback_post_wrap(true).unwrap();
    assert_eq!(c.callback_post_swap(true, 5), Ok(vec![10]));
    assert_eq!(c.get_user(&s("b.near")).unwrap().amount, 100);
    assert_eq!(c.get_user(&s("c.near")).unwrap().amount, 100);
    // B is first among those still due
    assert_eq!(c.swap(&s("owner.near"), 5), Ok(Some(20)));
    assert_eq!(c.pending.as_ref().unwrap().batch_users, vec![s("b.near")]);
}

#[test]
fn paused_and_underfunded_are_skipped() {
    let mut c = new_contract(0);
    c.register_user(&s("a.near"), 10, 0, 100).unwrap();
    c.register_user(&s("b.near"), 50, 0, 60).unwrap();
    c.register_user(&s("c.near"), 5, 0, 100).unwrap();
    c.pause(&s("a.near")).unwrap();
    c.withdraw_near(&s("b.near"), 20).unwrap();
    assert_eq!(c.swap(&s("owner.near"), 0), Ok(Some(5)));
    assert_eq!(c.pending.as_ref().unwrap().batch_users, vec![s("c.near")]);
}

#[test]
fn pause_and_resume_twice_fail() {
    let mut c = new_contract(0);
    c.register_user(&s("a.near"), 10, 0, 100).unwrap();
    assert_eq!(c.resume(&s("a.near")), Err(DcaError::AlreadyInState));
    assert_eq!(c.pause(&s("a.near")), Ok(()));
    assert_eq!(c.pause(&s("a.near")), Err(DcaError::AlreadyInState));
    assert_eq!(c.resume(&s("a.near")), Ok(()));
    assert_eq!(c.resume(&s("a.near")), Err(DcaError::AlreadyInState));
    assert_eq!(c.pause(&s("nobody.near")), Err(DcaError::NotRegistered));
}

#[test]
fn failed_conversion_stage_changes_no_record() {
    let mut c = new_contract(5);
    c.register_user(&s("a.near"), 100, 10, 1000).unwrap();
    let before = c.get_user(&s("a.near")).unwrap();
    c.swap(&s("owner.near"), 10).unwrap().unwrap();
    assert_eq!(c.callback_post_wrap(false), Err(DcaError::ExternalStageFailed));
    assert!(c.pending.is_none());
    let after = c.get_user(&s("a.near")).unwrap();
    assert_eq!(after.amount, before.amount);
    assert_eq!(after.total_swapped, before.total_swapped);
    assert_eq!(after.last_swap_timestamp, before.last_swap_timestamp);
    // the same participant is selected again on the next run
    assert_eq!(c.swap(&s("owner.near"), 10), Ok(Some(95)));
}

#[test]
fn failed_swap_stage_changes_no_record() {
    let mut c = new_contract(5);
    c.register_user(&s("a.near"), 100, 10, 1000).unwrap();
    c.swap(&s("owner.near"), 10).unwrap().unwrap();
    c.callback_post_wrap(true).unwrap();
    assert_eq!(c.callback_post_swap(false, 10), Err(DcaError::ExternalStageFailed));
    let u = c.get_user(&s("a.near")).unwrap();
    assert_eq!(u.amount, 1000);
    assert_eq!(u.total_swapped, 0);
    assert_eq!(u.last_swap_timestamp, 0);
    assert!(c.pending.is_none());
}

#[test]
fn settled_participant_waits_a_full_interval_even_after_topup() {
    let mut c = new_contract(0);
    c.register_user(&s("a.near"), 100, 50, 1000).unwrap();
    run_ok(&mut c, 100);
    c.topup(&s("a.near"), 5000).unwrap();
    assert_eq!(c.swap(&s("owner.near"), 149), Ok(None));
    assert_eq!(c.swap(&s("owner.near"), 150), Ok(Some(100)));
}

#[test]
fn second_run_refused_while_one_is_in_flight() {
    let mut c = new_contract(0);
    c.register_user(&s("a.near"), 100, 0, 1000).unwrap();
    c.swap(&s("owner.near"), 1).unwrap().unwrap();
    assert_eq!(c.swap(&s("owner.near"), 1), Err(DcaError::RunInProgress));
    c.callback_post_wrap(true).unwrap();
    c.callback_post_swap(true, 1).unwrap();
    assert_eq!(c.swap(&s("owner.near"), 1), Ok(Some(100)));
}

#[test]
fn callbacks_without_a_run_are_faults() {
    let mut c = new_contract(0);
    assert_eq!(c.callback_post_wrap(true), Err(DcaError::IntegrityFault));
    assert_eq!(c.callback_post_swap(true, 1), Err(DcaError::IntegrityFault));
}

#[test]
fn commit_refused_when_deposit_withdrawn_mid_run() {
    let mut c = new_contract(0);
    c.register_user(&s("a.near"), 100, 0, 150).unwrap();
    c.register_user(&s("b.near"), 100, 0, 150).unwrap();
    c.swap(&s("owner.near"), 1).unwrap().unwrap();
    c.withdraw_near(&s("b.near"), 100).unwrap();
    c.callback_post_wrap(true).unwrap();
    assert_eq!(c.callback_post_swap(true, 1), Err(DcaError::IntegrityFault));
    // nothing was written, and the run has ended
    assert_eq!(c.get_user(&s("a.near")).unwrap().amount, 150);
    assert_eq!(c.get_user(&s("b.near")).unwrap().amount, 50);
    assert_eq!(c.get_user(&s("a.near")).unwrap().total_swapped, 0);
    assert!(c.pending.is_none());
    // a later run selects the participants that are still due
    assert_eq!(c.swap(&s("owner.near"), 2), Ok(Some(100)));
    assert_eq!(c.pending.as_ref().unwrap().batch_users, vec![s("a.near")]);
}

#[test]
fn commit_refused_when_member_removed_mid_run() {
    let mut c = new_contract(0);
    c.register_user(&s("a.near"), 100, 0, 150).unwrap();
    c.swap(&s("owner.near"), 1).unwrap().unwrap();
    assert_eq!(c.remove_user(&s("a.near")), Ok((150, 0)));
    c.callback_post_wrap(true).unwrap();
    assert_eq!(c.callback_post_swap(true, 1), Err(DcaError::IntegrityFault));
    assert!(c.pending.is_none());
    assert_eq!(c.swap(&s("owner.near"), 1), Ok(None));
}

#[test]
fn commit_returns_new_converted_balances() {
    let mut c = new_contract(0);
    c.register_user(&s("a.near"), 100, 0, 1000).unwrap();
    c.register_user(&s("b.near"), 300, 0, 1000).unwrap();
    assert_eq!(run_ok(&mut c, 1), vec![100, 300]);
    c.withdraw_ft(&s("b.near"), 50).unwrap();
    assert_eq!(run_ok(&mut c, 2), vec![200, 550]);
    assert_eq!(c.get_user(&s("a.near")).unwrap().total_swapped, 200);
    assert_eq!(c.get_user(&s("b.near")).unwrap().total_swapped, 550);
}

#[test]
fn register_rejects_bad_amounts_and_duplicates() {
    let mut c = new_contract(0);
    assert_eq!(c.register_user(&s("a.near"), 100, 1, 0), Err(DcaError::InvalidAmount));
    assert_eq!(c.register_user(&s("a.near"), 100, 1, 100), Err(DcaError::InvalidAmount));
    assert_eq!(c.register_user(&s("a.near"), 0, 1, 100), Err(DcaError::InvalidAmount));
    assert_eq!(c.register_user(&s("a.near"), 100, 1, 101), Ok(()));
    assert_eq!(c.register_user(&s("a.near"), 10, 1, 101), Err(DcaError::AlreadyRegistered));
    let u = c.get_user(&s("a.near")).unwrap();
    assert_eq!(u.amount_per_swap, 100);
    assert_eq!(u.swap_interval, 1);
    assert_eq!(u.last_swap_timestamp, 0);
    assert_eq!(u.total_swapped, 0);
    assert_eq!(u.amount, 101);
    assert!(!u.pause);
}

#[test]
fn topup_rules() {
    let mut c = new_contract(0);
    assert_eq!(c.topup(&s("a.near"), 5), Err(DcaError::NotRegistered));
    c.register_user(&s("a.near"), 1, 1, 10).unwrap();
    assert_eq!(c.topup(&s("a.near"), 0), Err(DcaError::InvalidAmount));
    assert_eq!(c.topup(&s("a.near"), 5), Ok(()));
    assert_eq!(c.get_user(&s("a.near")).unwrap().amount, 15);
    assert_eq!(c.topup(&s("a.near"), u128::MAX), Err(DcaError::IntegrityFault));
    assert_eq!(c.get_user(&s("a.near")).unwrap().amount, 15);
}

#[test]
fn withdrawals_are_bounded_by_balances() {
    let mut c = new_contract(0);
    assert_eq!(c.withdraw_near(&s("a.near"), 1), Err(DcaError::NotRegistered));
    assert_eq!(c.withdraw_ft(&s("a.near"), 1), Err(DcaError::NotRegistered));
    c.register_user(&s("a.near"), 100, 0, 1000).unwrap();
    assert_eq!(c.withdraw_near(&s("a.near"), 1001), Err(DcaError::InsufficientBalance));
    assert_eq!(c.withdraw_ft(&s("a.near"), 1), Err(DcaError::InsufficientBalance));
    run_ok(&mut c, 1);
    assert_eq!(c.withdraw_ft(&s("a.near"), 40), Ok(()));
    assert_eq!(c.withdraw_near(&s("a.near"), 900), Ok(()));
    let u = c.get_user(&s("a.near")).unwrap();
    assert_eq!(u.amount, 0);
    assert_eq!(u.total_swapped, 60);
}

#[test]
fn remove_user_drains_and_deletes() {
    let mut c = new_contract(0);
    assert_eq!(c.remove_user(&s("a.near")), Err(DcaError::NotRegistered));
    c.register_user(&s("a.near"), 100, 0, 1000).unwrap();
    c.register_user(&s("b.near"), 100, 0, 1000).unwrap();
    run_ok(&mut c, 1);
    assert_eq!(c.remove_user(&s("a.near")), Ok((900, 100)));
    assert_eq!(c.get_user(&s("a.near")).map(|u| u.amount), Err(DcaError::NotRegistered));
    assert_eq!(c.get_user(&s("b.near")).unwrap().amount, 900);
    assert_eq!(c.users.len(), 1);
}

#[test]
fn settings_are_owner_only() {
    let mut c = new_contract(3);
    assert_eq!(c.get_batch_swap_threshold(), 10);
    assert_eq!(c.get_fees(), 3);
    assert_eq!(c.get_pool_address(), s("pool.near"));
    assert_eq!(c.set_fees(&s("eve.near"), 4), Err(DcaError::Unauthorized));
    assert_eq!(c.set_fees(&s("owner.near"), 101), Err(DcaError::InvalidAmount));
    assert_eq!(c.set_fees(&s("owner.near"), 100), Ok(()));
    assert_eq!(c.get_fees(), 100);
    assert_eq!(c.set_batch_swap_threshold(&s("eve.near"), 2), Err(DcaError::Unauthorized));
    assert_eq!(c.set_batch_swap_threshold(&s("owner.near"), 2), Ok(()));
    assert_eq!(c.get_batch_swap_threshold(), 2);
    assert_eq!(c.set_pool_address(&s("eve.near"), s("x.near")), Err(DcaError::Unauthorized));
    assert_eq!(c.set_pool_address(&s("owner.near"), s("x.near")), Ok(()));
    assert_eq!(c.get_pool_address(), s("x.near"));
    assert_eq!(c.swap(&s("eve.near"), 0), Err(DcaError::Unauthorized));
}

#[test]
fn full_fee_sends_nothing_and_credits_nothing() {
    let mut c = new_contract(100);
    c.register_user(&s("a.near"), 10, 0, 100).unwrap();
    assert_eq!(c.swap(&s("owner.near"), 0), Ok(Some(0)));
    c.callback_post_wrap(true).unwrap();
    assert_eq!(c.callback_post_swap(true, 0), Ok(vec![0]));
    assert_eq!(c.get_user(&s("a.near")).unwrap().amount, 90);
}

#[test]
fn batch_total_overflow_is_a_fault() {
    let mut c = new_contract(0);
    c.register_user(&s("a.near"), u128::MAX - 1, 0, u128::MAX).unwrap();
    c.register_user(&s("b.near"), u128::MAX - 1, 0, u128::MAX).unwrap();
    assert_eq!(c.swap(&s("owner.near"), 0), Err(DcaError::IntegrityFault));
    assert!(c.pending.is_none());
}

#[test]
fn net_amount_values() {
    assert_eq!(net_amount(400, 5), 380);
    assert_eq!(net_amount(31, 10), 28);
    assert_eq!(net_amount(99, 1), 99);
    assert_eq!(net_amount(0, 50), 0);
    assert_eq!(net_amount(1000, 0), 1000);
    assert_eq!(net_amount(1000, 100), 0);
    assert_eq!(net_amount(u128::MAX, 100), 0);
    assert_eq!(net_amount(u128::MAX, 1), u128::MAX - u128::MAX / 100);
}

#[test]
fn pro_rata_share_values() {
    assert_eq!(pro_rata_share(100, 380, 400), 95);
    assert_eq!(pro_rata_share(300, 380, 400), 285);
    assert_eq!(pro_rata_share(7, 28, 31), 6);
    assert_eq!(pro_rata_share(0, 28, 31), 0);
    assert_eq!(pro_rata_share(31, 28, 31), 28);
    let e30: u128 = 1_000_000_000_000_000_000_000_000_000_000;
    assert_eq!(pro_rata_share(e30, 10 * e30, 20 * e30), e30 / 2);
    assert_eq!(pro_rata_share(u128::MAX, u128::MAX, u128::MAX), u128::MAX);
    assert_eq!(pro_rata_share(u128::MAX / 3, u128::MAX - 1, u128::MAX), u128::MAX / 3 - 1);
}

#[test]
fn swap_message_text() {
    let m = render_swap_message(974, &s("wrap.near"), &s("token.near"), 1234567890, 7486);
    assert_eq!(
        m,
        "{\"force\":0,\"actions\":[{\"pool_id\":974,\"token_in\":\"wrap.near\",\"token_out\":\"token.near\",\"amount_in\":\"1234567890\",\"amount_out\":\"0\",\"min_amount_out\":\"7486\"}]}"
    );
    let c = new_contract(0);
    assert_eq!(
        c.swap_instruction(0, u128::MAX),
        format!(
            "{{\"force\":0,\"actions\":[{{\"pool_id\":974,\"token_in\":\"wrap.near\",\"token_out\":\"token.near\",\"amount_in\":\"0\",\"amount_out\":\"0\",\"min_amount_out\":\"{}\"}}]}}",
            u128::MAX
        )
    );
}
