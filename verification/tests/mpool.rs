use forest::amount::TokenAmount;
use forest::content_id::Cid;
use forest::mpool::{
    check_estimated_gas, check_initial_nonce, require_heaviest_tipset, PendingMessage, PendingStep,
    PendingWalk, Protocol, PushMessageError, PushMessagePlan, PushMessageStage, TipsetRef,
};

fn cid(n: u8) -> Cid {
    Cid { bytes: vec![0x01, 0x71, n] }
}

fn msg(n: u8) -> PendingMessage<u8> {
    PendingMessage { cid: cid(n), message: n }
}

fn tipset(epoch: i64, keys: &[u8]) -> TipsetRef {
    TipsetRef { epoch, key: keys.iter().map(|k| cid(*k)).collect() }
}

fn messages(w: PendingWalk<u8>) -> Vec<u8> {
    w.into_pending().into_iter().map(|m| m.message).collect()
}

#[test]
fn pending_walk_gathers_unseen_messages_back_to_the_pool_tipset() {
    let (mut w, step) = PendingWalk::start(vec![msg(1)], tipset(10, &[100]), tipset(12, &[120]));
    assert_eq!(step, PendingStep::Collect);
    assert_eq!(w.collect(vec![msg(2), msg(1), msg(3), msg(2)]), PendingStep::FetchParent);
    assert_eq!(w.enter_parent(tipset(11, &[110])), PendingStep::Collect);
    assert_eq!(w.collect(vec![msg(4), msg(3)]), PendingStep::FetchParent);
    // Same epoch as the pool, another tipset.
    assert_eq!(w.enter_parent(tipset(10, &[101])), PendingStep::MarkKnown);
    assert_eq!(w.mark_known(vec![cid(5)]), PendingStep::Collect);
    assert_eq!(w.collect(vec![msg(5)]), PendingStep::Done);
    assert_eq!(messages(w), vec![1, 2, 3, 4]);
}

#[test]
fn pending_walk_stops_at_the_pool_tipset() {
    let (mut w, step) = PendingWalk::start(vec![msg(1)], tipset(10, &[100, 101]), tipset(11, &[110]));
    assert_eq!(step, PendingStep::Collect);
    assert_eq!(w.collect(vec![msg(2)]), PendingStep::FetchParent);
    assert_eq!(w.enter_parent(tipset(10, &[100, 101])), PendingStep::Done);
    assert_eq!(messages(w), vec![1, 2]);
}

#[test]
fn pending_walk_ends_at_once_when_the_pool_is_ahead_or_at_the_tipset() {
    let (w, step) = PendingWalk::start(vec![msg(7)], tipset(13, &[130]), tipset(12, &[120]));
    assert_eq!(step, PendingStep::Done);
    assert_eq!(messages(w), vec![7]);
    let (w, step) = PendingWalk::start(vec![msg(7)], tipset(12, &[120]), tipset(12, &[120]));
    assert_eq!(step, PendingStep::Done);
    assert_eq!(messages(w), vec![7]);
}

#[test]
fn collecting_a_batch_twice_adds_it_once() {
    let (mut w, _) = PendingWalk::start(vec![], tipset(0, &[1]), tipset(5, &[2]));
    w.collect(vec![msg(1), msg(2)]);
    w.collect(vec![msg(1), msg(2)]);
    assert_eq!(messages(w), vec![1, 2]);
}

#[test]
fn same_tipset_compares_keys() {
    assert!(tipset(3, &[1, 2]).same_tipset(&tipset(3, &[1, 2])));
    assert!(!tipset(3, &[1, 2]).same_tipset(&tipset(3, &[2, 1])));
    assert!(!tipset(3, &[1]).same_tipset(&tipset(3, &[1, 2])));
    assert!(!tipset(3, &[1]).same_tipset(&tipset(4, &[1])));
}

#[test]
fn push_message_checks() {
    assert_eq!(require_heaviest_tipset(Some(5)), Ok(5));
    assert_eq!(require_heaviest_tipset::<u8>(None), Err(PushMessageError::NoHeaviestTipset));
    assert_eq!(check_initial_nonce(0), Ok(()));
    assert_eq!(check_initial_nonce(3), Err(PushMessageError::NonZeroNonce));
    let a = |v: u64| TokenAmount { negative: false, magnitude: v.to_be_bytes().to_vec() };
    assert_eq!(check_estimated_gas(&a(100), &a(100)), Ok(()));
    assert_eq!(check_estimated_gas(&a(99), &a(100)), Ok(()));
    assert_eq!(check_estimated_gas(&a(101), &a(100)), Err(PushMessageError::PremiumAboveFeeCap));
}

#[test]
fn push_message_error_texts() {
    assert_eq!(PushMessageError::NoHeaviestTipset.message(), "Could not get heaviest tipset");
    assert_eq!(
        PushMessageError::NonZeroNonce.message(),
        "Expected nonce for MpoolPushMessage is 0, and will be calculated for you."
    );
    assert_eq!(
        PushMessageError::PremiumAboveFeeCap.message(),
        "After estimation, gas premium is greater than gas fee cap"
    );
}

fn amount(v: u64) -> TokenAmount {
    TokenAmount { negative: false, magnitude: v.to_be_bytes().to_vec() }
}

#[test]
fn push_message_plan_signs_after_all_checks() {
    let plan = PushMessagePlan::<&str>::new(Protocol::ID, 0);
    assert_eq!(plan.stage, PushMessageStage::AwaitHeaviestTipset);
    let plan = plan.on_heaviest_tipset(true);
    assert_eq!(plan.stage, PushMessageStage::AwaitKeyAddress);
    let plan = plan.on_key_address("f1key");
    assert_eq!(plan.stage, PushMessageStage::AwaitGasEstimate { key_addr: "f1key" });
    let plan = plan.on_gas_estimate(&amount(10), &amount(20));
    assert_eq!(plan.stage, PushMessageStage::AwaitNonce { key_addr: "f1key" });
    let plan = plan.on_nonce(7);
    assert_eq!(
        plan.stage,
        PushMessageStage::SignAndPush { key_addr: "f1key", sequence: 7, sender_is_key_address: true }
    );
    let plan = PushMessagePlan::<&str>::new(Protocol::BLS, 0)
        .on_heaviest_tipset(true)
        .on_key_address("f3key")
        .on_gas_estimate(&amount(20), &amount(20))
        .on_nonce(3);
    assert_eq!(
        plan.stage,
        PushMessageStage::SignAndPush { key_addr: "f3key", sequence: 3, sender_is_key_address: false }
    );
}

#[test]
fn push_message_plan_refuses_at_the_first_failed_check() {
    let plan = PushMessagePlan::<&str>::new(Protocol::ID, 5).on_heaviest_tipset(false);
    assert_eq!(plan.stage, PushMessageStage::Failed(PushMessageError::NoHeaviestTipset));
    let plan = PushMessagePlan::<&str>::new(Protocol::ID, 5).on_heaviest_tipset(true).on_key_address("k");
    assert_eq!(plan.stage, PushMessageStage::Failed(PushMessageError::NonZeroNonce));
    let plan = PushMessagePlan::<&str>::new(Protocol::Actor, 0)
        .on_heaviest_tipset(true)
        .on_key_address("k")
        .on_gas_estimate(&amount(21), &amount(20));
    assert_eq!(plan.stage, PushMessageStage::Failed(PushMessageError::PremiumAboveFeeCap));
}
