//! Decisions of the message-pool RPC methods: which messages are pending
//! against a tipset, and the checks made before a message is signed and pushed.

use vstd::prelude::*;
use crate::amount::TokenAmount;
use crate::content_id::{Cid, cid_eq, contains_cid};

verus! {

/// A tipset as the pending walk sees it: its epoch and its key (the CIDs of
/// its blocks).
#[derive(Clone, Debug)]
pub struct TipsetRef {
    pub epoch: i64,
    pub key: Vec<Cid>,
}

/// The binary forms of a list of CIDs.
pub open spec fn cid_views(v: Seq<Cid>) -> Seq<Seq<u8>> {
    v.map_values(|c: Cid| c@)
}

/// The set of binary forms of a list of CIDs.
pub open spec fn cid_set(v: Seq<Cid>) -> Set<Seq<u8>> {
    Set::new(|c: Seq<u8>| exists|j: int| 0 <= j < v.len() && #[trigger] v[j]@ == c)
}

impl TipsetRef {
    /// Two tipsets are the same when their keys are.
    pub open spec fn same_as(&self, other: &TipsetRef) -> bool {
        self.epoch == other.epoch && cid_views(self.key@) == cid_views(other.key@)
    }

    /// Whether `self` and `other` are the same tipset.
    pub fn same_tipset(&self, other: &TipsetRef) -> (r: bool)
        ensures
            r == self.same_as(other),
    {
        if self.epoch != other.epoch || self.key.len() != other.key.len() {
            assert(self.key.len() != other.key.len() ==> cid_views(self.key@).len() != cid_views(
                other.key@,
            ).len());
            return false;
        }
        let n = self.key.len();
        let mut i: usize = 0;
        while i < n
            invariant
                n == self.key@.len(),
                n == other.key@.len(),
                i <= n,
                forall|j: int| 0 <= j < i ==> self.key@[j]@ == other.key@[j]@,
            decreases n - i,
        {
            if !cid_eq(&self.key[i], &other.key[i]) {
                assert(cid_views(self.key@)[i as int] != cid_views(other.key@)[i as int]);
                return false;
            }
            i = i + 1;
        }
        assert(cid_views(self.key@) =~= cid_views(other.key@));
        true
    }
}

/// A message together with its CID.
#[derive(Clone, Debug)]
pub struct PendingMessage<M> {
    pub cid: Cid,
    pub message: M,
}

/// What the pending walk needs next.
#[derive(PartialEq, Eq, Structural, Clone, Copy, Debug)]
pub enum PendingStep {
    /// The pending list is complete.
    Done,
    /// The current tipset has the pool's epoch but is another tipset: hand the
    /// CIDs of its messages to `mark_known`.
    MarkKnown,
    /// Hand the messages of the current tipset to `collect`.
    Collect,
    /// Hand the parent of the current tipset to `enter_parent`.
    FetchParent,
}

/// The walk from a tipset back to the pool's own tipset, gathering the
/// messages that are pending against the tipset: the pool's pending messages,
/// then those of the tipsets walked over whose CIDs have not been seen yet.
pub struct PendingWalk<M> {
    pub mpool_tipset: TipsetRef,
    pub current: TipsetRef,
    /// CIDs seen so far.
    pub have: Vec<Cid>,
    pub pending: Vec<PendingMessage<M>>,
}

/// Adds the messages of `msgs` in order, each unless its CID is already
/// known, and records their CIDs as known.
pub open spec fn collect_spec<M>(
    known: Set<Seq<u8>>,
    pending: Seq<PendingMessage<M>>,
    msgs: Seq<PendingMessage<M>>,
) -> (Set<Seq<u8>>, Seq<PendingMessage<M>>)
    decreases msgs.len(),
{
    if msgs.len() == 0 {
        (known, pending)
    } else {
        let (k, p) = collect_spec(known, pending, msgs.drop_last());
        let m = msgs.last();
        if k.contains(m.cid@) {
            (k, p)
        } else {
            (k.insert(m.cid@), p.push(m))
        }
    }
}

/// The step at the head of the walk's loop, at tipset `current`.
pub open spec fn loop_step(mpool_tipset: TipsetRef, current: TipsetRef) -> PendingStep {
    if mpool_tipset.epoch == current.epoch {
        if mpool_tipset.same_as(&current) {
            PendingStep::Done
        } else {
            PendingStep::MarkKnown
        }
    } else {
        PendingStep::Collect
    }
}

/// The CIDs of a list of messages.
pub open spec fn message_cids<M>(msgs: Seq<PendingMessage<M>>) -> Seq<Seq<u8>> {
    msgs.map_values(|m: PendingMessage<M>| m.cid@)
}

proof fn lemma_cid_set_push(v: Seq<Cid>, c: Cid)
    ensures
        cid_set(v.push(c)) == cid_set(v).insert(c@),
{
    let l = v.push(c);
    assert forall|x: Seq<u8>| cid_set(l).contains(x) == cid_set(v).insert(c@).contains(x) by {
        if cid_set(l).contains(x) {
            let j = choose|j: int| 0 <= j < l.len() && #[trigger] l[j]@ == x;
            if j < v.len() {
                assert(v[j]@ == x);
            }
        }
        if cid_set(v).contains(x) {
            let j = choose|j: int| 0 <= j < v.len() && #[trigger] v[j]@ == x;
            assert(l[j]@ == x);
        }
        if x == c@ {
            assert(l[v.len() as int]@ == x);
        }
    }
    assert(cid_set(v.push(c)) =~= cid_set(v).insert(c@));
}

/// The elements of `v`, last first.
fn reversed<T>(v: Vec<T>) -> (r: Vec<T>)
    ensures
        r@ == v@.reverse(),
{
    let mut v = v;
    let ghost orig = v@;
    let mut r: Vec<T> = Vec::new();
    while v.len() > 0
        invariant
            v@ == orig.take(v@.len() as int),
            r@ == orig.skip(v@.len() as int).reverse(),
            v@.len() <= orig.len(),
        decreases v@.len(),
    {
        let ghost n = v@.len();
        let x = v.pop().unwrap();
        r.push(x);
        assert(v@ =~= orig.take(n - 1));
        assert(r@ =~= orig.skip(n - 1).reverse());
    }
    assert(orig.skip(0) =~= orig);
    r
}

impl<M> PendingWalk<M> {
    /// The CIDs seen so far.
    pub open spec fn known(&self) -> Set<Seq<u8>> {
        cid_set(self.have@)
    }

    /// Every pending message's CID has been seen.
    pub open spec fn wf(&self) -> bool {
        forall|i: int| 0 <= i < self.pending@.len() ==> self.known().contains(#[trigger] self.pending@[i].cid@)
    }

    /// Starts the walk from `current`, with the pool's pending messages and
    /// the tipset they were taken at.
    pub fn start(pending: Vec<PendingMessage<M>>, mpool_tipset: TipsetRef, current: TipsetRef) -> (r: (
        PendingWalk<M>,
        PendingStep,
    ))
        ensures
            r.0.wf(),
            r.0.pending@ == pending@,
            r.0.known() == message_cids(pending@).to_set(),
            r.0.mpool_tipset == mpool_tipset,
            r.0.current == current,
            r.1 == if mpool_tipset.epoch > current.epoch {
                PendingStep::Done
            } else {
                loop_step(mpool_tipset, current)
            },
    {
        let mut have: Vec<Cid> = Vec::new();
        let mut i: usize = 0;
        while i < pending.len()
            invariant
                i <= pending@.len(),
                have@.len() == i,
                forall|j: int| 0 <= j < i ==> #[trigger] have@[j]@ == pending@[j].cid@,
            decreases pending@.len() - i,
        {
            have.push(pending[i].cid.copied());
            i = i + 1;
        }
        let walk = PendingWalk { mpool_tipset, current, have, pending };
        proof {
            assert forall|x: Seq<u8>| walk.known().contains(x) == message_cids(pending@).to_set().contains(x) by {
                if walk.known().contains(x) {
                    let j = choose|j: int| 0 <= j < walk.have@.len() && #[trigger] walk.have@[j]@ == x;
                    assert(message_cids(pending@)[j] == x);
                }
                if message_cids(pending@).to_set().contains(x) {
                    let j = choose|j: int| 0 <= j < message_cids(pending@).len() && message_cids(pending@)[j] == x;
                    assert(walk.have@[j]@ == x);
                }
            }
            assert(walk.known() =~= message_cids(pending@).to_set());
            assert forall|i: int| 0 <= i < walk.pending@.len() implies walk.known().contains(#[trigger] walk.pending@[i].cid@) by {
                assert(walk.have@[i]@ == walk.pending@[i].cid@);
            }
        }
        let step = if walk.mpool_tipset.epoch > walk.current.epoch {
            PendingStep::Done
        } else {
            walk.loop_head()
        };
        (walk, step)
    }

    fn loop_head(&self) -> (r: PendingStep)
        ensures
            r == loop_step(self.mpool_tipset, self.current),
    {
        if self.mpool_tipset.epoch == self.current.epoch {
            if self.mpool_tipset.same_tipset(&self.current) {
                PendingStep::Done
            } else {
                PendingStep::MarkKnown
            }
        } else {
            PendingStep::Collect
        }
    }

    fn insert_known(&mut self, c: Cid)
        requires
            old(self).wf(),
        ensures
            final(self).wf(),
            final(self).known() == old(self).known().insert(c@),
            final(self).pending == old(self).pending,
            final(self).mpool_tipset == old(self).mpool_tipset,
            final(self).current == old(self).current,
    {
        proof {
            lemma_cid_set_push(self.have@, c);
        }
        self.have.push(c);
    }

    /// Records the CIDs of the messages of the current tipset as seen.
    pub fn mark_known(&mut self, cids: Vec<Cid>) -> (r: PendingStep)
        requires
            old(self).wf(),
        ensures
            final(self).wf(),
            final(self).known() == old(self).known().union(cid_set(cids@)),
            final(self).pending == old(self).pending,
            final(self).mpool_tipset == old(self).mpool_tipset,
            final(self).current == old(self).current,
            r == PendingStep::Collect,
    {
        let mut i: usize = 0;
        while i < cids.len()
            invariant
                i <= cids@.len(),
                self.wf(),
                self.known() == old(self).known().union(cid_set(cids@.take(i as int))),
                self.pending == old(self).pending,
                self.mpool_tipset == old(self).mpool_tipset,
                self.current == old(self).current,
            decreases cids@.len() - i,
        {
            proof {
                assert(cids@.take(i + 1) == cids@.take(i as int).push(cids@[i as int]));
                lemma_cid_set_push(cids@.take(i as int), cids@[i as int]);
            }
            self.insert_known(cids[i].copied());
            i = i + 1;
            assert(self.known() =~= old(self).known().union(cid_set(cids@.take(i as int))));
        }
        assert(cids@.take(cids@.len() as int) =~= cids@);
        PendingStep::Collect
    }

    /// Adds, in order, the messages of the current tipset whose CIDs have not
    /// been seen, and records their CIDs as seen.
    pub fn collect(&mut self, msgs: Vec<PendingMessage<M>>) -> (r: PendingStep)
        requires
            old(self).wf(),
        ensures
            final(self).wf(),
            (final(self).known(), final(self).pending@) == collect_spec(
                old(self).known(),
                old(self).pending@,
                msgs@,
            ),
            final(self).mpool_tipset == old(self).mpool_tipset,
            final(self).current == old(self).current,
            r == if final(self).mpool_tipset.epoch >= final(self).current.epoch {
                PendingStep::Done
            } else {
                PendingStep::FetchParent
            },
    {
        let ghost all = msgs@;
        let n = msgs.len();
        let mut rest = reversed(msgs);
        let mut i: usize = 0;
        while i < n
            invariant
                n == all.len(),
                i <= n,
                rest@ == all.skip(i as int).reverse(),
                self.wf(),
                (self.known(), self.pending@) == collect_spec(
                    old(self).known(),
                    old(self).pending@,
                    all.take(i as int),
                ),
                self.mpool_tipset == old(self).mpool_tipset,
                self.current == old(self).current,
            decreases n - i,
        {
            let ghost before_rest = rest@;
            let m = rest.pop().unwrap();
            proof {
                assert(m == all[i as int]);
                assert(all.take(i + 1).drop_last() =~= all.take(i as int));
                assert(rest@ =~= all.skip(i + 1).reverse());
            }
            let seen = contains_cid(&self.have, &m.cid);
            if !seen {
                let c = m.cid.copied();
                let ghost cv = c@;
                assert(cv == m.cid@);
                self.insert_known(c);
                let ghost prev = self.pending@;
                let ghost k = self.known();
                assert(forall|j: int| 0 <= j < prev.len() ==> k.contains(#[trigger] prev[j].cid@));
                assert(k.contains(cv));
                self.pending.push(m);
                assert(self.known() == k);
                proof {
                    assert forall|j: int| 0 <= j < self.pending@.len() implies self.known().contains(#[trigger] self.pending@[j].cid@) by {
                        if j < prev.len() {
                            assert(self.pending@[j] == prev[j]);
                            assert(k.contains(prev[j].cid@));
                        } else {
                            assert(self.pending@[j] == m);
                            assert(self.known().contains(cv));
                        }
                    }
                }
            }
            i = i + 1;
        }
        assert(all.take(n as int) =~= all);
        if self.mpool_tipset.epoch >= self.current.epoch {
            PendingStep::Done
        } else {
            PendingStep::FetchParent
        }
    }

    /// Moves the walk to the parent of the current tipset.
    pub fn enter_parent(&mut self, parent: TipsetRef) -> (r: PendingStep)
        requires
            old(self).wf(),
        ensures
            final(self).wf(),
            final(self).current == parent,
            final(self).mpool_tipset == old(self).mpool_tipset,
            final(self).have == old(self).have,
            final(self).pending == old(self).pending,
            r == loop_step(final(self).mpool_tipset, parent),
    {
        self.current = parent;
        self.loop_head()
    }

    /// The messages gathered, in order.
    pub fn into_pending(self) -> (r: Vec<PendingMessage<M>>)
        ensures
            r@ == self.pending@,
    {
        self.pending
    }
}

/// Why a message is not signed and pushed.
#[derive(PartialEq, Eq, Structural, Clone, Copy, Debug)]
pub enum PushMessageError {
    /// The chain has no heaviest tipset.
    NoHeaviestTipset,
    /// The message came with a nonce other than 0.
    NonZeroNonce,
    /// After gas estimation the premium exceeds the fee cap.
    PremiumAboveFeeCap,
}

impl PushMessageError {
    /// The text of the error.
    pub fn message(&self) -> (r: &'static str)
        ensures
            r@ == match self {
                PushMessageError::NoHeaviestTipset => "Could not get heaviest tipset"@,
                PushMessageError::NonZeroNonce => "Expected nonce for MpoolPushMessage is 0, and will be calculated for you."@,
                PushMessageError::PremiumAboveFeeCap => "After estimation, gas premium is greater than gas fee cap"@,
            },
    {
        match self {
            PushMessageError::NoHeaviestTipset => "Could not get heaviest tipset",
            PushMessageError::NonZeroNonce => "Expected nonce for MpoolPushMessage is 0, and will be calculated for you.",
            PushMessageError::PremiumAboveFeeCap => "After estimation, gas premium is greater than gas fee cap",
        }
    }
}

/// The heaviest tipset, or the error when there is none.
pub fn require_heaviest_tipset<T>(heaviest: Option<T>) -> (r: Result<T, PushMessageError>)
    ensures
        match heaviest {
            Some(t) => r == Ok::<T, PushMessageError>(t),
            None => r == Err::<T, PushMessageError>(PushMessageError::NoHeaviestTipset),
        },
{
    match heaviest {
        Some(t) => Ok(t),
        None => Err(PushMessageError::NoHeaviestTipset),
    }
}

/// A message to be pushed must come with nonce 0: the pool fills it in.
pub fn check_initial_nonce(sequence: u64) -> (r: Result<(), PushMessageError>)
    ensures
        r == if sequence == 0 {
            Ok::<(), PushMessageError>(())
        } else {
            Err(PushMessageError::NonZeroNonce)
        },
{
    if sequence != 0 {
        Err(PushMessageError::NonZeroNonce)
    } else {
        Ok(())
    }
}

/// After estimation the gas premium must not exceed the gas fee cap.
pub fn check_estimated_gas(gas_premium: &TokenAmount, gas_fee_cap: &TokenAmount) -> (r: Result<
    (),
    PushMessageError,
>)
    ensures
        r == if gas_premium.value() > gas_fee_cap.value() {
            Err(PushMessageError::PremiumAboveFeeCap)
        } else {
            Ok::<(), PushMessageError>(())
        },
{
    if gas_premium.gt(gas_fee_cap) {
        Err(PushMessageError::PremiumAboveFeeCap)
    } else {
        Ok(())
    }
}

/// The protocol of an address.
#[derive(PartialEq, Eq, Structural, Clone, Copy, Debug)]
pub enum Protocol {
    ID,
    Secp256k1,
    Actor,
    BLS,
}

/// Where signing and pushing a message stands: what it waits for next, or
/// how it ended.
#[derive(PartialEq, Eq, Structural, Clone, Copy, Debug)]
pub enum PushMessageStage<A> {
    /// Waiting for the heaviest tipset of the chain.
    AwaitHeaviestTipset,
    /// Waiting for the key address that the sender resolves to.
    AwaitKeyAddress,
    /// Waiting for the message with its gas estimated.
    AwaitGasEstimate { key_addr: A },
    /// Waiting for the pool's next nonce for the sender.
    AwaitNonce { key_addr: A },
    /// Sign the message with the key of `key_addr` and push it, after writing
    /// `sequence` into it and, where `sender_is_key_address`, writing `key_addr`
    /// as its sender.
    SignAndPush { key_addr: A, sequence: u64, sender_is_key_address: bool },
    /// The message is refused.
    Failed(PushMessageError),
}

/// The steps of signing a message and pushing it to the pool, for a sender of
/// protocol `from_protocol` and a message that came with nonce `sequence`.
#[derive(PartialEq, Eq, Structural, Clone, Copy, Debug)]
pub struct PushMessagePlan<A> {
    pub from_protocol: Protocol,
    pub sequence: u64,
    pub stage: PushMessageStage<A>,
}

/// The stage after the heaviest tipset was looked up.
pub open spec fn heaviest_tipset_step<A>(found: bool) -> PushMessageStage<A> {
    if found {
        PushMessageStage::AwaitKeyAddress
    } else {
        PushMessageStage::Failed(PushMessageError::NoHeaviestTipset)
    }
}

/// The stage after the key address was resolved: the message's nonce is
/// checked.
pub open spec fn key_address_step<A>(sequence: u64, key_addr: A) -> PushMessageStage<A> {
    if sequence != 0 {
        PushMessageStage::Failed(PushMessageError::NonZeroNonce)
    } else {
        PushMessageStage::AwaitGasEstimate { key_addr }
    }
}

/// The stage after the gas was estimated: the premium is checked against the
/// fee cap.
pub open spec fn gas_estimate_step<A>(key_addr: A, gas_premium: int, gas_fee_cap: int) -> PushMessageStage<A> {
    if gas_premium > gas_fee_cap {
        PushMessageStage::Failed(PushMessageError::PremiumAboveFeeCap)
    } else {
        PushMessageStage::AwaitNonce { key_addr }
    }
}

/// The stage after the pool's nonce was looked up.
pub open spec fn nonce_step<A>(from_protocol: Protocol, key_addr: A, nonce: u64) -> PushMessageStage<A> {
    PushMessageStage::SignAndPush {
        key_addr,
        sequence: nonce,
        sender_is_key_address: from_protocol == Protocol::ID,
    }
}

/// Where the steps end, given what each lookup returned.
pub open spec fn push_message_outcome<A>(
    from_protocol: Protocol,
    sequence: u64,
    found: bool,
    key_addr: A,
    gas_premium: int,
    gas_fee_cap: int,
    nonce: u64,
) -> PushMessageStage<A> {
    match heaviest_tipset_step::<A>(found) {
        PushMessageStage::AwaitKeyAddress => match key_address_step(sequence, key_addr) {
            PushMessageStage::AwaitGasEstimate { key_addr } => match gas_estimate_step(
                key_addr,
                gas_premium,
                gas_fee_cap,
            ) {
                PushMessageStage::AwaitNonce { key_addr } => nonce_step(from_protocol, key_addr, nonce),
                other => other,
            },
            other => other,
        },
        other => other,
    }
}

impl<A> PushMessagePlan<A> {
    /// Starts the steps for a message from a sender of protocol `from_protocol`
    /// that came with nonce `sequence`.
    pub fn new(from_protocol: Protocol, sequence: u64) -> (r: PushMessagePlan<A>)
        ensures
            r == (PushMessagePlan::<A> { from_protocol, sequence, stage: PushMessageStage::AwaitHeaviestTipset }),
    {
        PushMessagePlan { from_protocol, sequence, stage: PushMessageStage::AwaitHeaviestTipset }
    }

    /// Whether the chain had a heaviest tipset.
    pub fn on_heaviest_tipset(self, found: bool) -> (r: PushMessagePlan<A>)
        requires
            self.stage is AwaitHeaviestTipset,
        ensures
            r == (PushMessagePlan { stage: heaviest_tipset_step::<A>(found), ..self }),
    {
        let stage = match require_heaviest_tipset(if found { Some(()) } else { None }) {
            Ok(_) => PushMessageStage::AwaitKeyAddress,
            Err(e) => PushMessageStage::Failed(e),
        };
        PushMessagePlan { from_protocol: self.from_protocol, sequence: self.sequence, stage }
    }

    /// The key address that the sender resolves to.
    pub fn on_key_address(self, key_addr: A) -> (r: PushMessagePlan<A>)
        requires
            self.stage is AwaitKeyAddress,
        ensures
            r == (PushMessagePlan { stage: key_address_step(self.sequence, key_addr), ..self }),
    {
        let stage = match check_initial_nonce(self.sequence) {
            Ok(_) => PushMessageStage::AwaitGasEstimate { key_addr },
            Err(e) => PushMessageStage::Failed(e),
        };
        PushMessagePlan { from_protocol: self.from_protocol, sequence: self.sequence, stage }
    }

    /// The premium and fee cap of the message with its gas estimated.
    pub fn on_gas_estimate(self, gas_premium: &TokenAmount, gas_fee_cap: &TokenAmount) -> (r: PushMessagePlan<A>)
        requires
            self.stage is AwaitGasEstimate,
        ensures
            r == (PushMessagePlan {
                stage: gas_estimate_step(self.stage->AwaitGasEstimate_key_addr, gas_premium.value(), gas_fee_cap.value()),
                ..self
            }),
    {
        let PushMessagePlan { from_protocol, sequence, stage } = self;
        let key_addr = match stage {
            PushMessageStage::AwaitGasEstimate { key_addr } => key_addr,
            _ => {
                proof {
                    assert(false);
                }
                return PushMessagePlan { from_protocol, sequence, stage };
            }
        };
        let stage = match check_estimated_gas(gas_premium, gas_fee_cap) {
            Ok(_) => PushMessageStage::AwaitNonce { key_addr },
            Err(e) => PushMessageStage::Failed(e),
        };
        PushMessagePlan { from_protocol, sequence, stage }
    }

    /// The pool's next nonce for the sender.
    pub fn on_nonce(self, nonce: u64) -> (r: PushMessagePlan<A>)
        requires
            self.stage is AwaitNonce,
        ensures
            r == (PushMessagePlan {
                stage: nonce_step(self.from_protocol, self.stage->AwaitNonce_key_addr, nonce),
                ..self
            }),
    {
        let PushMessagePlan { from_protocol, sequence, stage } = self;
        let key_addr = match stage {
            PushMessageStage::AwaitNonce { key_addr } => key_addr,
            _ => {
                proof {
                    assert(false);
                }
                return PushMessagePlan { from_protocol, sequence, stage };
            }
        };
        let sender_is_key_address = from_protocol == Protocol::ID;
        PushMessagePlan {
            from_protocol,
            sequence,
            stage: PushMessageStage::SignAndPush { key_addr, sequence: nonce, sender_is_key_address },
        }
    }
}

/// A message is signed and pushed only when the chain has a heaviest tipset,
/// the message came with nonce 0, and the estimated premium does not exceed
/// the fee cap; it is then signed with the pool's nonce, and its sender becomes
/// the key address just when the sender is an ID address. Otherwise it is
/// refused with the error of the first check that fails.
pub proof fn law_push_only_after_checks<A>(
    from_protocol: Protocol,
    sequence: u64,
    found: bool,
    key_addr: A,
    gas_premium: int,
    gas_fee_cap: int,
    nonce: u64,
)
    ensures
        ({
            let out = push_message_outcome(from_protocol, sequence, found, key_addr, gas_premium, gas_fee_cap, nonce);
            &&& (out is SignAndPush) == (found && sequence == 0 && gas_premium <= gas_fee_cap)
            &&& out is SignAndPush ==> out == PushMessageStage::SignAndPush {
                key_addr,
                sequence: nonce,
                sender_is_key_address: from_protocol == Protocol::ID,
            }
            &&& !found ==> out == PushMessageStage::<A>::Failed(PushMessageError::NoHeaviestTipset)
            &&& found && sequence != 0 ==> out == PushMessageStage::<A>::Failed(PushMessageError::NonZeroNonce)
            &&& found && sequence == 0 && gas_premium > gas_fee_cap ==> out == PushMessageStage::<A>::Failed(
                PushMessageError::PremiumAboveFeeCap,
            )
        }),
{
}

/// Collecting keeps the messages already pending, in front and in order, and
/// adds at most one message for each message handed in.
pub proof fn law_collect_keeps_prefix<M>(
    known: Set<Seq<u8>>,
    pending: Seq<PendingMessage<M>>,
    msgs: Seq<PendingMessage<M>>,
)
    ensures
        pending.len() <= collect_spec(known, pending, msgs).1.len() <= pending.len() + msgs.len(),
        collect_spec(known, pending, msgs).1.subrange(0, pending.len() as int) == pending,
    decreases msgs.len(),
{
    if msgs.len() > 0 {
        law_collect_keeps_prefix(known, pending, msgs.drop_last());
        let p = collect_spec(known, pending, msgs.drop_last()).1;
        assert(p.push(msgs.last()).subrange(0, pending.len() as int) =~= p.subrange(0, pending.len() as int));
    }
}

/// Collecting records every handed-in CID as seen; each message it adds is one
/// of those handed in, its CID was not seen before, and no two added messages
/// share a CID. If every pending CID was seen before, every pending CID is
/// seen after.
pub proof fn law_collect_adds_unseen<M>(
    known: Set<Seq<u8>>,
    pending: Seq<PendingMessage<M>>,
    msgs: Seq<PendingMessage<M>>,
)
    requires
        forall|i: int| 0 <= i < pending.len() ==> known.contains(#[trigger] pending[i].cid@),
    ensures
        ({
            let (k, p) = collect_spec(known, pending, msgs);
            &&& k == known.union(message_cids(msgs).to_set())
            &&& forall|i: int| 0 <= i < p.len() ==> k.contains(#[trigger] p[i].cid@)
            &&& forall|i: int| pending.len() <= i < p.len() ==> !known.contains(#[trigger] p[i].cid@)
            &&& forall|i: int| pending.len() <= i < p.len() ==> msgs.contains(#[trigger] p[i])
            &&& forall|i: int, j: int|
                pending.len() <= i < j < p.len() ==> #[trigger] p[i].cid@ != #[trigger] p[j].cid@
        }),
    decreases msgs.len(),
{
    law_collect_keeps_prefix(known, pending, msgs);
    if msgs.len() == 0 {
        assert(message_cids(msgs).to_set() =~= Set::<Seq<u8>>::empty());
        assert(known.union(Set::<Seq<u8>>::empty()) =~= known);
    } else {
        let front = msgs.drop_last();
        law_collect_adds_unseen(known, pending, front);
        law_collect_keeps_prefix(known, pending, front);
        let (k0, p0) = collect_spec(known, pending, front);
        let m = msgs.last();
        assert(message_cids(msgs) =~= message_cids(front).push(m.cid@));
        assert(message_cids(msgs).to_set() =~= message_cids(front).to_set().insert(m.cid@)) by {
            assert forall|x: Seq<u8>| message_cids(msgs).to_set().contains(x) == message_cids(
                front,
            ).to_set().insert(m.cid@).contains(x) by {
                if message_cids(msgs).contains(x) {
                    let j = choose|j: int| 0 <= j < message_cids(msgs).len() && message_cids(msgs)[j] == x;
                    if j < front.len() {
                        assert(message_cids(front)[j] == x);
                    }
                }
                if message_cids(front).contains(x) {
                    let j = choose|j: int| 0 <= j < message_cids(front).len() && message_cids(front)[j] == x;
                    assert(message_cids(msgs)[j] == x);
                }
                if x == m.cid@ {
                    assert(message_cids(msgs)[front.len() as int] == x);
                }
            }
        }
        assert forall|i: int| pending.len() <= i < p0.len() implies msgs.contains(#[trigger] p0[i]) by {
            assert(front.contains(p0[i]));
            let j = choose|j: int| 0 <= j < front.len() && front[j] == p0[i];
            assert(msgs[j] == p0[i]);
        }
        assert(msgs[msgs.len() - 1] == m);
        if !k0.contains(m.cid@) {
            let p = p0.push(m);
            assert forall|i: int| pending.len() <= i < p.len() implies msgs.contains(#[trigger] p[i]) by {
                if i < p0.len() {
                    assert(p[i] == p0[i]);
                    assert(msgs.contains(p0[i]));
                }
            }
            assert forall|i: int, j: int| pending.len() <= i < j < p.len() implies #[trigger] p[i].cid@
                != #[trigger] p[j].cid@ by {
                if j == p0.len() {
                    assert(k0.contains(p0[i].cid@));
                } else {
                    assert(p0[i].cid@ != p0[j].cid@);
                }
            }
            assert forall|i: int| 0 <= i < p.len() implies k0.insert(m.cid@).contains(#[trigger] p[i].cid@) by {
                if i < p0.len() {
                    assert(k0.contains(p0[i].cid@));
                }
            }
            assert forall|i: int| pending.len() <= i < p.len() implies !known.contains(#[trigger] p[i].cid@) by {
                if i < p0.len() {
                    assert(!known.contains(p0[i].cid@));
                }
            }
        }
    }
}

/// Collecting messages whose CIDs have all been seen adds nothing and changes
/// nothing. So a batch collected a second time, or collected after its CIDs
/// were marked as seen, leaves the pending list as it was.
pub proof fn law_collect_seen_adds_nothing<M>(
    known: Set<Seq<u8>>,
    pending: Seq<PendingMessage<M>>,
    msgs: Seq<PendingMessage<M>>,
)
    requires
        message_cids(msgs).to_set().subset_of(known),
    ensures
        collect_spec(known, pending, msgs) == (known, pending),
    decreases msgs.len(),
{
    if msgs.len() > 0 {
        let front = msgs.drop_last();
        assert forall|x: Seq<u8>| message_cids(front).to_set().contains(x) implies known.contains(x) by {
            let j = choose|j: int| 0 <= j < message_cids(front).len() && message_cids(front)[j] == x;
            assert(message_cids(msgs)[j] == x);
            assert(message_cids(msgs).to_set().contains(x));
        }
        law_collect_seen_adds_nothing(known, pending, front);
        assert(message_cids(msgs)[msgs.len() - 1] == msgs.last().cid@);
        assert(message_cids(msgs).to_set().contains(msgs.last().cid@));
    }
}

/// Collecting the same batch twice adds it once.
pub proof fn law_collect_twice<M>(
    known: Set<Seq<u8>>,
    pending: Seq<PendingMessage<M>>,
    msgs: Seq<PendingMessage<M>>,
)
    ensures
        ({
            let (k, p) = collect_spec(known, pending, msgs);
            collect_spec(k, p, msgs) == (k, p)
        }),
{
    let (k, p) = collect_spec(known, pending, msgs);
    lemma_collect_known_grows(known, pending, msgs);
    law_collect_seen_adds_nothing(k, p, msgs);
}

proof fn lemma_collect_known_grows<M>(
    known: Set<Seq<u8>>,
    pending: Seq<PendingMessage<M>>,
    msgs: Seq<PendingMessage<M>>,
)
    ensures
        collect_spec(known, pending, msgs).0 == known.union(message_cids(msgs).to_set()),
    decreases msgs.len(),
{
    if msgs.len() == 0 {
        assert(message_cids(msgs).to_set() =~= Set::<Seq<u8>>::empty());
        assert(known.union(Set::<Seq<u8>>::empty()) =~= known);
    } else {
        let front = msgs.drop_last();
        lemma_collect_known_grows(known, pending, front);
        let m = msgs.last();
        assert forall|x: Seq<u8>| message_cids(msgs).to_set().contains(x) == message_cids(
            front,
        ).to_set().insert(m.cid@).contains(x) by {
            if message_cids(msgs).contains(x) {
                let j = choose|j: int| 0 <= j < message_cids(msgs).len() && message_cids(msgs)[j] == x;
                if j < front.len() {
                    assert(message_cids(front)[j] == x);
                }
            }
            if message_cids(front).contains(x) {
                let j = choose|j: int| 0 <= j < message_cids(front).len() && message_cids(front)[j] == x;
                assert(message_cids(msgs)[j] == x);
            }
            if x == m.cid@ {
                assert(message_cids(msgs)[front.len() as int] == x);
            }
        }
        assert(collect_spec(known, pending, msgs).0 =~= known.union(message_cids(msgs).to_set()));
    }
}


/// Two tipsets are the same exactly when they have the same epoch and their
/// keys have the same length and the same CID at every position.
pub proof fn law_same_tipset_is_key_equality(a: TipsetRef, b: TipsetRef)
    ensures
        a.same_as(&b) <==> (a.epoch == b.epoch && a.key@.len() == b.key@.len() && forall|j: int|
            0 <= j < a.key@.len() ==> #[trigger] a.key@[j]@ == b.key@[j]@),
{
    if a.epoch == b.epoch && a.key@.len() == b.key@.len() && forall|j: int|
        0 <= j < a.key@.len() ==> #[trigger] a.key@[j]@ == b.key@[j]@ {
        assert(cid_views(a.key@) =~= cid_views(b.key@));
    }
    if a.same_as(&b) {
        assert(cid_views(a.key@).len() == a.key@.len());
        assert(cid_views(b.key@).len() == b.key@.len());
        assert forall|j: int| 0 <= j < a.key@.len() implies #[trigger] a.key@[j]@ == b.key@[j]@ by {
            assert(cid_views(a.key@)[j] == a.key@[j]@);
            assert(cid_views(b.key@)[j] == b.key@[j]@);
        }
    }
}

/// At the head of the walk's loop: a tipset at another epoch than the pool's,
/// earlier or later, is collected; at the pool's epoch the walk ends when the
/// tipset is the pool's own (same key), and otherwise marks its messages seen.
pub proof fn law_loop_step(mpool_tipset: TipsetRef, current: TipsetRef)
    ensures
        mpool_tipset.epoch != current.epoch ==> loop_step(mpool_tipset, current) == PendingStep::Collect,
        mpool_tipset.epoch == current.epoch ==> (loop_step(mpool_tipset, current) == PendingStep::Done
            <==> (mpool_tipset.key@.len() == current.key@.len() && forall|j: int|
            0 <= j < mpool_tipset.key@.len() ==> #[trigger] mpool_tipset.key@[j]@ == current.key@[j]@)),
        mpool_tipset.epoch == current.epoch ==> loop_step(mpool_tipset, current) != PendingStep::Collect,
        loop_step(mpool_tipset, current) != PendingStep::FetchParent,
        loop_step(mpool_tipset, current) == PendingStep::MarkKnown || loop_step(mpool_tipset, current)
            == PendingStep::Done || loop_step(mpool_tipset, current) == PendingStep::Collect,
{
    law_same_tipset_is_key_equality(mpool_tipset, current);
}

/// The CID of `msgs[i]` has not been seen and no earlier message of `msgs`
/// has it.
pub open spec fn first_unseen<M>(known: Set<Seq<u8>>, msgs: Seq<PendingMessage<M>>, i: int) -> bool {
    &&& !known.contains(msgs[i].cid@)
    &&& forall|j: int| 0 <= j < i ==> #[trigger] msgs[j].cid@ != msgs[i].cid@
}

/// The messages of `res` from position `start` on come from `msgs` in the
/// order they have there.
pub open spec fn added_in_order<M>(start: int, res: Seq<PendingMessage<M>>, msgs: Seq<PendingMessage<M>>) -> bool {
    forall|p: int, q: int| start <= p < q < res.len() ==> #[trigger] pair_in_order(res[p], res[q], msgs)
}

/// Collecting adds every handed-in message whose CID is not yet seen, the
/// first time that CID comes; and the added messages keep the order they came
/// in.
pub proof fn law_collect_adds_every_unseen<M>(
    known: Set<Seq<u8>>,
    pending: Seq<PendingMessage<M>>,
    msgs: Seq<PendingMessage<M>>,
)
    ensures
        forall|i: int|
            0 <= i < msgs.len() && first_unseen(known, msgs, i) ==> exists|k: int|
                pending.len() <= k < collect_spec(known, pending, msgs).1.len()
                    && #[trigger] collect_spec(known, pending, msgs).1[k] == msgs[i],
        added_in_order(pending.len() as int, collect_spec(known, pending, msgs).1, msgs),
    decreases msgs.len(),
{
    law_collect_keeps_prefix(known, pending, msgs);
    lemma_collect_known_grows(known, pending, msgs);
    let res = collect_spec(known, pending, msgs).1;
    lemma_collect_in_order(known, pending, msgs);
    if msgs.len() > 0 {
        let front = msgs.drop_last();
        let n = msgs.len() - 1;
        law_collect_adds_every_unseen(known, pending, front);
        law_collect_keeps_prefix(known, pending, front);
        lemma_collect_known_grows(known, pending, front);
        let (k0, p0) = collect_spec(known, pending, front);
        let res = collect_spec(known, pending, msgs).1;
        let m = msgs.last();
        assert(msgs[n] == m);
        assert(res.subrange(0, p0.len() as int) == p0) by {
            if !k0.contains(m.cid@) {
                assert(res.subrange(0, p0.len() as int) =~= p0);
            } else {
                assert(res.subrange(0, p0.len() as int) =~= p0);
            }
        }
        assert forall|i: int| 0 <= i < msgs.len() && first_unseen(known, msgs, i) implies exists|k: int|
            pending.len() <= k < res.len() && #[trigger] res[k] == msgs[i] by {
            if i < n {
                assert(front[i] == msgs[i]);
                assert forall|j: int| 0 <= j < i implies #[trigger] front[j].cid@ != front[i].cid@ by {
                    assert(front[j] == msgs[j]);
                }
                assert(first_unseen(known, front, i));
                let k = choose|k: int| pending.len() <= k < p0.len() && #[trigger] p0[k] == front[i];
                assert(res[k] == p0[k]);
            } else {
                // The last message's CID is new: neither known nor in the front.
                assert(!k0.contains(m.cid@)) by {
                    if k0.contains(m.cid@) {
                        if known.contains(m.cid@) {
                        } else {
                            assert(message_cids(front).to_set().contains(m.cid@));
                            let j = choose|j: int| 0 <= j < message_cids(front).len() && message_cids(front)[j] == m.cid@;
                            assert(msgs[j].cid@ == front[j].cid@);
                        }
                    }
                }
                assert(res[p0.len() as int] == m);
            }
        }
    } else {
        assert(collect_spec(known, pending, msgs).1 == pending);
    }
}

proof fn lemma_collect_in_order<M>(
    known: Set<Seq<u8>>,
    pending: Seq<PendingMessage<M>>,
    msgs: Seq<PendingMessage<M>>,
)
    ensures
        added_in_order(pending.len() as int, collect_spec(known, pending, msgs).1, msgs),
{
    let res = collect_spec(known, pending, msgs).1;
    let start = pending.len() as int;
    assert forall|p: int, q: int|
        start <= p < q < res.len() implies #[trigger] pair_in_order(res[p], res[q], msgs) by {
        lemma_collect_pair_order(known, pending, msgs, p, q);
    }
}

/// `a` and `b` are messages of `msgs`, `a` before `b`.
pub open spec fn pair_in_order<M>(a: PendingMessage<M>, b: PendingMessage<M>, msgs: Seq<PendingMessage<M>>) -> bool {
    exists|i: int, j: int| #![trigger msgs[i], msgs[j]] 0 <= i < j < msgs.len() && msgs[i] == a && msgs[j] == b
}

proof fn lemma_collect_pair_order<M>(
    known: Set<Seq<u8>>,
    pending: Seq<PendingMessage<M>>,
    msgs: Seq<PendingMessage<M>>,
    p: int,
    q: int,
)
    requires
        pending.len() <= p < q < collect_spec(known, pending, msgs).1.len(),
    ensures
        exists|i: int, j: int|
            #![trigger msgs[i], msgs[j]]
            0 <= i < j < msgs.len() && msgs[i] == collect_spec(known, pending, msgs).1[p] && msgs[j]
                == collect_spec(known, pending, msgs).1[q],
    decreases msgs.len(),
{
    law_collect_keeps_prefix(known, pending, msgs);
    let front = msgs.drop_last();
    let n = msgs.len() - 1;
    law_collect_keeps_prefix(known, pending, front);
    let (k0, p0) = collect_spec(known, pending, front);
    let res = collect_spec(known, pending, msgs).1;
    let m = msgs.last();
    if q < p0.len() {
        lemma_collect_pair_order(known, pending, front, p, q);
        let (i, j) = choose|i: int, j: int|
            #![trigger front[i], front[j]]
            0 <= i < j < front.len() && front[i] == p0[p] && front[j] == p0[q];
        assert(res[p] == p0[p] && res[q] == p0[q]) by {
            if !k0.contains(m.cid@) {
                assert(res == p0.push(m));
            }
        }
        assert(msgs[i] == front[i] && msgs[j] == front[j]);
    } else {
        law_collect_adds_unseen_from(known, pending, front, p);
        let i = choose|i: int| 0 <= i < front.len() && front[i] == p0[p];
        assert(msgs[i] == front[i]);
        assert(!k0.contains(m.cid@));
        assert(res == p0.push(m));
        assert(msgs[n] == m);
        assert(0 <= i < n && msgs[i] == res[p] && msgs[n] == res[q]);
    }
}

proof fn law_collect_adds_unseen_from<M>(
    known: Set<Seq<u8>>,
    pending: Seq<PendingMessage<M>>,
    msgs: Seq<PendingMessage<M>>,
    p: int,
)
    requires
        pending.len() <= p < collect_spec(known, pending, msgs).1.len(),
    ensures
        exists|i: int| 0 <= i < msgs.len() && msgs[i] == collect_spec(known, pending, msgs).1[p],
    decreases msgs.len(),
{
    law_collect_keeps_prefix(known, pending, msgs);
    if msgs.len() > 0 {
        let front = msgs.drop_last();
        law_collect_keeps_prefix(known, pending, front);
        let p0 = collect_spec(known, pending, front).1;
        if p < p0.len() {
            law_collect_adds_unseen_from(known, pending, front, p);
            let i = choose|i: int| 0 <= i < front.len() && front[i] == p0[p];
            assert(msgs[i] == front[i]);
        } else {
            assert(msgs[msgs.len() - 1] == msgs.last());
        }
    }
}

} // verus!
