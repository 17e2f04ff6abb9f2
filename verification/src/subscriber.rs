//! The head subscriber as a state machine: it is told what happened, and
//! says what to do next.
//!
//! For each announced height the subscriber has the block fetched and
//! compares its parent hash with the stored block below it. Where they
//! differ it walks down, one freshly fetched block at a time, until the
//! fresh blocks fit the stored chain again or the reorg depth is used up.
//! Nothing is written before the fresh blocks fit. Then the heights between
//! the watermark and the fresh blocks that the store does not hold are
//! fetched and written one by one, and last the fresh blocks are written and
//! the watermark is moved to the announced height.

use crate::batch::Batch;
use crate::block::{models, same_hash, BlockModel, BlockRecord};
use crate::error::{ConfigError, PipelineError, RpcError};
use crate::retry::{decision, RetryDecision, RetryPolicy};
use vstd::prelude::*;

verus! {

/// What the subscriber is waiting for.
#[derive(Debug, Clone, Copy, PartialEq, Eq, Structural)]
pub enum Phase {
    /// For the subscription to open, after `failures` failed attempts.
    Connecting { failures: u32 },
    /// For the next announced height.
    Streaming,
    /// For the block at `height`, after `failures` failed attempts.
    Fetching { height: i64, failures: u32 },
    /// For the hash of the stored block below the lowest fresh block.
    Comparing,
    /// For the store to say whether it holds a block at the height that may
    /// be missing.
    Probing,
    /// For the block at the missing height, after `failures` failed attempts.
    Filling { failures: u32 },
    /// For the store to take the block at the missing height.
    Storing,
    /// For the store to take the fresh blocks.
    Committing,
    /// For nothing: the subscriber has stopped on this fault.
    Failed(PipelineError),
}

/// What happened.
#[derive(Debug, Clone, PartialEq, Eq)]
pub enum Event {
    /// The subscription is open.
    Connected,
    /// The subscription could not be opened.
    ConnectFailed(RpcError),
    /// The subscription ended on an error.
    StreamEnded(RpcError),
    /// The provider announced `height`; the store's watermark is `watermark`.
    Head { height: i64, watermark: i64 },
    /// The block that was asked for.
    Block(BlockRecord),
    /// The block that was asked for could not be fetched.
    FetchFailed(RpcError),
    /// The hash of the stored block that was asked for, if there is one.
    Stored(Option<[u8; 32]>),
    /// The store has taken the blocks.
    Committed,
    /// The store has refused the blocks.
    CommitFailed,
}

/// What to do next.
#[derive(Debug, Clone, PartialEq, Eq)]
pub enum Action {
    /// Open the subscription once `after_ms` milliseconds have passed.
    Connect { after_ms: u64 },
    /// Wait for the next announced height.
    AwaitHead,
    /// Fetch the block at `height` once `after_ms` milliseconds have passed.
    FetchBlock { height: i64, after_ms: u64 },
    /// Read the hash of the stored block at `height`.
    LoadStored { height: i64 },
    /// Write `records` in one piece; then, where `advance` is given, move the
    /// watermark to its end if it stands just below its start.
    Commit { records: Vec<BlockRecord>, advance: Option<Batch> },
    /// Stop: the fault is fatal.
    Stop(PipelineError),
    /// Nothing: the event was not the one waited for.
    Ignore,
}

/// An `Event` as plain values.
pub enum EventModel {
    Connected,
    ConnectFailed(RpcError),
    StreamEnded(RpcError),
    Head { height: int, watermark: int },
    Block(BlockModel),
    FetchFailed(RpcError),
    Stored(Option<Seq<u8>>),
    Committed,
    CommitFailed,
}

/// An `Action` as plain values.
pub enum ActionModel {
    Connect { after_ms: int },
    AwaitHead,
    FetchBlock { height: int, after_ms: int },
    LoadStored { height: int },
    Commit { records: Seq<BlockModel>, advance: Option<Batch> },
    Stop(PipelineError),
    Ignore,
}

impl View for Event {
    type V = EventModel;

    open spec fn view(&self) -> EventModel {
        match *self {
            Event::Connected => EventModel::Connected,
            Event::ConnectFailed(e) => EventModel::ConnectFailed(e),
            Event::StreamEnded(e) => EventModel::StreamEnded(e),
            Event::Head { height, watermark } => EventModel::Head {
                height: height as int,
                watermark: watermark as int,
            },
            Event::Block(b) => EventModel::Block(b@),
            Event::FetchFailed(e) => EventModel::FetchFailed(e),
            Event::Stored(hash) => EventModel::Stored(
                match hash {
                    Some(h) => Some(h@),
                    None => None,
                },
            ),
            Event::Committed => EventModel::Committed,
            Event::CommitFailed => EventModel::CommitFailed,
        }
    }
}

impl View for Action {
    type V = ActionModel;

    open spec fn view(&self) -> ActionModel {
        match *self {
            Action::Connect { after_ms } => ActionModel::Connect { after_ms: after_ms as int },
            Action::AwaitHead => ActionModel::AwaitHead,
            Action::FetchBlock { height, after_ms } => ActionModel::FetchBlock {
                height: height as int,
                after_ms: after_ms as int,
            },
            Action::LoadStored { height } => ActionModel::LoadStored { height: height as int },
            Action::Commit { records, advance } => ActionModel::Commit {
                records: models(records@),
                advance,
            },
            Action::Stop(e) => ActionModel::Stop(e),
            Action::Ignore => ActionModel::Ignore,
        }
    }
}

/// The head subscriber of one chain.
pub struct Subscriber {
    chain_id: i64,
    reorg_depth: i64,
    policy: RetryPolicy,
    phase: Phase,
    target: i64,
    mark: i64,
    gap: i64,
    budget: i64,
    pending: Vec<BlockRecord>,
}

/// What a `Subscriber` holds, as plain values: the chain and its reorg
/// depth, what it waits for, the height announced last, the watermark as it
/// stood then, the height that may be missing, how many blocks it may still
/// walk down, and the fresh blocks from the announced height downwards.
pub struct SubscriberModel {
    pub chain_id: int,
    pub reorg_depth: int,
    pub policy: RetryPolicy,
    pub phase: Phase,
    pub target: int,
    pub mark: int,
    pub gap: int,
    pub budget: int,
    pub pending: Seq<BlockModel>,
}

/// Whether `pending` are blocks of chain `chain_id` at the heights from
/// `top` downwards, each built on the one after it.
pub open spec fn descends(pending: Seq<BlockModel>, chain_id: int, top: int) -> bool {
    &&& forall|i: int|
        0 <= i < pending.len() ==> (#[trigger] pending[i]).height == top - i && pending[i].chain_id
            == chain_id
    &&& forall|i: int|
        0 <= i < pending.len() - 1 ==> (#[trigger] pending[i]).parent_hash == pending[i + 1].hash
}

/// What the watermark is asked to move over once the blocks up to the
/// announced height `target` are written: the heights above `mark`, where
/// it stood at the announcement, if there are any.
pub open spec fn advance_of(target: int, mark: int) -> Option<Batch> {
    if target > mark {
        Some(Batch { start: (mark + 1) as i64, end: target as i64 })
    } else {
        None
    }
}

/// Where the subscriber goes once the height `after` needs no filling: to
/// the next height above it that lies below the fresh blocks, or, where
/// there is none, to the writing of the fresh blocks. The result is the
/// phase, the height that may be missing, the fresh blocks kept, and what is
/// asked for.
pub open spec fn sought(
    pending: Seq<BlockModel>,
    target: int,
    mark: int,
    gap: int,
    after: int,
) -> (Phase, int, Seq<BlockModel>, ActionModel) {
    if after + 1 >= target - pending.len() + 1 {
        (
            Phase::Committing,
            gap,
            Seq::empty(),
            ActionModel::Commit { records: pending.reverse(), advance: advance_of(target, mark) },
        )
    } else {
        (Phase::Probing, after + 1, pending, ActionModel::LoadStored { height: after + 1 })
    }
}

impl SubscriberModel {
    /// The height of the lowest fresh block.
    pub open spec fn low(self) -> int {
        self.target - self.pending.len() + 1
    }

    pub open spec fn wf(self) -> bool {
        &&& 0 <= self.budget <= self.reorg_depth <= i64::MAX
        &&& descends(self.pending, self.chain_id, self.target)
        &&& match self.phase {
            Phase::Fetching { height, .. } => 0 <= height == self.target - self.pending.len()
                && self.target <= i64::MAX && -1 <= self.mark <= i64::MAX,
            Phase::Comparing => self.pending.len() >= 1 && self.low() >= 1 && self.target
                <= i64::MAX && -1 <= self.mark <= i64::MAX,
            Phase::Probing => self.pending.len() >= 1 && -1 <= self.mark < self.gap < self.low()
                && self.target <= i64::MAX,
            Phase::Filling { .. } => self.pending.len() >= 1 && -1 <= self.mark < self.gap
                < self.low() && self.target <= i64::MAX,
            Phase::Storing => self.pending.len() >= 1 && -1 <= self.mark < self.gap < self.low()
                && self.target <= i64::MAX,
            Phase::Committing => self.pending.len() == 0 && 0 <= self.target <= i64::MAX && -1
                <= self.mark,
            _ => self.pending.len() == 0,
        }
    }

    /// The subscriber stopped on `fault`.
    pub open spec fn stopped(self, fault: PipelineError) -> (SubscriberModel, ActionModel) {
        (
            SubscriberModel { phase: Phase::Failed(fault), pending: Seq::empty(), ..self },
            ActionModel::Stop(fault),
        )
    }

    /// After one more failure to connect.
    pub open spec fn reconnect(self, failures: int, error: RpcError) -> (
        SubscriberModel,
        ActionModel,
    ) {
        match decision(self.policy, (failures + 1) as nat) {
            RetryDecision::RetryAfter(ms) => (
                SubscriberModel {
                    phase: Phase::Connecting { failures: (failures + 1) as u32 },
                    ..self
                },
                ActionModel::Connect { after_ms: ms as int },
            ),
            RetryDecision::GiveUp => self.stopped(PipelineError::Rpc(error)),
        }
    }

    /// After one more failure to fetch the block at `height` on the walk down.
    pub open spec fn refetch(self, height: int, failures: int, error: RpcError) -> (
        SubscriberModel,
        ActionModel,
    ) {
        match decision(self.policy, (failures + 1) as nat) {
            RetryDecision::RetryAfter(ms) => (
                SubscriberModel {
                    phase: Phase::Fetching { height: height as i64, failures: (failures + 1) as u32 },
                    ..self
                },
                ActionModel::FetchBlock { height, after_ms: ms as int },
            ),
            RetryDecision::GiveUp => self.stopped(PipelineError::Rpc(error)),
        }
    }

    /// After one more failure to fetch the block at the missing height.
    pub open spec fn refill(self, failures: int, error: RpcError) -> (
        SubscriberModel,
        ActionModel,
    ) {
        match decision(self.policy, (failures + 1) as nat) {
            RetryDecision::RetryAfter(ms) => (
                SubscriberModel {
                    phase: Phase::Filling { failures: (failures + 1) as u32 },
                    ..self
                },
                ActionModel::FetchBlock { height: self.gap, after_ms: ms as int },
            ),
            RetryDecision::GiveUp => self.stopped(PipelineError::Rpc(error)),
        }
    }

    /// The height `after` needs no filling: on to the next height, or to the
    /// writing of the fresh blocks.
    pub open spec fn seek(self, after: int) -> (SubscriberModel, ActionModel) {
        let (phase, gap, pending, action) = sought(
            self.pending,
            self.target,
            self.mark,
            self.gap,
            after,
        );
        (SubscriberModel { phase, gap, pending, ..self }, action)
    }

    /// The fresh blocks `pending` fit the stored chain: on to the heights
    /// above the watermark.
    pub open spec fn found(self, pending: Seq<BlockModel>) -> (SubscriberModel, ActionModel) {
        (SubscriberModel { pending, ..self }).seek(self.mark)
    }

    /// Whether `block` is the block that was asked for at `height` on the
    /// walk down: of this chain, at that height, and the parent of the
    /// lowest fresh block.
    pub open spec fn accepts(self, height: int, block: BlockModel) -> bool {
        &&& block.height == height
        &&& block.chain_id == self.chain_id
        &&& self.pending.len() > 0 ==> self.pending.last().parent_hash == block.hash
    }

    /// What the subscriber does on `event`: the state it goes to, and what
    /// it asks for.
    pub open spec fn react(self, event: EventModel) -> (SubscriberModel, ActionModel) {
        match self.phase {
            Phase::Failed(fault) => (self, ActionModel::Stop(fault)),
            Phase::Connecting { failures } => match event {
                EventModel::Connected => (
                    SubscriberModel { phase: Phase::Streaming, ..self },
                    ActionModel::AwaitHead,
                ),
                EventModel::ConnectFailed(error) => self.reconnect(failures as int, error),
                EventModel::StreamEnded(error) => self.reconnect(failures as int, error),
                _ => (self, ActionModel::Ignore),
            },
            Phase::Streaming => match event {
                EventModel::Head { height, watermark } => if height < 0 {
                    (self, ActionModel::AwaitHead)
                } else {
                    (
                        SubscriberModel {
                            phase: Phase::Fetching { height: height as i64, failures: 0 },
                            target: height,
                            mark: if watermark < -1 {
                                -1
                            } else {
                                watermark
                            },
                            budget: self.reorg_depth,
                            pending: Seq::empty(),
                            ..self
                        },
                        ActionModel::FetchBlock { height, after_ms: 0 },
                    )
                },
                EventModel::StreamEnded(error) => self.reconnect(0, error),
                _ => (self, ActionModel::Ignore),
            },
            Phase::Fetching { height, failures } => match event {
                EventModel::Block(block) => if self.accepts(height as int, block) {
                    if height == 0 {
                        self.found(self.pending.push(block))
                    } else {
                        (
                            SubscriberModel {
                                phase: Phase::Comparing,
                                pending: self.pending.push(block),
                                ..self
                            },
                            ActionModel::LoadStored { height: height - 1 },
                        )
                    }
                } else {
                    self.refetch(height as int, failures as int, RpcError::MalformedResponse)
                },
                EventModel::FetchFailed(error) => self.refetch(
                    height as int,
                    failures as int,
                    error,
                ),
                _ => (self, ActionModel::Ignore),
            },
            Phase::Comparing => match event {
                EventModel::Stored(stored) => if stored is None || stored
                    == Some(self.pending.last().parent_hash) {
                    self.found(self.pending)
                } else if self.budget == 0 {
                    self.stopped(PipelineError::ReconciliationExhausted)
                } else {
                    (
                        SubscriberModel {
                            phase: Phase::Fetching {
                                height: (self.pending.last().height - 1) as i64,
                                failures: 0,
                            },
                            budget: self.budget - 1,
                            ..self
                        },
                        ActionModel::FetchBlock {
                            height: self.pending.last().height - 1,
                            after_ms: 0,
                        },
                    )
                },
                _ => (self, ActionModel::Ignore),
            },
            Phase::Probing => match event {
                EventModel::Stored(stored) => if stored is Some {
                    self.seek(self.gap)
                } else {
                    (
                        SubscriberModel { phase: Phase::Filling { failures: 0 }, ..self },
                        ActionModel::FetchBlock { height: self.gap, after_ms: 0 },
                    )
                },
                _ => (self, ActionModel::Ignore),
            },
            Phase::Filling { failures } => match event {
                EventModel::Block(block) => if block.height == self.gap && block.chain_id
                    == self.chain_id {
                    (
                        SubscriberModel { phase: Phase::Storing, ..self },
                        ActionModel::Commit { records: seq![block], advance: None },
                    )
                } else {
                    self.refill(failures as int, RpcError::MalformedResponse)
                },
                EventModel::FetchFailed(error) => self.refill(failures as int, error),
                _ => (self, ActionModel::Ignore),
            },
            Phase::Storing => match event {
                EventModel::Committed => self.seek(self.gap),
                EventModel::CommitFailed => self.stopped(PipelineError::Persistence),
                _ => (self, ActionModel::Ignore),
            },
            Phase::Committing => match event {
                EventModel::Committed => (
                    SubscriberModel { phase: Phase::Streaming, ..self },
                    ActionModel::AwaitHead,
                ),
                EventModel::CommitFailed => self.stopped(PipelineError::Persistence),
                _ => (self, ActionModel::Ignore),
            },
        }
    }
}

impl View for Subscriber {
    type V = SubscriberModel;

    closed spec fn view(&self) -> SubscriberModel {
        SubscriberModel {
            chain_id: self.chain_id as int,
            reorg_depth: self.reorg_depth as int,
            policy: self.policy,
            phase: self.phase,
            target: self.target as int,
            mark: self.mark as int,
            gap: self.gap as int,
            budget: self.budget as int,
            pending: models(self.pending@),
        }
    }
}

/// The blocks of `pending` in the opposite order.
fn reversed(pending: Vec<BlockRecord>) -> (records: Vec<BlockRecord>)
    ensures
        models(records@) == models(pending@).reverse(),
{
    let ghost whole = pending@;
    let mut rest = pending;
    let mut records: Vec<BlockRecord> = Vec::new();
    while rest.len() > 0
        invariant
            rest@.len() + records@.len() == whole.len(),
            rest@ == whole.take(rest@.len() as int),
            forall|i: int| 0 <= i < records@.len() ==> records@[i] == whole[whole.len() - 1 - i],
        decreases rest.len(),
    {
        let block = rest.pop().unwrap();
        records.push(block);
        assert(rest@ =~= whole.take(rest@.len() as int));
    }
    assert(models(records@) =~= models(whole).reverse());
    records
}

/// Where the subscriber goes once the height `after` needs no filling.
fn seek(pending: Vec<BlockRecord>, target: i64, mark: i64, gap: i64, after: i64) -> (next: (
    Phase,
    i64,
    Vec<BlockRecord>,
    Action,
))
    requires
        1 <= pending@.len() <= target + 1,
        -1 <= mark,
    ensures
        (next.0, next.1 as int, models(next.2@), next.3@) == sought(
            models(pending@),
            target as int,
            mark as int,
            gap as int,
            after as int,
        ),
{
    let above: usize = pending.len() - 1;
    let low: i64 = target - (above as i64);
    if after >= low - 1 {
        let advance = if target > mark {
            Some(Batch { start: mark + 1, end: target })
        } else {
            None
        };
        let records = reversed(pending);
        let rest: Vec<BlockRecord> = Vec::new();
        assert(models(rest@) =~= Seq::empty());
        (Phase::Committing, gap, rest, Action::Commit { records, advance })
    } else {
        (Phase::Probing, after + 1, pending, Action::LoadStored { height: after + 1 })
    }
}

impl Subscriber {
    #[verifier::type_invariant]
    spec fn inv(&self) -> bool {
        self@.wf()
    }

    /// A subscriber that waits for a head and holds nothing, for putting in
    /// the place of one that is being changed.
    fn blank(policy: RetryPolicy) -> (it: Subscriber)
        ensures
            it@ == (SubscriberModel {
                chain_id: 0,
                reorg_depth: 0,
                policy,
                phase: Phase::Streaming,
                target: 0,
                mark: -1,
                gap: 0,
                budget: 0,
                pending: Seq::empty(),
            }),
            it@.wf(),
    {
        let it = Subscriber {
            chain_id: 0,
            reorg_depth: 0,
            policy,
            phase: Phase::Streaming,
            target: 0,
            mark: -1,
            gap: 0,
            budget: 0,
            pending: Vec::new(),
        };
        assert(it@.pending =~= Seq::empty());
        it
    }

    /// A subscriber for chain `chain_id` that has yet to connect, and that
    /// walks down at most `reorg_depth` blocks.
    pub fn new(chain_id: i64, reorg_depth: i64, policy: RetryPolicy) -> (made: Result<
        Subscriber,
        ConfigError,
    >)
        ensures
            made is Ok <==> reorg_depth >= 0,
            match made {
                Ok(it) => it@.wf() && it@ == (SubscriberModel {
                    chain_id: chain_id as int,
                    reorg_depth: reorg_depth as int,
                    policy,
                    phase: Phase::Connecting { failures: 0 },
                    target: 0,
                    mark: -1,
                    gap: 0,
                    budget: 0,
                    pending: Seq::empty(),
                }),
                Err(e) => e == ConfigError::NegativeReorgDepth,
            },
    {
        if reorg_depth < 0 {
            return Err(ConfigError::NegativeReorgDepth);
        }
        let it = Subscriber {
            chain_id,
            reorg_depth,
            policy,
            phase: Phase::Connecting { failures: 0 },
            target: 0,
            mark: -1,
            gap: 0,
            budget: 0,
            pending: Vec::new(),
        };
        assert(it@.pending =~= Seq::empty());
        Ok(it)
    }

    /// What the subscriber is waiting for. A subscriber always answers
    /// well-formed.
    pub fn phase(&self) -> (phase: Phase)
        ensures
            phase == self@.phase,
            self@.wf(),
    {
        proof {
            use_type_invariant(self);
        }
        self.phase
    }

    /// Takes note of `event` and says what to do next.
    pub fn step(&mut self, event: Event) -> (action: Action)
        ensures
            (final(self)@, action@) == old(self)@.react(event@),
            final(self)@.wf(),
    {
        proof {
            use_type_invariant(&*self);
        }
        let ghost before = self@;
        let mut taken = Subscriber::blank(self.policy);
        std::mem::swap(self, &mut taken);
        let Subscriber { chain_id, reorg_depth, policy, phase, target, mark, gap, budget, pending } =
            taken;
        let mut pending = pending;
        let mut next_phase = phase;
        let mut next_target = target;
        let mut next_mark = mark;
        let mut next_gap = gap;
        let mut next_budget = budget;
        let mut action = Action::Ignore;
        match phase {
            Phase::Failed(fault) => {
                action = Action::Stop(fault);
            },
            Phase::Connecting { failures } => {
                match event {
                    Event::Connected => {
                        next_phase = Phase::Streaming;
                        action = Action::AwaitHead;
                    },
                    Event::ConnectFailed(error) => {
                        let (p, a) = after_connect_failure(&policy, failures, error);
                        next_phase = p;
                        action = a;
                    },
                    Event::StreamEnded(error) => {
                        let (p, a) = after_connect_failure(&policy, failures, error);
                        next_phase = p;
                        action = a;
                    },
                    _ => {},
                }
            },
            Phase::Streaming => {
                match event {
                    Event::Head { height, watermark } => {
                        if height < 0 {
                            action = Action::AwaitHead;
                        } else {
                            next_target = height;
                            next_mark = if watermark < -1 {
                                -1
                            } else {
                                watermark
                            };
                            next_budget = reorg_depth;
                            next_phase = Phase::Fetching { height, failures: 0 };
                            action = Action::FetchBlock { height, after_ms: 0 };
                        }
                    },
                    Event::StreamEnded(error) => {
                        let (p, a) = after_connect_failure(&policy, 0, error);
                        next_phase = p;
                        action = a;
                    },
                    _ => {},
                }
            },
            Phase::Fetching { height, failures } => {
                match event {
                    Event::Block(block) => {
                        let fits = block.height == height && block.chain_id == chain_id && (
                        pending.len() == 0 || same_hash(
                            &pending[pending.len() - 1].parent_hash,
                            &block.hash,
                        ));
                        proof {
                            if pending.len() > 0 {
                                assert(models(pending@).last() == pending@[pending.len() - 1]@);
                            }
                        }
                        if fits {
                            let ghost fresh = before.pending.push(block@);
                            pending.push(block);
                            proof {
                                assert(models(pending@) =~= fresh);
                                assert forall|i: int| 0 <= i < fresh.len() - 1 implies (
                                #[trigger] fresh[i]).parent_hash == fresh[i + 1].hash by {
                                    if i + 1 < before.pending.len() {
                                        assert(fresh[i] == before.pending[i]);
                                        assert(fresh[i + 1] == before.pending[i + 1]);
                                    }
                                }
                            }
                            if height == 0 {
                                let (p, g, rest, a) = seek(pending, target, mark, gap, mark);
                                next_phase = p;
                                next_gap = g;
                                pending = rest;
                                action = a;
                            } else {
                                next_phase = Phase::Comparing;
                                action = Action::LoadStored { height: height - 1 };
                            }
                        } else {
                            let (p, a) = after_fetch_failure(
                                &policy,
                                height,
                                failures,
                                RpcError::MalformedResponse,
                            );
                            if let Phase::Failed(_) = p {
                                pending = Vec::new();
                            }
                            next_phase = p;
                            action = a;
                        }
                    },
                    Event::FetchFailed(error) => {
                        let (p, a) = after_fetch_failure(&policy, height, failures, error);
                        if let Phase::Failed(_) = p {
                            pending = Vec::new();
                        }
                        next_phase = p;
                        action = a;
                    },
                    _ => {},
                }
            },
            Phase::Comparing => {
                match event {
                    Event::Stored(stored) => {
                        let lowest = &pending[pending.len() - 1];
                        assert(models(pending@).last() == lowest@);
                        let below: i64 = lowest.height - 1;
                        let fits = match stored {
                            None => true,
                            Some(hash) => same_hash(&hash, &lowest.parent_hash),
                        };
                        if fits {
                            let (p, g, rest, a) = seek(pending, target, mark, gap, mark);
                            next_phase = p;
                            next_gap = g;
                            pending = rest;
                            action = a;
                        } else if budget == 0 {
                            pending = Vec::new();
                            next_phase = Phase::Failed(PipelineError::ReconciliationExhausted);
                            action = Action::Stop(PipelineError::ReconciliationExhausted);
                        } else {
                            next_budget = budget - 1;
                            next_phase = Phase::Fetching { height: below, failures: 0 };
                            action = Action::FetchBlock { height: below, after_ms: 0 };
                        }
                    },
                    _ => {},
                }
            },
            Phase::Probing => {
                match event {
                    Event::Stored(stored) => {
                        if stored.is_some() {
                            let (p, g, rest, a) = seek(pending, target, mark, gap, gap);
                            next_phase = p;
                            next_gap = g;
                            pending = rest;
                            action = a;
                        } else {
                            next_phase = Phase::Filling { failures: 0 };
                            action = Action::FetchBlock { height: gap, after_ms: 0 };
                        }
                    },
                    _ => {},
                }
            },
            Phase::Filling { failures } => {
                match event {
                    Event::Block(block) => {
                        if block.height == gap && block.chain_id == chain_id {
                            let ghost filled = block@;
                            let mut records: Vec<BlockRecord> = Vec::new();
                            records.push(block);
                            assert(models(records@) =~= seq![filled]);
                            next_phase = Phase::Storing;
                            action = Action::Commit { records, advance: None };
                        } else {
                            let (p, a) = after_fill_failure(
                                &policy,
                                gap,
                                failures,
                                RpcError::MalformedResponse,
                            );
                            if let Phase::Failed(_) = p {
                                pending = Vec::new();
                            }
                            next_phase = p;
                            action = a;
                        }
                    },
                    Event::FetchFailed(error) => {
                        let (p, a) = after_fill_failure(&policy, gap, failures, error);
                        if let Phase::Failed(_) = p {
                            pending = Vec::new();
                        }
                        next_phase = p;
                        action = a;
                    },
                    _ => {},
                }
            },
            Phase::Storing => {
                match event {
                    Event::Committed => {
                        let (p, g, rest, a) = seek(pending, target, mark, gap, gap);
                        next_phase = p;
                        next_gap = g;
                        pending = rest;
                        action = a;
                    },
                    Event::CommitFailed => {
                        pending = Vec::new();
                        next_phase = Phase::Failed(PipelineError::Persistence);
                        action = Action::Stop(PipelineError::Persistence);
                    },
                    _ => {},
                }
            },
            Phase::Committing => {
                match event {
                    Event::Committed => {
                        next_phase = Phase::Streaming;
                        action = Action::AwaitHead;
                    },
                    Event::CommitFailed => {
                        next_phase = Phase::Failed(PipelineError::Persistence);
                        action = Action::Stop(PipelineError::Persistence);
                    },
                    _ => {},
                }
            },
        }
        proof {
            let expected = before.react(event@);
            assert(models(pending@) =~= expected.0.pending);
        }
        *self = Subscriber {
            chain_id,
            reorg_depth,
            policy,
            phase: next_phase,
            target: next_target,
            mark: next_mark,
            gap: next_gap,
            budget: next_budget,
            pending,
        };
        action
    }
}

/// The phase and the action after one more failure to connect.
fn after_connect_failure(policy: &RetryPolicy, failures: u32, error: RpcError) -> (next: (
    Phase,
    Action,
))
    ensures
        next.0 == match decision(*policy, (failures + 1) as nat) {
            RetryDecision::RetryAfter(_) => Phase::Connecting { failures: (failures + 1) as u32 },
            RetryDecision::GiveUp => Phase::Failed(PipelineError::Rpc(error)),
        },
        next.1@ == match decision(*policy, (failures + 1) as nat) {
            RetryDecision::RetryAfter(ms) => ActionModel::Connect { after_ms: ms as int },
            RetryDecision::GiveUp => ActionModel::Stop(PipelineError::Rpc(error)),
        },
{
    let verdict = if failures < u32::MAX {
        policy.decide(failures + 1)
    } else {
        RetryDecision::GiveUp
    };
    match verdict {
        RetryDecision::RetryAfter(ms) => (
            Phase::Connecting { failures: failures + 1 },
            Action::Connect { after_ms: ms },
        ),
        RetryDecision::GiveUp => (
            Phase::Failed(PipelineError::Rpc(error)),
            Action::Stop(PipelineError::Rpc(error)),
        ),
    }
}

/// The phase and the action after one more failure to fetch the block at `height`.
fn after_fetch_failure(policy: &RetryPolicy, height: i64, failures: u32, error: RpcError) -> (next: (
    Phase,
    Action,
))
    ensures
        next.0 == match decision(*policy, (failures + 1) as nat) {
            RetryDecision::RetryAfter(_) => Phase::Fetching {
                height,
                failures: (failures + 1) as u32,
            },
            RetryDecision::GiveUp => Phase::Failed(PipelineError::Rpc(error)),
        },
        next.1@ == match decision(*policy, (failures + 1) as nat) {
            RetryDecision::RetryAfter(ms) => ActionModel::FetchBlock {
                height: height as int,
                after_ms: ms as int,
            },
            RetryDecision::GiveUp => ActionModel::Stop(PipelineError::Rpc(error)),
        },
{
    let verdict = if failures < u32::MAX {
        policy.decide(failures + 1)
    } else {
        RetryDecision::GiveUp
    };
    match verdict {
        RetryDecision::RetryAfter(ms) => (
            Phase::Fetching { height, failures: failures + 1 },
            Action::FetchBlock { height, after_ms: ms },
        ),
        RetryDecision::GiveUp => (
            Phase::Failed(PipelineError::Rpc(error)),
            Action::Stop(PipelineError::Rpc(error)),
        ),
    }
}

/// The phase and the action after one more failure to fetch the block at
/// the missing height `gap`.
fn after_fill_failure(policy: &RetryPolicy, gap: i64, failures: u32, error: RpcError) -> (next: (
    Phase,
    Action,
))
    ensures
        next.0 == match decision(*policy, (failures + 1) as nat) {
            RetryDecision::RetryAfter(_) => Phase::Filling { failures: (failures + 1) as u32 },
            RetryDecision::GiveUp => Phase::Failed(PipelineError::Rpc(error)),
        },
        next.1@ == match decision(*policy, (failures + 1) as nat) {
            RetryDecision::RetryAfter(ms) => ActionModel::FetchBlock {
                height: gap as int,
                after_ms: ms as int,
            },
            RetryDecision::GiveUp => ActionModel::Stop(PipelineError::Rpc(error)),
        },
{
    let verdict = if failures < u32::MAX {
        policy.decide(failures + 1)
    } else {
        RetryDecision::GiveUp
    };
    match verdict {
        RetryDecision::RetryAfter(ms) => (
            Phase::Filling { failures: failures + 1 },
            Action::FetchBlock { height: gap, after_ms: ms },
        ),
        RetryDecision::GiveUp => (
            Phase::Failed(PipelineError::Rpc(error)),
            Action::Stop(PipelineError::Rpc(error)),
        ),
    }
}

} // verus!
