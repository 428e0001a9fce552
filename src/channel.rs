use std::collections::HashMap;
use vstd::prelude::*;

use crate::context::{handle_space, Context};
use crate::frame::{Item, Payload};
use crate::handle::{ForkHandle, TypePair};
use crate::text::{decimal, push_decimal};
use vstd::string::StringExecFns;

verus! {

broadcast use vstd::std_specs::hash::group_hash_axioms;

/// The stage of a sink operation at which an inner sink failed.
#[derive(Clone, Copy, Debug, PartialEq, Eq, Structural)]
pub enum SinkStage {
    Ready,
    Send,
    Flush,
    Close,
}

pub open spec fn stage_name(s: SinkStage) -> Seq<char> {
    match s {
        SinkStage::Ready => "ready"@,
        SinkStage::Send => "send"@,
        SinkStage::Flush => "flush"@,
        SinkStage::Close => "close"@,
    }
}

impl SinkStage {
    /// The stage's name in lower case.
    pub fn name(&self) -> (r: &'static str)
        ensures
            r@ == stage_name(*self),
    {
        match self {
            SinkStage::Ready => "ready",
            SinkStage::Send => "send",
            SinkStage::Flush => "flush",
            SinkStage::Close => "close",
        }
    }
}

/// Why an inner sink refused an item.
#[derive(Clone, Copy, Debug, PartialEq, Eq, Structural)]
pub enum ChannelError {
    /// The receiving half is gone.
    Disconnected,
    /// The sink has no room.
    Full,
}

pub open spec fn cause_name(e: ChannelError) -> Seq<char> {
    match e {
        ChannelError::Disconnected => "disconnected"@,
        ChannelError::Full => "full"@,
    }
}

impl ChannelError {
    /// The cause's name in lower case.
    pub fn name(&self) -> (r: &'static str)
        ensures
            r@ == cause_name(*self),
    {
        match self {
            ChannelError::Disconnected => "disconnected",
            ChannelError::Full => "full",
        }
    }
}

#[derive(Clone, Copy, Debug, PartialEq, Eq, Structural)]
pub enum IdChannelError {
    /// An inner sink failed at the given stage.
    Channel(SinkStage, ForkHandle, ChannelError),
    /// A frame named a fork that is not live.
    InvalidId(ForkHandle),
    /// A fork was opened with a type pair other than the one recorded for it.
    TypeMismatch(ForkHandle),
}

/// The message of a channel error.
pub open spec fn error_message(e: IdChannelError) -> Seq<char> {
    match e {
        IdChannelError::Channel(stage, h, cause) => "send on underlying channel "@ + decimal(h.0 as nat)
            + " in "@ + stage_name(stage) + " stage failed: "@ + cause_name(cause),
        IdChannelError::InvalidId(h) => "underlying channel "@ + decimal(h.0 as nat)
            + " does not exist"@,
        IdChannelError::TypeMismatch(h) => "underlying channel "@ + decimal(h.0 as nat)
            + " has another type"@,
    }
}

impl IdChannelError {
    /// What went wrong, in words.
    pub fn message(&self) -> (r: String)
        ensures
            r@ == error_message(*self),
    {
        let mut out = String::new();
        match self {
            IdChannelError::Channel(stage, h, cause) => {
                out.append("send on underlying channel ");
                push_decimal(&mut out, h.0);
                out.append(" in ");
                out.append(stage.name());
                out.append(" stage failed: ");
                out.append(cause.name());
            },
            IdChannelError::InvalidId(h) => {
                out.append("underlying channel ");
                push_decimal(&mut out, h.0);
                out.append(" does not exist");
            },
            IdChannelError::TypeMismatch(h) => {
                out.append("underlying channel ");
                push_decimal(&mut out, h.0);
                out.append(" has another type");
            },
        }
        proof {
            assert(out@ =~= error_message(*self));
        }
        out
    }
}

/// The state of one sink when polled.
#[derive(Clone, Copy, Debug, PartialEq, Eq, Structural)]
pub enum SinkPoll {
    Ready,
    Pending,
    Failed(ChannelError),
}

/// The state of the channel's sink as a whole.
#[derive(Clone, Copy, Debug, PartialEq, Eq, Structural)]
pub enum ChannelPoll {
    Ready,
    Pending,
    Failed(IdChannelError),
}

/// Whether every polled sink is ready.
pub open spec fn all_ready(polls: Seq<(ForkHandle, SinkPoll)>) -> bool {
    forall|i: int| 0 <= i < polls.len() ==> #[trigger] polls[i].1 == SinkPoll::Ready
}

/// What the channel reports for the polled sinks at `stage`: ready when all
/// are, else the outcome of the first one that is not.
pub open spec fn aggregate_spec(stage: SinkStage, polls: Seq<(ForkHandle, SinkPoll)>) -> ChannelPoll
    decreases polls.len(),
{
    if polls.len() == 0 {
        ChannelPoll::Ready
    } else {
        match polls[0].1 {
            SinkPoll::Ready => aggregate_spec(stage, polls.drop_first()),
            SinkPoll::Pending => ChannelPoll::Pending,
            SinkPoll::Failed(e) => ChannelPoll::Failed(IdChannelError::Channel(stage, polls[0].0, e)),
        }
    }
}

/// The outcome is ready exactly when every polled sink is ready.
pub proof fn lemma_aggregate_ready(stage: SinkStage, polls: Seq<(ForkHandle, SinkPoll)>)
    ensures
        aggregate_spec(stage, polls) == ChannelPoll::Ready <==> all_ready(polls),
    decreases polls.len(),
{
    if polls.len() > 0 {
        lemma_aggregate_ready(stage, polls.drop_first());
        if all_ready(polls) {
            assert forall|i: int| 0 <= i < polls.drop_first().len() implies #[trigger] polls.drop_first()[i].1
                == SinkPoll::Ready by {
                assert(polls[i + 1].1 == SinkPoll::Ready);
            }
        }
        if polls[0].1 == SinkPoll::Ready && all_ready(polls.drop_first()) {
            assert forall|i: int| 0 <= i < polls.len() implies #[trigger] polls[i].1 == SinkPoll::Ready by {
                if i > 0 {
                    assert(polls.drop_first()[i - 1].1 == SinkPoll::Ready);
                }
            }
        }
    }
}

/// Combines the polls of the inner sinks, in the order given, into the
/// outcome of the channel's sink at `stage`.
pub fn aggregate_poll(stage: SinkStage, polls: &Vec<(ForkHandle, SinkPoll)>) -> (r: ChannelPoll)
    ensures
        r == aggregate_spec(stage, polls@),
        r == ChannelPoll::Ready <==> all_ready(polls@),
{
    proof {
        lemma_aggregate_ready(stage, polls@);
    }
    let mut i: usize = 0;
    assert(polls@.subrange(0, polls@.len() as int) =~= polls@);
    while i < polls.len()
        invariant
            i <= polls@.len(),
            aggregate_spec(stage, polls@) == aggregate_spec(stage, polls@.subrange(i as int, polls@.len() as int)),
        decreases polls.len() - i,
    {
        let ghost rest = polls@.subrange(i as int, polls@.len() as int);
        assert(rest.drop_first() =~= polls@.subrange(i + 1, polls@.len() as int));
        let (h, p) = polls[i];
        match p {
            SinkPoll::Ready => {},
            SinkPoll::Pending => {
                return ChannelPoll::Pending;
            },
            SinkPoll::Failed(e) => {
                return ChannelPoll::Failed(IdChannelError::Channel(stage, h, e));
            },
        }
        i = i + 1;
    }
    ChannelPoll::Ready
}

/// The routing table after a payload for fork `h` is queued behind the
/// ones already there.
pub open spec fn queued(routes: Map<u32, Seq<Payload>>, h: u32, p: Payload) -> Map<u32, Seq<Payload>> {
    routes.insert(h, routes[h].push(p))
}

/// The routing table after the earliest payload of fork `h` is taken.
pub open spec fn dequeued(routes: Map<u32, Seq<Payload>>, h: u32) -> Map<u32, Seq<Payload>> {
    routes.insert(h, routes[h].drop_first())
}

/// The routing table after the payloads `s` arrive for fork `h`, in order.
pub open spec fn queued_all(routes: Map<u32, Seq<Payload>>, h: u32, s: Seq<Payload>) -> Map<
    u32,
    Seq<Payload>,
>
    decreases s.len(),
{
    if s.len() == 0 {
        routes
    } else {
        queued(queued_all(routes, h, s.drop_last()), h, s.last())
    }
}

/// The payloads that `n` successive takes from fork `h` yield.
pub open spec fn taken_all(routes: Map<u32, Seq<Payload>>, h: u32, n: nat) -> Seq<Payload>
    decreases n,
{
    if n == 0 || routes[h].len() == 0 {
        Seq::empty()
    } else {
        seq![routes[h][0]] + taken_all(dequeued(routes, h), h, (n - 1) as nat)
    }
}

proof fn lemma_queued_all(routes: Map<u32, Seq<Payload>>, h: u32, s: Seq<Payload>)
    requires
        routes.contains_key(h),
    ensures
        queued_all(routes, h, s).contains_key(h),
        queued_all(routes, h, s)[h] == routes[h] + s,
        forall|x: u32| x != h ==> #[trigger] queued_all(routes, h, s).contains_key(x) == routes.contains_key(x),
    decreases s.len(),
{
    if s.len() > 0 {
        lemma_queued_all(routes, h, s.drop_last());
        assert(routes[h] + s.drop_last() + seq![s.last()] =~= routes[h] + s);
        assert((routes[h] + s.drop_last()).push(s.last()) =~= routes[h] + s);
    } else {
        assert(routes[h] + s =~= routes[h]);
    }
}

proof fn lemma_taken_all(routes: Map<u32, Seq<Payload>>, h: u32, n: nat)
    requires
        routes.contains_key(h),
        n <= routes[h].len(),
    ensures
        taken_all(routes, h, n) == routes[h].take(n as int),
    decreases n,
{
    if n > 0 {
        let next = dequeued(routes, h);
        lemma_taken_all(next, h, (n - 1) as nat);
        assert(seq![routes[h][0]] + routes[h].drop_first().take(n - 1) =~= routes[h].take(n as int));
    } else {
        assert(routes[h].take(0) =~= Seq::<Payload>::empty());
    }
}

/// Order within a fork: payloads that arrive for a fork, one after another,
/// are taken from it after the ones already queued, in the order they came.
pub proof fn lemma_fifo_within_fork(routes: Map<u32, Seq<Payload>>, h: u32, s: Seq<Payload>)
    requires
        routes.contains_key(h),
    ensures
        taken_all(queued_all(routes, h, s), h, routes[h].len() + s.len()) == routes[h] + s,
{
    lemma_queued_all(routes, h, s);
    lemma_taken_all(queued_all(routes, h, s), h, routes[h].len() + s.len());
    assert((routes[h] + s).take((routes[h].len() + s.len()) as int) =~= routes[h] + s);
}

/// What the channel reports at `stage` for the polls of its inbound sinks:
/// a poll of a fork that is not routed is refused, else as `aggregate_spec`.
pub open spec fn routed_poll_spec(
    routes: Map<u32, Seq<Payload>>,
    stage: SinkStage,
    polls: Seq<(ForkHandle, SinkPoll)>,
) -> ChannelPoll
    decreases polls.len(),
{
    if polls.len() == 0 {
        ChannelPoll::Ready
    } else if !routes.contains_key(polls[0].0.0) {
        ChannelPoll::Failed(IdChannelError::InvalidId(polls[0].0))
    } else {
        match polls[0].1 {
            SinkPoll::Ready => routed_poll_spec(routes, stage, polls.drop_first()),
            SinkPoll::Pending => ChannelPoll::Pending,
            SinkPoll::Failed(e) => ChannelPoll::Failed(IdChannelError::Channel(stage, polls[0].0, e)),
        }
    }
}

/// Whether every poll is of a routed fork.
pub open spec fn all_routed(routes: Map<u32, Seq<Payload>>, polls: Seq<(ForkHandle, SinkPoll)>) -> bool {
    forall|i: int| 0 <= i < polls.len() ==> routes.contains_key(#[trigger] polls[i].0.0)
}

/// Whether every routed fork has a poll.
pub open spec fn covers(routes: Map<u32, Seq<Payload>>, polls: Seq<(ForkHandle, SinkPoll)>) -> bool {
    forall|h: u32|
        #[trigger] routes.contains_key(h) ==> exists|i: int| 0 <= i < polls.len() && polls[i].0.0 == h
}

/// The polls pass the routing check and report ready exactly when each of
/// them is of a routed fork and ready.
pub proof fn lemma_routed_poll_ready(
    routes: Map<u32, Seq<Payload>>,
    stage: SinkStage,
    polls: Seq<(ForkHandle, SinkPoll)>,
)
    ensures
        routed_poll_spec(routes, stage, polls) == ChannelPoll::Ready <==> (all_routed(routes, polls)
            && all_ready(polls)),
    decreases polls.len(),
{
    if polls.len() > 0 {
        let rest = polls.drop_first();
        lemma_routed_poll_ready(routes, stage, rest);
        if all_routed(routes, polls) && all_ready(polls) {
            assert forall|i: int| 0 <= i < rest.len() implies routes.contains_key(#[trigger] rest[i].0.0)
                && rest[i].1 == SinkPoll::Ready by {
                assert(rest[i] == polls[i + 1]);
            }
            assert(all_ready(rest));
        }
        if routes.contains_key(polls[0].0.0) && polls[0].1 == SinkPoll::Ready && all_routed(routes, rest)
            && all_ready(rest) {
            assert forall|i: int| 0 <= i < polls.len() implies routes.contains_key(#[trigger] polls[i].0.0) by {
                if i > 0 {
                    assert(rest[i - 1] == polls[i]);
                }
            }
            assert forall|i: int| 0 <= i < polls.len() implies #[trigger] polls[i].1 == SinkPoll::Ready by {
                if i > 0 {
                    assert(rest[i - 1] == polls[i]);
                }
            }
        }
    }
}

/// The multiplexing engine of one end of a connection. It owns the context,
/// a routing table from each live fork to the queue of payloads that have
/// arrived for it and not yet been taken, and the queue of outgoing frames
/// waiting for the transport.
pub struct IdChannel {
    context: Context,
    in_channels: HashMap<u32, Vec<Payload>>,
    out_channel: Vec<Item>,
}

impl IdChannel {
    /// The routing table: each live fork and the payloads queued for it,
    /// earliest first.
    pub closed spec fn routes(&self) -> Map<u32, Seq<Payload>> {
        self.in_channels@.map_values(|q: Vec<Payload>| q@)
    }

    /// Frames waiting for the transport, earliest first.
    pub closed spec fn outgoing(&self) -> Seq<Item> {
        self.out_channel@
    }

    /// The channel's fork table.
    pub closed spec fn table(&self) -> Context {
        self.context
    }

    pub closed spec fn wf(&self) -> bool {
        &&& self.context.wf()
        &&& self.in_channels@.dom() == self.context@.dom()
    }

    /// A well-formed channel routes exactly the forks of its table, of which
    /// there are finitely many.
    pub proof fn lemma_wf(&self)
        requires
            self.wf(),
        ensures
            self.table().wf(),
            self.routes().dom() == self.table()@.dom(),
            self.table()@.dom().finite(),
    {
        assert(self.routes().dom() =~= self.in_channels@.dom());
    }

    /// A channel whose root fork is live with the type pair `root`. Both ends
    /// of a connection start this way: the end that deconstructs the root
    /// value, and the end that constructs it.
    pub fn new_with(root: TypePair) -> (r: IdChannel)
        ensures
            r.wf(),
            r.table()@ == Map::<u32, TypePair>::empty().insert(0, root),
            r.routes() == Map::<u32, Seq<Payload>>::empty().insert(0, Seq::<Payload>::empty()),
            r.outgoing().len() == 0,
            r.table().next_fresh() == 1,
            r.table().free_list().len() == 0,
    {
        let mut in_channels = HashMap::new();
        in_channels.insert(0, Vec::new());
        let r = IdChannel { context: Context::new_with(root), in_channels, out_channel: Vec::new() };
        proof {
            assert(r.routes() =~= Map::<u32, Seq<Payload>>::empty().insert(0, Seq::<Payload>::empty()));
        }
        r
    }

    /// The state of the channel's sink as a whole at `stage`, from the polls
    /// of the inbound sinks of its forks, in the order given: the first poll
    /// of a fork that is not routed is refused, the first that is not ready
    /// is reported; when all are ready it is ready if every routed fork was
    /// polled, and pending otherwise.
    pub fn poll_ready(&self, stage: SinkStage, polls: &Vec<(ForkHandle, SinkPoll)>) -> (r: ChannelPoll)
        requires
            self.wf(),
        ensures
            r == (if routed_poll_spec(self.routes(), stage, polls@) == ChannelPoll::Ready && !covers(
                self.routes(),
                polls@,
            ) {
                ChannelPoll::Pending
            } else {
                routed_poll_spec(self.routes(), stage, polls@)
            }),
            r == ChannelPoll::Ready <==> (all_ready(polls@) && all_routed(self.routes(), polls@) && covers(
                self.routes(),
                polls@,
            )),
    {
        proof {
            lemma_routed_poll_ready(self.routes(), stage, polls@);
            self.lemma_wf();
        }
        let mut i: usize = 0;
        assert(polls@.subrange(0, polls@.len() as int) =~= polls@);
        while i < polls.len()
            invariant
                i <= polls@.len(),
                self.wf(),
                routed_poll_spec(self.routes(), stage, polls@) == routed_poll_spec(
                    self.routes(),
                    stage,
                    polls@.subrange(i as int, polls@.len() as int),
                ),
            decreases polls.len() - i,
        {
            let ghost rest = polls@.subrange(i as int, polls@.len() as int);
            assert(rest.drop_first() =~= polls@.subrange(i + 1, polls@.len() as int));
            let (h, p) = polls[i];
            proof {
                assert(self.routes().dom() =~= self.in_channels@.dom());
            }
            if !self.in_channels.contains_key(&h.0) {
                return ChannelPoll::Failed(IdChannelError::InvalidId(h));
            }
            match p {
                SinkPoll::Ready => {},
                SinkPoll::Pending => {
                    return ChannelPoll::Pending;
                },
                SinkPoll::Failed(e) => {
                    return ChannelPoll::Failed(IdChannelError::Channel(stage, h, e));
                },
            }
            i = i + 1;
        }
        assert(polls@.subrange(polls@.len() as int, polls@.len() as int) =~= Seq::<
            (ForkHandle, SinkPoll),
        >::empty());
        let ghost dom = self.routes().dom();
        let mut count: usize = 0;
        let ghost mut seen: Set<u32> = Set::empty();
        let mut k: usize = 0;
        while k < polls.len()
            invariant
                k <= polls@.len(),
                count <= k,
                self.wf(),
                dom == self.routes().dom(),
                all_routed(self.routes(), polls@),
                seen.finite(),
                seen.len() == count,
                seen.subset_of(dom),
                forall|h: u32| seen.contains(h) <==> exists|j: int| 0 <= j < k && polls@[j].0.0 == h,
            decreases polls.len() - k,
        {
            let h = polls[k].0.0;
            let mut dup = false;
            let mut j: usize = 0;
            while j < k
                invariant
                    j <= k,
                    k < polls@.len(),
                    h == polls@[k as int].0.0,
                    dup <==> exists|m: int| 0 <= m < j && polls@[m].0.0 == h,
                decreases k - j,
            {
                if polls[j].0.0 == h {
                    dup = true;
                }
                j = j + 1;
            }
            proof {
                assert(dom.contains(h)) by {
                    assert(self.routes().contains_key(polls@[k as int].0.0));
                }
            }
            if !dup {
                count = count + 1;
                proof {
                    seen = seen.insert(h);
                }
            }
            proof {
                assert forall|x: u32| seen.contains(x) <==> exists|m: int| 0 <= m < k + 1 && polls@[m].0.0 == x by {
                    if x == h {
                        assert(polls@[k as int].0.0 == x);
                    }
                }
            }
            k = k + 1;
        }
        if count == self.in_channels.len() {
            proof {
                assert(self.routes().dom() =~= self.in_channels@.dom());
                vstd::set_lib::lemma_subset_equality(seen, dom);
                assert forall|h: u32| #[trigger] self.routes().contains_key(h) implies exists|i: int|
                    0 <= i < polls@.len() && polls@[i].0.0 == h by {
                    assert(seen.contains(h));
                }
            }
            ChannelPoll::Ready
        } else {
            proof {
                assert(self.routes().dom() =~= self.in_channels@.dom());
                vstd::set_lib::lemma_len_subset(seen, dom);
                if covers(self.routes(), polls@) {
                    assert forall|h: u32| dom.contains(h) implies seen.contains(h) by {
                        assert(self.routes().contains_key(h));
                    }
                    assert(seen =~= dom);
                }
            }
            ChannelPoll::Pending
        }
    }

    /// The channel's fork table.
    pub fn context(&self) -> (r: &Context)
        ensures
            *r == self.table(),
    {
        &self.context
    }

    /// The number of entries in the routing table.
    pub fn route_count(&self) -> (r: usize)
        requires
            self.wf(),
        ensures
            r == self.routes().len(),
    {
        proof {
            assert(self.routes().dom() =~= self.in_channels@.dom());
        }
        self.in_channels.len()
    }

    /// Opens a new fork carrying `pair`: allocates its handle and gives it
    /// an empty inbound queue.
    pub fn fork(&mut self, pair: TypePair) -> (r: Option<ForkHandle>)
        requires
            old(self).wf(),
        ensures
            final(self).wf(),
            final(self).outgoing() == old(self).outgoing(),
            r is Some <==> old(self).table().can_allocate(),
            final(self).table().next_fresh() <= old(self).table().next_fresh() + 1,
            r matches Some(h) ==> {
                &&& h.0 != 0
                &&& !old(self).table()@.contains_key(h.0)
                &&& !old(self).routes().contains_key(h.0)
                &&& final(self).table()@ == old(self).table()@.insert(h.0, pair)
                &&& final(self).routes() == old(self).routes().insert(h.0, Seq::<Payload>::empty())
            },
            r is None ==> {
                &&& final(self).table()@ == old(self).table()@
                &&& final(self).table().free_list() == old(self).table().free_list()
                &&& final(self).table().next_fresh() == old(self).table().next_fresh()
                &&& final(self).routes() == old(self).routes()
            },
            old(self).table().free_list().len() > 0 ==> {
                &&& r == Some(ForkHandle(old(self).table().free_list().last()))
                &&& final(self).table().free_list() == old(self).table().free_list().drop_last()
                &&& final(self).table().next_fresh() == old(self).table().next_fresh()
            },
            old(self).table().free_list().len() == 0 && old(self).table().next_fresh()
                < handle_space() ==> {
                &&& r == Some(ForkHandle(old(self).table().next_fresh() as u32))
                &&& final(self).table().free_list() == old(self).table().free_list()
                &&& final(self).table().next_fresh() == old(self).table().next_fresh() + 1
            },
    {
        match self.context.create(pair) {
            Some(id) => {
                self.in_channels.insert(id, Vec::new());
                proof {
                    assert(self.routes() =~= old(self).routes().insert(id, Seq::<Payload>::empty()));
                }
                Some(ForkHandle(id))
            },
            None => None,
        }
    }

    /// Opens the constructing end of fork `handle`, which the peer
    /// allocated, with type pair `pair`. A fork that is already live keeps
    /// its queue; one recorded with another pair is refused.
    pub fn get_fork(&mut self, handle: ForkHandle, pair: TypePair) -> (r: Result<(), IdChannelError>)
        requires
            old(self).wf(),
        ensures
            final(self).wf(),
            final(self).outgoing() == old(self).outgoing(),
            old(self).table()@.contains_key(handle.0) && old(self).table()@[handle.0] != pair ==> {
                &&& r == Err::<(), IdChannelError>(IdChannelError::TypeMismatch(handle))
                &&& final(self).table()@ == old(self).table()@
                &&& final(self).routes() == old(self).routes()
            },
            old(self).table()@.contains_key(handle.0) && old(self).table()@[handle.0] == pair ==> {
                &&& r is Ok
                &&& final(self).table()@ == old(self).table()@
                &&& final(self).routes() == old(self).routes()
            },
            r is Ok ==> final(self).routes().contains_key(handle.0) && final(self).table()@[handle.0]
                == pair,
            !old(self).table()@.contains_key(handle.0) ==> {
                &&& r is Ok
                &&& final(self).table()@ == old(self).table()@.insert(handle.0, pair)
                &&& final(self).routes() == old(self).routes().insert(handle.0, Seq::<Payload>::empty())
            },
    {
        match self.context.get(handle.0) {
            Some(known) => {
                if known == pair {
                    Ok(())
                } else {
                    Err(IdChannelError::TypeMismatch(handle))
                }
            },
            None => {
                let _ = self.context.add(handle.0, pair);
                self.in_channels.insert(handle.0, Vec::new());
                proof {
                    assert(self.routes() =~= old(self).routes().insert(handle.0, Seq::<Payload>::empty()));
                }
                Ok(())
            },
        }
    }

    /// Ends fork `handle` when its endpoint is dropped: its route and its
    /// table entry go, and its handle is released for reuse. The root fork
    /// lives as long as the channel and is left alone. Returns whether a
    /// fork was removed.
    pub fn drop_fork(&mut self, handle: ForkHandle) -> (r: bool)
        requires
            old(self).wf(),
        ensures
            final(self).wf(),
            final(self).outgoing() == old(self).outgoing(),
            r == (handle.0 != 0 && old(self).routes().contains_key(handle.0)),
            r ==> final(self).routes().len() == old(self).routes().len() - 1
                && final(self).table()@.len() == old(self).table()@.len() - 1,
            r ==> final(self).routes() == old(self).routes().remove(handle.0)
                && final(self).table()@ == old(self).table()@.remove(handle.0)
                && final(self).table().free_list() == old(self).table().free_list().push(handle.0),
            !r ==> final(self).routes() == old(self).routes() && final(self).table() == old(
                self,
            ).table(),
            r ==> final(self).table().next_fresh() == old(self).table().next_fresh(),
    {
        if handle.0 == 0 || !self.in_channels.contains_key(&handle.0) {
            return false;
        }
        self.in_channels.remove(&handle.0);
        self.context.release(handle.0);
        proof {
            assert(self.routes() =~= old(self).routes().remove(handle.0));
            assert(old(self).routes().dom() =~= old(self).in_channels@.dom());
            assert(self.routes().dom() =~= old(self).routes().dom().remove(handle.0));
            assert(self.context@.dom() =~= old(self).context@.dom().remove(handle.0));
        }
        true
    }

    /// Takes a frame from the transport and queues its payload on the fork
    /// it names. A frame for a fork that is not live is refused, and the
    /// channel is left as it was.
    pub fn start_send(&mut self, item: Item) -> (r: Result<(), IdChannelError>)
        requires
            old(self).wf(),
        ensures
            final(self).wf(),
            final(self).outgoing() == old(self).outgoing(),
            final(self).table() == old(self).table(),
            old(self).routes().contains_key(item.0.0) ==> r is Ok && final(self).routes() == queued(
                old(self).routes(),
                item.0.0,
                item.1,
            ),
            !old(self).routes().contains_key(item.0.0) ==> r == Err::<(), IdChannelError>(
                IdChannelError::InvalidId(item.0),
            ) && final(self).routes() == old(self).routes(),
    {
        let Item(handle, payload) = item;
        match self.in_channels.remove(&handle.0) {
            Some(mut queue) => {
                queue.push(payload);
                self.in_channels.insert(handle.0, queue);
                proof {
                    assert(self.in_channels@.dom() =~= old(self).in_channels@.dom());
                    assert(self.routes() =~= old(self).routes().insert(
                        handle.0,
                        old(self).routes()[handle.0].push(item.1),
                    ));
                }
                Ok(())
            },
            None => {
                proof {
                    assert(self.in_channels@ =~= old(self).in_channels@);
                }
                Err(IdChannelError::InvalidId(handle))
            },
        }
    }

    /// Takes the earliest payload queued on fork `handle`, if any.
    pub fn next(&mut self, handle: ForkHandle) -> (r: Option<Payload>)
        requires
            old(self).wf(),
        ensures
            final(self).wf(),
            final(self).outgoing() == old(self).outgoing(),
            final(self).table() == old(self).table(),
            old(self).routes().contains_key(handle.0) && old(self).routes()[handle.0].len() > 0 ==> {
                &&& r == Some(old(self).routes()[handle.0][0])
                &&& final(self).routes() == dequeued(old(self).routes(), handle.0)
            },
            !(old(self).routes().contains_key(handle.0) && old(self).routes()[handle.0].len() > 0)
                ==> r is None && final(self).routes() == old(self).routes(),
    {
        match self.in_channels.remove(&handle.0) {
            Some(mut queue) => {
                if queue.len() == 0 {
                    self.in_channels.insert(handle.0, queue);
                    proof {
                        assert(self.in_channels@ =~= old(self).in_channels@);
                    }
                    None
                } else {
                    let first = queue.remove(0);
                    self.in_channels.insert(handle.0, queue);
                    proof {
                        assert(self.in_channels@.dom() =~= old(self).in_channels@.dom());
                        assert(self.routes() =~= old(self).routes().insert(
                            handle.0,
                            old(self).routes()[handle.0].drop_first(),
                        ));
                    }
                    Some(first)
                }
            },
            None => {
                proof {
                    assert(self.in_channels@ =~= old(self).in_channels@);
                }
                None
            },
        }
    }

    /// Queues a payload that fork `handle`'s endpoint sends, tagged with the
    /// fork, for the transport. A fork that is not live is refused.
    pub fn send(&mut self, handle: ForkHandle, payload: Payload) -> (r: Result<(), IdChannelError>)
        requires
            old(self).wf(),
        ensures
            final(self).wf(),
            final(self).table() == old(self).table(),
            final(self).routes() == old(self).routes(),
            old(self).routes().contains_key(handle.0) ==> r is Ok && final(self).outgoing()
                == old(self).outgoing().push(Item(handle, payload)),
            !old(self).routes().contains_key(handle.0) ==> r == Err::<(), IdChannelError>(
                IdChannelError::InvalidId(handle),
            ) && final(self).outgoing() == old(self).outgoing(),
    {
        if self.in_channels.contains_key(&handle.0) {
            self.out_channel.push(Item(handle, payload));
            Ok(())
        } else {
            Err(IdChannelError::InvalidId(handle))
        }
    }

    /// Hands the transport its next frame. Nothing is written while the
    /// transport is not ready; when it is, the earliest queued frame goes.
    pub fn poll_next(&mut self, transport_ready: bool) -> (r: Option<Item>)
        requires
            old(self).wf(),
        ensures
            final(self).wf(),
            final(self).table() == old(self).table(),
            final(self).routes() == old(self).routes(),
            !transport_ready ==> r is None && final(self).outgoing() == old(self).outgoing(),
            transport_ready && old(self).outgoing().len() > 0 ==> r == Some(old(self).outgoing()[0])
                && final(self).outgoing() == old(self).outgoing().drop_first(),
            transport_ready && old(self).outgoing().len() == 0 ==> r is None && final(self).outgoing()
                == old(self).outgoing(),
    {
        if transport_ready && self.out_channel.len() > 0 {
            Some(self.out_channel.remove(0))
        } else {
            None
        }
    }
}

} // verus!
