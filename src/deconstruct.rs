use vstd::prelude::*;

use crate::channel::IdChannel;
use crate::construct::{
    decodes, first_payload, lemma_decodes_stable, lemma_first_payload_append,
    lemma_first_payload_some,
};
use crate::context::handle_space;
use crate::frame::{Item, Payload, VOption, CHAIN_TAG, UNIT_TAG};
use crate::handle::{ForkHandle, TypePair};
use crate::kind::{
    forks_in, forks_needed, has_kind, lemma_forks_in_mono, lemma_forks_in_prefix, Kind, Value,
};
use crate::shim::{chain_view, shim_chain};

verus! {

/// Why a value could not be sent.
#[derive(Clone, Copy, Debug, PartialEq, Eq, Structural)]
pub enum DeconstructError {
    /// No fork handle was left to carry a part of the value.
    Exhausted,
}

/// The frames queued after the first `before.len()`.
pub open spec fn sent_since(before: Seq<Item>, after: Seq<Item>) -> Seq<Item> {
    after.skip(before.len() as int)
}

/// Every frame is for fork `h` or for a fork that was opened meanwhile: not
/// routed in `before`, routed in `after`.
pub open spec fn frames_within(
    frames: Seq<Item>,
    h: u32,
    before: Map<u32, Seq<Payload>>,
    after: Map<u32, Seq<Payload>>,
) -> bool {
    forall|j: int|
        0 <= j < frames.len() ==> (#[trigger] frames[j]).0.0 == h || (!before.contains_key(frames[j].0.0)
            && after.contains_key(frames[j].0.0))
}

/// Whether `fs` are exactly the frames that sending `v` on fork `h` queues
/// when the handles it opens are drawn fresh from `next` on: a fork's own
/// item, then each part on its fork; for a tuple or a sequence, the parts
/// first, on forks `next`, `next + 1`, ... in order, then the list of them.
#[verifier::opaque]
pub open spec fn sends(v: Value, h: u32, next: nat, fs: Seq<Item>) -> bool
    decreases v,
{
    match v {
        Value::Byte(x) => fs == seq![Item(ForkHandle(h), Payload::Byte(x))],
        Value::Word(x) => fs == seq![Item(ForkHandle(h), Payload::Word(x))],
        Value::Flag(x) => fs == seq![Item(ForkHandle(h), Payload::Flag(x))],
        Value::Opt(None) => fs == seq![Item(ForkHandle(h), Payload::Opt(VOption::Absent))],
        Value::Opt(Some(b)) => {
            &&& fs.len() >= 1
            &&& fs[0] == Item(ForkHandle(h), Payload::Opt(VOption::Present(ForkHandle(next as u32))))
            &&& sends(*b, next as u32, next + 1, fs.drop_first())
        },
        Value::Error(e) => {
            &&& fs.len() == 2
            &&& fs[0] == Item(ForkHandle(h), Payload::Fork(ForkHandle(next as u32)))
            &&& fs[1].0 == ForkHandle(next as u32)
            &&& (fs[1].1 matches Payload::Chain(list) && chain_view(list@) == shim_chain(e))
        },
        Value::Tuple(vs) => {
            &&& fs.len() == vs@.len() + forks_in(vs@) + 1
            &&& fs.last().0 == ForkHandle(h)
            &&& (fs.last().1 matches Payload::Handles(list) && list@.len() == vs@.len() && forall|i: int|
                0 <= i < vs@.len() ==> #[trigger] list@[i] == ForkHandle((next + i) as u32))
            &&& forall|i: int|
                0 <= i < vs@.len() ==> sends(
                    #[trigger] vs@[i],
                    (next + i) as u32,
                    next + vs@.len() + forks_in(vs@.take(i)),
                    fs.subrange(i + forks_in(vs@.take(i)), i + 1 + forks_in(vs@.take(i + 1))),
                )
        },
        Value::Items(vs) => {
            &&& fs.len() == vs@.len() + forks_in(vs@) + 1
            &&& fs.last().0 == ForkHandle(h)
            &&& (fs.last().1 matches Payload::Handles(list) && list@.len() == vs@.len() && forall|i: int|
                0 <= i < vs@.len() ==> #[trigger] list@[i] == ForkHandle((next + i) as u32))
            &&& forall|i: int|
                0 <= i < vs@.len() ==> sends(
                    #[trigger] vs@[i],
                    (next + i) as u32,
                    next + vs@.len() + forks_in(vs@.take(i)),
                    fs.subrange(i + forks_in(vs@.take(i)), i + 1 + forks_in(vs@.take(i + 1))),
                )
        },
    }
}

/// What sending `v` on fork `h` does on a table with no released handles:
/// it queues exactly the frames `sends` describes, and opens the next
/// `forks_needed(v)` fresh handles and nothing else.
pub open spec fn sent_fresh(before: IdChannel, after: IdChannel, v: Value, h: u32) -> bool {
    let next = before.table().next_fresh();
    let n = forks_needed(v);
    &&& sends(v, h, next, sent_since(before.outgoing(), after.outgoing()))
    &&& after.table().free_list().len() == 0
    &&& after.table().next_fresh() == next + n
    &&& forall|x: u32|
        #[trigger] after.routes().contains_key(x) <==> (before.routes().contains_key(x) || (next <= x
            && x < next + n))
}

/// On a table with no released handles, the forks opened between `before`
/// and `after` are exactly the fresh handles issued meanwhile, and the free
/// list stays empty. This holds whether sending succeeded or not, so a
/// failed send leaves open exactly these forks.
pub open spec fn opened_fresh(before: IdChannel, after: IdChannel) -> bool {
    &&& after.table().free_list().len() == 0
    &&& forall|x: u32|
        #[trigger] after.routes().contains_key(x) <==> (before.routes().contains_key(x) || (
        before.table().next_fresh() <= x && x < after.table().next_fresh()))
}

/// The kind of field `i` of a tuple, or of any element of a sequence.
pub open spec fn child_kind(k: Kind, i: int) -> Kind {
    match k {
        Kind::Tuple(ks) => ks@[i],
        Kind::Items(e) => *e,
        _ => k,
    }
}

proof fn lemma_first_payload_one(it: Item, x: u32)
    ensures
        first_payload(seq![it], x) == (if it.0.0 == x {
            Some(it.1)
        } else {
            None::<Payload>
        }),
{
    assert(seq![it].drop_first() =~= Seq::<Item>::empty());
    reveal_with_fuel(first_payload, 2);
}

/// Appending the frames `c` of a child fork `child` to the frames `acc`
/// already sent keeps the earliest frame of every fork that either of them
/// carries, and keeps every frame accounted for.
proof fn lemma_child_frames(
    acc: Seq<Item>,
    c: Seq<Item>,
    h: u32,
    child: u32,
    pending: Seq<u32>,
    before: Map<u32, Seq<Payload>>,
    mid: Map<u32, Seq<Payload>>,
    after: Map<u32, Seq<Payload>>,
)
    requires
        forall|j: int|
            0 <= j < acc.len() ==> (#[trigger] acc[j]).0.0 == h || (!before.contains_key(acc[j].0.0)
                && mid.contains_key(acc[j].0.0) && !pending.contains(acc[j].0.0) && acc[j].0.0
                != child),
        frames_within(c, child, mid, after),
        before.contains_key(h),
        forall|x: u32| #[trigger] before.contains_key(x) ==> mid.contains_key(x),
        forall|x: u32| #[trigger] mid.contains_key(x) ==> after.contains_key(x),
        !before.contains_key(child),
        mid.contains_key(child),
        forall|m: int| 0 <= m < pending.len() ==> mid.contains_key(#[trigger] pending[m]),
        !pending.contains(child),
    ensures
        forall|j: int|
            0 <= j < (acc + c).len() ==> (#[trigger] (acc + c)[j]).0.0 == h || (!before.contains_key(
                (acc + c)[j].0.0,
            ) && after.contains_key((acc + c)[j].0.0) && !pending.contains((acc + c)[j].0.0)),
        forall|x: u32| #[trigger]
            first_payload(acc, x) is Some ==> first_payload(acc + c, x) == first_payload(acc, x),
        forall|x: u32| #[trigger]
            first_payload(c, x) is Some ==> first_payload(acc + c, x) == first_payload(c, x),
{
    assert forall|j: int| 0 <= j < (acc + c).len() implies (#[trigger] (acc + c)[j]).0.0 == h || (
    !before.contains_key((acc + c)[j].0.0) && after.contains_key((acc + c)[j].0.0)
        && !pending.contains((acc + c)[j].0.0)) by {
        if j < acc.len() {
            assert((acc + c)[j] == acc[j]);
        } else {
            assert((acc + c)[j] == c[j - acc.len()]);
            let id = c[j - acc.len()].0.0;
            if id != child && pending.contains(id) {
                let m = choose|m: int| 0 <= m < pending.len() && pending[m] == id;
                assert(mid.contains_key(pending[m]));
            }
        }
    }
    assert forall|x: u32| #[trigger] first_payload(acc, x) is Some implies first_payload(acc + c, x)
        == first_payload(acc, x) by {
        lemma_first_payload_append(acc, c, x);
    }
    assert forall|x: u32| #[trigger] first_payload(c, x) is Some implies first_payload(acc + c, x)
        == first_payload(c, x) by {
        lemma_first_payload_append(acc, c, x);
        lemma_first_payload_some(c, x);
        lemma_first_payload_some(acc, x);
        if first_payload(acc, x) is Some {
            let j = choose|j: int| 0 <= j < acc.len() && (#[trigger] acc[j]).0.0 == x;
            let k = choose|k: int| 0 <= k < c.len() && (#[trigger] c[k]).0.0 == x;
            assert(c[k].0.0 == child || !mid.contains_key(c[k].0.0));
        }
    }
}

/// The kind of field `i` of a tuple kind, or of the elements of a sequence
/// kind.
fn field_kind(kind: &Kind, i: usize) -> (r: &Kind)
    requires
        kind is Tuple ==> i < kind->Tuple_0.len(),
        kind is Tuple || kind is Items,
    ensures
        *r == child_kind(*kind, i as int),
{
    match kind {
        Kind::Tuple(ks) => &ks[i],
        Kind::Items(e) => e,
        _ => kind,
    }
}

/// Sends `value`, of kind `kind`, on fork `handle`. Every part that needs a
/// fork of its own gets a newly opened fork. An optional value or an error
/// queues its own item first and then its part; a tuple or a sequence
/// queues its parts first and then the list of their forks.
pub fn deconstruct(kind: &Kind, value: &Value, handle: ForkHandle, ch: &mut IdChannel) -> (r: Result<
    (),
    DeconstructError,
>)
    requires
        old(ch).wf(),
        old(ch).routes().contains_key(handle.0),
        has_kind(*value, *kind),
    ensures
        final(ch).wf(),
        forall|x: u32| #[trigger] old(ch).routes().contains_key(x) ==> final(ch).routes().contains_key(x),
        final(ch).outgoing().len() >= old(ch).outgoing().len(),
        final(ch).outgoing().take(old(ch).outgoing().len() as int) == old(ch).outgoing(),
        frames_within(
            sent_since(old(ch).outgoing(), final(ch).outgoing()),
            handle.0,
            old(ch).routes(),
            final(ch).routes(),
        ),
        r is Ok ==> decodes(*kind, sent_since(old(ch).outgoing(), final(ch).outgoing()), handle.0, *value),
        r is Err ==> r == Err::<(), DeconstructError>(DeconstructError::Exhausted),
        final(ch).table().next_fresh() <= old(ch).table().next_fresh() + forks_needed(*value),
        old(ch).table().next_fresh() + forks_needed(*value) <= handle_space() ==> r is Ok,
        r is Ok ==> sent_since(old(ch).outgoing(), final(ch).outgoing()).len() == 1 + forks_needed(
            *value,
        ),
        r is Ok && old(ch).table().free_list().len() == 0 ==> sent_fresh(
            *old(ch),
            *final(ch),
            *value,
            handle.0,
        ),
        old(ch).table().free_list().len() == 0 ==> opened_fresh(*old(ch), *final(ch)),
        old(ch).table().next_fresh() <= final(ch).table().next_fresh(),
    decreases value, 1nat,
{
    reveal(sends);
    let ghost start = ch.outgoing();
    let payload = match value {
        Value::Byte(x) => Payload::Byte(*x),
        Value::Word(x) => Payload::Word(*x),
        Value::Flag(x) => Payload::Flag(*x),
        Value::Opt(None) => Payload::Opt(VOption::Absent),
        Value::Opt(Some(b)) => {
            let inner = match kind {
                Kind::Opt(inner) => inner,
                _ => {
                    proof {
                        assert(false);
                    }
                    return Ok(());
                },
            };
            let c = match ch.fork(inner.types()) {
                Some(c) => c,
                None => {
                    proof {
                        assert(sent_since(start, ch.outgoing()) =~= Seq::<Item>::empty());
                    }
                    return Err(DeconstructError::Exhausted);
                },
            };
            let ghost before = old(ch).routes();
            let _ = ch.send(handle, Payload::Opt(VOption::Present(c)));
            let ghost mid_ch = *ch;
            let ghost mid = ch.outgoing();
            let ghost mid_routes = ch.routes();
            let ghost item = Item(handle, Payload::Opt(VOption::Present(c)));
            proof {
                assert(decreases_to!(*value => (*value)->Opt_0));
                assert(decreases_to!((*value)->Opt_0 => (*value)->Opt_0->Some_0));
            }
            let r = deconstruct(inner, b, c, ch);
            proof {
                let acc = seq![item];
                let sub = sent_since(mid, ch.outgoing());
                assert(mid.len() == start.len() + 1 && mid[start.len() as int] == item);
                assert(ch.outgoing().take(mid.len() as int)[start.len() as int] == mid[start.len() as int]);
                assert(ch.outgoing().take(start.len() as int) =~= start);
                assert forall|x: u32| #[trigger] before.contains_key(x) implies ch.routes().contains_key(x) by {
                    assert(mid_routes.contains_key(x));
                }
                assert(sent_since(start, ch.outgoing()) =~= acc + sub);
                lemma_first_payload_one(item, handle.0);
                assert forall|j: int| 0 <= j < acc.len() implies (#[trigger] acc[j]).0.0 == handle.0 || (
                !before.contains_key(acc[j].0.0) && mid_routes.contains_key(acc[j].0.0)
                    && !Seq::<u32>::empty().contains(acc[j].0.0) && acc[j].0.0 != c.0) by {}
                lemma_child_frames(acc, sub, handle.0, c.0, Seq::<u32>::empty(), before, mid_routes, ch.routes());
                lemma_first_payload_append(acc, sub, handle.0);
                if old(ch).table().free_list().len() == 0 {
                    let next = old(ch).table().next_fresh();
                    assert(next < handle_space());
                    assert(mid_ch.routes() == mid_routes);
                    assert(mid_ch.table().free_list().len() == 0);
                    assert(mid_ch.table().next_fresh() == next + 1);
                    assert(opened_fresh(mid_ch, *ch));
                    assert forall|x: u32| #[trigger] ch.routes().contains_key(x) <==> (before.contains_key(x)
                        || (next <= x && x < ch.table().next_fresh())) by {
                        assert(mid_routes.contains_key(x) <==> (before.contains_key(x) || x == c.0));
                        assert(ch.routes().contains_key(x) <==> (mid_routes.contains_key(x) || (next + 1 <= x
                            && x < ch.table().next_fresh())));
                    }
                }
                if r is Ok {
                    lemma_decodes_stable(**inner, sub, acc + sub, c.0, **b);
                    assert((acc + sub).drop_first() =~= sub);
                    if old(ch).table().free_list().len() == 0 {
                        let next = old(ch).table().next_fresh();
                        assert(next < handle_space());
                        assert forall|x: u32| #[trigger] ch.routes().contains_key(x) <==> (before.contains_key(x)
                            || (next <= x && x < next + forks_needed(*value))) by {
                            assert(mid_routes.contains_key(x) <==> (before.contains_key(x) || x == c.0));
                        }
                    }
                }
            }
            return r;
        },
        Value::Error(e) => {
            let c = match ch.fork(TypePair { construct: CHAIN_TAG, deconstruct: UNIT_TAG }) {
                Some(c) => c,
                None => {
                    proof {
                        assert(sent_since(start, ch.outgoing()) =~= Seq::<Item>::empty());
                    }
                    return Err(DeconstructError::Exhausted);
                },
            };
            let ghost first = Item(handle, Payload::Fork(c));
            let _ = ch.send(handle, Payload::Fork(c));
            let list = e.to_chain();
            let ghost second = Item(c, Payload::Chain(list));
            let _ = ch.send(c, Payload::Chain(list));
            proof {
                assert(ch.outgoing().take(start.len() as int) =~= start);
                assert(sent_since(start, ch.outgoing()) =~= seq![first] + seq![second]);
                lemma_first_payload_one(first, handle.0);
                lemma_first_payload_one(first, c.0);
                lemma_first_payload_one(second, c.0);
                lemma_first_payload_append(seq![first], seq![second], handle.0);
                lemma_first_payload_append(seq![first], seq![second], c.0);
                if old(ch).table().free_list().len() == 0 {
                    let next = old(ch).table().next_fresh();
                    assert(next < handle_space());
                    assert forall|x: u32| #[trigger] ch.routes().contains_key(x) <==> (old(ch).routes().contains_key(x)
                        || (next <= x && x < next + forks_needed(*value))) by {}
                }
            }
            return Ok(());
        },
        _ => {
            return deconstruct_fields(kind, value, handle, ch);
        },
    };
    let ghost item = Item(handle, payload);
    let _ = ch.send(handle, payload);
    proof {
        assert(ch.outgoing().take(start.len() as int) =~= start);
        assert(sent_since(start, ch.outgoing()) =~= seq![item]);
        lemma_first_payload_one(item, handle.0);
        assert(handle == ForkHandle(handle.0));
    }
    Ok(())
}

/// Sends a tuple or a sequence on fork `handle`: opens one fork per field
/// or element, sends each part on its fork in order, then queues the list of
/// their handles.
#[verifier::rlimit(100)]
#[verifier::spinoff_prover]
fn deconstruct_fields(kind: &Kind, value: &Value, handle: ForkHandle, ch: &mut IdChannel) -> (r: Result<
    (),
    DeconstructError,
>)
    requires
        old(ch).wf(),
        old(ch).routes().contains_key(handle.0),
        has_kind(*value, *kind),
        value is Tuple || value is Items,
    ensures
        final(ch).wf(),
        forall|x: u32| #[trigger] old(ch).routes().contains_key(x) ==> final(ch).routes().contains_key(x),
        final(ch).outgoing().len() >= old(ch).outgoing().len(),
        final(ch).outgoing().take(old(ch).outgoing().len() as int) == old(ch).outgoing(),
        frames_within(
            sent_since(old(ch).outgoing(), final(ch).outgoing()),
            handle.0,
            old(ch).routes(),
            final(ch).routes(),
        ),
        r is Ok ==> decodes(*kind, sent_since(old(ch).outgoing(), final(ch).outgoing()), handle.0, *value),
        r is Err ==> r == Err::<(), DeconstructError>(DeconstructError::Exhausted),
        final(ch).table().next_fresh() <= old(ch).table().next_fresh() + forks_needed(*value),
        old(ch).table().next_fresh() + forks_needed(*value) <= handle_space() ==> r is Ok,
        r is Ok ==> sent_since(old(ch).outgoing(), final(ch).outgoing()).len() == 1 + forks_needed(
            *value,
        ),
        r is Ok && old(ch).table().free_list().len() == 0 ==> sent_fresh(
            *old(ch),
            *final(ch),
            *value,
            handle.0,
        ),
        old(ch).table().free_list().len() == 0 ==> opened_fresh(*old(ch), *final(ch)),
        old(ch).table().next_fresh() <= final(ch).table().next_fresh(),
    decreases value, 0nat,
{
    let ghost start = ch.outgoing();
    let ghost before = ch.routes();
    let ghost next0 = ch.table().next_fresh();
    let ghost fresh = ch.table().free_list().len() == 0;
    let vs = match value {
        Value::Tuple(vs) => vs,
        Value::Items(vs) => vs,
        _ => {
            proof {
                assert(false);
            }
            return Ok(());
        },
    };
    let ghost n = vs@.len();
    proof {
        let k = *kind;
        let v = *value;
        if v is Items {
            assert(match (v, k) {
                (Value::Items(xs), Kind::Items(e)) => forall|j: int|
                    0 <= j < xs.len() ==> has_kind(#[trigger] xs@[j], *e),
                _ => false,
            });
        }
    }
    let mut hs: Vec<ForkHandle> = Vec::new();
    let mut listed: Vec<ForkHandle> = Vec::new();
    let mut i: usize = 0;
    while i < vs.len()
        invariant
            ch.wf(),
            i <= vs@.len(),
            n == vs@.len(),
            hs@ == listed@,
            hs@.len() == i,
            has_kind(*value, *kind),
            value is Tuple ==> *value == Value::Tuple(*vs),
            value is Items ==> *value == Value::Items(*vs),
            kind is Tuple || kind is Items,
            kind is Tuple ==> kind->Tuple_0.len() == vs@.len(),
            forall|j: int| 0 <= j < vs@.len() ==> has_kind(#[trigger] vs@[j], child_kind(*kind, j)),
            ch.outgoing() == start,
            start == old(ch).outgoing(),
            before == old(ch).routes(),
            next0 == old(ch).table().next_fresh(),
            fresh == (old(ch).table().free_list().len() == 0),
            ch.table().next_fresh() <= old(ch).table().next_fresh() + i,
            old(ch).table().next_fresh() <= ch.table().next_fresh(),
            forks_needed(*value) == vs@.len() + forks_in(vs@),
            forall|x: u32| #[trigger] before.contains_key(x) ==> ch.routes().contains_key(x),
            forall|j: int|
                0 <= j < i ==> !before.contains_key((#[trigger] hs@[j]).0) && ch.routes().contains_key(
                    hs@[j].0,
                ),
            forall|j: int, k: int| 0 <= j < k < i ==> (#[trigger] hs@[j]).0 != (#[trigger] hs@[k]).0,
            fresh ==> ch.table().free_list().len() == 0 && ch.table().next_fresh() == next0 + i,
            fresh ==> forall|j: int| 0 <= j < i ==> (#[trigger] hs@[j]).0 == (next0 + j) as u32,
            fresh ==> forall|x: u32|
                #[trigger] ch.routes().contains_key(x) <==> (before.contains_key(x) || (next0 <= x
                    && x < next0 + i)),
        decreases vs.len() - i,
    {
        let ck = field_kind(kind, i);
        let ghost pre = *ch;
        match ch.fork(ck.types()) {
            Some(c) => {
                hs.push(c);
                listed.push(c);
                proof {
                    if fresh {
                        assert(pre.table().next_fresh() < handle_space());
                        assert forall|x: u32| #[trigger] ch.routes().contains_key(x) <==> (before.contains_key(x)
                            || (next0 <= x && x < next0 + i + 1)) by {
                            assert(ch.routes().contains_key(x) <==> (pre.routes().contains_key(x) || x == c.0));
                        }
                    }
                }
            },
            None => {
                proof {
                    assert(sent_since(start, ch.outgoing()) =~= Seq::<Item>::empty());
                }
                return Err(DeconstructError::Exhausted);
            },
        }
        i = i + 1;
    }
    proof {
        assert(vs@.take(0) =~= Seq::<Value>::empty());
        assert(vs@.take(vs@.len() as int) =~= vs@);
        assert(sent_since(start, ch.outgoing()) =~= Seq::<Item>::empty());
    }
    let ghost ids = hs@.map_values(|f: ForkHandle| f.0);
    let mut i: usize = 0;
    while i < vs.len()
        invariant
            ch.wf(),
            i <= vs@.len(),
            n == vs@.len(),
            hs@.len() == vs@.len(),
            hs@ == listed@,
            ids == hs@.map_values(|f: ForkHandle| f.0),
            has_kind(*value, *kind),
            value is Tuple ==> *value == Value::Tuple(*vs),
            value is Items ==> *value == Value::Items(*vs),
            kind is Tuple || kind is Items,
            kind is Tuple ==> kind->Tuple_0.len() == vs@.len(),
            forall|j: int| 0 <= j < vs@.len() ==> has_kind(#[trigger] vs@[j], child_kind(*kind, j)),
            start == old(ch).outgoing(),
            before == old(ch).routes(),
            before.contains_key(handle.0),
            next0 == old(ch).table().next_fresh(),
            fresh == (old(ch).table().free_list().len() == 0),
            forks_needed(*value) == vs@.len() + forks_in(vs@),
            ch.table().next_fresh() <= old(ch).table().next_fresh() + vs@.len() + forks_in(vs@.take(i as int)),
            old(ch).table().next_fresh() <= ch.table().next_fresh(),
            ch.outgoing().len() >= start.len(),
            ch.outgoing().take(start.len() as int) == start,
            sent_since(start, ch.outgoing()).len() == i + forks_in(vs@.take(i as int)),
            forall|x: u32| #[trigger] before.contains_key(x) ==> ch.routes().contains_key(x),
            forall|j: int|
                0 <= j < vs@.len() ==> !before.contains_key((#[trigger] hs@[j]).0) && ch.routes().contains_key(
                    hs@[j].0,
                ),
            forall|j: int, k: int| 0 <= j < k < vs@.len() ==> (#[trigger] hs@[j]).0 != (#[trigger] hs@[k]).0,
            forall|j: int|
                0 <= j < sent_since(start, ch.outgoing()).len() ==> !before.contains_key(
                    (#[trigger] sent_since(start, ch.outgoing())[j]).0.0,
                ) && ch.routes().contains_key(sent_since(start, ch.outgoing())[j].0.0)
                    && !ids.skip(i as int).contains(sent_since(start, ch.outgoing())[j].0.0),
            forall|j: int|
                0 <= j < i ==> decodes(
                    child_kind(*kind, j),
                    sent_since(start, ch.outgoing()),
                    (#[trigger] hs@[j]).0,
                    vs@[j],
                ),
            fresh ==> forall|j: int| 0 <= j < vs@.len() ==> (#[trigger] hs@[j]).0 == (next0 + j) as u32,
            fresh ==> ch.table().free_list().len() == 0 && ch.table().next_fresh() == next0 + n + forks_in(
                vs@.take(i as int),
            ),
            fresh ==> forall|x: u32|
                #[trigger] ch.routes().contains_key(x) <==> (before.contains_key(x) || (next0 <= x
                    && x < next0 + n + forks_in(vs@.take(i as int)))),
            fresh ==> forall|j: int|
                0 <= j < i ==> sends(
                    #[trigger] vs@[j],
                    (next0 + j) as u32,
                    next0 + n + forks_in(vs@.take(j)),
                    sent_since(start, ch.outgoing()).subrange(
                        j + forks_in(vs@.take(j)),
                        j + 1 + forks_in(vs@.take(j + 1)),
                    ),
                ),
        decreases vs.len() - i,
    {
        let ck = field_kind(kind, i);
        let ghost mid_ch = *ch;
        let ghost mid = ch.outgoing();
        let ghost mid_routes = ch.routes();
        let ghost acc = sent_since(start, mid);
        proof {
            lemma_forks_in_prefix(vs@, i as int);
            let parts = if value is Tuple { (*value)->Tuple_0 } else { (*value)->Items_0 };
            assert(decreases_to!(*value => parts));
            broadcast use vstd::std_specs::vec::axiom_vec_decreases_to_view;
            assert(decreases_to!(parts => parts@));
            assert(i < parts@.len());
            assert(decreases_to!(parts@ => parts@[i as int]));
        }
        let r = deconstruct(ck, &vs[i], hs[i], ch);
        proof {
            let sub = sent_since(mid, ch.outgoing());
            let all = sent_since(start, ch.outgoing());
            let pending = ids.skip(i + 1);
            let ii = i as int;
            assert(ch.outgoing().take(start.len() as int) =~= start);
            assert(all =~= acc + sub);
            assert(ids[ii] == hs@[ii].0);
            assert(forall|j: int|
                0 <= j < all.len() ==> !before.contains_key((#[trigger] all[j]).0.0) && ch.routes().contains_key(
                    all[j].0.0,
                ) && !ids.skip(ii + 1).contains(all[j].0.0)) by {
                assert forall|m: int| 0 <= m < pending.len() implies mid_routes.contains_key(
                    #[trigger] pending[m],
                ) by {
                    assert(pending[m] == hs@[ii + 1 + m].0);
                }
                assert(!pending.contains(hs@[ii].0)) by {
                    if pending.contains(hs@[ii].0) {
                        let m = choose|m: int| 0 <= m < pending.len() && pending[m] == hs@[ii].0;
                        assert(pending[m] == hs@[ii + 1 + m].0);
                    }
                }
                assert forall|j: int| 0 <= j < acc.len() implies (#[trigger] acc[j]).0.0 == handle.0 || (
                !before.contains_key(acc[j].0.0) && mid_routes.contains_key(acc[j].0.0)
                    && !pending.contains(acc[j].0.0) && acc[j].0.0 != hs@[ii].0) by {
                    let id = acc[j].0.0;
                    assert(!ids.skip(ii).contains(id));
                    assert(ids.skip(ii)[0] == hs@[ii].0);
                    if pending.contains(id) {
                        let m = choose|m: int| 0 <= m < pending.len() && pending[m] == id;
                        assert(ids.skip(ii)[m + 1] == id);
                    }
                }
                lemma_child_frames(acc, sub, handle.0, hs@[ii].0, pending, before, mid_routes, ch.routes());
                assert forall|j: int| 0 <= j < all.len() implies !before.contains_key(
                    (#[trigger] all[j]).0.0,
                ) && ch.routes().contains_key(all[j].0.0) && !ids.skip(ii + 1).contains(all[j].0.0) by {
                    if j >= acc.len() {
                        assert(all[j] == sub[j - acc.len()]);
                    } else {
                        assert(all[j] == acc[j]);
                    }
                }
            }
            assert(forall|j: int|
                0 <= j < ii ==> decodes(child_kind(*kind, j), all, (#[trigger] hs@[j]).0, vs@[j])) by {
                assert forall|j: int| 0 <= j < ii implies decodes(
                    child_kind(*kind, j),
                    all,
                    (#[trigger] hs@[j]).0,
                    vs@[j],
                ) by {
                    assert forall|x: u32| #[trigger] first_payload(acc, x) is Some implies first_payload(
                        all,
                        x,
                    ) == first_payload(acc, x) by {
                        lemma_first_payload_append(acc, sub, x);
                    }
                    lemma_decodes_stable(child_kind(*kind, j), acc, all, hs@[j].0, vs@[j]);
                }
            }
            if r is Ok {
                assert(decodes(child_kind(*kind, ii), all, hs@[ii].0, vs@[ii])) by {
                    assert forall|m: int| 0 <= m < pending.len() implies mid_routes.contains_key(
                        #[trigger] pending[m],
                    ) by {
                        assert(pending[m] == hs@[ii + 1 + m].0);
                    }
                    assert(!pending.contains(hs@[ii].0)) by {
                        if pending.contains(hs@[ii].0) {
                            let m = choose|m: int| 0 <= m < pending.len() && pending[m] == hs@[ii].0;
                            assert(pending[m] == hs@[ii + 1 + m].0);
                        }
                    }
                    assert forall|j: int| 0 <= j < acc.len() implies (#[trigger] acc[j]).0.0 == handle.0
                        || (!before.contains_key(acc[j].0.0) && mid_routes.contains_key(acc[j].0.0)
                        && !pending.contains(acc[j].0.0) && acc[j].0.0 != hs@[ii].0) by {
                        let id = acc[j].0.0;
                        assert(!ids.skip(ii).contains(id));
                        assert(ids.skip(ii)[0] == hs@[ii].0);
                        if pending.contains(id) {
                            let m = choose|m: int| 0 <= m < pending.len() && pending[m] == id;
                            assert(ids.skip(ii)[m + 1] == id);
                        }
                    }
                    lemma_child_frames(acc, sub, handle.0, hs@[ii].0, pending, before, mid_routes, ch.routes());
                    lemma_decodes_stable(child_kind(*kind, ii), sub, all, hs@[ii].0, vs@[ii]);
                }
                assert(all.len() == ii + 1 + forks_in(vs@.take(ii + 1))) by {
                    lemma_forks_in_prefix(vs@, ii);
                }
                if fresh {
                    assert(forall|j: int|
                        0 <= j < ii + 1 ==> sends(
                            #[trigger] vs@[j],
                            (next0 + j) as u32,
                            next0 + n + forks_in(vs@.take(j)),
                            all.subrange(j + forks_in(vs@.take(j)), j + 1 + forks_in(vs@.take(j + 1))),
                        )) by {
                        lemma_forks_in_prefix(vs@, ii);
                        assert forall|j: int| 0 <= j < ii + 1 implies sends(
                            #[trigger] vs@[j],
                            (next0 + j) as u32,
                            next0 + n + forks_in(vs@.take(j)),
                            all.subrange(j + forks_in(vs@.take(j)), j + 1 + forks_in(vs@.take(j + 1))),
                        ) by {
                            if j < ii {
                                lemma_forks_in_mono(vs@, j + 1, ii);
                                lemma_forks_in_mono(vs@, j, j + 1);
                                assert(all.subrange(j + forks_in(vs@.take(j)), j + 1 + forks_in(vs@.take(j + 1)))
                                    =~= acc.subrange(j + forks_in(vs@.take(j)), j + 1 + forks_in(vs@.take(j + 1))));
                            } else {
                                assert(all.subrange(j + forks_in(vs@.take(j)), j + 1 + forks_in(vs@.take(j + 1)))
                                    =~= sub);
                            }
                        }
                    }
                    assert(forall|x: u32|
                        #[trigger] ch.routes().contains_key(x) <==> (before.contains_key(x) || (next0 <= x
                            && x < next0 + n + forks_in(vs@.take(ii + 1))))) by {
                        lemma_forks_in_prefix(vs@, ii);
                        let lo = next0 + n + forks_in(vs@.take(ii));
                        assert forall|x: u32| #[trigger] ch.routes().contains_key(x) <==> (before.contains_key(x)
                            || (next0 <= x && x < next0 + n + forks_in(vs@.take(ii + 1)))) by {
                            assert(ch.routes().contains_key(x) <==> (mid_routes.contains_key(x) || (lo <= x
                                && x < lo + forks_needed(vs@[ii]))));
                        }
                    }
                    assert(ch.table().free_list().len() == 0 && ch.table().next_fresh() == next0 + n
                        + forks_in(vs@.take(ii + 1))) by {
                        lemma_forks_in_prefix(vs@, ii);
                    }
                }
            }
            assert(ch.table().next_fresh() <= old(ch).table().next_fresh() + vs@.len() + forks_in(
                vs@.take(ii + 1),
            )) by {
                lemma_forks_in_prefix(vs@, ii);
            }
        }
        if r.is_err() {
            proof {
                if fresh {
                    assert(opened_fresh(mid_ch, *ch));
                    assert(opened_fresh(*old(ch), *ch)) by {
                        assert forall|x: u32| #[trigger] ch.routes().contains_key(x) <==> (before.contains_key(x)
                            || (next0 <= x && x < ch.table().next_fresh())) by {
                            assert(ch.routes().contains_key(x) <==> (mid_routes.contains_key(x) || (
                            mid_ch.table().next_fresh() <= x && x < ch.table().next_fresh())));
                        }
                    }
                }
            }
            return r;
        }
        i = i + 1;
    }
    let ghost acc = sent_since(start, ch.outgoing());
    let ghost routes_now = ch.routes();
    let ghost list = listed;
    let ghost head = Item(handle, Payload::Handles(list));
    let _ = ch.send(handle, Payload::Handles(listed));
    proof {
        let all = acc + seq![head];
        assert(ch.outgoing().take(start.len() as int) =~= start);
        assert(sent_since(start, ch.outgoing()) =~= all);
        assert(decodes(*kind, all, handle.0, *value)) by {
            lemma_first_payload_one(head, handle.0);
            lemma_first_payload_some(acc, handle.0);
            lemma_first_payload_append(acc, seq![head], handle.0);
            assert forall|x: u32| #[trigger] first_payload(acc, x) is Some implies first_payload(all, x)
                == first_payload(acc, x) by {
                lemma_first_payload_append(acc, seq![head], x);
            }
            assert forall|j: int| 0 <= j < vs@.len() implies decodes(
                child_kind(*kind, j),
                all,
                (#[trigger] hs@[j]).0,
                vs@[j],
            ) by {
                lemma_decodes_stable(child_kind(*kind, j), acc, all, hs@[j].0, vs@[j]);
            }
            assert(list@ == hs@);
        }
        assert(frames_within(all, handle.0, before, ch.routes())) by {
            assert forall|j: int| 0 <= j < all.len() implies (#[trigger] all[j]).0.0 == handle.0 || (
            !before.contains_key(all[j].0.0) && ch.routes().contains_key(all[j].0.0)) by {
                if j < acc.len() {
                    assert(all[j] == acc[j]);
                }
            }
        }
        if fresh {
            assert(sends(*value, handle.0, next0, all)) by {
                reveal(sends);
                assert(all.last() == head);
                assert(list@ == hs@);
                assert(handle == ForkHandle(handle.0));
                assert forall|j: int| 0 <= j < vs@.len() implies #[trigger] all.subrange(
                    j + forks_in(vs@.take(j)),
                    j + 1 + forks_in(vs@.take(j + 1)),
                ) == acc.subrange(j + forks_in(vs@.take(j)), j + 1 + forks_in(vs@.take(j + 1))) by {
                    lemma_forks_in_mono(vs@, j + 1, vs@.len() as int);
                    lemma_forks_in_mono(vs@, j, j + 1);
                    assert(all.subrange(j + forks_in(vs@.take(j)), j + 1 + forks_in(vs@.take(j + 1)))
                        =~= acc.subrange(j + forks_in(vs@.take(j)), j + 1 + forks_in(vs@.take(j + 1))));
                }
                assert forall|j: int| 0 <= j < vs@.len() implies #[trigger] list@[j] == ForkHandle(
                    (next0 + j) as u32,
                ) by {
                    assert(hs@[j].0 == (next0 + j) as u32);
                }
            }
        }
    }
    Ok(())
}

} // verus!
