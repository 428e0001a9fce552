use vstd::prelude::*;

use crate::frame::{Item, Payload, VOption};
use crate::handle::ForkHandle;
use crate::kind::{same_value, Kind, Value};
use crate::shim::{chain_view, shim_chain, ErrorShim};

verus! {

/// The payload of the earliest frame for fork `h`: what the constructing
/// end of that fork reads first.
pub open spec fn first_payload(frames: Seq<Item>, h: u32) -> Option<Payload>
    decreases frames.len(),
{
    if frames.len() == 0 {
        None
    } else if frames[0].0.0 == h {
        Some(frames[0].1)
    } else {
        first_payload(frames.drop_first(), h)
    }
}

/// Whether the frames carry, on fork `h` and the forks it names, the value
/// `v` of kind `k`.
pub open spec fn decodes(k: Kind, frames: Seq<Item>, h: u32, v: Value) -> bool
    decreases v,
{
    match first_payload(frames, h) {
        None => false,
        Some(p) => match v {
            Value::Byte(x) => k is Byte && p == Payload::Byte(x),
            Value::Word(x) => k is Word && p == Payload::Word(x),
            Value::Flag(x) => k is Flag && p == Payload::Flag(x),
            Value::Opt(o) => match k {
                Kind::Opt(inner) => match (p, o) {
                    (Payload::Opt(VOption::Absent), None) => true,
                    (Payload::Opt(VOption::Present(c)), Some(b)) => decodes(*inner, frames, c.0, *b),
                    _ => false,
                },
                _ => false,
            },
            Value::Tuple(vs) => match (k, p) {
                (Kind::Tuple(ks), Payload::Handles(hs)) => {
                    &&& hs.len() == ks.len()
                    &&& vs.len() == ks.len()
                    &&& forall|i: int|
                        0 <= i < vs.len() ==> decodes(ks@[i], frames, hs@[i].0, #[trigger] vs@[i])
                },
                _ => false,
            },
            Value::Items(vs) => match (k, p) {
                (Kind::Items(inner), Payload::Handles(hs)) => {
                    &&& hs.len() == vs.len()
                    &&& forall|i: int|
                        0 <= i < vs.len() ==> decodes(*inner, frames, hs@[i].0, #[trigger] vs@[i])
                },
                _ => false,
            },
            Value::Error(e) => match (k, p) {
                (Kind::Error, Payload::Fork(c)) => match first_payload(frames, c.0) {
                    Some(Payload::Chain(list)) => chain_view(list@) == shim_chain(e),
                    _ => false,
                },
                _ => false,
            },
        },
    }
}

/// Whether the payload is the item that a fork of kind `k` starts with.
pub open spec fn fits(k: Kind, p: Payload) -> bool {
    match (k, p) {
        (Kind::Byte, Payload::Byte(_)) => true,
        (Kind::Word, Payload::Word(_)) => true,
        (Kind::Flag, Payload::Flag(_)) => true,
        (Kind::Opt(_), Payload::Opt(_)) => true,
        (Kind::Tuple(ks), Payload::Handles(hs)) => hs.len() == ks.len(),
        (Kind::Items(_), Payload::Handles(_)) => true,
        (Kind::Error, Payload::Fork(_)) => true,
        _ => false,
    }
}

/// Whether the frames carry some value of kind `k` on fork `h`.
pub open spec fn decodable(k: Kind, frames: Seq<Item>, h: u32) -> bool
    decreases k,
{
    match first_payload(frames, h) {
        None => false,
        Some(p) => fits(k, p) && match (k, p) {
            (Kind::Opt(inner), Payload::Opt(VOption::Present(c))) => decodable(*inner, frames, c.0),
            (Kind::Tuple(ks), Payload::Handles(hs)) => forall|i: int|
                0 <= i < ks.len() ==> decodable(#[trigger] ks@[i], frames, hs@[i].0),
            (Kind::Items(inner), Payload::Handles(hs)) => forall|i: int|
                0 <= i < hs.len() ==> decodable(*inner, frames, (#[trigger] hs@[i]).0),
            (Kind::Error, Payload::Fork(c)) => match first_payload(frames, c.0) {
                Some(Payload::Chain(list)) => list.len() > 0,
                _ => false,
            },
            _ => true,
        },
    }
}


/// The earliest frame for `x` in `a + b` is the earliest in `a`, if there
/// is one, else the earliest in `b`.
pub(crate) proof fn lemma_first_payload_append(a: Seq<Item>, b: Seq<Item>, x: u32)
    ensures
        first_payload(a + b, x) == (if first_payload(a, x) is Some {
            first_payload(a, x)
        } else {
            first_payload(b, x)
        }),
    decreases a.len(),
{
    if a.len() > 0 {
        assert((a + b).drop_first() =~= a.drop_first() + b);
        lemma_first_payload_append(a.drop_first(), b, x);
    } else {
        assert(a + b =~= b);
    }
}

/// There is a frame for `x` exactly when some frame names `x`.
pub(crate) proof fn lemma_first_payload_some(s: Seq<Item>, x: u32)
    ensures
        first_payload(s, x) is Some <==> exists|j: int| 0 <= j < s.len() && (#[trigger] s[j]).0.0 == x,
    decreases s.len(),
{
    if s.len() > 0 {
        lemma_first_payload_some(s.drop_first(), x);
        if first_payload(s, x) is Some && s[0].0.0 != x {
            let j = choose|j: int| 0 <= j < s.drop_first().len() && (#[trigger] s.drop_first()[j]).0.0 == x;
            assert(s[j + 1].0.0 == x);
        }
        if exists|j: int| 0 <= j < s.len() && (#[trigger] s[j]).0.0 == x {
            let j = choose|j: int| 0 <= j < s.len() && (#[trigger] s[j]).0.0 == x;
            if s[0].0.0 != x {
                assert(s.drop_first()[j - 1].0.0 == x);
            }
        }
    }
}

/// Decoding reads only the earliest frame of each fork: frames that agree
/// on those decode alike.
pub(crate) proof fn lemma_decodes_stable(k: Kind, f1: Seq<Item>, f2: Seq<Item>, h: u32, v: Value)
    requires
        decodes(k, f1, h, v),
        forall|x: u32| #[trigger] first_payload(f1, x) is Some ==> first_payload(f2, x) == first_payload(f1, x),
    ensures
        decodes(k, f2, h, v),
    decreases v,
{
    assert(first_payload(f1, h) is Some);
    match v {
        Value::Opt(Some(b)) => {
            match (k, first_payload(f1, h)) {
                (Kind::Opt(inner), Some(Payload::Opt(VOption::Present(c)))) => {
                    lemma_decodes_stable(*inner, f1, f2, c.0, *b);
                },
                _ => {},
            }
        },
        Value::Tuple(vs) => {
            match (k, first_payload(f1, h)) {
                (Kind::Tuple(ks), Some(Payload::Handles(hs))) => {
                    assert forall|i: int| 0 <= i < vs.len() implies decodes(ks@[i], f2, hs@[i].0, #[trigger] vs@[i]) by {
                        lemma_decodes_stable(ks@[i], f1, f2, hs@[i].0, vs@[i]);
                    }
                },
                _ => {},
            }
        },
        Value::Items(vs) => {
            match (k, first_payload(f1, h)) {
                (Kind::Items(inner), Some(Payload::Handles(hs))) => {
                    assert forall|i: int| 0 <= i < vs.len() implies decodes(*inner, f2, hs@[i].0, #[trigger] vs@[i]) by {
                        lemma_decodes_stable(*inner, f1, f2, hs@[i].0, vs@[i]);
                    }
                },
                _ => {},
            }
        },
        _ => {},
    }
}

/// Frames that carry a value are decodable.
pub(crate) proof fn lemma_decodes_decodable(k: Kind, frames: Seq<Item>, h: u32, v: Value)
    requires
        decodes(k, frames, h, v),
    ensures
        decodable(k, frames, h),
    decreases v,
{
    match v {
        Value::Opt(Some(b)) => {
            match (k, first_payload(frames, h)) {
                (Kind::Opt(inner), Some(Payload::Opt(VOption::Present(c)))) => {
                    lemma_decodes_decodable(*inner, frames, c.0, *b);
                },
                _ => {},
            }
        },
        Value::Tuple(vs) => {
            match (k, first_payload(frames, h)) {
                (Kind::Tuple(ks), Some(Payload::Handles(hs))) => {
                    assert forall|i: int| 0 <= i < ks.len() implies decodable(#[trigger] ks@[i], frames, hs@[i].0) by {
                        lemma_decodes_decodable(ks@[i], frames, hs@[i].0, vs@[i]);
                    }
                },
                _ => {},
            }
        },
        Value::Items(vs) => {
            match (k, first_payload(frames, h)) {
                (Kind::Items(inner), Some(Payload::Handles(hs))) => {
                    assert forall|i: int| 0 <= i < hs.len() implies decodable(*inner, frames, #[trigger] hs@[i].0) by {
                        lemma_decodes_decodable(*inner, frames, hs@[i].0, vs@[i]);
                    }
                },
                _ => {},
            }
        },
        Value::Error(e) => {
            assert(shim_chain(e).len() >= 1);
        },
        _ => {},
    }
}

/// Frames carry at most one value on a fork, up to sameness.
pub(crate) proof fn lemma_decodes_unique(k: Kind, frames: Seq<Item>, h: u32, v: Value, w: Value)
    requires
        decodes(k, frames, h, v),
        decodes(k, frames, h, w),
    ensures
        same_value(v, w),
    decreases v,
{
    match v {
        Value::Opt(Some(b)) => {
            match (k, first_payload(frames, h), w) {
                (Kind::Opt(inner), Some(Payload::Opt(VOption::Present(c))), Value::Opt(Some(bw))) => {
                    lemma_decodes_unique(*inner, frames, c.0, *b, *bw);
                },
                _ => {},
            }
        },
        Value::Tuple(vs) => {
            match (k, first_payload(frames, h), w) {
                (Kind::Tuple(ks), Some(Payload::Handles(hs)), Value::Tuple(ws)) => {
                    assert forall|i: int| 0 <= i < vs.len() implies same_value(#[trigger] vs@[i], ws@[i]) by {
                        lemma_decodes_unique(ks@[i], frames, hs@[i].0, vs@[i], ws@[i]);
                    }
                },
                _ => {},
            }
        },
        Value::Items(vs) => {
            match (k, first_payload(frames, h), w) {
                (Kind::Items(inner), Some(Payload::Handles(hs)), Value::Items(ws)) => {
                    assert forall|i: int| 0 <= i < vs.len() implies same_value(#[trigger] vs@[i], ws@[i]) by {
                        lemma_decodes_unique(*inner, frames, hs@[i].0, vs@[i], ws@[i]);
                    }
                },
                _ => {},
            }
        },
        _ => {},
    }
}

/// Why a value could not be rebuilt from its frames.
#[derive(Clone, Copy, Debug, PartialEq, Eq, Structural)]
pub enum ConstructError {
    /// The fork ended before it carried all the items its kind needs.
    Insufficient { got: u32, expected: u32 },
    /// The fork carried an item that does not fit its kind.
    Mismatch(ForkHandle),
}

/// The earliest payload for fork `h` among the frames.
fn find_first(frames: &Vec<Item>, h: u32) -> (r: Option<&Payload>)
    ensures
        r matches Some(p) ==> first_payload(frames@, h) == Some(*p),
        r is None ==> first_payload(frames@, h) is None,
{
    let mut i: usize = 0;
    assert(frames@.skip(0) =~= frames@);
    while i < frames.len()
        invariant
            i <= frames@.len(),
            first_payload(frames@, h) == first_payload(frames@.skip(i as int), h),
        decreases frames.len() - i,
    {
        assert(frames@.skip(i as int).drop_first() =~= frames@.skip(i + 1));
        if frames[i].0.0 == h {
            return Some(&frames[i].1);
        }
        i = i + 1;
    }
    None
}

/// Rebuilds the value of kind `kind` that the frames carry on fork
/// `handle`, reading the earliest frame of each fork involved.
pub fn construct(kind: &Kind, frames: &Vec<Item>, handle: ForkHandle) -> (r: Result<Value, ConstructError>)
    ensures
        r is Ok <==> decodable(*kind, frames@, handle.0),
        r matches Ok(v) ==> decodes(*kind, frames@, handle.0, v),
        first_payload(frames@, handle.0) is None ==> r == Err::<Value, ConstructError>(
            ConstructError::Insufficient { got: 0, expected: 1 },
        ),
        first_payload(frames@, handle.0) matches Some(p) && !fits(*kind, p) ==> r == Err::<
            Value,
            ConstructError,
        >(ConstructError::Mismatch(handle)),
    decreases kind,
{
    let p = match find_first(frames, handle.0) {
        Some(p) => p,
        None => {
            return Err(ConstructError::Insufficient { got: 0, expected: 1 });
        },
    };
    match (kind, p) {
        (Kind::Byte, Payload::Byte(x)) => Ok(Value::Byte(*x)),
        (Kind::Word, Payload::Word(x)) => Ok(Value::Word(*x)),
        (Kind::Flag, Payload::Flag(x)) => Ok(Value::Flag(*x)),
        (Kind::Opt(_), Payload::Opt(VOption::Absent)) => Ok(Value::Opt(None)),
        (Kind::Opt(inner), Payload::Opt(VOption::Present(c))) => {
            match construct(inner, frames, *c) {
                Ok(v) => Ok(Value::Opt(Some(Box::new(v)))),
                Err(e) => Err(e),
            }
        },
        (Kind::Tuple(ks), Payload::Handles(hs)) => {
            if hs.len() != ks.len() {
                return Err(ConstructError::Mismatch(handle));
            }
            let mut vs: Vec<Value> = Vec::new();
            let mut i: usize = 0;
            while i < ks.len()
                invariant
                    i <= ks@.len(),
                    hs@.len() == ks@.len(),
                    vs@.len() == i,
                    first_payload(frames@, handle.0) == Some(Payload::Handles(*hs)),
                    *kind == Kind::Tuple(*ks),
                    forall|j: int|
                        0 <= j < i ==> decodes(ks@[j], frames@, hs@[j].0, #[trigger] vs@[j]),
                    forall|j: int| 0 <= j < i ==> decodable(#[trigger] ks@[j], frames@, hs@[j].0),
                decreases ks.len() - i,
            {
                proof {
                    let fields = (*kind)->Tuple_0;
                    assert(decreases_to!(*kind => fields));
                    broadcast use vstd::std_specs::vec::axiom_vec_decreases_to_view;
                    assert(decreases_to!(fields => fields@));
                    assert(decreases_to!(fields@ => fields@[i as int]));
                }
                match construct(&ks[i], frames, hs[i]) {
                    Ok(v) => {
                        vs.push(v);
                    },
                    Err(e) => {
                        return Err(e);
                    },
                }
                i = i + 1;
            }
            Ok(Value::Tuple(vs))
        },
        (Kind::Items(inner), Payload::Handles(hs)) => {
            let mut vs: Vec<Value> = Vec::new();
            let mut i: usize = 0;
            while i < hs.len()
                invariant
                    i <= hs@.len(),
                    vs@.len() == i,
                    first_payload(frames@, handle.0) == Some(Payload::Handles(*hs)),
                    *kind == Kind::Items(*inner),
                    forall|j: int|
                        0 <= j < i ==> decodes(**inner, frames@, hs@[j].0, #[trigger] vs@[j]),
                    forall|j: int| 0 <= j < i ==> decodable(**inner, frames@, #[trigger] hs@[j].0),
                decreases hs.len() - i,
            {
                proof {
                    assert(decreases_to!(*kind => (*kind)->Items_0));
                }
                match construct(inner, frames, hs[i]) {
                    Ok(v) => {
                        vs.push(v);
                    },
                    Err(e) => {
                        assert(!decodable(**inner, frames@, hs@[i as int].0));
                        proof {
                            let k = *kind;
                            let p = Payload::Handles(*hs);
                            if decodable(k, frames@, handle.0) {
                                assert(match (k, p) {
                                    (Kind::Items(e), Payload::Handles(hs2)) => forall|j: int|
                                        0 <= j < hs2.len() ==> decodable(*e, frames@, (#[trigger] hs2@[j]).0),
                                    _ => false,
                                });
                            }
                        }
                        assert(!decodable(*kind, frames@, handle.0));
                        return Err(e);
                    },
                }
                i = i + 1;
            }
            Ok(Value::Items(vs))
        },
        (Kind::Error, Payload::Fork(c)) => {
            match find_first(frames, c.0) {
                Some(Payload::Chain(list)) => match ErrorShim::from_chain(list) {
                    Some(e) => Ok(Value::Error(e)),
                    None => Err(ConstructError::Mismatch(*c)),
                },
                Some(_) => Err(ConstructError::Mismatch(*c)),
                None => Err(ConstructError::Insufficient { got: 0, expected: 1 }),
            }
        },
        _ => Err(ConstructError::Mismatch(handle)),
    }
}

/// Round trip: frames that carry a value on a fork (as `deconstruct`
/// promises of what it sends) can be read back by `construct`, and every
/// value read back from them is the same as the one sent.
pub proof fn lemma_round_trip(k: Kind, frames: Seq<Item>, h: u32, v: Value)
    requires
        decodes(k, frames, h, v),
    ensures
        decodable(k, frames, h),
        forall|w: Value| #[trigger] decodes(k, frames, h, w) ==> same_value(v, w),
{
    lemma_decodes_decodable(k, frames, h, v);
    assert forall|w: Value| #[trigger] decodes(k, frames, h, w) implies same_value(v, w) by {
        lemma_decodes_unique(k, frames, h, v, w);
    }
}

} // verus!
