use vstd::prelude::*;

use crate::frame::{BYTE_TAG, FLAG_TAG, FORK_TAG, HANDLES_TAG, OPTION_TAG, UNIT_TAG, WORD_TAG};
use crate::handle::TypePair;
use crate::shim::{shim_chain, ErrorShim};

verus! {

/// How a value is carried across forks.
#[derive(Debug, PartialEq, Eq)]
pub enum Kind {
    /// A byte, sent as one item.
    Byte,
    /// A 32-bit word, sent as one item.
    Word,
    /// A boolean, sent as one item.
    Flag,
    /// An optional value: one item naming the fork of the inner value, or
    /// saying there is none.
    Opt(Box<Kind>),
    /// A tuple: one item listing the forks of the fields in order.
    Tuple(Vec<Kind>),
    /// A finite sequence: one item listing the forks of the elements.
    Items(Box<Kind>),
    /// An error: one item naming the fork that carries its chain.
    Error,
}

/// A value that a fork can carry.
#[derive(Debug, PartialEq, Eq)]
pub enum Value {
    Byte(u8),
    Word(u32),
    Flag(bool),
    Opt(Option<Box<Value>>),
    Tuple(Vec<Value>),
    Items(Vec<Value>),
    Error(ErrorShim),
}

/// The type pair recorded for a fork of kind `k`: the tag of what the
/// deconstructing side sends, and of what it receives (nothing).
pub open spec fn kind_types(k: Kind) -> TypePair {
    let construct = match k {
        Kind::Byte => BYTE_TAG,
        Kind::Word => WORD_TAG,
        Kind::Flag => FLAG_TAG,
        Kind::Opt(_) => OPTION_TAG,
        Kind::Tuple(_) => HANDLES_TAG,
        Kind::Items(_) => HANDLES_TAG,
        Kind::Error => FORK_TAG,
    };
    TypePair { construct, deconstruct: UNIT_TAG }
}

impl Kind {
    /// The type pair recorded for a fork of this kind.
    pub fn types(&self) -> (r: TypePair)
        ensures
            r == kind_types(*self),
    {
        let construct = match self {
            Kind::Byte => BYTE_TAG,
            Kind::Word => WORD_TAG,
            Kind::Flag => FLAG_TAG,
            Kind::Opt(_) => OPTION_TAG,
            Kind::Tuple(_) => HANDLES_TAG,
            Kind::Items(_) => HANDLES_TAG,
            Kind::Error => FORK_TAG,
        };
        TypePair { construct, deconstruct: UNIT_TAG }
    }
}

/// Whether `v` is a value of kind `k`. A tuple has between two and sixteen
/// fields.
pub open spec fn has_kind(v: Value, k: Kind) -> bool
    decreases v,
{
    match v {
        Value::Byte(_) => k is Byte,
        Value::Word(_) => k is Word,
        Value::Flag(_) => k is Flag,
        Value::Opt(o) => match k {
            Kind::Opt(inner) => match o {
                Some(b) => has_kind(*b, *inner),
                None => true,
            },
            _ => false,
        },
        Value::Tuple(vs) => match k {
            Kind::Tuple(ks) => {
                &&& 2 <= ks.len() <= 16
                &&& vs.len() == ks.len()
                &&& forall|i: int| 0 <= i < vs.len() ==> has_kind(#[trigger] vs@[i], ks@[i])
            },
            _ => false,
        },
        Value::Items(vs) => match k {
            Kind::Items(inner) => forall|i: int| 0 <= i < vs.len() ==> has_kind(#[trigger] vs@[i], *inner),
            _ => false,
        },
        Value::Error(_) => k is Error,
    }
}

/// How many forks sending `v` opens besides its own: one for each part
/// that travels on a fork of its own.
pub open spec fn forks_needed(v: Value) -> nat
    decreases v,
{
    match v {
        Value::Opt(Some(b)) => 1 + forks_needed(*b),
        Value::Tuple(vs) => vs@.len() + forks_in(vs@),
        Value::Items(vs) => vs@.len() + forks_in(vs@),
        Value::Error(_) => 1,
        _ => 0,
    }
}

/// How many forks sending each of `vs` opens in all.
pub open spec fn forks_in(vs: Seq<Value>) -> nat
    decreases vs,
{
    if vs.len() == 0 {
        0
    } else {
        forks_in(vs.drop_last()) + forks_needed(vs.last())
    }
}

pub(crate) proof fn lemma_forks_in_prefix(vs: Seq<Value>, i: int)
    requires
        0 <= i < vs.len(),
    ensures
        forks_in(vs.take(i + 1)) == forks_in(vs.take(i)) + forks_needed(vs[i]),
        forks_in(vs.take(i + 1)) <= forks_in(vs),
    decreases vs.len(),
{
    assert(vs.take(i + 1).drop_last() =~= vs.take(i));
    if i + 1 < vs.len() {
        lemma_forks_in_prefix(vs.drop_last(), i);
        assert(vs.drop_last().take(i + 1) =~= vs.take(i + 1));
    } else {
        assert(vs.take(i + 1) =~= vs);
    }
}

pub(crate) proof fn lemma_forks_in_mono(vs: Seq<Value>, a: int, b: int)
    requires
        0 <= a <= b <= vs.len(),
    ensures
        forks_in(vs.take(a)) <= forks_in(vs.take(b)),
    decreases b - a,
{
    if a < b {
        lemma_forks_in_mono(vs, a, b - 1);
        lemma_forks_in_prefix(vs, b - 1);
    }
}

/// Whether two values are the same: equal scalars, and the same shape with
/// the same parts.
pub open spec fn same_value(a: Value, b: Value) -> bool
    decreases a,
{
    match a {
        Value::Byte(x) => b == Value::Byte(x),
        Value::Word(x) => b == Value::Word(x),
        Value::Flag(x) => b == Value::Flag(x),
        Value::Opt(o) => match b {
            Value::Opt(p) => match (o, p) {
                (Some(x), Some(y)) => same_value(*x, *y),
                (None, None) => true,
                _ => false,
            },
            _ => false,
        },
        Value::Tuple(xs) => match b {
            Value::Tuple(ys) => xs.len() == ys.len() && forall|i: int|
                0 <= i < xs.len() ==> same_value(#[trigger] xs@[i], ys@[i]),
            _ => false,
        },
        Value::Items(xs) => match b {
            Value::Items(ys) => xs.len() == ys.len() && forall|i: int|
                0 <= i < xs.len() ==> same_value(#[trigger] xs@[i], ys@[i]),
            _ => false,
        },
        Value::Error(e) => match b {
            Value::Error(f) => shim_chain(e) == shim_chain(f),
            _ => false,
        },
    }
}

/// Whether `value` is a value of kind `kind`.
pub fn conforms(value: &Value, kind: &Kind) -> (r: bool)
    ensures
        r == has_kind(*value, *kind),
    decreases value,
{
    match (value, kind) {
        (Value::Byte(_), Kind::Byte) => true,
        (Value::Word(_), Kind::Word) => true,
        (Value::Flag(_), Kind::Flag) => true,
        (Value::Opt(None), Kind::Opt(_)) => true,
        (Value::Error(_), Kind::Error) => true,
        (Value::Opt(Some(b)), Kind::Opt(inner)) => {
            proof {
                assert(decreases_to!(*value => (*value)->Opt_0));
                assert(decreases_to!((*value)->Opt_0 => (*value)->Opt_0->Some_0));
            }
            conforms(b, inner)
        },
        (Value::Tuple(vs), Kind::Tuple(ks)) => {
            if ks.len() < 2 || ks.len() > 16 || vs.len() != ks.len() {
                return false;
            }
            let mut i: usize = 0;
            while i < vs.len()
                invariant
                    i <= vs@.len(),
                    vs@.len() == ks@.len(),
                    *value == Value::Tuple(*vs),
                    *kind == Kind::Tuple(*ks),
                    forall|j: int| 0 <= j < i ==> has_kind(#[trigger] vs@[j], ks@[j]),
                decreases vs.len() - i,
            {
                proof {
                    let parts = (*value)->Tuple_0;
                    assert(decreases_to!(*value => parts));
                    broadcast use vstd::std_specs::vec::axiom_vec_decreases_to_view;
                    assert(decreases_to!(parts => parts@));
                    assert(decreases_to!(parts@ => parts@[i as int]));
                }
                if !conforms(&vs[i], &ks[i]) {
                    proof {
                        let v = *value;
                        let k = *kind;
                        if has_kind(v, k) {
                            assert(has_kind(vs@[i as int], ks@[i as int]));
                        }
                    }
                    return false;
                }
                i = i + 1;
            }
            true
        },
        (Value::Items(vs), Kind::Items(inner)) => {
            let mut i: usize = 0;
            while i < vs.len()
                invariant
                    i <= vs@.len(),
                    *value == Value::Items(*vs),
                    *kind == Kind::Items(*inner),
                    forall|j: int| 0 <= j < i ==> has_kind(#[trigger] vs@[j], **inner),
                decreases vs.len() - i,
            {
                proof {
                    let parts = (*value)->Items_0;
                    assert(decreases_to!(*value => parts));
                    broadcast use vstd::std_specs::vec::axiom_vec_decreases_to_view;
                    assert(decreases_to!(parts => parts@));
                    assert(decreases_to!(parts@ => parts@[i as int]));
                }
                if !conforms(&vs[i], inner) {
                    proof {
                        let v = *value;
                        let k = *kind;
                        if has_kind(v, k) {
                            assert(match v {
                                Value::Items(xs) => match k {
                                    Kind::Items(e) => forall|j: int|
                                        0 <= j < xs.len() ==> has_kind(#[trigger] xs@[j], *e),
                                    _ => false,
                                },
                                _ => false,
                            });
                            assert(has_kind(vs@[i as int], **inner));
                        }
                    }
                    return false;
                }
                i = i + 1;
            }
            true
        },
        _ => false,
    }
}

} // verus!
