use vstd::prelude::*;

use crate::handle::ForkHandle;

verus! {

/// The construct item of an optional value: the handle of the fork that
/// carries the inner value, or nothing.
#[derive(Clone, Copy, Debug, PartialEq, Eq, Structural)]
pub enum VOption {
    Present(ForkHandle),
    Absent,
}

/// The body of a frame. Which variant a fork carries is fixed by the type
/// pair recorded for it in the context.
#[derive(Clone, Debug, PartialEq, Eq)]
pub enum Payload {
    Byte(u8),
    Word(u32),
    Flag(bool),
    Opt(VOption),
    Handles(Vec<ForkHandle>),
    /// The fork that carries an error's chain.
    Fork(ForkHandle),
    /// The levels of an error chain, outermost first, as (debug, display).
    Chain(Vec<(String, String)>),
}

/// Tags of the item types, as recorded in a context's type pairs.
pub const UNIT_TAG: u64 = 0;

pub const BYTE_TAG: u64 = 1;

pub const WORD_TAG: u64 = 2;

pub const FLAG_TAG: u64 = 3;

pub const OPTION_TAG: u64 = 4;

pub const HANDLES_TAG: u64 = 5;

pub const FORK_TAG: u64 = 6;

pub const CHAIN_TAG: u64 = 7;

/// The unit on the transport: a fork handle and the payload for that fork.
#[derive(Clone, Debug, PartialEq, Eq)]
pub struct Item(pub ForkHandle, pub Payload);

} // verus!
