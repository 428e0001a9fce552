use vstd::prelude::*;

pub mod channel;
pub mod construct;
pub mod context;
pub mod deconstruct;
pub mod frame;
pub mod handle;
pub mod kind;
pub mod resource;
pub mod shim;
pub mod text;
pub mod wrap;

pub use channel::{
    aggregate_poll, ChannelError, ChannelPoll, IdChannel, IdChannelError, SinkPoll, SinkStage,
};
pub use context::Context;
pub use frame::{Item, Payload, VOption};
pub use handle::{ForkHandle, TypePair};
pub use construct::{construct, ConstructError};
pub use deconstruct::{deconstruct, DeconstructError};
pub use kind::{conforms, Kind, Value};
pub use resource::{Checksum, ReifyError, Resource};
pub use shim::ErrorShim;
pub use wrap::{Iterator, Serde};

verus! {

} // verus!
