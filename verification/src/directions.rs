//! The directions in which data moves, and data tagged with one of them.

use vstd::prelude::*;

verus! {

/// Where data that comes in has come from.
#[derive(Clone, Copy, PartialEq, Eq, Structural, Debug)]
pub enum IncomingDirection {
    FromServer,
    FromClient,
}

/// Where data that goes out is going.
#[derive(Clone, Copy, PartialEq, Eq, Structural, Debug)]
pub enum OutgoingDirection {
    ToServer,
    ToClient,
}

/// Either kind of direction.
#[derive(Clone, Copy, PartialEq, Eq, Structural, Debug)]
pub enum Direction {
    Incoming(IncomingDirection),
    Outgoing(OutgoingDirection),
}

/// A piece of data and the direction in which it moves.
#[derive(Clone, PartialEq, Eq, Debug)]
pub struct DataEvent<'a, T> {
    pub direction: T,
    pub buffer: &'a [u8],
}

/// Data that has come in.
pub type IncomingDataEvent<'a> = DataEvent<'a, IncomingDirection>;

/// Data that is to go out.
pub type OutgoingDataEvent<'a> = DataEvent<'a, OutgoingDirection>;

} // verus!
