//! Band-practice scheduling: enumerate every valid assignment of bands to
//! the (room x time-span) blocks of a rehearsal schedule.
//!
//! The search space is the set of permutations of band indices; the core of
//! the crate is a lexicographic permutation enumerator that supports carving
//! the permutation tree into independent sub-trees and skipping sub-trees
//! that a pruning rule has ruled out.

use vstd::prelude::*;

pub mod algorithm;
pub mod analyzer;
pub mod http;
pub mod input;
pub mod players;
pub mod portal;
pub mod rest_type;
pub mod text_order;

verus! {

/// An instrument set, one bit per instrument.
#[derive(Clone, Copy, Debug, PartialEq, Eq, Structural)]
pub struct InstrumentType(pub u32);

pub const INSTRUMENT_VOCAL: u32 = 0x001;
pub const INSTRUMENT_ELECTRIC_GUITAR: u32 = 0x002;
pub const INSTRUMENT_ACOUSTIC_GUITAR: u32 = 0x004;
pub const INSTRUMENT_ELECTRIC_BASS: u32 = 0x008;
pub const INSTRUMENT_TENOR_SAXPHONE: u32 = 0x010;
pub const INSTRUMENT_KEYBOARD: u32 = 0x020;
pub const INSTRUMENT_PIANO: u32 = 0x040;
pub const INSTRUMENT_TROMBONE: u32 = 0x080;
pub const INSTRUMENT_DRUMS: u32 = 0x100;

impl InstrumentType {
    /// The empty instrument set.
    pub fn none() -> (r: Self)
        ensures
            r.0 == 0,
    {
        InstrumentType(0)
    }

    /// Every instrument of `self` or of `other`.
    pub fn union(self, other: Self) -> (r: Self)
        ensures
            r.0 == self.0 | other.0,
    {
        InstrumentType(self.0 | other.0)
    }

    /// Every instrument of both `self` and `other`.
    pub fn intersection(self, other: Self) -> (r: Self)
        ensures
            r.0 == self.0 & other.0,
    {
        InstrumentType(self.0 & other.0)
    }

    /// `self` without the instruments of `other`.
    pub fn remove(self, other: Self) -> (r: Self)
        ensures
            r.0 == self.0 & !other.0,
    {
        InstrumentType(self.0 & !other.0)
    }

    /// Does `self` hold every instrument of `other`?
    pub fn contains(self, other: Self) -> (r: bool)
        ensures
            r == (self.0 & other.0 == other.0),
    {
        self.0 & other.0 == other.0
    }

    /// Is the set empty?
    pub fn is_empty(self) -> (r: bool)
        ensures
            r == (self.0 == 0),
    {
        self.0 == 0
    }
}

impl Default for InstrumentType {
    /// The empty instrument set.
    fn default() -> (r: Self)
        ensures
            r.0 == 0,
    {
        InstrumentType(0)
    }
}

/// Identifier of a band, dense: the index of the band in its `LiveInfo`.
#[derive(Hash, PartialEq, Eq, Structural, Clone, Copy, Debug)]
pub struct BandId(pub usize);

impl BandId {
    pub fn new(index: usize) -> (r: Self)
        ensures
            r.0 == index,
    {
        BandId(index)
    }

    /// A sentinel that no registry ever mints; stands for an empty slot.
    pub fn invalid() -> (r: Self)
        ensures
            r.0 == usize::MAX,
    {
        BandId(usize::MAX)
    }
}

/// Identifier of a musician, dense: the index of the user in its `LiveInfo`.
#[derive(Hash, PartialEq, Eq, Structural, Clone, Copy, Debug)]
pub struct UserId(pub usize);

impl UserId {
    pub fn new(index: usize) -> (r: Self)
        ensures
            r.0 == index,
    {
        UserId(index)
    }
}

/// Identifier of a room, dense: the column index in its `RoomMatrix`.
#[derive(Hash, PartialEq, Eq, Structural, Clone, Copy, Debug)]
pub struct RoomId(pub usize);

impl RoomId {
    pub fn new(index: usize) -> (r: Self)
        ensures
            r.0 == index,
    {
        RoomId(index)
    }
}

/// Identifier of a time span, dense: the row index in its `RoomMatrix`.
#[derive(Hash, PartialEq, Eq, Structural, Clone, Copy, Debug)]
pub struct SpanId(pub usize);

impl SpanId {
    pub fn new(index: usize) -> (r: Self)
        ensures
            r.0 == index,
    {
        SpanId(index)
    }
}

/// Identifier of a schedulable block (one room at one span), dense: the
/// index in the span-major block list of its `RoomMatrix`.
#[derive(Hash, PartialEq, Eq, Structural, Clone, Copy, Debug)]
pub struct BlockId(pub usize);

impl BlockId {
    pub fn new(index: usize) -> (r: Self)
        ensures
            r.0 == index,
    {
        BlockId(index)
    }
}

/// A band as ingested: the member names.
#[derive(Debug, Clone)]
pub struct Band {
    pub member_ids: Vec<String>,
}

/// A musician as ingested: display name and instruments.
#[derive(Clone)]
pub struct User {
    pub name: String,
    pub instrument_type: InstrumentType,
}

/// A live event: who plays, and which bands appear.
pub struct LiveProgram {
    /// Names of everyone on stage.
    pub user_names: Vec<String>,
    /// Names of the bands that appear.
    pub item: Vec<String>,
}

} // verus!
