//! Replicas and their clocks.

use vstd::prelude::*;

verus! {

/// Position in a document, counted in characters.
pub type Length = usize;

/// Value of an insertion clock.
pub type InsertionTimestamp = u64;

/// Value of a Lamport clock.
pub type LamportTimestamp = u64;

/// Identifier of a replica of the document.
#[derive(Clone, Copy, Debug, PartialEq, Eq, Structural)]
pub struct ReplicaId(u64);

impl View for ReplicaId {
    type V = u64;

    closed spec fn view(&self) -> u64 {
        self.0
    }
}

impl ReplicaId {
    pub closed spec fn spec_zero() -> ReplicaId {
        ReplicaId(0)
    }

    /// The identifier `id`.
    pub fn new(id: u64) -> (r: ReplicaId)
        ensures
            r@ == id,
    {
        ReplicaId(id)
    }

    /// The identifier with value zero, used by the document's origin.
    #[verifier::when_used_as_spec(spec_zero)]
    pub fn zero() -> (r: ReplicaId)
        ensures
            r == ReplicaId::spec_zero(),
            r@ == 0,
    {
        ReplicaId(0)
    }

    /// The identifier as a number.
    pub fn as_u64(&self) -> (n: u64)
        ensures
            n == self@,
    {
        self.0
    }

    /// The low 32 bits of the identifier.
    pub fn as_u32(&self) -> (n: u32)
        ensures
            n == self@ % 0x1_0000_0000,
    {
        let x: u64 = self.0;
        assert((x & 0xffff_ffff) == x % 0x1_0000_0000) by (bit_vector);
        (x & 0xffff_ffff) as u32
    }

    /// Two identifiers are the same value exactly when their numbers are.
    pub proof fn lemma_view_injective(a: ReplicaId, b: ReplicaId)
        ensures
            (a@ == b@) <==> (a == b),
    {
    }
}

/// The clock that stamps each insertion of a replica with a new timestamp.
#[derive(Clone, Copy, Debug)]
pub struct InsertionClock(u64);

impl View for InsertionClock {
    type V = u64;

    closed spec fn view(&self) -> u64 {
        self.0
    }
}

impl InsertionClock {
    /// A clock whose next timestamp is zero.
    pub fn new() -> (c: InsertionClock)
        ensures
            c@ == 0,
    {
        InsertionClock(0)
    }

    /// Hands out the current timestamp and advances the clock by one.
    pub fn next(&mut self) -> (ts: InsertionTimestamp)
        requires
            old(self)@ < u64::MAX,
        ensures
            ts == old(self)@,
            final(self)@ == old(self)@ + 1,
    {
        let ts = self.0;
        self.0 = self.0 + 1;
        ts
    }
}

/// A Lamport clock: orders the insertions of all replicas.
#[derive(Clone, Copy, Debug)]
pub struct LamportClock(u64);

impl View for LamportClock {
    type V = u64;

    closed spec fn view(&self) -> u64 {
        self.0
    }
}

impl LamportClock {
    /// A clock whose next timestamp is zero.
    pub fn new() -> (c: LamportClock)
        ensures
            c@ == 0,
    {
        LamportClock(0)
    }

    /// Hands out the current timestamp and advances the clock by one.
    pub fn next(&mut self) -> (ts: LamportTimestamp)
        requires
            old(self)@ < u64::MAX,
        ensures
            ts == old(self)@,
            final(self)@ == old(self)@ + 1,
    {
        let ts = self.0;
        self.0 = self.0 + 1;
        ts
    }
}

} // verus!
