//! Dense identifiers: plain indices into the arenas of a prototype.

use vstd::prelude::*;

verus! {

/// A value that sets and sorted lists can order. `rank` maps distinct values to distinct
/// pairs of integers, compared left component first.
pub trait Ranked: Copy {
    spec fn rank(self) -> (int, int);

    fn before(self, other: Self) -> (r: bool)
        ensures
            r == rank_less(self.rank(), other.rank()),
    ;

    fn same(self, other: Self) -> (r: bool)
        ensures
            r == (self == other),
    ;

    proof fn rank_injective(a: Self, b: Self)
        ensures
            a.rank() == b.rank() ==> a == b,
    ;
}

/// Lexicographic order on ranks.
pub open spec fn rank_less(a: (int, int), b: (int, int)) -> bool {
    a.0 < b.0 || (a.0 == b.0 && a.1 < b.1)
}

/// An instruction of a prototype.
#[derive(Debug, Clone, Copy, PartialEq, Eq, PartialOrd, Ord, Hash, Structural)]
pub struct InstrRef(pub usize);

impl InstrRef {
    pub fn index(self) -> (r: usize)
        ensures
            r == self.0,
    {
        self.0
    }
}

/// A virtual register.
#[derive(Debug, Clone, Copy, PartialEq, Eq, PartialOrd, Ord, Hash, Structural)]
pub struct Reg(pub usize);

impl Reg {
    pub fn index(self) -> (r: usize)
        ensures
            r == self.0,
    {
        self.0
    }
}

impl Ranked for Reg {
    open spec fn rank(self) -> (int, int) {
        (self.0 as int, 0)
    }

    fn before(self, other: Self) -> (r: bool) {
        self.0 < other.0
    }

    fn same(self, other: Self) -> (r: bool) {
        self.0 == other.0
    }

    proof fn rank_injective(a: Self, b: Self) {
    }
}

/// A consecutive run of registers.
#[derive(Debug, Clone, Copy, PartialEq, Eq, Hash, Structural)]
pub struct RegRange {
    pub start: Reg,
    pub len: usize,
}

/// An edge of the control-flow graph.
#[derive(Debug, Clone, Copy, PartialEq, Eq, PartialOrd, Ord, Hash, Structural)]
pub struct EdgeRef(pub usize);

impl Default for EdgeRef {
    fn default() -> (r: Self)
        ensures
            r == EdgeRef(0),
    {
        EdgeRef(0)
    }
}

impl EdgeRef {
    pub fn index(self) -> (r: usize)
        ensures
            r == self.0,
    {
        self.0
    }
}

impl Ranked for EdgeRef {
    open spec fn rank(self) -> (int, int) {
        (self.0 as int, 0)
    }

    fn before(self, other: Self) -> (r: bool) {
        self.0 < other.0
    }

    fn same(self, other: Self) -> (r: bool) {
        self.0 == other.0
    }

    proof fn rank_injective(a: Self, b: Self) {
    }
}

/// A basic block of the control-flow graph.
#[derive(Debug, Clone, Copy, PartialEq, Eq, PartialOrd, Ord, Hash, Structural)]
pub struct BlockRef(pub usize);

impl Default for BlockRef {
    fn default() -> (r: Self)
        ensures
            r == BlockRef(0),
    {
        BlockRef(0)
    }
}

impl BlockRef {
    pub fn index(self) -> (r: usize)
        ensures
            r == self.0,
    {
        self.0
    }
}

impl Ranked for BlockRef {
    open spec fn rank(self) -> (int, int) {
        (self.0 as int, 0)
    }

    fn before(self, other: Self) -> (r: bool) {
        self.0 < other.0
    }

    fn same(self, other: Self) -> (r: bool) {
        self.0 == other.0
    }

    proof fn rank_injective(a: Self, b: Self) {
    }
}

} // verus!
