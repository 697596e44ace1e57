//! Addressing a single 8 KiB page.
//!
//! A compute node names a page by its logical identity: the relation it belongs
//! to, which fork of that relation, and the block number within the fork.

use vstd::prelude::*;

verus! {

/// PostgreSQL's default block size.
pub const PAGE_SIZE: usize = 8192;

/// Which physical fork of a relation a page belongs to.
#[derive(Debug, Clone, Copy, PartialEq, Eq, Structural, PartialOrd, Ord, Hash)]
pub enum ForkNumber {
    /// Heap or index data: the relation proper.
    Main,
    /// Free space map.
    Fsm,
    /// Visibility map.
    VisibilityMap,
    /// Initialization fork for unlogged relations.
    Init,
}

/// PostgreSQL's number of a fork.
pub open spec fn fork_code(fork: ForkNumber) -> u8 {
    match fork {
        ForkNumber::Main => 0,
        ForkNumber::Fsm => 1,
        ForkNumber::VisibilityMap => 2,
        ForkNumber::Init => 3,
    }
}

/// The fork with a given number.
pub open spec fn fork_of(raw: u8) -> Option<ForkNumber> {
    if raw == 0 {
        Some(ForkNumber::Main)
    } else if raw == 1 {
        Some(ForkNumber::Fsm)
    } else if raw == 2 {
        Some(ForkNumber::VisibilityMap)
    } else if raw == 3 {
        Some(ForkNumber::Init)
    } else {
        None
    }
}

impl ForkNumber {
    /// Map PostgreSQL's integer fork number to the typed variant.
    pub fn from_raw(raw: u8) -> (r: Option<ForkNumber>)
        ensures
            r == fork_of(raw),
            r matches Some(f) ==> fork_code(f) == raw,
            r is None <==> raw > 3,
    {
        match raw {
            0 => Some(ForkNumber::Main),
            1 => Some(ForkNumber::Fsm),
            2 => Some(ForkNumber::VisibilityMap),
            3 => Some(ForkNumber::Init),
            _ => None,
        }
    }

    /// PostgreSQL's integer fork number.
    pub fn to_raw(self) -> (r: u8)
        ensures
            r == fork_code(self),
            fork_of(r) == Some(self),
    {
        match self {
            ForkNumber::Main => 0,
            ForkNumber::Fsm => 1,
            ForkNumber::VisibilityMap => 2,
            ForkNumber::Init => 3,
        }
    }
}

/// Identifies a relation file, PostgreSQL's `RelFileNode`, and one of its forks.
#[derive(Debug, Clone, Copy, PartialEq, Eq, Structural, PartialOrd, Ord, Hash)]
pub struct RelTag {
    /// Tablespace OID.
    pub spc_node: u32,
    /// Database OID.
    pub db_node: u32,
    /// Relation file-node OID.
    pub rel_node: u32,
    /// Which fork of the relation.
    pub fork: ForkNumber,
}

/// The full key for one 8 KiB page: a relation fork plus a block number.
///
/// It names a page's identity; the position at which the page is observed is
/// given separately.
#[derive(Debug, Clone, Copy, PartialEq, Eq, Structural, PartialOrd, Ord, Hash)]
pub struct PageKey {
    /// The relation and fork this page lives in.
    pub rel: RelTag,
    /// Zero-based block index within the fork.
    pub block: u32,
}

/// The place of a relation fork in the order by tablespace, database, relation
/// and fork.
#[verifier::opaque]
pub open spec fn rel_rank(r: RelTag) -> int {
    ((r.spc_node * 0x1_0000_0000 + r.db_node) * 0x1_0000_0000 + r.rel_node) * 4 + fork_code(r.fork)
}

/// The place of a page in the order by relation fork and block.
#[verifier::opaque]
pub open spec fn key_rank(k: PageKey) -> int {
    rel_rank(k.rel) * 0x1_0000_0000 + k.block
}

/// Different relation forks have different places.
pub proof fn rel_rank_injective(a: RelTag, b: RelTag)
    ensures
        rel_rank(a) == rel_rank(b) <==> a == b,
{
    reveal(rel_rank);
    let a2 = a.spc_node * 0x1_0000_0000 + a.db_node;
    let b2 = b.spc_node * 0x1_0000_0000 + b.db_node;
    let a3 = a2 * 0x1_0000_0000 + a.rel_node;
    let b3 = b2 * 0x1_0000_0000 + b.rel_node;
    if rel_rank(a) == rel_rank(b) {
        assert(a3 * 4 + fork_code(a.fork) == b3 * 4 + fork_code(b.fork));
        assert(a3 == b3);
        assert(a2 == b2);
        assert(a.fork == b.fork);
    }
}

/// Different pages have different places.
pub proof fn key_rank_injective(a: PageKey, b: PageKey)
    ensures
        key_rank(a) == key_rank(b) <==> a == b,
{
    reveal(key_rank);
    rel_rank_injective(a.rel, b.rel);
}

/// The first of tablespace, database, relation, fork and block in which two pages differ
/// says which comes first; forks come in the order main, free space map, visibility map,
/// init.
pub proof fn the_first_difference_decides(a: PageKey, b: PageKey)
    ensures
        a.rel.spc_node < b.rel.spc_node ==> rel_rank(a.rel) < rel_rank(b.rel) && key_rank(a)
            < key_rank(b),
        a.rel.spc_node == b.rel.spc_node && a.rel.db_node < b.rel.db_node ==> rel_rank(a.rel)
            < rel_rank(b.rel) && key_rank(a) < key_rank(b),
        a.rel.spc_node == b.rel.spc_node && a.rel.db_node == b.rel.db_node && a.rel.rel_node
            < b.rel.rel_node ==> rel_rank(a.rel) < rel_rank(b.rel) && key_rank(a) < key_rank(b),
        a.rel.spc_node == b.rel.spc_node && a.rel.db_node == b.rel.db_node && a.rel.rel_node
            == b.rel.rel_node && (match (a.rel.fork, b.rel.fork) {
            (ForkNumber::Main, f) => f != ForkNumber::Main,
            (ForkNumber::Fsm, f) => f == ForkNumber::VisibilityMap || f == ForkNumber::Init,
            (ForkNumber::VisibilityMap, f) => f == ForkNumber::Init,
            (ForkNumber::Init, _) => false,
        }) ==> rel_rank(a.rel) < rel_rank(b.rel) && key_rank(a) < key_rank(b),
        a.rel == b.rel && a.block < b.block ==> key_rank(a) < key_rank(b),
{
    reveal(rel_rank);
    reveal(key_rank);
}

impl RelTag {
    /// Whether `self` comes before `other`.
    pub fn precedes(&self, other: &RelTag) -> (r: bool)
        ensures
            r == (rel_rank(*self) < rel_rank(*other)),
    {
        proof {
            reveal(rel_rank);
        }
        if self.spc_node != other.spc_node {
            self.spc_node < other.spc_node
        } else if self.db_node != other.db_node {
            self.db_node < other.db_node
        } else if self.rel_node != other.rel_node {
            self.rel_node < other.rel_node
        } else {
            self.fork.to_raw() < other.fork.to_raw()
        }
    }
}

impl PageKey {
    /// Convenience constructor.
    pub fn new(rel: RelTag, block: u32) -> (r: PageKey)
        ensures
            r == (PageKey { rel, block }),
    {
        PageKey { rel, block }
    }

    /// Whether `self` comes before `other`.
    pub fn precedes(&self, other: &PageKey) -> (r: bool)
        ensures
            r == (key_rank(*self) < key_rank(*other)),
    {
        proof {
            reveal(key_rank);
            rel_rank_injective(self.rel, other.rel);
        }
        if self.rel == other.rel {
            self.block < other.block
        } else {
            self.rel.precedes(&other.rel)
        }
    }
}

} // verus!
