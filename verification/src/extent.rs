use vstd::prelude::*;

verus! {

/// A contiguous run of blocks on the backing device: the half-open range
/// `[block_offset, block_offset + block_length)`.
#[derive(Clone, Copy, Debug, PartialEq, Eq, Structural, PartialOrd, Ord, Hash)]
pub struct Extent {
    pub block_offset: u64,
    pub block_length: u64,
}

impl Extent {
    /// The first block past the extent.
    pub open spec fn end(self) -> int {
        self.block_offset + self.block_length
    }

    /// The extent's end is still a block number of the device.
    pub open spec fn bounded(self) -> bool {
        self.end() <= u64::MAX
    }

    /// The order of extents: by offset first, by length second.
    pub open spec fn at_most(self, other: Extent) -> bool {
        self.block_offset < other.block_offset || (self.block_offset == other.block_offset
            && self.block_length <= other.block_length)
    }

    /// One of the two extents ends where the other begins, or before.
    pub open spec fn apart(self, other: Extent) -> bool {
        self.end() <= other.block_offset || other.end() <= self.block_offset
    }

    /// The extent of `block_length` blocks from block `block_offset` on.
    pub fn new(block_offset: u64, block_length: u64) -> (e: Extent)
        ensures
            e == (Extent { block_offset, block_length }),
    {
        Extent { block_offset, block_length }
    }

    /// Whether `self` comes before `other` in the order of extents, or equals it.
    pub fn precedes(&self, other: &Extent) -> (b: bool)
        ensures
            b == self.at_most(*other),
    {
        self.block_offset < other.block_offset || (self.block_offset == other.block_offset
            && self.block_length <= other.block_length)
    }
}

/// Every earlier extent of `s` is at most every later one.
pub open spec fn ascending(s: Seq<Extent>) -> bool {
    forall|i: int, j: int| 0 <= i < j < s.len() ==> (#[trigger] s[i]).at_most(#[trigger] s[j])
}

/// Puts `e` into the ascending vector `v` at its place: behind every extent
/// that is at most `e`.
pub fn insert_ascending(v: &mut Vec<Extent>, e: Extent)
    requires
        ascending(old(v)@),
    ensures
        ascending(final(v)@),
        final(v)@.to_multiset() == old(v)@.to_multiset().insert(e),
        final(v)@.len() == old(v)@.len() + 1,
{
    let mut at: usize = 0;
    while at < v.len() && v[at].precedes(&e)
        invariant
            at <= v.len(),
            v@ == old(v)@,
            forall|k: int| 0 <= k < at ==> (#[trigger] v@[k]).at_most(e),
        decreases v.len() - at,
    {
        at += 1;
    }
    proof {
        vstd::seq_lib::to_multiset_insert(v@, at as int, e);
        v@.insert_ensures(at as int, e);
        let t = v@.insert(at as int, e);
        assert forall|i: int, j: int| 0 <= i < j < t.len() implies (#[trigger] t[i]).at_most(
            #[trigger] t[j],
        ) by {
            if j < at {
            } else if j == at {
            } else if i < at {
                assert(t[j] == v@[j - 1]);
                if j - 1 == at {
                    assert(!v@[at as int].at_most(e));
                } else {
                    assert(v@[at as int].at_most(v@[j - 1]));
                }
            } else if i == at {
                assert(t[j] == v@[j - 1]);
                if j - 1 > at {
                    assert(v@[at as int].at_most(v@[j - 1]));
                }
            } else {
                assert(t[i] == v@[i - 1]);
                assert(t[j] == v@[j - 1]);
            }
        }
    }
    v.insert(at, e);
}

} // verus!
