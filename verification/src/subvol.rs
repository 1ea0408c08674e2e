use crate::extent::Extent;
use vstd::prelude::*;

verus! {

/// A logical volume: the extents that back it, in the order in which they
/// were handed out, and where it came from. A subvolume without extents is
/// legal and stands for a name alone.
#[derive(Clone, Debug, PartialEq, Eq)]
pub struct SubVolume {
    pub extents: Vec<Extent>,
    pub version: String,
    pub author: String,
    pub timedate: String,
}

/// What a subvolume holds, as plain values.
pub struct SubVolumeView {
    pub extents: Seq<Extent>,
    pub version: Seq<char>,
    pub author: Seq<char>,
    pub timedate: Seq<char>,
}

impl View for SubVolume {
    type V = SubVolumeView;

    open spec fn view(&self) -> SubVolumeView {
        SubVolumeView {
            extents: self.extents@,
            version: self.version@,
            author: self.author@,
            timedate: self.timedate@,
        }
    }
}

/// The subvolume over `extents` of which nothing else is recorded.
pub open spec fn plain_subvol(extents: Seq<Extent>) -> SubVolumeView {
    SubVolumeView { extents, version: Seq::empty(), author: Seq::empty(), timedate: Seq::empty() }
}

/// A copy of the extents of `v`.
pub fn copy_extents(v: &Vec<Extent>) -> (r: Vec<Extent>)
    ensures
        r@ == v@,
{
    let mut r: Vec<Extent> = Vec::new();
    let mut i: usize = 0;
    while i < v.len()
        invariant
            i <= v.len(),
            r@ == v@.take(i as int),
        decreases v.len() - i,
    {
        r.push(v[i]);
        assert(v@.take(i as int).push(v@[i as int]) =~= v@.take(i as int + 1));
        i += 1;
    }
    assert(v@.take(v.len() as int) =~= v@);
    r
}

/// Whether `a` and `b` hold the same extents in the same order.
pub fn same_extents(a: &Vec<Extent>, b: &Vec<Extent>) -> (same: bool)
    ensures
        same == (a@ == b@),
{
    if a.len() != b.len() {
        return false;
    }
    let mut i: usize = 0;
    while i < a.len()
        invariant
            i <= a.len(),
            a.len() == b.len(),
            a@.take(i as int) == b@.take(i as int),
        decreases a.len() - i,
    {
        if a[i].block_offset != b[i].block_offset || a[i].block_length != b[i].block_length {
            assert(a@[i as int] != b@[i as int]);
            return false;
        }
        assert(a@.take(i as int + 1) =~= a@.take(i as int).push(a@[i as int]));
        assert(b@.take(i as int + 1) =~= b@.take(i as int).push(b@[i as int]));
        i += 1;
    }
    assert(a@.take(a.len() as int) =~= a@);
    assert(b@.take(b.len() as int) =~= b@);
    true
}

impl SubVolume {
    /// The subvolume over `extents` with what is recorded of where it came from.
    pub fn new(extents: Vec<Extent>, version: String, author: String, timedate: String) -> (sv:
        SubVolume)
        ensures
            sv@ == (SubVolumeView {
                extents: extents@,
                version: version@,
                author: author@,
                timedate: timedate@,
            }),
    {
        SubVolume { extents, version, author, timedate }
    }

    /// The subvolume over `extents`, with its version, author and date left empty.
    pub fn plain(extents: Vec<Extent>) -> (sv: SubVolume)
        ensures
            sv@ == plain_subvol(extents@),
    {
        SubVolume { extents, version: String::new(), author: String::new(), timedate: String::new() }
    }

    /// Whether the two subvolumes are equal in all that they hold: extents,
    /// version, author and date.
    pub fn same_as(&self, other: &SubVolume) -> (same: bool)
        ensures
            same == (self@ == other@),
    {
        same_extents(&self.extents, &other.extents) && self.version == other.version && self.author
            == other.author && self.timedate == other.timedate
    }

    /// A subvolume equal to this one.
    pub fn duplicate(&self) -> (sv: SubVolume)
        ensures
            sv@ == self@,
    {
        SubVolume {
            extents: copy_extents(&self.extents),
            version: self.version.clone(),
            author: self.author.clone(),
            timedate: self.timedate.clone(),
        }
    }
}

} // verus!
