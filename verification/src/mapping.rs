use crate::extent::Extent;
use crate::gaps::total_length;
use crate::subvol::SubVolume;
use vstd::prelude::*;

verus! {

/// One segment of a linear mapping, in sectors of 512 bytes: `length`
/// sectors of the mapped device, from its sector `start` on, lie on the
/// backing device from its sector `source_offset` on.
#[derive(Clone, Copy, Debug, PartialEq, Eq, Structural)]
pub struct Segment {
    pub start: u64,
    pub length: u64,
    pub source_offset: u64,
}

/// The number of whole sectors in `blocks` blocks of `io_size` bytes.
pub open spec fn sectors(blocks: int, io_size: u64) -> int {
    blocks * io_size / 512
}

/// The segment for the extent `e`, which `before` blocks of the subvolume precede.
pub open spec fn segment_for(before: int, e: Extent, io_size: u64) -> Segment {
    Segment {
        start: sectors(before, io_size) as u64,
        length: sectors(e.block_length as int, io_size) as u64,
        source_offset: sectors(e.block_offset as int, io_size) as u64,
    }
}

/// The byte counts of the segment for `e` can be computed in 64 bits, and
/// so can the number of blocks up to its end. An empty extent gets no
/// segment and asks for nothing.
pub open spec fn segment_fits(before: int, e: Extent, io_size: u64) -> bool {
    e.block_length == 0 || (e.block_offset * io_size <= u64::MAX && before * io_size <= u64::MAX
        && e.block_length * io_size <= u64::MAX && before + e.block_length <= u64::MAX)
}

/// Every segment of the table for `extents` fits.
pub open spec fn table_fits(extents: Seq<Extent>, io_size: u64) -> bool {
    forall|i: int|
        0 <= i < extents.len() ==> segment_fits(
            total_length(extents.take(i)),
            #[trigger] extents[i],
            io_size,
        )
}

/// The linear mapping for `extents`: one segment for each extent that is
/// not empty, in the order of the extents, each beginning on the mapped
/// device where the blocks before it end.
pub open spec fn table_of(extents: Seq<Extent>, io_size: u64) -> Seq<Segment>
    decreases extents.len(),
{
    if extents.len() == 0 {
        Seq::empty()
    } else if extents.last().block_length == 0 {
        table_of(extents.drop_last(), io_size)
    } else {
        table_of(extents.drop_last(), io_size).push(
            segment_for(total_length(extents.drop_last()), extents.last(), io_size),
        )
    }
}

/// One more extent at the end adds its length to the sum.
pub proof fn lemma_total_length_push(s: Seq<Extent>, e: Extent)
    ensures
        total_length(s.push(e)) == total_length(s) + e.block_length,
    decreases s.len(),
{
    if s.len() == 0 {
        assert(s.push(e).drop_first() =~= Seq::<Extent>::empty());
        assert(total_length(s.push(e).drop_first()) == 0);
    } else {
        lemma_total_length_push(s.drop_first(), e);
        assert(s.push(e).drop_first() =~= s.drop_first().push(e));
    }
}

impl SubVolume {
    /// The linear mapping that shows the subvolume as one device, on a
    /// backing device of blocks of `io_size` bytes; nothing where a byte
    /// count of it does not fit in 64 bits.
    pub fn linear_table(&self, io_size: u64) -> (table: Option<Vec<Segment>>)
        ensures
            table is Some <==> table_fits(self@.extents, io_size),
            table is Some ==> table->Some_0@ == table_of(self@.extents, io_size),
    {
        let ghost all = self.extents@;
        let mut table: Vec<Segment> = Vec::new();
        let mut start: u64 = 0;
        let mut i: usize = 0;
        assert(all.take(0) =~= Seq::<Extent>::empty());
        while i < self.extents.len()
            invariant
                i <= self.extents.len(),
                all == self.extents@,
                start == total_length(all.take(i as int)),
                table@ == table_of(all.take(i as int), io_size),
                forall|k: int|
                    0 <= k < i ==> segment_fits(
                        total_length(all.take(k)),
                        #[trigger] all[k],
                        io_size,
                    ),
            decreases self.extents.len() - i,
        {
            let e = self.extents[i];
            proof {
                assert(all.take(i as int + 1) =~= all.take(i as int).push(e));
                assert(all.take(i as int).push(e).drop_last() =~= all.take(i as int));
                lemma_total_length_push(all.take(i as int), e);
            }
            if e.block_length != 0 {
                let source = match e.block_offset.checked_mul(io_size) {
                    Some(bytes) => bytes / 512,
                    None => {
                        assert(!segment_fits(total_length(all.take(i as int)), all[i as int], io_size));
                        return None;
                    },
                };
                let first = match start.checked_mul(io_size) {
                    Some(bytes) => bytes / 512,
                    None => {
                        assert(!segment_fits(total_length(all.take(i as int)), all[i as int], io_size));
                        return None;
                    },
                };
                let length = match e.block_length.checked_mul(io_size) {
                    Some(bytes) => bytes / 512,
                    None => {
                        assert(!segment_fits(total_length(all.take(i as int)), all[i as int], io_size));
                        return None;
                    },
                };
                let next = match start.checked_add(e.block_length) {
                    Some(blocks) => blocks,
                    None => {
                        assert(!segment_fits(total_length(all.take(i as int)), all[i as int], io_size));
                        return None;
                    },
                };
                table.push(Segment { start: first, length, source_offset: source });
                start = next;
            }
            i += 1;
        }
        assert(all.take(self.extents.len() as int) =~= all);
        Some(table)
    }
}

} // verus!
