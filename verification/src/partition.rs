use crate::error::Error;
use crate::extent::{ascending, insert_ascending, Extent};
use crate::gaps::{carve, chained, free_blocks, pieces, total_length};
use crate::layout::{
    lemma_sorted, lemma_sound_iff_chained, lemma_sound_joined,
    lemma_sound_part, sorted, sound,
};
use crate::slots::{authoritative, choose_authoritative, choose_target, commit_target, Slot};
use crate::subvol::{plain_subvol, SubVolume, SubVolumeView};
use vstd::prelude::*;

verus! {

/// A subvolume under its name.
#[derive(Clone, Debug, PartialEq, Eq)]
pub struct Entry {
    pub name: String,
    pub subvol: SubVolume,
}

/// What an entry holds, as plain values.
pub struct EntryView {
    pub name: Seq<char>,
    pub subvol: SubVolumeView,
}

impl View for Entry {
    type V = EntryView;

    open spec fn view(&self) -> EntryView {
        EntryView { name: self.name@, subvol: self.subvol@ }
    }
}

/// The root of the metadata: the device, the generation of the metadata,
/// and the subvolumes by name. No name occurs twice.
#[derive(Clone, Debug, PartialEq, Eq)]
pub struct SuperPartition {
    device: String,
    generation: u32,
    subvols: Vec<Entry>,
}

/// What a super partition holds, as plain values. The subvolumes stand in
/// the order in which they were entered; nothing but `subvols` itself
/// depends on that order.
pub struct SuperPartitionView {
    pub device: Seq<char>,
    pub generation: u32,
    pub subvols: Seq<EntryView>,
}

/// The entries as plain values.
pub open spec fn entry_views(entries: Seq<Entry>) -> Seq<EntryView> {
    entries.map_values(|e: Entry| e@)
}

/// No two entries have the same name.
pub open spec fn names_unique(entries: Seq<EntryView>) -> bool {
    forall|i: int, j: int|
        0 <= i < j < entries.len() ==> (#[trigger] entries[i]).name != (#[trigger] entries[j]).name
}

/// Some entry has the name `name`.
pub open spec fn has_name(entries: Seq<EntryView>, name: Seq<char>) -> bool {
    exists|i: int| 0 <= i < entries.len() && (#[trigger] entries[i]).name == name
}

/// The place of an entry with the name `name`.
pub open spec fn place_of(entries: Seq<EntryView>, name: Seq<char>) -> int {
    choose|i: int| 0 <= i < entries.len() && (#[trigger] entries[i]).name == name
}

/// The entries after `subvol` was put under `name`: in the place of the
/// entry of that name where there was one, behind all entries where not.
pub open spec fn put(entries: Seq<EntryView>, name: Seq<char>, subvol: SubVolumeView) -> Seq<
    EntryView,
> {
    if has_name(entries, name) {
        entries.update(place_of(entries, name), EntryView { name, subvol })
    } else {
        entries.push(EntryView { name, subvol })
    }
}

/// The subvolumes by name: the mapping that the entries stand for.
pub open spec fn by_name(entries: Seq<EntryView>) -> Map<Seq<char>, SubVolumeView> {
    Map::new(
        |name: Seq<char>| has_name(entries, name),
        |name: Seq<char>| entries[place_of(entries, name)].subvol,
    )
}

/// Tells the entries whose subvolume is not `subvol`.
pub open spec fn is_other(subvol: SubVolumeView) -> spec_fn(EntryView) -> bool {
    |e: EntryView| e.subvol != subvol
}

/// The extents of all the subvolumes, subvolume by subvolume.
pub open spec fn extents_of(entries: Seq<EntryView>) -> Seq<Extent>
    decreases entries.len(),
{
    if entries.len() == 0 {
        Seq::empty()
    } else {
        extents_of(entries.drop_last()) + entries.last().subvol.extents
    }
}

/// The number of blocks that hold `size` bytes, at `io_size` bytes a block.
pub open spec fn blocks_for(size: u64, io_size: u64) -> int {
    (size + io_size - 1) / (io_size as int)
}

/// Computes `blocks_for`.
pub fn size_in_blocks(size: u64, io_size: u64) -> (blocks: u64)
    requires
        io_size > 0,
    ensures
        blocks == blocks_for(size, io_size),
{
    let whole: u64 = size / io_size;
    let over: u64 = size % io_size;
    assert(blocks_for(size, io_size) == whole + (if over == 0 {
        0int
    } else {
        1int
    }) && whole + 1 <= u64::MAX + (if over == 0 {
        1int
    } else {
        0int
    })) by (nonlinear_arith)
        requires
            io_size > 0,
            whole == size / io_size,
            over == size % io_size,
            size <= u64::MAX,
    {
        assert(size == whole * io_size + over);
        assert(0 <= over < io_size);
        if over == 0 {
            assert(size + io_size - 1 == whole * io_size + (io_size - 1));
            assert((whole * io_size + (io_size - 1)) / (io_size as int) == whole);
        } else {
            assert(size + io_size - 1 == (whole + 1) * io_size + (over - 1));
            assert(((whole + 1) * io_size + (over - 1)) / (io_size as int) == whole + 1);
            assert(io_size >= 2);
            assert(whole * 2 <= whole * io_size);
        }
    }
    if over == 0 {
        whole
    } else {
        whole + 1
    }
}

/// Among entries of different names, a name is found where it stands.
pub proof fn lemma_place_of(entries: Seq<EntryView>, i: int)
    requires
        names_unique(entries),
        0 <= i < entries.len(),
    ensures
        has_name(entries, entries[i].name),
        place_of(entries, entries[i].name) == i,
        by_name(entries)[entries[i].name] == entries[i].subvol,
{
    let p = place_of(entries, entries[i].name);
    if p < i {
        assert(entries[p].name != entries[i].name);
    } else if p > i {
        assert(entries[i].name != entries[p].name);
    }
}

/// Putting a subvolume under a name changes the mapping at that name alone.
pub proof fn lemma_put_by_name(entries: Seq<EntryView>, name: Seq<char>, subvol: SubVolumeView)
    requires
        names_unique(entries),
    ensures
        names_unique(put(entries, name, subvol)),
        by_name(put(entries, name, subvol)) == by_name(entries).insert(name, subvol),
{
    let after = put(entries, name, subvol);
    let at = if has_name(entries, name) {
        place_of(entries, name)
    } else {
        entries.len() as int
    };
    assert(after[at] == EntryView { name, subvol });
    assert forall|a: int, b: int| 0 <= a < b < after.len() implies (#[trigger] after[a]).name != (
    #[trigger] after[b]).name by {
        if a != at && b != at {
            assert(entries[a].name != entries[b].name);
        } else if has_name(entries, name) {
            lemma_place_of(entries, at);
            assert(entries[a].name != entries[b].name);
        } else {
            assert(entries[a].name != name);
        }
    }
    assert forall|key: Seq<char>| has_name(after, key) <==> key == name || has_name(
        entries,
        key,
    ) by {
        if has_name(after, key) {
            let i = place_of(after, key);
            if i != at {
                assert(entries[i].name == key);
            }
        }
        if has_name(entries, key) && key != name {
            let i = place_of(entries, key);
            assert(after[i].name == key);
        }
    }
    assert forall|key: Seq<char>| has_name(after, key) implies #[trigger] by_name(after)[key]
        == by_name(entries).insert(name, subvol)[key] by {
        let i = place_of(after, key);
        lemma_place_of(after, i);
        if key != name {
            assert(i != at);
            assert(entries[i] == after[i]);
            lemma_place_of(entries, i);
        } else {
            lemma_place_of(after, at);
        }
    }
    assert(by_name(after) =~= by_name(entries).insert(name, subvol));
}

/// Taking away the entries whose subvolume is `subvol` takes their names
/// out of the mapping and leaves the other names as they were.
pub proof fn lemma_other_by_name(entries: Seq<EntryView>, subvol: SubVolumeView)
    requires
        names_unique(entries),
    ensures
        by_name(entries.filter(is_other(subvol))) == by_name(entries).restrict(
            Set::new(|name: Seq<char>| by_name(entries)[name] != subvol),
        ),
{
    let keep = is_other(subvol);
    let kept = entries.filter(keep);
    let want = by_name(entries).restrict(Set::new(|name: Seq<char>| by_name(entries)[name] != subvol));
    lemma_kept_names(entries, keep);
    assert forall|key: Seq<char>| has_name(kept, key) <==> #[trigger] want.dom().contains(key) by {
        if has_name(kept, key) {
            let i = place_of(kept, key);
            assert(kept.contains(kept[i]));
            entries.lemma_filter_contains_rev(keep, kept[i]);
            let k = choose|k: int| 0 <= k < entries.len() && entries[k] == kept[i];
            lemma_place_of(entries, k);
        }
        if want.dom().contains(key) {
            let k = place_of(entries, key);
            lemma_place_of(entries, k);
            entries.lemma_filter_contains(keep, k);
            let i = choose|i: int| 0 <= i < kept.len() && kept[i] == entries[k];
            assert(kept[i].name == key);
        }
    }
    assert forall|key: Seq<char>| has_name(kept, key) implies #[trigger] by_name(kept)[key]
        == want[key] by {
        let i = place_of(kept, key);
        lemma_place_of(kept, i);
        assert(kept.contains(kept[i]));
        entries.lemma_filter_contains_rev(keep, kept[i]);
        let k = choose|k: int| 0 <= k < entries.len() && entries[k] == kept[i];
        lemma_place_of(entries, k);
    }
    assert(by_name(kept) =~= want);
}

/// Taking the last entry away takes its extents away.
pub proof fn lemma_extents_of_push(entries: Seq<EntryView>, entry: EntryView)
    ensures
        extents_of(entries.push(entry)) == extents_of(entries) + entry.subvol.extents,
{
    assert(entries.push(entry).drop_last() =~= entries);
}

/// The entries that a filter keeps have different names if all entries have.
pub proof fn lemma_kept_names(entries: Seq<EntryView>, keep: spec_fn(EntryView) -> bool)
    requires
        names_unique(entries),
    ensures
        names_unique(entries.filter(keep)),
    decreases entries.len(),
{
    reveal(Seq::filter);
    if entries.len() > 0 {
        let front = entries.drop_last();
        let last = entries.last();
        assert forall|i: int, j: int| 0 <= i < j < front.len() implies (#[trigger] front[i]).name != (
        #[trigger] front[j]).name by {
            assert(entries[i].name != entries[j].name);
        }
        lemma_kept_names(front, keep);
        if keep(last) {
            let kept = front.filter(keep);
            assert forall|i: int| 0 <= i < kept.len() implies (#[trigger] kept[i]).name
                != last.name by {
                assert(kept.contains(kept[i]));
                front.lemma_filter_contains_rev(keep, kept[i]);
                let k = choose|k: int| 0 <= k < front.len() && front[k] == kept[i];
                assert(entries[k].name != entries[entries.len() - 1].name);
            }
        }
    }
}

/// The extents of the entries that a filter keeps are among the extents of
/// all entries, each no more often than there.
pub proof fn lemma_kept_extents(entries: Seq<EntryView>, keep: spec_fn(EntryView) -> bool)
    ensures
        extents_of(entries.filter(keep)).to_multiset().subset_of(extents_of(entries).to_multiset()),
    decreases entries.len(),
{
    broadcast use vstd::multiset::group_multiset_axioms;

    reveal(Seq::filter);
    if entries.len() > 0 {
        let front = entries.drop_last();
        let last = entries.last();
        lemma_kept_extents(front, keep);
        vstd::seq_lib::lemma_multiset_commutative(extents_of(front), last.subvol.extents);
        if keep(last) {
            lemma_extents_of_push(front.filter(keep), last);
            vstd::seq_lib::lemma_multiset_commutative(
                extents_of(front.filter(keep)),
                last.subvol.extents,
            );
        }
    }
}

/// The generation of the metadata in a slot, if the slot holds any.
pub open spec fn generation_of(slot: Option<SuperPartition>) -> Option<u32> {
    match slot {
        Some(p) => Some(p@.generation),
        None => None,
    }
}

/// The subvolume that stands for the two metadata blocks at the end of a
/// device of `total_blocks` blocks.
pub open spec fn metadata_entry(total_blocks: int) -> EntryView {
    EntryView {
        name: "metadata"@,
        subvol: plain_subvol(
            seq![Extent { block_offset: (total_blocks - 2) as u64, block_length: 2 }],
        ),
    }
}

/// What adopting a device gives: generation 1, the subvolume `"metadata"`
/// on the last two blocks and, under `name`, the first `data_blocks` blocks.
/// The name `"metadata"` itself leaves only the latter.
pub open spec fn adopted(
    device: Seq<char>,
    name: Seq<char>,
    data_blocks: int,
    total_blocks: int,
) -> SuperPartitionView {
    SuperPartitionView {
        device,
        generation: 1,
        subvols: put(
            seq![metadata_entry(total_blocks)],
            name,
            plain_subvol(seq![Extent { block_offset: 0, block_length: data_blocks as u64 }]),
        ),
    }
}

impl View for SuperPartition {
    type V = SuperPartitionView;

    closed spec fn view(&self) -> SuperPartitionView {
        SuperPartitionView {
            device: self.device@,
            generation: self.generation,
            subvols: entry_views(self.subvols@),
        }
    }
}

impl SuperPartition {
    /// No name occurs twice among the subvolumes.
    pub open spec fn wf(&self) -> bool {
        names_unique(self@.subvols)
    }

    /// The extents of all the subvolumes can share the device: each ends
    /// on it, and no two of them overlap.
    pub open spec fn layout_ok(&self) -> bool {
        sound(extents_of(self@.subvols))
    }

    /// A super partition on `device`, of generation `generation`, without subvolumes.
    pub fn new(device: String, generation: u32) -> (sp: SuperPartition)
        ensures
            sp.wf(),
            sp@ == (SuperPartitionView {
                device: device@,
                generation,
                subvols: Seq::<EntryView>::empty(),
            }),
    {
        let sp = SuperPartition { device, generation, subvols: Vec::new() };
        assert(sp@.subvols =~= Seq::<EntryView>::empty());
        sp
    }

    /// The device that the metadata describes.
    pub fn device(&self) -> (d: &String)
        ensures
            d@ == self@.device,
    {
        &self.device
    }

    /// The generation of the metadata: 1 before the first commit, and one
    /// more with each commit.
    pub fn generation(&self) -> (g: u32)
        ensures
            g == self@.generation,
    {
        self.generation
    }

    /// The subvolumes under their names.
    pub fn entries(&self) -> (es: &Vec<Entry>)
        ensures
            entry_views(es@) == self@.subvols,
    {
        &self.subvols
    }

    /// The place of the entry of the name `name`, if there is one.
    fn position(&self, name: &String) -> (at: Option<usize>)
        ensures
            at is Some <==> has_name(self@.subvols, name@),
            at is Some ==> at->Some_0 < self.subvols@.len() && self.subvols@[at->Some_0 as int].name@
                == name@,
            at is Some && self.wf() ==> at->Some_0 == place_of(self@.subvols, name@),
    {
        let mut i: usize = 0;
        while i < self.subvols.len()
            invariant
                i <= self.subvols.len(),
                forall|k: int| 0 <= k < i ==> (#[trigger] self@.subvols[k]).name != name@,
            decreases self.subvols.len() - i,
        {
            if self.subvols[i].name == *name {
                assert(self@.subvols[i as int].name == name@);
                proof {
                    if self.wf() {
                        let p = place_of(self@.subvols, name@);
                        if p < i {
                            assert(self@.subvols[p].name != self@.subvols[i as int].name);
                        } else if p > i {
                            assert(self@.subvols[i as int].name != self@.subvols[p].name);
                        }
                    }
                }
                return Some(i);
            }
            i += 1;
        }
        None
    }

    /// Whether a subvolume stands under the name `name`.
    pub fn contains(&self, name: &str) -> (b: bool)
        ensures
            b == has_name(self@.subvols, name@),
    {
        let key = name.to_owned();
        self.position(&key).is_some()
    }

    /// The subvolume under the name `name`.
    pub fn get(&self, name: &str) -> (sv: Option<&SubVolume>)
        requires
            self.wf(),
        ensures
            sv is Some <==> by_name(self@.subvols).dom().contains(name@),
            sv is Some ==> sv->Some_0@ == by_name(self@.subvols)[name@],
    {
        let key = name.to_owned();
        match self.position(&key) {
            Some(i) => {
                assert(self@.subvols[i as int].subvol == self.subvols@[i as int].subvol@);
                Some(&self.subvols[i].subvol)
            },
            None => None,
        }
    }

    /// Puts `subvol` under `name`, in the place of the subvolume of that
    /// name if there is one.
    pub fn insert(&mut self, name: String, subvol: SubVolume)
        requires
            old(self).wf(),
        ensures
            final(self).wf(),
            final(self)@ == (SuperPartitionView {
                subvols: put(old(self)@.subvols, name@, subvol@),
                ..old(self)@
            }),
            by_name(final(self)@.subvols) == by_name(old(self)@.subvols).insert(name@, subvol@),
    {
        let ghost before = self@.subvols;
        let ghost entry = EntryView { name: name@, subvol: subvol@ };
        proof {
            lemma_put_by_name(before, name@, subvol@);
        }
        match self.position(&name) {
            Some(i) => {
                self.subvols[i] = Entry { name, subvol };
                assert(self@.subvols =~= before.update(i as int, entry));
                assert forall|a: int, b: int| 0 <= a < b < self@.subvols.len() implies (
                #[trigger] self@.subvols[a]).name != (#[trigger] self@.subvols[b]).name by {
                    assert(before[a].name != before[b].name);
                }
            },
            None => {
                self.subvols.push(Entry { name, subvol });
                assert(self@.subvols =~= before.push(entry));
                assert forall|a: int, b: int| 0 <= a < b < self@.subvols.len() implies (
                #[trigger] self@.subvols[a]).name != (#[trigger] self@.subvols[b]).name by {
                    if b < before.len() {
                        assert(before[a].name != before[b].name);
                    } else {
                        assert(before[a].name != name@);
                    }
                }
            },
        }
    }

    /// The extents of all the subvolumes in ascending order: the view of the
    /// device from which free space is found.
    pub fn get_all_extents(&self) -> (all: Vec<Extent>)
        ensures
            all@ == sorted(extents_of(self@.subvols)),
    {
        let ghost es = self@.subvols;
        let mut all: Vec<Extent> = Vec::new();
        let mut i: usize = 0;
        assert(es.take(0) =~= Seq::<EntryView>::empty());
        while i < self.subvols.len()
            invariant
                i <= self.subvols.len(),
                es == self@.subvols,
                ascending(all@),
                all@.to_multiset() == extents_of(es.take(i as int)).to_multiset(),
            decreases self.subvols.len() - i,
        {
            let extents = &self.subvols[i].subvol.extents;
            let mut j: usize = 0;
            assert(extents@ == es[i as int].subvol.extents);
            proof {
                broadcast use vstd::multiset::group_multiset_axioms;

                assert(extents@.take(0) =~= Seq::<Extent>::empty());
                let none = extents@.take(0);
                none.to_multiset_ensures();
                assert forall|a: Extent| none.to_multiset().count(a) == 0 by {
                    assert(!none.contains(a));
                }
                assert(all@.to_multiset() =~= extents_of(es.take(i as int)).to_multiset().add(
                    extents@.take(0).to_multiset(),
                ));
            }
            while j < extents.len()
                invariant
                    j <= extents.len(),
                    ascending(all@),
                    all@.to_multiset() == extents_of(es.take(i as int)).to_multiset().add(
                        extents@.take(j as int).to_multiset(),
                    ),
                decreases extents.len() - j,
            {
                insert_ascending(&mut all, extents[j]);
                proof {
                    assert(extents@.take(j as int + 1) =~= extents@.take(j as int).push(
                        extents@[j as int],
                    ));
                    vstd::seq_lib::to_multiset_build(extents@.take(j as int), extents@[j as int]);
                    assert(all@.to_multiset() =~= extents_of(es.take(i as int)).to_multiset().add(
                        extents@.take(j as int + 1).to_multiset(),
                    ));
                }
                j += 1;
            }
            proof {
                assert(extents@.take(extents.len() as int) =~= extents@);
                assert(es.take(i as int + 1) =~= es.take(i as int).push(es[i as int]));
                lemma_extents_of_push(es.take(i as int), es[i as int]);
                vstd::seq_lib::lemma_multiset_commutative(
                    extents_of(es.take(i as int)),
                    extents@,
                );
            }
            i += 1;
        }
        proof {
            assert(es.take(self.subvols.len() as int) =~= es);
            lemma_sorted(extents_of(es));
        }
        all
    }

    /// Whether the extents of all the subvolumes can share the device.
    pub fn is_layout_valid(&self) -> (ok: bool)
        ensures
            ok == self.layout_ok(),
    {
        let all = self.get_all_extents();
        proof {
            lemma_sound_iff_chained(extents_of(self@.subvols));
        }
        let mut i: usize = 0;
        while i < all.len()
            invariant
                i <= all.len(),
                self.layout_ok() <==> chained(all@),
                forall|k: int| 0 <= k < i ==> (#[trigger] all@[k]).bounded(),
                forall|k: int| 0 <= k < i - 1 ==> (#[trigger] all@[k]).end() <= all@[k
                    + 1].block_offset,
            decreases all.len() - i,
        {
            let e = all[i];
            if e.block_length > u64::MAX - e.block_offset {
                assert(!all@[i as int].bounded());
                return false;
            }
            if i > 0 {
                let before = all[i - 1];
                if before.block_offset + before.block_length > e.block_offset {
                    assert(!(all@[i - 1].end() <= all@[i - 1 + 1].block_offset));
                    return false;
                }
            }
            i += 1;
        }
        true
    }

    /// Finds `size_blocks` blocks for a new subvolume in the gaps between
    /// the extents of the subvolumes that are there, first gap first; the
    /// blocks may come from several gaps. Space before the first extent and
    /// behind the last one is not used. Fails where the gaps hold fewer
    /// blocks than asked for. The partition stays as it is either way.
    pub fn allocate(&self, size_blocks: u64) -> (r: Result<Vec<Extent>, Error>)
        requires
            self.layout_ok(),
        ensures
            size_blocks <= free_blocks(sorted(extents_of(self@.subvols))) ==> r is Ok
                && r->Ok_0@ == pieces(sorted(extents_of(self@.subvols)), size_blocks as int),
            size_blocks > free_blocks(sorted(extents_of(self@.subvols))) ==> r == Err::<
                Vec<Extent>,
                Error,
            >(Error::OutOfSpace),
            r is Ok ==> total_length(r->Ok_0@) == size_blocks,
            r is Ok ==> sound(extents_of(self@.subvols) + r->Ok_0@),
    {
        let all = self.get_all_extents();
        proof {
            lemma_sound_iff_chained(extents_of(self@.subvols));
        }
        let r = carve(&all, size_blocks);
        proof {
            if r is Ok {
                lemma_sorted(extents_of(self@.subvols));
                lemma_sound_joined(extents_of(self@.subvols), all@, r->Ok_0@);
            }
        }
        r
    }

    /// Makes a subvolume of `size` bytes under the name `name`, on a device
    /// of blocks of `io_size` bytes, out of the free gaps. Fails, and leaves
    /// the partition as it was, where the name is taken or the gaps are too
    /// small. The new subvolume is not on the device before the next commit.
    pub fn create_subvol(&mut self, name: String, size: u64, io_size: u64) -> (r: Result<(), Error>)
        requires
            old(self).wf(),
            old(self).layout_ok(),
            io_size > 0,
        ensures
            final(self).wf(),
            final(self).layout_ok(),
            has_name(old(self)@.subvols, name@) ==> r == Err::<(), Error>(Error::AlreadyExists),
            !has_name(old(self)@.subvols, name@) && blocks_for(size, io_size) > free_blocks(
                sorted(extents_of(old(self)@.subvols)),
            ) ==> r == Err::<(), Error>(Error::OutOfSpace),
            !has_name(old(self)@.subvols, name@) && blocks_for(size, io_size) <= free_blocks(
                sorted(extents_of(old(self)@.subvols)),
            ) ==> r is Ok,
            r is Err ==> final(self)@ == old(self)@,
            r is Ok ==> final(self)@ == (SuperPartitionView {
                subvols: old(self)@.subvols.push(
                    EntryView {
                        name: name@,
                        subvol: plain_subvol(
                            pieces(
                                sorted(extents_of(old(self)@.subvols)),
                                blocks_for(size, io_size),
                            ),
                        ),
                    },
                ),
                ..old(self)@
            }),
            r is Ok ==> total_length(final(self)@.subvols.last().subvol.extents) == blocks_for(
                size,
                io_size,
            ),
            r is Ok ==> by_name(final(self)@.subvols) == by_name(old(self)@.subvols).insert(
                name@,
                final(self)@.subvols.last().subvol,
            ),
    {
        if self.position(&name).is_some() {
            return Err(Error::AlreadyExists);
        }
        let size_blocks = size_in_blocks(size, io_size);
        match self.allocate(size_blocks) {
            Err(e) => Err(e),
            Ok(extents) => {
                let ghost before = self@.subvols;
                let ghost entry = EntryView { name: name@, subvol: plain_subvol(extents@) };
                proof {
                    lemma_put_by_name(before, name@, entry.subvol);
                }
                self.subvols.push(Entry { name, subvol: SubVolume::plain(extents) });
                proof {
                    assert(self@.subvols =~= before.push(entry));
                    lemma_extents_of_push(before, entry);
                    assert forall|a: int, b: int| 0 <= a < b < self@.subvols.len() implies (
                    #[trigger] self@.subvols[a]).name != (#[trigger] self@.subvols[b]).name by {
                        if b < before.len() {
                            assert(before[a].name != before[b].name);
                        } else {
                            assert(before[a].name != name@);
                        }
                    }
                }
                Ok(())
            },
        }
    }

    /// Takes away every subvolume that equals `subvol` in all that it holds,
    /// extents, version, author and date, under whatever name it stands.
    pub fn delete_subvol(&mut self, subvol: SubVolume)
        requires
            old(self).wf(),
        ensures
            final(self).wf(),
            old(self).layout_ok() ==> final(self).layout_ok(),
            final(self)@ == (SuperPartitionView {
                subvols: old(self)@.subvols.filter(is_other(subvol@)),
                ..old(self)@
            }),
            by_name(final(self)@.subvols) == by_name(old(self)@.subvols).restrict(
                Set::new(|name: Seq<char>| by_name(old(self)@.subvols)[name] != subvol@),
            ),
    {
        let ghost before = self@.subvols;
        let ghost keep = is_other(subvol@);
        let ghost seen: int = 0;
        let mut i: usize = 0;
        proof {
            reveal(Seq::filter);
            assert(before.take(0) =~= Seq::<EntryView>::empty());
            assert(before.skip(0) =~= before);
            assert(before.take(0).filter(keep) + before.skip(0) =~= before);
        }
        while i < self.subvols.len()
            invariant
                keep == is_other(subvol@),
                0 <= seen <= before.len(),
                i == before.take(seen).filter(keep).len(),
                self@.subvols == before.take(seen).filter(keep) + before.skip(seen),
                self@.device == old(self)@.device,
                self@.generation == old(self)@.generation,
            decreases self.subvols.len() - i,
        {
            let ghost now = self@.subvols;
            let ghost kept = before.take(seen).filter(keep);
            assert(now[i as int] == before.skip(seen)[0]);
            assert(now[i as int] == self.subvols@[i as int]@);
            assert(before.take(seen + 1) =~= before.take(seen).push(before[seen]));
            proof {
                before.take(seen).lemma_filter_push(before[seen], keep);
            }
            if self.subvols[i].subvol.same_as(&subvol) {
                assert(!keep(before[seen]));
                self.subvols.remove(i);
                assert(self@.subvols =~= now.remove(i as int));
                assert(now.remove(i as int) =~= kept + before.skip(seen + 1));
            } else {
                assert(keep(before[seen]));
                assert(now =~= kept.push(before[seen]) + before.skip(seen + 1));
                i += 1;
            }
            proof {
                seen = seen + 1;
            }
        }
        proof {
            assert(before.skip(seen).len() == 0);
            assert(before.take(seen) =~= before);
            assert(self@.subvols =~= before.filter(keep));
            lemma_kept_names(before, keep);
            lemma_other_by_name(before, subvol@);
            if old(self).layout_ok() {
                lemma_kept_extents(before, keep);
                lemma_sound_part(extents_of(before), extents_of(before.filter(keep)));
            }
        }
    }

    /// Takes over a device of `device_size` bytes, in blocks of `io_size`
    /// bytes, whose first `original_size` bytes are in use: they become the
    /// subvolume `name`, and the last two blocks are set aside for the
    /// metadata. Fails where the device has no room for both. Nothing is
    /// written: the result is of generation 1 and waits for its first commit.
    pub fn adopt(
        device: String,
        name: String,
        original_size: u64,
        device_size: u64,
        io_size: u64,
    ) -> (r: Result<SuperPartition, Error>)
        requires
            io_size > 0,
        ensures
            r is Ok <==> blocks_for(original_size, io_size) + 2 <= device_size / io_size,
            r is Err ==> r->Err_0 == Error::OutOfSpace,
            r is Ok ==> r->Ok_0@ == adopted(
                device@,
                name@,
                blocks_for(original_size, io_size),
                device_size as int / io_size as int,
            ),
            r is Ok ==> r->Ok_0.wf() && r->Ok_0.layout_ok(),
            r is Ok ==> by_name(r->Ok_0@.subvols) == Map::<Seq<char>, SubVolumeView>::empty().insert(
                "metadata"@,
                metadata_entry(device_size as int / io_size as int).subvol,
            ).insert(
                name@,
                plain_subvol(
                    seq![
                        Extent {
                            block_offset: 0,
                            block_length: blocks_for(original_size, io_size) as u64,
                        },
                    ],
                ),
            ),
    {
        let total_blocks: u64 = device_size / io_size;
        let data_blocks: u64 = size_in_blocks(original_size, io_size);
        if total_blocks < 2 || data_blocks > total_blocks - 2 {
            return Err(Error::OutOfSpace);
        }
        let reserved = Extent { block_offset: total_blocks - 2, block_length: 2 };
        let data = Extent { block_offset: 0, block_length: data_blocks };
        let mut sp = SuperPartition::new(device, 1);
        let mut reserved_extents: Vec<Extent> = Vec::new();
        reserved_extents.push(reserved);
        let mut data_extents: Vec<Extent> = Vec::new();
        data_extents.push(data);
        let ghost first = metadata_entry(total_blocks as int);
        let ghost second = EntryView { name: name@, subvol: plain_subvol(seq![data]) };
        assert(reserved_extents@ =~= seq![reserved]);
        assert(data_extents@ =~= seq![data]);
        sp.insert("metadata".to_owned(), SubVolume::plain(reserved_extents));
        assert(sp@.subvols =~= seq![first]);
        sp.insert(name, SubVolume::plain(data_extents));
        proof {
            let none = Seq::<EntryView>::empty();
            assert(by_name(none) =~= Map::<Seq<char>, SubVolumeView>::empty());
            assert(put(none, first.name, first.subvol) =~= seq![first]);
            lemma_put_by_name(none, first.name, first.subvol);
            lemma_put_by_name(seq![first], name@, second.subvol);
            if has_name(seq![first], name@) {
                assert(place_of(seq![first], name@) == 0);
                assert(sp@.subvols =~= none.push(second));
                lemma_extents_of_push(none, second);
                assert(extents_of(sp@.subvols) =~= seq![data]);
            } else {
                assert(sp@.subvols =~= none.push(first).push(second));
                lemma_extents_of_push(none, first);
                lemma_extents_of_push(none.push(first), second);
                assert(extents_of(sp@.subvols) =~= seq![reserved, data]);
                assert(data.apart(reserved));
            }
        }
        Ok(sp)
    }

    /// Picks the metadata that counts among what the two slots hold, and
    /// notes that it was read from `device`. Fails where neither slot holds
    /// valid metadata.
    pub fn open(device: String, slot_a: Option<SuperPartition>, slot_b: Option<SuperPartition>) -> (r:
        Result<SuperPartition, Error>)
        ensures
            match authoritative(generation_of(slot_a), generation_of(slot_b)) {
                None => r is Err && r->Err_0 == Error::NotFound,
                Some(Slot::A) => r is Ok && r->Ok_0@ == (SuperPartitionView {
                    device: device@,
                    ..slot_a->Some_0@
                }),
                Some(Slot::B) => r is Ok && r->Ok_0@ == (SuperPartitionView {
                    device: device@,
                    ..slot_b->Some_0@
                }),
            },
    {
        let generation_a = match &slot_a {
            Some(p) => Some(p.generation),
            None => None,
        };
        let generation_b = match &slot_b {
            Some(p) => Some(p.generation),
            None => None,
        };
        let chosen = match choose_authoritative(generation_a, generation_b) {
            None => None,
            Some(Slot::A) => slot_a,
            Some(Slot::B) => slot_b,
        };
        match chosen {
            None => Err(Error::NotFound),
            Some(p) => Ok(
                SuperPartition { device, generation: p.generation, subvols: p.subvols },
            ),
        }
    }

    /// Begins a commit: raises the generation by one and names the slot to
    /// write, given the generation that each slot holds now (`None` where
    /// it holds no valid metadata). Unless both slots hold the same
    /// generation, the slot named is not the one whose metadata counts.
    pub fn commit(&mut self, slot_a: Option<u32>, slot_b: Option<u32>) -> (target: Slot)
        requires
            old(self)@.generation < u32::MAX,
        ensures
            target == commit_target(slot_a, slot_b),
            slot_a is None || slot_a != slot_b ==> authoritative(slot_a, slot_b) != Some(target),
            final(self)@ == (SuperPartitionView {
                generation: (old(self)@.generation + 1) as u32,
                ..old(self)@
            }),
    {
        self.generation = self.generation + 1;
        choose_target(slot_a, slot_b)
    }
}

} // verus!
