use crate::extent::{ascending, Extent};
use crate::gaps::{all_apart, chained, lemma_chain_rises, pairwise_apart};
use vstd::multiset::Multiset;
use vstd::prelude::*;
use vstd::relations::{sorted_by, total_ordering};

verus! {

/// The order of extents as a relation.
pub open spec fn extent_order() -> spec_fn(Extent, Extent) -> bool {
    |a: Extent, b: Extent| a.at_most(b)
}

/// The extents of `s` in ascending order.
pub open spec fn sorted(s: Seq<Extent>) -> Seq<Extent> {
    s.sort_by(extent_order())
}

/// A set of extents that can share a device: each ends on the device, and no
/// two of them, taken at different places of `s`, overlap.
pub open spec fn sound(s: Seq<Extent>) -> bool {
    &&& forall|i: int| 0 <= i < s.len() ==> (#[trigger] s[i]).bounded()
    &&& pairwise_apart(s)
}

/// The order of extents is total.
pub proof fn lemma_extent_order_total()
    ensures
        total_ordering(extent_order()),
{
    let r = extent_order();
    assert forall|a: Extent, b: Extent| #[trigger] r(a, b) && #[trigger] r(b, a) implies a == b by {}
}

/// `sorted(s)` is ascending and holds what `s` holds; it is the only such
/// sequence.
pub proof fn lemma_sorted(s: Seq<Extent>)
    ensures
        ascending(sorted(s)),
        sorted(s).to_multiset() == s.to_multiset(),
        sorted(s).len() == s.len(),
        forall|t: Seq<Extent>|
            ascending(t) && t.to_multiset() == s.to_multiset() ==> t == #[trigger] sorted(s),
{
    lemma_extent_order_total();
    s.lemma_sort_by_ensures(extent_order());
    let u = sorted(s);
    assert(ascending(u)) by {
        assert forall|i: int, j: int| 0 <= i < j < u.len() implies (#[trigger] u[i]).at_most(
            #[trigger] u[j],
        ) by {
            assert(extent_order()(u[i], u[j]));
        }
    }
    vstd::seq_lib::to_multiset_len(s);
    vstd::seq_lib::to_multiset_len(u);
    assert forall|t: Seq<Extent>|
        ascending(t) && t.to_multiset() == s.to_multiset() implies t == #[trigger] sorted(s) by {
        assert(sorted_by(t, extent_order())) by {
            assert forall|i: int, j: int| 0 <= i < j < t.len() implies #[trigger] extent_order()(
                t[i],
                t[j],
            ) by {
                assert(t[i].at_most(t[j]));
            }
        }
        vstd::seq_lib::lemma_sorted_unique(t, u, extent_order());
    }
}

/// A value found at two places of `s` is counted at least twice.
pub proof fn lemma_twice_counted(s: Seq<Extent>, i: int, j: int)
    requires
        0 <= i < j < s.len(),
        s[i] == s[j],
    ensures
        s.to_multiset().count(s[i]) >= 2,
{
    broadcast use vstd::multiset::group_multiset_axioms;

    vstd::seq_lib::to_multiset_remove(s, i);
    let rest = s.remove(i);
    assert(rest[j - 1] == s[j]);
    assert(rest.contains(s[i]));
    vstd::seq_lib::to_multiset_contains(rest, s[i]);
    vstd::seq_lib::to_multiset_contains(s, s[i]);
}

/// A value counted at least twice is found at two places of `s`.
pub proof fn lemma_counted_twice(s: Seq<Extent>, e: Extent) -> (places: (int, int))
    requires
        s.to_multiset().count(e) >= 2,
    ensures
        0 <= places.0 < places.1 < s.len(),
        s[places.0] == e,
        s[places.1] == e,
{
    broadcast use vstd::multiset::group_multiset_axioms;

    vstd::seq_lib::to_multiset_contains(s, e);
    let i = choose|i: int| 0 <= i < s.len() && s[i] == e;
    vstd::seq_lib::to_multiset_remove(s, i);
    let rest = s.remove(i);
    vstd::seq_lib::to_multiset_contains(rest, e);
    let k = choose|k: int| 0 <= k < rest.len() && rest[k] == e;
    if k < i {
        assert(rest[k] == s[k]);
        (k, i)
    } else {
        assert(rest[k] == s[k + 1]);
        (i, k + 1)
    }
}

/// A part of a sound set of extents is sound: the order of the extents does
/// not matter, only how often each occurs.
pub proof fn lemma_sound_part(whole: Seq<Extent>, part: Seq<Extent>)
    requires
        sound(whole),
        part.to_multiset().subset_of(whole.to_multiset()),
    ensures
        sound(part),
{
    broadcast use vstd::multiset::group_multiset_axioms;

    assert forall|i: int| 0 <= i < part.len() implies (#[trigger] part[i]).bounded() by {
        assert(part.contains(part[i]));
        vstd::seq_lib::to_multiset_contains(part, part[i]);
        vstd::seq_lib::to_multiset_contains(whole, part[i]);
        let p = choose|p: int| 0 <= p < whole.len() && whole[p] == part[i];
        assert(whole[p].bounded());
    }
    assert forall|i: int, j: int| 0 <= i < j < part.len() implies (#[trigger] part[i]).apart(
        #[trigger] part[j],
    ) by {
        let x = part[i];
        let y = part[j];
        if x == y {
            lemma_twice_counted(part, i, j);
            let (p, q) = lemma_counted_twice(whole, x);
            assert(whole[p].apart(whole[q]));
        } else {
            assert(part.contains(x));
            assert(part.contains(y));
            vstd::seq_lib::to_multiset_contains(part, x);
            vstd::seq_lib::to_multiset_contains(part, y);
            vstd::seq_lib::to_multiset_contains(whole, x);
            vstd::seq_lib::to_multiset_contains(whole, y);
            let p = choose|p: int| 0 <= p < whole.len() && whole[p] == x;
            let q = choose|q: int| 0 <= q < whole.len() && whole[q] == y;
            if p < q {
                assert(whole[p].apart(whole[q]));
            } else {
                assert(whole[q].apart(whole[p]));
            }
        }
    }
}

/// A sound set of extents, put in ascending order, is a chain.
pub proof fn lemma_sound_chained(s: Seq<Extent>)
    requires
        sound(s),
        ascending(s),
    ensures
        chained(s),
{
    assert forall|i: int| 0 <= i < s.len() - 1 implies (#[trigger] s[i]).end() <= s[i
        + 1].block_offset by {
        assert(s[i].apart(s[i + 1]));
        assert(s[i].at_most(s[i + 1]));
    }
}

/// A chain is a sound set of extents.
pub proof fn lemma_chained_sound(s: Seq<Extent>)
    requires
        chained(s),
    ensures
        sound(s),
{
    assert forall|i: int, j: int| 0 <= i < j < s.len() implies (#[trigger] s[i]).apart(
        #[trigger] s[j],
    ) by {
        lemma_chain_rises(s, i, j);
    }
}

/// Whether a set of extents is sound shows in its ascending order: it is
/// sound exactly if that is a chain.
pub proof fn lemma_sound_iff_chained(s: Seq<Extent>)
    ensures
        sound(s) <==> chained(sorted(s)),
{
    lemma_sorted(s);
    if sound(s) {
        lemma_sound_part(s, sorted(s));
        lemma_sound_chained(sorted(s));
    }
    if chained(sorted(s)) {
        lemma_chained_sound(sorted(s));
        lemma_sound_part(sorted(s), s);
    }
}

/// Extents that overlap neither one another nor any extent of a sound set
/// can join it. `listed` holds the extents of the set in another order.
pub proof fn lemma_sound_joined(set: Seq<Extent>, listed: Seq<Extent>, new: Seq<Extent>)
    requires
        sound(set),
        listed.to_multiset() == set.to_multiset(),
        sound(new),
        all_apart(new, listed),
    ensures
        sound(set + new),
{
    let all = set + new;
    assert forall|i: int, j: int| 0 <= i < j < all.len() implies (#[trigger] all[i]).apart(
        #[trigger] all[j],
    ) by {
        if j < set.len() {
            assert(set[i].apart(set[j]));
        } else if i >= set.len() {
            assert(new[i - set.len()].apart(new[j - set.len()]));
        } else {
            assert(set.contains(set[i]));
            vstd::seq_lib::to_multiset_contains(set, set[i]);
            vstd::seq_lib::to_multiset_contains(listed, set[i]);
            let k = choose|k: int| 0 <= k < listed.len() && listed[k] == set[i];
            assert(new[j - set.len()].apart(listed[k]));
        }
    }
}

} // verus!
