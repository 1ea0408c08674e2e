use crate::error::Error;
use crate::extent::Extent;
use vstd::prelude::*;

verus! {

/// The extents of `s` stand one behind the other: each ends on the device,
/// and no later than the next one begins.
pub open spec fn chained(s: Seq<Extent>) -> bool {
    &&& forall|i: int| 0 <= i < s.len() ==> (#[trigger] s[i]).bounded()
    &&& forall|i: int| 0 <= i < s.len() - 1 ==> (#[trigger] s[i]).end() <= s[i + 1].block_offset
}

/// The number of free blocks between extent `i` and the one after it.
pub open spec fn gap_length(s: Seq<Extent>, i: int) -> int {
    s[i + 1].block_offset - s[i].end()
}

/// The free blocks in the gaps behind extent `i` and all later ones.
pub open spec fn free_from(s: Seq<Extent>, i: int) -> int
    decreases s.len() - i,
{
    if i < 0 || i + 1 >= s.len() {
        0
    } else {
        gap_length(s, i) + free_from(s, i + 1)
    }
}

/// The free blocks in all the gaps between neighbouring extents of `s`.
/// What lies before the first extent or behind the last one is not counted.
pub open spec fn free_blocks(s: Seq<Extent>) -> int {
    free_from(s, 0)
}

/// What is cut from the gap behind extent `i` when `need` blocks are wanted:
/// the gap's start, and as much of the gap as is needed.
pub open spec fn piece(s: Seq<Extent>, i: int, need: int) -> Extent {
    Extent {
        block_offset: s[i].end() as u64,
        block_length: (if gap_length(s, i) < need {
            gap_length(s, i)
        } else {
            need
        }) as u64,
    }
}

/// The extents cut for `need` blocks from the gaps behind extent `i` and the
/// later ones, gap by gap, until the need is met or the gaps run out. A gap
/// that is visited gives a piece even where it is empty.
pub open spec fn pieces_from(s: Seq<Extent>, i: int, need: int) -> Seq<Extent>
    decreases s.len() - i,
{
    if i < 0 || i + 1 >= s.len() {
        seq![]
    } else if need <= gap_length(s, i) {
        seq![piece(s, i, need)]
    } else {
        seq![piece(s, i, need)] + pieces_from(s, i + 1, need - gap_length(s, i))
    }
}

/// The extents cut for `need` blocks out of the gaps of `s`.
pub open spec fn pieces(s: Seq<Extent>, need: int) -> Seq<Extent> {
    pieces_from(s, 0, need)
}

/// The sum of the lengths of the extents of `s`.
pub open spec fn total_length(s: Seq<Extent>) -> int
    decreases s.len(),
{
    if s.len() == 0 {
        0
    } else {
        s[0].block_length + total_length(s.drop_first())
    }
}

/// No two extents of `s` at different places overlap.
pub open spec fn pairwise_apart(s: Seq<Extent>) -> bool {
    forall|i: int, j: int| 0 <= i < j < s.len() ==> (#[trigger] s[i]).apart(#[trigger] s[j])
}

/// Every extent of `a` is apart from every extent of `b`.
pub open spec fn all_apart(a: Seq<Extent>, b: Seq<Extent>) -> bool {
    forall|i: int, j: int|
        0 <= i < a.len() && 0 <= j < b.len() ==> (#[trigger] a[i]).apart(#[trigger] b[j])
}

/// In a chain the gaps are not negative.
pub proof fn lemma_free_from_nonnegative(s: Seq<Extent>, i: int)
    requires
        chained(s),
    ensures
        free_from(s, i) >= 0,
    decreases s.len() - i,
{
    if !(i < 0 || i + 1 >= s.len()) {
        lemma_free_from_nonnegative(s, i + 1);
    }
}

/// In a chain, offsets and ends do not fall from one extent to a later one.
pub proof fn lemma_chain_rises(s: Seq<Extent>, i: int, j: int)
    requires
        chained(s),
        0 <= i <= j < s.len(),
    ensures
        s[i].block_offset <= s[j].block_offset,
        s[i].end() <= s[j].end(),
        i < j ==> s[i].end() <= s[j].block_offset,
    decreases j - i,
{
    if i < j {
        lemma_chain_rises(s, i, j - 1);
        assert(s[j - 1].end() <= s[j - 1 + 1].block_offset);
    }
}

/// Where the pieces lie: piece `k` begins where extent `i + k` ends and
/// ends no later than extent `i + k + 1` begins. Together they hold `need`
/// blocks if the gaps have that many, and all that the gaps have if not.
pub proof fn lemma_pieces_from(s: Seq<Extent>, i: int, need: int)
    requires
        chained(s),
        0 <= i,
        0 <= need <= u64::MAX,
    ensures
        i + pieces_from(s, i, need).len() < s.len() || pieces_from(s, i, need).len() == 0,
        forall|k: int|
            0 <= k < pieces_from(s, i, need).len() ==> {
                &&& (#[trigger] pieces_from(s, i, need)[k]).block_offset == s[i + k].end()
                &&& pieces_from(s, i, need)[k].end() <= s[i + k + 1].block_offset
            },
        total_length(pieces_from(s, i, need)) == if need <= free_from(s, i) {
            need
        } else {
            free_from(s, i)
        },
    decreases s.len() - i,
{
    let p = pieces_from(s, i, need);
    if i + 1 >= s.len() {
    } else {
        let first = piece(s, i, need);
        assert(s[i].bounded());
        assert(s[i + 1].bounded());
        assert(s[i].end() <= s[i + 1].block_offset);
        lemma_free_from_nonnegative(s, i + 1);
        if need <= gap_length(s, i) {
            assert(p == seq![first]);
            assert(p.drop_first() =~= Seq::<Extent>::empty());
            assert(total_length(p.drop_first()) == 0);
        } else {
            let rest = pieces_from(s, i + 1, need - gap_length(s, i));
            lemma_pieces_from(s, i + 1, need - gap_length(s, i));
            assert(p == seq![first] + rest);
            assert(p.drop_first() =~= rest);
            assert forall|k: int| 0 <= k < p.len() implies {
                &&& (#[trigger] p[k]).block_offset == s[i + k].end()
                &&& p[k].end() <= s[i + k + 1].block_offset
            } by {
                if k > 0 {
                    assert(p[k] == rest[k - 1]);
                }
            }
        }
    }
}

/// The pieces overlap neither one another nor any extent of the chain that
/// they were cut from.
pub proof fn lemma_pieces_apart(s: Seq<Extent>, need: int)
    requires
        chained(s),
        0 <= need <= u64::MAX,
    ensures
        pairwise_apart(pieces(s, need)),
        all_apart(pieces(s, need), s),
        forall|k: int| 0 <= k < pieces(s, need).len() ==> (#[trigger] pieces(s, need)[k]).bounded(),
{
    let p = pieces(s, need);
    lemma_pieces_from(s, 0, need);
    assert forall|a: int, b: int| 0 <= a < b < p.len() implies (#[trigger] p[a]).apart(
        #[trigger] p[b],
    ) by {
        lemma_chain_rises(s, a + 1, b);
    }
    assert forall|a: int, j: int| 0 <= a < p.len() && 0 <= j < s.len() implies (#[trigger] p[a]).apart(
        #[trigger] s[j],
    ) by {
        if j <= a {
            lemma_chain_rises(s, j, a);
        } else {
            lemma_chain_rises(s, a + 1, j);
        }
    }
    assert forall|k: int| 0 <= k < p.len() implies (#[trigger] p[k]).bounded() by {
        assert(s[k + 1].bounded());
    }
}

/// Cuts `size_blocks` blocks out of the gaps between the extents of
/// `sorted`, first gap first, splitting the request over several gaps where
/// one is too small. Fails, with nothing cut, where the gaps together hold
/// fewer blocks than asked for.
pub fn carve(sorted: &Vec<Extent>, size_blocks: u64) -> (r: Result<Vec<Extent>, Error>)
    requires
        chained(sorted@),
    ensures
        size_blocks <= free_blocks(sorted@) ==> r is Ok && r->Ok_0@ == pieces(
            sorted@,
            size_blocks as int,
        ),
        size_blocks > free_blocks(sorted@) ==> r == Err::<Vec<Extent>, Error>(Error::OutOfSpace),
        r is Ok ==> total_length(r->Ok_0@) == size_blocks,
        r is Ok ==> pairwise_apart(r->Ok_0@) && all_apart(r->Ok_0@, sorted@),
        r is Ok ==> forall|k: int| 0 <= k < r->Ok_0@.len() ==> (#[trigger] r->Ok_0@[k]).bounded(),
{
    let ghost s = sorted@;
    let mut cut: Vec<Extent> = Vec::new();
    let mut need: u64 = size_blocks;
    let mut i: usize = 0;
    let mut done: bool = false;
    let gaps: usize = if sorted.len() == 0 {
        0
    } else {
        sorted.len() - 1
    };
    while !done && i < gaps
        invariant
            s == sorted@,
            chained(s),
            i <= gaps,
            gaps + 1 == s.len() || (gaps == 0 && s.len() == 0),
            done ==> cut@ == pieces(s, size_blocks as int) && need == 0 && size_blocks
                <= free_blocks(s),
            !done ==> pieces(s, size_blocks as int) == cut@ + pieces_from(s, i as int, need as int),
            !done ==> (size_blocks <= free_blocks(s) <==> need <= free_from(s, i as int)),
        decreases gaps - i, (if done { 0int } else { 1int }),
    {
        let a = sorted[i];
        let b = sorted[i + 1];
        assert(s[i as int].bounded());
        assert(s[i as int].end() <= s[i as int + 1].block_offset);
        let hole_start: u64 = a.block_offset + a.block_length;
        let hole_len: u64 = b.block_offset - hole_start;
        let taken: u64 = if hole_len < need {
            hole_len
        } else {
            need
        };
        let e = Extent { block_offset: hole_start, block_length: taken };
        assert(e == piece(s, i as int, need as int));
        proof {
            lemma_free_from_nonnegative(s, i as int + 1);
            if need <= hole_len {
                assert(cut@ + seq![e] =~= cut@.push(e));
            } else {
                assert(cut@ + (seq![e] + pieces_from(s, i as int + 1, need - hole_len))
                    =~= cut@.push(e) + pieces_from(s, i as int + 1, need - hole_len));
            }
        }
        need = need - taken;
        cut.push(e);
        if need == 0 {
            done = true;
        } else {
            i = i + 1;
        }
    }
    proof {
        lemma_pieces_from(s, 0, size_blocks as int);
        lemma_pieces_apart(s, size_blocks as int);
        if !done {
            assert(pieces_from(s, i as int, need as int) =~= Seq::<Extent>::empty());
            assert(cut@ + Seq::<Extent>::empty() =~= cut@);
        }
    }
    if need > 0 {
        Err(Error::OutOfSpace)
    } else {
        Ok(cut)
    }
}

} // verus!
