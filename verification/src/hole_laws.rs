//! What holds of hole lists: how freeing and carving change them, and that both keep
//! them well-formed.

use crate::align::{is_aligned, lemma_align_up_is_least_multiple, lemma_pow2_is_positive};
use crate::hole::{AllocInfo, HoleInfo};
use crate::layout::Layout;
use crate::model::{
    block_apart, can_free, carved, first_fit, freed, holes_before, holes_bounded, holes_ordered,
    holes_wf, holes_within, is_free, lemma_min_block_values, min_block, paddings, spec_split_hole,
    tiles, total_size,
};
use vstd::prelude::*;

verus! {

// Splitting

/// What a split is made of: the allocation is aligned and of the requested size, and
/// the split tiles the hole.
pub proof fn lemma_split_hole_tiles(hole: HoleInfo, layout: Layout)
    requires
        layout.valid(),
        hole.end() <= usize::MAX,
        spec_split_hole(hole, layout) is Some,
    ensures
        is_aligned(
            spec_split_hole(hole, layout).unwrap().allocated_info.addr as int,
            layout.align as int,
        ),
        spec_split_hole(hole, layout).unwrap().allocated_info.size == layout.size,
        tiles(hole, spec_split_hole(hole, layout).unwrap()),
{
    lemma_pow2_is_positive(layout.align as int);
    lemma_align_up_is_least_multiple(hole.addr + min_block(), layout.align as int);
}

// First fit

/// First fit takes the lowest hole that can be split: no hole in front of the chosen
/// one fits, and where none is chosen, none fits.
pub proof fn lemma_first_fit_is_lowest(holes: Seq<HoleInfo>, layout: Layout)
    ensures
        match first_fit(holes, layout) {
            Some(i) => {
                &&& 0 <= i < holes.len()
                &&& spec_split_hole(holes[i], layout) is Some
                &&& forall|j: int|
                    0 <= j < i ==> spec_split_hole(#[trigger] holes[j], layout) is None
            },
            None => forall|j: int|
                0 <= j < holes.len() ==> spec_split_hole(#[trigger] holes[j], layout) is None,
        },
    decreases holes.len(),
{
    if holes.len() > 0 && spec_split_hole(holes[0], layout) is None {
        let tail = holes.skip(1);
        lemma_first_fit_is_lowest(tail, layout);
        assert(forall|j: int| 0 <= j < tail.len() ==> tail[j] == holes[j + 1]);
        match first_fit(tail, layout) {
            Some(i) => {
                assert forall|j: int| 0 <= j < i + 1 implies spec_split_hole(
                    #[trigger] holes[j],
                    layout,
                ) is None by {
                    if j > 0 {
                        assert(tail[j - 1] == holes[j]);
                    }
                }
            },
            None => {
                assert forall|j: int| 0 <= j < holes.len() implies spec_split_hole(
                    #[trigger] holes[j],
                    layout,
                ) is None by {
                    if j > 0 {
                        assert(tail[j - 1] == holes[j]);
                    }
                }
            },
        }
    }
}

/// The first hole that fits, with none that fits in front of it, is the one that
/// first fit takes.
pub proof fn lemma_first_fit_is(holes: Seq<HoleInfo>, layout: Layout, i: int)
    requires
        0 <= i < holes.len(),
        spec_split_hole(holes[i], layout) is Some,
        forall|j: int| 0 <= j < i ==> spec_split_hole(#[trigger] holes[j], layout) is None,
    ensures
        first_fit(holes, layout) == Some(i),
{
    lemma_first_fit_is_lowest(holes, layout);
    match first_fit(holes, layout) {
        Some(k) => {
            if k < i {
                assert(spec_split_hole(holes[k], layout) is None);
            }
            if i < k {
                assert(spec_split_hole(holes[i], layout) is None);
            }
        },
        None => {
            assert(spec_split_hole(holes[i], layout) is None);
        },
    }
}

/// Where no hole fits, first fit takes none.
pub proof fn lemma_first_fit_none(holes: Seq<HoleInfo>, layout: Layout)
    requires
        forall|j: int|
            0 <= j < holes.len() ==> spec_split_hole(#[trigger] holes[j], layout) is None,
    ensures
        first_fit(holes, layout) is None,
{
    lemma_first_fit_is_lowest(holes, layout);
    if let Some(k) = first_fit(holes, layout) {
        assert(spec_split_hole(holes[k], layout) is None);
    }
}

// The place of a block among the holes

/// The count of holes at or below an address is at most the number of holes.
pub(crate) proof fn lemma_holes_before_in_range(holes: Seq<HoleInfo>, addr: int)
    ensures
        holes_before(holes, addr) <= holes.len(),
    decreases holes.len(),
{
    if holes.len() > 0 && holes[0].addr <= addr {
        lemma_holes_before_in_range(holes.skip(1), addr);
    }
}

/// In ordered holes, the count of holes at or below an address parts the holes that
/// start at or below it from those that start above it.
pub proof fn lemma_holes_before_parts(holes: Seq<HoleInfo>, addr: int)
    requires
        holes_ordered(holes),
    ensures
        holes_before(holes, addr) <= holes.len(),
        forall|j: int| 0 <= j < holes_before(holes, addr) ==> (#[trigger] holes[j]).addr <= addr,
        forall|j: int|
            holes_before(holes, addr) <= j < holes.len() ==> (#[trigger] holes[j]).addr > addr,
    decreases holes.len(),
{
    if holes.len() > 0 {
        let tail = holes.skip(1);
        assert(forall|j: int| 0 <= j < tail.len() ==> tail[j] == holes[j + 1]);
        if holes[0].addr <= addr {
            lemma_holes_before_parts(tail, addr);
            let p = holes_before(holes, addr);
            assert forall|j: int| 0 <= j < p implies (#[trigger] holes[j]).addr <= addr by {
                if j > 0 {
                    assert(tail[j - 1] == holes[j]);
                }
            }
            assert forall|j: int| p <= j < holes.len() implies (#[trigger] holes[j]).addr
                > addr by {
                assert(tail[j - 1] == holes[j]);
            }
        } else {
            assert forall|j: int| 0 <= j < holes.len() implies (#[trigger] holes[j]).addr
                > addr by {
                if j > 0 {
                    assert(holes[0].end() < holes[j].addr);
                }
            }
        }
    }
}

/// In ordered holes, the index that parts the holes at or below an address from those
/// above it is the count of holes at or below it.
pub proof fn lemma_holes_before_is(holes: Seq<HoleInfo>, addr: int, k: int)
    requires
        holes_ordered(holes),
        0 <= k <= holes.len(),
        forall|j: int| 0 <= j < k ==> (#[trigger] holes[j]).addr <= addr,
        k < holes.len() ==> holes[k].addr > addr,
    ensures
        holes_before(holes, addr) == k,
{
    lemma_holes_before_parts(holes, addr);
    let p = holes_before(holes, addr) as int;
    if p < k {
        assert(holes[p].addr > addr);
    }
    if p > k {
        assert(holes[k].addr <= addr);
    }
}

// Freeing, step by step

/// The holes after `block` has been freed between the first hole and the second: the
/// block is joined with whichever of the two it touches.
pub(crate) open spec fn freed_at_front(holes: Seq<HoleInfo>, block: HoleInfo) -> Seq<HoleInfo> {
    if holes[0].end() == block.addr {
        if holes.len() > 1 && block.end() == holes[1].addr {
            seq![
                HoleInfo {
                    addr: holes[0].addr,
                    size: (holes[0].size + block.size + holes[1].size) as usize,
                },
            ] + holes.skip(2)
        } else {
            seq![HoleInfo { addr: holes[0].addr, size: (holes[0].size + block.size) as usize }]
                + holes.skip(1)
        }
    } else {
        if holes.len() > 1 && block.end() == holes[1].addr {
            seq![
                holes[0],
                HoleInfo { addr: block.addr, size: (block.size + holes[1].size) as usize },
            ] + holes.skip(2)
        } else {
            seq![holes[0], block] + holes.skip(1)
        }
    }
}

/// Where the block lies between the first hole and the second, freeing joins it with
/// whichever of the two it touches.
#[verifier::spinoff_prover]
pub(crate) proof fn lemma_freed_behind_front(holes: Seq<HoleInfo>, block: HoleInfo)
    requires
        holes.len() >= 1,
        holes[0].addr <= block.addr,
        holes.len() > 1 ==> holes[1].addr > block.addr,
        holes.len() > 1 && block.end() == holes[1].addr ==> holes[1].end() <= usize::MAX,
        holes[0].end() == block.addr ==> block.end() <= usize::MAX,
    ensures
        freed(holes, block) == freed_at_front(holes, block),
{
    let tail = holes.skip(1);
    if tail.len() > 0 {
        assert(tail[0] == holes[1]);
    }
    assert(holes_before(tail, block.addr as int) == 0);
    assert(holes_before(holes, block.addr as int) == 1);
    if holes[0].end() == block.addr {
        if holes.len() > 1 && block.end() == holes[1].addr {
            assert(freed(holes, block) =~= seq![
                HoleInfo {
                    addr: holes[0].addr,
                    size: (holes[0].size + block.size + holes[1].size) as usize,
                },
            ] + holes.skip(2));
        } else {
            assert(freed(holes, block) =~= seq![
                HoleInfo { addr: holes[0].addr, size: (holes[0].size + block.size) as usize },
            ] + holes.skip(1));
        }
    } else {
        if holes.len() > 1 && block.end() == holes[1].addr {
            assert(freed(holes, block) =~= seq![
                holes[0],
                HoleInfo { addr: block.addr, size: (block.size + holes[1].size) as usize },
            ] + holes.skip(2));
        } else {
            assert(freed(holes, block) =~= seq![holes[0], block] + holes.skip(1));
        }
    }
}

/// Behind a first hole that neither follows the block nor touches it, freeing goes on
/// as if that hole were not there.
#[verifier::spinoff_prover]
pub(crate) proof fn lemma_freed_behind_first(first: HoleInfo, rest: Seq<HoleInfo>, block: HoleInfo)
    requires
        first.addr <= block.addr,
        holes_before(rest, block.addr as int) == 0 ==> first.end() != block.addr,
    ensures
        freed(seq![first] + rest, block) == seq![first] + freed(rest, block),
{
    let all = seq![first] + rest;
    assert(all.skip(1) == rest);
    let p = holes_before(rest, block.addr as int) as int;
    lemma_holes_before_in_range(rest, block.addr as int);
    assert(holes_before(all, block.addr as int) == p + 1);
    let joins_prev = p > 0 && rest[p - 1].end() == block.addr;
    let joins_next = p < rest.len() && block.end() == rest[p].addr;
    let front = if joins_prev { p - 1 } else { p };
    let back = if joins_next { p + 1 } else { p };
    assert(all.subrange(0, front + 1) == seq![first] + rest.subrange(0, front));
    assert(all.subrange(back + 1, all.len() as int) == rest.subrange(back, rest.len() as int));
    assert(freed(all, block) =~= seq![first] + freed(rest, block));
}

/// Freeing behind the head of a list leaves the head as it is.
pub(crate) proof fn lemma_freed_behind_head(holes: Seq<HoleInfo>, block: HoleInfo)
    requires
        block.addr > 0,
    ensures
        freed(seq![HoleInfo { addr: 0, size: 0 }] + holes, block) == seq![
            HoleInfo { addr: 0, size: 0 },
        ] + freed(holes, block),
{
    lemma_freed_behind_first(HoleInfo { addr: 0, size: 0 }, holes, block);
}

/// One step of the walk that frees a block, seen from the first hole of `holes`, which
/// lies in front of the block: where the second hole starts behind the block, the
/// block is freed between the two; where the block ends at the second hole without
/// touching the first, it can take that hole in and be freed in its place; and where
/// the second hole lies in front of the block too, the walk goes on from there.
#[verifier::spinoff_prover]
pub(crate) proof fn lemma_freed_step(holes: Seq<HoleInfo>, block: HoleInfo)
    requires
        holes.len() >= 2,
        holes_ordered(holes),
        holes_bounded(holes),
        block.size >= min_block(),
        block.end() <= usize::MAX,
        holes[0].end() <= block.addr,
        block_apart(holes.skip(1), block),
    ensures
        holes[0].end() < holes[1].addr,
        holes[1].addr > block.addr ==> block.end() <= holes[1].addr && freed(holes, block)
            == freed_at_front(holes, block),
        holes[0].end() != block.addr && block.end() == holes[1].addr ==> ({
            let shorter = seq![holes[0]] + holes.skip(2);
            let larger = HoleInfo { addr: block.addr, size: (block.size + holes[1].size) as usize };
            &&& block.size + holes[1].size <= usize::MAX
            &&& larger.end() <= usize::MAX
            &&& holes_ordered(shorter)
            &&& holes_bounded(shorter)
            &&& block_apart(shorter.skip(1), larger)
            &&& freed(shorter, larger) == freed(holes, block)
        }),
        holes[1].addr <= block.addr ==> ({
            &&& holes[0].end() != block.addr
            &&& block.end() != holes[1].addr
            &&& holes[1].end() <= block.addr
            &&& holes_ordered(holes.skip(1))
            &&& holes_bounded(holes.skip(1))
            &&& block_apart(holes.skip(2), block)
            &&& freed(holes, block) == seq![holes[0]] + freed(holes.skip(1), block)
        }),
{
    lemma_min_block_values();
    let rest = holes.skip(1);
    let behind = holes.skip(2);
    assert(holes[0].end() < holes[1].addr);
    assert(rest[0] == holes[1]);
    assert(rest[0].end() <= block.addr || block.end() <= rest[0].addr);
    assert forall|i: int| 0 <= i < behind.len() implies #[trigger] behind[i] == holes[i + 2] by {}
    assert forall|i: int| 0 <= i < behind.len() implies (#[trigger] behind[i]).end() <= block.addr
        || block.end() <= behind[i].addr by {
        assert(rest[i + 1] == behind[i]);
    }
    if holes[1].addr > block.addr {
        lemma_freed_behind_front(holes, block);
    }
    if holes[0].end() != block.addr && block.end() == holes[1].addr {
        let shorter = seq![holes[0]] + behind;
        let larger = HoleInfo { addr: block.addr, size: (block.size + holes[1].size) as usize };
        assert(shorter.skip(1) == behind);
        assert forall|i: int| 0 <= i < shorter.len() implies #[trigger] shorter[i] == holes[if i
            == 0 {
            0
        } else {
            i + 1
        }] by {}
        if behind.len() > 0 {
            assert(holes[1].end() < holes[2].addr);
        }
        assert forall|i: int| 0 <= i < behind.len() implies (#[trigger] behind[i]).end()
            <= larger.addr || larger.end() <= behind[i].addr by {
            assert(holes[1].end() < holes[i + 2].addr);
        }
        lemma_freed_behind_front(holes, block);
        lemma_freed_behind_front(shorter, larger);
    }
    if holes[1].addr <= block.addr {
        assert forall|i: int, j: int| 0 <= i < j < rest.len() implies (#[trigger] rest[i]).end() < (
        #[trigger] rest[j]).addr by {
            assert(holes[i + 1].end() < holes[j + 1].addr);
        }
        assert forall|i: int| 0 <= i < rest.len() implies (#[trigger] rest[i]).end()
            <= usize::MAX by {
            assert(holes[i + 1].end() <= usize::MAX);
        }
        assert(holes_before(rest, block.addr as int) > 0);
        assert(holes == seq![holes[0]] + rest);
        lemma_freed_behind_first(holes[0], rest, block);
    }
}

/// Appending to the front run or prepending to the back run comes to the same.
pub(crate) proof fn lemma_push_concat(front: Seq<HoleInfo>, hole: HoleInfo, back: Seq<HoleInfo>)
    ensures
        front.push(hole) + back == front + (seq![hole] + back),
{
    assert(front.push(hole) + back =~= front + (seq![hole] + back));
}

// Freeing

/// A block that touches neither neighbour is freed by inserting it between them.
#[verifier::spinoff_prover]
pub proof fn lemma_freed_between(holes: Seq<HoleInfo>, block: HoleInfo, k: int)
    requires
        holes_ordered(holes),
        0 <= k <= holes.len(),
        k > 0 ==> holes[k - 1].end() < block.addr,
        k < holes.len() ==> block.end() < holes[k].addr,
    ensures
        freed(holes, block) == holes.insert(k, block),
{
    assert forall|j: int| 0 <= j < k implies (#[trigger] holes[j]).addr <= block.addr by {
        if j < k - 1 {
            assert(holes[j].end() < holes[k - 1].addr);
        }
    }
    lemma_holes_before_is(holes, block.addr as int, k);
    assert(freed(holes, block) =~= holes.insert(k, block));
}

/// Replacing the holes from `front` up to `back` by one hole that keeps a gap to the
/// hole in front of it and to the hole behind it leaves well-formed holes.
#[verifier::spinoff_prover]
pub proof fn lemma_replaced_span_wf(holes: Seq<HoleInfo>, front: int, back: int, hole: HoleInfo)
    requires
        holes_wf(holes),
        0 <= front <= back <= holes.len(),
        hole.addr > 0,
        hole.size >= min_block(),
        hole.end() <= usize::MAX,
        front > 0 ==> holes[front - 1].end() < hole.addr,
        back < holes.len() ==> hole.end() < holes[back].addr,
    ensures
        holes_wf(holes.subrange(0, front).push(hole) + holes.subrange(back, holes.len() as int)),
{
    let after = holes.subrange(0, front).push(hole) + holes.subrange(back, holes.len() as int);
    assert forall|i: int| 0 <= i < after.len() implies #[trigger] after[i] == (if i < front {
        holes[i]
    } else if i == front {
        hole
    } else {
        holes[i - front - 1 + back]
    }) by {}
    assert forall|i: int, j: int| 0 <= i < j < after.len() implies (#[trigger] after[i]).end() < (
    #[trigger] after[j]).addr by {
        if j < front {
            assert(holes[i].end() < holes[j].addr);
        } else if j == front {
            if i < front - 1 {
                assert(holes[i].end() < holes[front - 1].addr);
            }
        } else {
            let jj = j - front - 1 + back;
            if i < front {
                assert(holes[i].end() < holes[jj].addr);
            } else if i == front {
                if jj > back {
                    assert(holes[back].end() < holes[jj].addr);
                }
            } else {
                assert(holes[i - front - 1 + back].end() < holes[jj].addr);
            }
        }
    }
}

/// Freeing a block that lies apart from well-formed holes leaves well-formed holes.
#[verifier::spinoff_prover]
pub proof fn lemma_freed_wf(holes: Seq<HoleInfo>, block: HoleInfo)
    requires
        holes_wf(holes),
        can_free(holes, block),
    ensures
        holes_wf(freed(holes, block)),
{
    let p = holes_before(holes, block.addr as int) as int;
    lemma_holes_before_parts(holes, block.addr as int);
    let joins_prev = p > 0 && holes[p - 1].end() == block.addr;
    let joins_next = p < holes.len() && block.end() == holes[p].addr;
    let front = if joins_prev { p - 1 } else { p };
    let back = if joins_next { p + 1 } else { p };
    let start = if joins_prev { holes[p - 1].addr } else { block.addr };
    let end = if joins_next { holes[p].end() } else { block.end() };
    let merged = HoleInfo { addr: start, size: (end - start) as usize };
    if p > 0 {
        assert(holes[p - 1].end() <= block.addr);
    }
    if p < holes.len() {
        assert(block.end() <= holes[p].addr);
    }
    if front > 0 && front < p {
        assert(holes[front - 1].end() < holes[p - 1].addr);
    }
    if back < holes.len() && back > p {
        assert(holes[p].end() < holes[back].addr);
    }
    let after = holes.subrange(0, front).push(merged) + holes.subrange(back, holes.len() as int);
    assert(freed(holes, block) == after);
    lemma_replaced_span_wf(holes, front, back, merged);
}

/// A block that fits into the gap in front of hole `k` with room on both sides may be
/// freed, and freeing it inserts it there.
#[verifier::spinoff_prover]
pub proof fn lemma_freed_into_gap(holes: Seq<HoleInfo>, block: HoleInfo, k: int)
    requires
        holes_wf(holes),
        0 <= k <= holes.len(),
        block.addr > 0,
        block.size >= min_block(),
        block.end() <= usize::MAX,
        k > 0 ==> holes[k - 1].end() < block.addr,
        k < holes.len() ==> block.end() < holes[k].addr,
    ensures
        can_free(holes, block),
        freed(holes, block) == holes.insert(k, block),
        holes_wf(holes.insert(k, block)),
{
    assert forall|j: int| 0 <= j < holes.len() implies (#[trigger] holes[j]).end() <= block.addr
        || block.end() <= holes[j].addr by {
        if j < k - 1 {
            assert(holes[j].end() < holes[k - 1].addr);
        } else if j > k {
            assert(holes[k].end() < holes[j].addr);
        }
    }
    lemma_freed_between(holes, block, k);
    lemma_freed_wf(holes, block);
}

/// Freeing a block that lies within a region into holes within that region leaves the
/// holes within it.
pub proof fn lemma_freed_within(holes: Seq<HoleInfo>, block: HoleInfo, bottom: int, top: int)
    requires
        holes_wf(holes),
        can_free(holes, block),
        holes_within(holes, bottom, top),
        bottom <= block.addr,
        block.end() <= top,
    ensures
        holes_within(freed(holes, block), bottom, top),
{
    let p = holes_before(holes, block.addr as int) as int;
    lemma_holes_before_parts(holes, block.addr as int);
    let after = freed(holes, block);
    let joins_prev = p > 0 && holes[p - 1].end() == block.addr;
    let joins_next = p < holes.len() && block.end() == holes[p].addr;
    let front = if joins_prev { p - 1 } else { p };
    let back = if joins_next { p + 1 } else { p };
    assert forall|i: int| 0 <= i < after.len() implies bottom <= (#[trigger] after[i]).addr
        && after[i].end() <= top by {
        if i < front {
            assert(after[i] == holes[i]);
        } else if i == front {
        } else {
            assert(after[i] == holes[i - front - 1 + back]);
        }
    }
}

/// A block that lay apart from the holes and from a block that is freed lies apart
/// from the holes after the freeing: what is allocated stays allocated when another
/// allocation is freed.
#[verifier::spinoff_prover]
pub proof fn lemma_freed_keeps_apart(holes: Seq<HoleInfo>, block: HoleInfo, other: HoleInfo)
    requires
        holes_wf(holes),
        can_free(holes, block),
        block_apart(holes, other),
        other.size > 0,
        block.end() <= other.addr || other.end() <= block.addr,
    ensures
        block_apart(freed(holes, block), other),
{
    let p = holes_before(holes, block.addr as int) as int;
    lemma_holes_before_parts(holes, block.addr as int);
    let joins_prev = p > 0 && holes[p - 1].end() == block.addr;
    let joins_next = p < holes.len() && block.end() == holes[p].addr;
    let front = if joins_prev { p - 1 } else { p };
    let back = if joins_next { p + 1 } else { p };
    let start = if joins_prev { holes[p - 1].addr } else { block.addr };
    let end = if joins_next { holes[p].end() } else { block.end() };
    let merged = HoleInfo { addr: start, size: (end - start) as usize };
    let after = holes.subrange(0, front).push(merged) + holes.subrange(back, holes.len() as int);
    assert(freed(holes, block) == after);
    if joins_prev {
        assert(holes[p - 1].end() <= other.addr || other.end() <= holes[p - 1].addr);
    }
    if joins_next {
        assert(holes[p].end() <= other.addr || other.end() <= holes[p].addr);
    }
    assert(merged.end() <= other.addr || other.end() <= merged.addr);
    assert forall|j: int| 0 <= j < after.len() implies (#[trigger] after[j]).end() <= other.addr
        || other.end() <= after[j].addr by {
        if j < front {
            assert(after[j] == holes[j]);
        } else if j == front {
            assert(after[j] == merged);
        } else {
            assert(after[j] == holes[j - front - 1 + back]);
        }
    }
}

/// A block that has been freed cannot be freed again: its bytes lie in a hole now.
pub proof fn lemma_freed_once(holes: Seq<HoleInfo>, block: HoleInfo)
    requires
        holes_wf(holes),
        can_free(holes, block),
    ensures
        !can_free(freed(holes, block), block),
{
    lemma_min_block_values();
    lemma_freed_bytes(holes, block, block.addr as int);
    let after = freed(holes, block);
    let j = choose|j: int|
        0 <= j < after.len() && (#[trigger] after[j]).contains(block.addr as int);
    assert(!(after[j].end() <= block.addr || block.end() <= after[j].addr));
}

// Carving

/// Taking a hole out of well-formed holes leaves well-formed holes.
pub proof fn lemma_remove_wf(holes: Seq<HoleInfo>, i: int)
    requires
        holes_wf(holes),
        0 <= i < holes.len(),
    ensures
        holes_wf(holes.remove(i)),
{
    let without = holes.remove(i);
    assert forall|j: int| 0 <= j < without.len() implies #[trigger] without[j] == holes[if j < i {
        j
    } else {
        j + 1
    }] by {}
}

/// Carving up hole `i` comes to taking it out and inserting its paddings in its place.
pub(crate) proof fn lemma_carved_by_inserting(holes: Seq<HoleInfo>, i: int, split: AllocInfo)
    requires
        0 <= i < holes.len(),
    ensures
        carved(holes, i, split) == match (split.front_hole_info, split.back_hole_info) {
            (Some(front), Some(back)) => holes.remove(i).insert(i, front).insert(i + 1, back),
            (Some(front), None) => holes.remove(i).insert(i, front),
            (None, Some(back)) => holes.remove(i).insert(i, back),
            (None, None) => holes.remove(i),
        },
{
    let without = holes.remove(i);
    match (split.front_hole_info, split.back_hole_info) {
        (Some(front), Some(back)) => {
            assert(carved(holes, i, split) =~= without.insert(i, front).insert(i + 1, back));
        },
        (Some(front), None) => {
            assert(carved(holes, i, split) =~= without.insert(i, front));
        },
        (None, Some(back)) => {
            assert(carved(holes, i, split) =~= without.insert(i, back));
        },
        (None, None) => {
            assert(carved(holes, i, split) =~= without);
        },
    }
}

/// Unlinking hole `i` and freeing the paddings of its split, front first, puts the
/// paddings where the hole stood; each of the two blocks may be freed when its turn
/// comes, and the holes stay well-formed.
#[verifier::spinoff_prover]
pub proof fn lemma_carved_by_freeing(holes: Seq<HoleInfo>, i: int, split: AllocInfo)
    requires
        holes_wf(holes),
        0 <= i < holes.len(),
        tiles(holes[i], split),
        split.allocated_info.size > 0,
    ensures
        ({
            let without = holes.remove(i);
            let with_front = match split.front_hole_info {
                Some(front) => freed(without, front),
                None => without,
            };
            let with_both = match split.back_hole_info {
                Some(back) => freed(with_front, back),
                None => with_front,
            };
            &&& holes_wf(without)
            &&& split.front_hole_info is Some ==> can_free(
                without,
                split.front_hole_info.unwrap(),
            )
            &&& holes_wf(with_front)
            &&& split.back_hole_info is Some ==> can_free(
                with_front,
                split.back_hole_info.unwrap(),
            )
            &&& holes_wf(with_both)
            &&& with_both == carved(holes, i, split)
        }),
{
    let without = holes.remove(i);
    lemma_remove_wf(holes, i);
    lemma_carved_by_inserting(holes, i, split);
    if i > 0 {
        assert(without[i - 1] == holes[i - 1]);
        assert(holes[i - 1].end() < holes[i].addr);
    }
    if i < without.len() {
        assert(without[i] == holes[i + 1]);
        assert(holes[i].end() < holes[i + 1].addr);
    }
    match split.front_hole_info {
        Some(front) => {
            lemma_freed_into_gap(without, front, i);
            let with_front = without.insert(i, front);
            assert(freed(without, front) == with_front);
            assert(with_front[i] == front);
            if i + 1 < with_front.len() {
                assert(with_front[i + 1] == holes[i + 1]);
            }
            match split.back_hole_info {
                Some(back) => {
                    lemma_freed_into_gap(with_front, back, i + 1);
                    assert(freed(with_front, back) == with_front.insert(i + 1, back));
                },
                None => {},
            }
        },
        None => {
            match split.back_hole_info {
                Some(back) => {
                    lemma_freed_into_gap(without, back, i);
                    assert(freed(without, back) == without.insert(i, back));
                },
                None => {},
            }
        },
    }
}

/// The holes that a split leaves lie where the hole lay, apart from the allocation.
pub proof fn lemma_carved_apart(holes: Seq<HoleInfo>, i: int, split: AllocInfo)
    requires
        holes_wf(holes),
        0 <= i < holes.len(),
        tiles(holes[i], split),
        split.allocated_info.addr > 0,
        split.allocated_info.size >= min_block(),
    ensures
        can_free(carved(holes, i, split), split.allocated_info),
        forall|j: int|
            0 <= j < carved(holes, i, split).len() ==> exists|k: int|
                0 <= k < holes.len() && holes[k].addr <= (#[trigger] carved(
                    holes,
                    i,
                    split,
                )[j]).addr && carved(holes, i, split)[j].end() <= holes[k].end(),
{
    let after = carved(holes, i, split);
    let pads = paddings(split);
    assert forall|j: int| 0 <= j < after.len() implies #[trigger] after[j] == (if j < i {
        holes[j]
    } else if j < i + pads.len() {
        pads[j - i]
    } else {
        holes[j - pads.len() + 1]
    }) by {}
    let block = split.allocated_info;
    assert forall|j: int| 0 <= j < after.len() implies ((#[trigger] after[j]).end() <= block.addr
        || block.end() <= after[j].addr) && (exists|k: int|
        0 <= k < holes.len() && holes[k].addr <= after[j].addr && after[j].end()
            <= holes[k].end()) by {
        if j < i {
            assert(holes[j].end() < holes[i].addr);
            assert(holes[j].addr <= after[j].addr && after[j].end() <= holes[j].end());
        } else if j < i + pads.len() {
            assert(holes[i].addr <= after[j].addr && after[j].end() <= holes[i].end());
        } else {
            let k = j - pads.len() + 1;
            assert(holes[i].end() < holes[k].addr);
            assert(holes[k].addr <= after[j].addr && after[j].end() <= holes[k].end());
        }
    }
}

/// A block that lay apart from the holes before an allocation was carved out of one of
/// them lies apart from the holes after it: what is allocated stays allocated.
pub proof fn lemma_carved_keeps_apart(
    holes: Seq<HoleInfo>,
    i: int,
    split: AllocInfo,
    other: HoleInfo,
)
    requires
        0 <= i < holes.len(),
        tiles(holes[i], split),
        block_apart(holes, other),
    ensures
        block_apart(carved(holes, i, split), other),
{
    let after = carved(holes, i, split);
    let pads = paddings(split);
    assert forall|j: int| 0 <= j < after.len() implies (#[trigger] after[j]).end() <= other.addr
        || other.end() <= after[j].addr by {
        if j < i {
            assert(after[j] == holes[j]);
        } else if j < i + pads.len() {
            assert(after[j] == pads[j - i]);
            assert(holes[i].addr <= after[j].addr && after[j].end() <= holes[i].end());
            assert(holes[i].end() <= other.addr || other.end() <= holes[i].addr);
        } else {
            assert(after[j] == holes[j - pads.len() + 1]);
        }
    }
}

// Counting bytes

/// The bytes of two runs of holes add up.
pub proof fn lemma_total_size_concat(front: Seq<HoleInfo>, back: Seq<HoleInfo>)
    ensures
        total_size(front + back) == total_size(front) + total_size(back),
    decreases front.len(),
{
    if front.len() == 0 {
        assert(front + back == back);
    } else {
        assert((front + back).skip(1) == front.skip(1) + back);
        lemma_total_size_concat(front.skip(1), back);
    }
}

/// The bytes of one hole, and of two.
proof fn lemma_total_size_few(holes: Seq<HoleInfo>)
    requires
        holes.len() <= 2,
    ensures
        total_size(holes) == if holes.len() == 0 {
            0
        } else if holes.len() == 1 {
            holes[0].size as int
        } else {
            holes[0].size + holes[1].size
        },
{
    if holes.len() >= 1 {
        let tail = holes.skip(1);
        if tail.len() >= 1 {
            assert(tail[0] == holes[1]);
            assert(total_size(tail.skip(1)) == 0);
        }
        assert(total_size(tail) == if tail.len() == 0 {
            0
        } else {
            tail[0].size as int
        });
    }
}

/// Replacing the holes from `front` up to `back` by one hole changes the byte count
/// by the difference between what comes and what goes.
pub proof fn lemma_total_size_replaced(
    holes: Seq<HoleInfo>,
    front: int,
    back: int,
    hole: HoleInfo,
)
    requires
        0 <= front <= back <= holes.len(),
    ensures
        total_size(holes.subrange(0, front).push(hole) + holes.subrange(back, holes.len() as int))
            + total_size(holes.subrange(front, back)) == total_size(holes) + hole.size,
{
    let a = holes.subrange(0, front);
    let b = holes.subrange(front, back);
    let c = holes.subrange(back, holes.len() as int);
    assert(holes == a + b + c);
    assert(a.push(hole) == a + seq![hole]);
    lemma_total_size_concat(a, b);
    lemma_total_size_concat(a + b, c);
    lemma_total_size_concat(a, seq![hole]);
    lemma_total_size_concat(a + seq![hole], c);
    lemma_total_size_few(seq![hole]);
}

/// Freeing a block adds its bytes to those of the holes.
#[verifier::spinoff_prover]
pub proof fn lemma_freed_total_size(holes: Seq<HoleInfo>, block: HoleInfo)
    requires
        holes_wf(holes),
        can_free(holes, block),
    ensures
        total_size(freed(holes, block)) == total_size(holes) + block.size,
{
    let p = holes_before(holes, block.addr as int) as int;
    lemma_holes_before_parts(holes, block.addr as int);
    let joins_prev = p > 0 && holes[p - 1].end() == block.addr;
    let joins_next = p < holes.len() && block.end() == holes[p].addr;
    let front = if joins_prev { p - 1 } else { p };
    let back = if joins_next { p + 1 } else { p };
    let start = if joins_prev { holes[p - 1].addr } else { block.addr };
    let end = if joins_next { holes[p].end() } else { block.end() };
    let merged = HoleInfo { addr: start, size: (end - start) as usize };
    let after = holes.subrange(0, front).push(merged) + holes.subrange(back, holes.len() as int);
    assert(freed(holes, block) == after);
    let span = holes.subrange(front, back);
    lemma_total_size_few(span);
    lemma_total_size_replaced(holes, front, back, merged);
}

/// Carving an allocation out of a hole takes the allocation's bytes from those of the holes.
pub proof fn lemma_carved_total_size(holes: Seq<HoleInfo>, i: int, split: AllocInfo)
    requires
        0 <= i < holes.len(),
        tiles(holes[i], split),
    ensures
        total_size(carved(holes, i, split)) + split.allocated_info.size == total_size(holes),
{
    let a = holes.subrange(0, i);
    let b = holes.subrange(i, i + 1);
    let c = holes.subrange(i + 1, holes.len() as int);
    let pads = paddings(split);
    assert(holes == a + b + c);
    lemma_total_size_concat(a, b);
    lemma_total_size_concat(a + b, c);
    lemma_total_size_concat(a, pads);
    lemma_total_size_concat(a + pads, c);
    lemma_total_size_few(b);
    lemma_total_size_few(pads);
}

/// Ordered holes hold fewer bytes than lie between the start of the first and the end
/// of the last: each gap between two of them takes at least one byte.
pub proof fn lemma_total_size_spanned(holes: Seq<HoleInfo>)
    requires
        holes_ordered(holes),
        holes.len() > 0,
    ensures
        total_size(holes) + holes.len() - 1 <= holes.last().end() - holes[0].addr,
    decreases holes.len(),
{
    let tail = holes.skip(1);
    if tail.len() == 0 {
        assert(total_size(tail) == 0);
    } else {
        assert forall|i: int, j: int| 0 <= i < j < tail.len() implies (#[trigger] tail[i]).end() < (
        #[trigger] tail[j]).addr by {
            assert(holes[i + 1].end() < holes[j + 1].addr);
        }
        lemma_total_size_spanned(tail);
        assert(tail[0] == holes[1]);
        assert(tail.last() == holes.last());
        assert(holes[0].end() < holes[1].addr);
    }
}

/// Holes within a region hold no more bytes than the region has.
pub proof fn lemma_total_size_within(holes: Seq<HoleInfo>, bottom: int, top: int)
    requires
        holes_ordered(holes),
        holes_within(holes, bottom, top),
        bottom <= top,
    ensures
        total_size(holes) <= top - bottom,
{
    if holes.len() > 0 {
        lemma_total_size_spanned(holes);
        assert(bottom <= holes[0].addr);
        assert(holes.last().end() <= top);
    }
}

/// Where every byte of a region is free, the region is one hole: after any run of
/// allocations that have all been freed again, the heap is as it was at the start.
pub proof fn lemma_all_free_is_one_hole(holes: Seq<HoleInfo>, bottom: usize, size: usize)
    requires
        holes_ordered(holes),
        holes_within(holes, bottom as int, bottom + size),
        size > 0,
        total_size(holes) == size,
    ensures
        holes == seq![HoleInfo { addr: bottom, size }],
{
    assert(holes.len() > 0);
    lemma_total_size_spanned(holes);
    assert(bottom <= holes[0].addr);
    assert(holes.last().end() <= bottom + size);
    assert(holes.len() == 1);
    lemma_total_size_few(holes);
    assert(holes =~= seq![HoleInfo { addr: bottom, size }]);
}

// Free bytes

/// A byte lies in one of two runs of holes put together when it lies in one of the runs.
pub proof fn lemma_is_free_concat(front: Seq<HoleInfo>, back: Seq<HoleInfo>, a: int)
    ensures
        is_free(front + back, a) <==> is_free(front, a) || is_free(back, a),
{
    let both = front + back;
    if is_free(both, a) {
        let k = choose|k: int| 0 <= k < both.len() && (#[trigger] both[k]).contains(a);
        if k < front.len() {
            assert(front[k].contains(a));
        } else {
            assert(back[k - front.len()].contains(a));
        }
    }
    if is_free(front, a) {
        let i = choose|i: int| 0 <= i < front.len() && (#[trigger] front[i]).contains(a);
        assert(both[i].contains(a));
    }
    if is_free(back, a) {
        let i = choose|i: int| 0 <= i < back.len() && (#[trigger] back[i]).contains(a);
        assert(both[front.len() + i].contains(a));
    }
}

/// A byte lies in a run of at most two holes when it lies in the first or the second.
proof fn lemma_is_free_few(holes: Seq<HoleInfo>, a: int)
    requires
        holes.len() <= 2,
    ensures
        is_free(holes, a) <==> (holes.len() >= 1 && holes[0].contains(a)) || (holes.len() >= 2
            && holes[1].contains(a)),
{
    if is_free(holes, a) {
        let k = choose|k: int| 0 <= k < holes.len() && (#[trigger] holes[k]).contains(a);
        assert(k == 0 || k == 1);
    }
    if holes.len() >= 1 && holes[0].contains(a) {
        assert(is_free(holes, a));
    }
    if holes.len() >= 2 && holes[1].contains(a) {
        assert(is_free(holes, a));
    }
}

/// The bytes that are free after the holes from `front` up to `back` have been
/// replaced by one hole: those of the holes that stay, and those of the new hole.
pub proof fn lemma_replaced_span_bytes(
    holes: Seq<HoleInfo>,
    front: int,
    back: int,
    hole: HoleInfo,
    a: int,
)
    requires
        0 <= front <= back <= holes.len(),
    ensures
        is_free(holes.subrange(0, front).push(hole) + holes.subrange(back, holes.len() as int), a)
            <==> hole.contains(a) || is_free(holes.subrange(0, front), a) || is_free(
            holes.subrange(back, holes.len() as int),
            a,
        ),
        is_free(holes, a) <==> is_free(holes.subrange(front, back), a) || is_free(
            holes.subrange(0, front),
            a,
        ) || is_free(holes.subrange(back, holes.len() as int), a),
{
    let x = holes.subrange(0, front);
    let y = holes.subrange(front, back);
    let z = holes.subrange(back, holes.len() as int);
    assert(holes == x + y + z);
    assert(x.push(hole) == x + seq![hole]);
    lemma_is_free_concat(x, y, a);
    lemma_is_free_concat(x + y, z, a);
    lemma_is_free_concat(x, seq![hole], a);
    lemma_is_free_concat(x + seq![hole], z, a);
    lemma_is_free_few(seq![hole], a);
}

/// The bytes that are free after a block has been freed are the bytes that were free
/// before and the bytes of the block.
#[verifier::spinoff_prover]
pub proof fn lemma_freed_bytes(holes: Seq<HoleInfo>, block: HoleInfo, a: int)
    requires
        holes_wf(holes),
        can_free(holes, block),
    ensures
        is_free(freed(holes, block), a) <==> is_free(holes, a) || block.contains(a),
{
    let p = holes_before(holes, block.addr as int) as int;
    lemma_holes_before_parts(holes, block.addr as int);
    let joins_prev = p > 0 && holes[p - 1].end() == block.addr;
    let joins_next = p < holes.len() && block.end() == holes[p].addr;
    let front = if joins_prev { p - 1 } else { p };
    let back = if joins_next { p + 1 } else { p };
    let start = if joins_prev { holes[p - 1].addr } else { block.addr };
    let end = if joins_next { holes[p].end() } else { block.end() };
    let merged = HoleInfo { addr: start, size: (end - start) as usize };
    let after = holes.subrange(0, front).push(merged) + holes.subrange(back, holes.len() as int);
    assert(freed(holes, block) == after);
    let span = holes.subrange(front, back);
    lemma_is_free_few(span, a);
    assert(merged.contains(a) <==> block.contains(a) || is_free(span, a)) by {
        if joins_prev {
            assert(span[0] == holes[p - 1]);
        }
        if joins_next {
            assert(span[span.len() - 1] == holes[p]);
        }
    }
    lemma_replaced_span_bytes(holes, front, back, merged, a);
}

/// The bytes that are free after an allocation has been carved out of a hole are the
/// bytes that were free before, less the bytes of the allocation.
#[verifier::spinoff_prover]
pub proof fn lemma_carved_bytes(holes: Seq<HoleInfo>, i: int, split: AllocInfo, a: int)
    requires
        holes_ordered(holes),
        0 <= i < holes.len(),
        tiles(holes[i], split),
    ensures
        is_free(carved(holes, i, split), a) <==> is_free(holes, a)
            && !split.allocated_info.contains(a),
{
    let x = holes.subrange(0, i);
    let y = holes.subrange(i, i + 1);
    let z = holes.subrange(i + 1, holes.len() as int);
    let pads = paddings(split);
    let block = split.allocated_info;
    assert(holes == x + y + z);
    lemma_is_free_concat(x, y, a);
    lemma_is_free_concat(x + y, z, a);
    lemma_is_free_concat(x, pads, a);
    lemma_is_free_concat(x + pads, z, a);
    lemma_is_free_few(y, a);
    lemma_is_free_few(pads, a);
    assert(y[0] == holes[i]);
    assert(is_free(pads, a) <==> holes[i].contains(a) && !block.contains(a));
    if block.contains(a) {
        // the bytes of the allocation lie in hole `i`, and so in no other hole
        if is_free(x, a) {
            let k = choose|k: int| 0 <= k < x.len() && (#[trigger] x[k]).contains(a);
            assert(holes[k].end() < holes[i].addr);
        }
        if is_free(z, a) {
            let k = choose|k: int| 0 <= k < z.len() && (#[trigger] z[k]).contains(a);
            assert(holes[i].end() < holes[i + 1 + k].addr);
        }
    }
}

} // verus!
