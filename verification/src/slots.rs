use vstd::prelude::*;

verus! {

/// One of the two superblock slots at the tail of the device. Slot `A` is the
/// second-to-last block, slot `B` the last one.
#[derive(Clone, Copy, Debug, PartialEq, Eq, Structural)]
pub enum Slot {
    A,
    B,
}

/// The slot that the next commit writes, given the generation that each
/// slot holds now (`None` where it holds no valid metadata). With no valid
/// slot it is `A`; with one, the other; with two, the one of lower
/// generation, and `A` where they are equal.
pub open spec fn commit_target(slot_a: Option<u32>, slot_b: Option<u32>) -> Slot {
    match (slot_a, slot_b) {
        (None, None) => Slot::A,
        (Some(_), None) => Slot::B,
        (None, Some(_)) => Slot::A,
        (Some(a), Some(b)) => if b < a {
            Slot::B
        } else {
            Slot::A
        },
    }
}

/// The slot whose metadata counts on opening, if any slot is valid: the only
/// valid one, or of two the one of greater generation (`A` where they are
/// equal).
pub open spec fn authoritative(slot_a: Option<u32>, slot_b: Option<u32>) -> Option<Slot> {
    match (slot_a, slot_b) {
        (None, None) => None,
        (Some(_), None) => Some(Slot::A),
        (None, Some(_)) => Some(Slot::B),
        (Some(a), Some(b)) => if b > a {
            Some(Slot::B)
        } else {
            Some(Slot::A)
        },
    }
}

/// Computes `commit_target`.
pub fn choose_target(slot_a: Option<u32>, slot_b: Option<u32>) -> (t: Slot)
    ensures
        t == commit_target(slot_a, slot_b),
{
    match (slot_a, slot_b) {
        (None, None) => Slot::A,
        (Some(_), None) => Slot::B,
        (None, Some(_)) => Slot::A,
        (Some(a), Some(b)) => if b < a {
            Slot::B
        } else {
            Slot::A
        },
    }
}

/// Computes `authoritative`.
pub fn choose_authoritative(slot_a: Option<u32>, slot_b: Option<u32>) -> (s: Option<Slot>)
    ensures
        s == authoritative(slot_a, slot_b),
{
    match (slot_a, slot_b) {
        (None, None) => None,
        (Some(_), None) => Some(Slot::A),
        (None, Some(_)) => Some(Slot::B),
        (Some(a), Some(b)) => if b > a {
            Some(Slot::B)
        } else {
            Some(Slot::A)
        },
    }
}

/// The byte offset on the device at which `slot` begins, or `None` where
/// the device has no room for two slots or the I/O size is zero.
pub open spec fn slot_position(device_size: u64, io_size: u64, slot: Slot) -> Option<u64> {
    if io_size == 0 || device_size / io_size < 2 {
        None
    } else {
        Some(
            match slot {
                Slot::A => ((device_size / io_size - 2) * io_size) as u64,
                Slot::B => ((device_size / io_size - 1) * io_size) as u64,
            },
        )
    }
}

/// Computes `slot_position`: slot `A` is the second-to-last whole block of
/// the device, slot `B` the last one.
pub fn slot_offset(device_size: u64, io_size: u64, slot: Slot) -> (at: Option<u64>)
    ensures
        at == slot_position(device_size, io_size, slot),
        at is Some ==> at->Some_0 + io_size <= device_size,
{
    if io_size == 0 {
        return None;
    }
    let blocks: u64 = device_size / io_size;
    if blocks < 2 {
        return None;
    }
    let back: u64 = match slot {
        Slot::A => 2,
        Slot::B => 1,
    };
    assert((blocks - back) * io_size + io_size <= device_size) by (nonlinear_arith)
        requires
            blocks == device_size / io_size,
            io_size > 0,
            1 <= back <= blocks,
    {
        assert(blocks * io_size <= device_size);
        assert((blocks - back) * io_size + io_size <= blocks * io_size);
    }
    Some((blocks - back) * io_size)
}

/// The two slots after one more commit of generation `generation`.
pub open spec fn slots_after_commit(slots: (Option<u32>, Option<u32>), generation: u32) -> (
    Option<u32>,
    Option<u32>,
) {
    match commit_target(slots.0, slots.1) {
        Slot::A => (Some(generation), slots.1),
        Slot::B => (slots.0, Some(generation)),
    }
}

/// The two slots after `n` commits on a device without valid metadata, by a
/// partition whose generation was `start` before the first of them: commit
/// `k` (counted from 1) writes generation `start + k`.
pub open spec fn slots_after(start: u32, n: nat) -> (Option<u32>, Option<u32>)
    decreases n,
{
    if n == 0 {
        (None, None)
    } else {
        slots_after_commit(slots_after(start, (n - 1) as nat), (start + n) as u32)
    }
}

/// Successive commits on a device without valid metadata write slot `A`,
/// then `B`, then `A` again and so on, never one slot twice in a row, and
/// each writes a generation one above the last: after `n` of them the slot
/// written last holds `start + n` and the other one `start + n - 1`.
pub proof fn lemma_ping_pong(start: u32, n: nat)
    requires
        start + n <= u32::MAX,
    ensures
        commit_target(slots_after(start, n).0, slots_after(start, n).1) == if n % 2 == 0 {
            Slot::A
        } else {
            Slot::B
        },
        n == 1 ==> slots_after(start, n) == (Some((start + 1) as u32), None::<u32>),
        n >= 2 && n % 2 == 0 ==> slots_after(start, n) == (
            Some((start + n - 1) as u32),
            Some((start + n) as u32),
        ),
        n >= 2 && n % 2 == 1 ==> slots_after(start, n) == (
            Some((start + n) as u32),
            Some((start + n - 1) as u32),
        ),
        n >= 1 ==> authoritative(slots_after(start, n).0, slots_after(start, n).1) == Some(
            if n % 2 == 1 {
                Slot::A
            } else {
                Slot::B
            },
        ),
    decreases n,
{
    if n > 0 {
        lemma_ping_pong(start, (n - 1) as nat);
    }
}

} // verus!
