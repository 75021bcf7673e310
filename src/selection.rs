use vstd::prelude::*;
use crate::format::TRACK_SLOTS;
use crate::merge::selection_ok;

verus! {

/// The selection table that takes every slot from the first image.
pub fn default_selection() -> (r: Vec<u8>)
    ensures
        selection_ok(r@),
        forall|i: int| 0 <= i < TRACK_SLOTS ==> #[trigger] r@[i] == 0,
{
    let mut r: Vec<u8> = Vec::new();
    let mut i: usize = 0;
    while i < TRACK_SLOTS
        invariant
            i <= TRACK_SLOTS,
            r@.len() == i,
            forall|k: int| 0 <= k < i ==> #[trigger] r@[k] == 0,
        decreases TRACK_SLOTS - i,
    {
        r.push(0);
        i = i + 1;
    }
    r
}

/// Routes side `side` of track `track` to image `source`. Returns whether the
/// override was valid (track below 84, side 0 or 1, source 0 or 1); the table
/// is changed only then.
pub fn select(table: &mut Vec<u8>, track: usize, side: usize, source: usize) -> (applied: bool)
    requires
        selection_ok(old(table)@),
    ensures
        selection_ok(final(table)@),
        applied <==> (track < TRACK_SLOTS / 2 && side < 2 && source < 2),
        applied ==> final(table)@ == old(table)@.update(2 * track + side, source as u8),
        !applied ==> final(table)@ == old(table)@,
{
    if track >= TRACK_SLOTS / 2 || side >= 2 || source >= 2 {
        return false;
    }
    table.set(2 * track + side, source as u8);
    true
}

} // verus!
