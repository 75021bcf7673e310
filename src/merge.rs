use vstd::prelude::*;
use vstd::slice::slice_subrange;
use crate::bytes::le32_at;
use crate::format::{
    header_byte, header_bytes, header_read, lemma_header_placed, record_bytes, slot_offset, track_len,
    write_header, write_track, Header, Revolution, ScpError, Track, HEADER_LEN, SLOT_TABLE_START,
    TRACK_SLOTS,
};
use crate::image::DiskImage;
use crate::sum::{checksum, fold_sum, lemma_sum32_concat, sum32};

verus! {

/// The image that slot `i` is taken from.
pub open spec fn chosen(a: DiskImage, b: DiskImage, sel: Seq<u8>, i: int) -> DiskImage {
    if sel[i] == 0 {
        a
    } else {
        b
    }
}

/// Payload bytes of `revs`: two per bitcell.
pub open spec fn flux_total(revs: Seq<Revolution>) -> int
    decreases revs.len(),
{
    if revs.len() == 0 {
        0
    } else {
        flux_total(revs.drop_last()) + 2 * revs.last().num_bitcells
    }
}

/// Absolute position in `src` of the payload of `r`, a revolution of slot `i`.
pub open spec fn flux_start(src: DiskImage, i: int, r: Revolution) -> int {
    src.header.track_data_headers@[i] as int + r.offset as int
}

/// The payload of `r`, a revolution of slot `i` of `src`.
pub open spec fn flux_of(src: DiskImage, i: int, r: Revolution) -> Seq<u8> {
    src.data@.subrange(flux_start(src, i, r), flux_start(src, i, r) + 2 * r.num_bitcells)
}

/// Every payload of `revs` lies inside `src`'s bytes.
pub open spec fn fluxes_in_bounds(src: DiskImage, i: int, revs: Seq<Revolution>) -> bool {
    forall|j: int|
        0 <= j < revs.len() ==> flux_start(src, i, #[trigger] revs[j]) + 2 * revs[j].num_bitcells
            <= src.data@.len()
}

/// The payloads of `revs`, one after the other.
pub open spec fn fluxes(src: DiskImage, i: int, revs: Seq<Revolution>) -> Seq<u8>
    decreases revs.len(),
{
    if revs.len() == 0 {
        Seq::empty()
    } else {
        fluxes(src, i, revs.drop_last()) + flux_of(src, i, revs.last())
    }
}

/// `revs` with each payload offset moved to where the payloads follow the
/// track structure back to back.
pub open spec fn relocated(revs: Seq<Revolution>) -> Seq<Revolution> {
    Seq::new(
        revs.len(),
        |j: int|
            Revolution {
                duration: revs[j].duration,
                num_bitcells: revs[j].num_bitcells,
                offset: (track_len(revs.len()) + flux_total(revs.subrange(0, j))) as u32,
            },
    )
}

/// Slot `i` of `src` holds a track whose payloads all lie inside its bytes.
pub open spec fn slot_ready(src: DiskImage, i: int) -> bool {
    &&& src.tracks@[i] is Some
    &&& fluxes_in_bounds(src, i, src.tracks@[i]->Some_0.revs@)
}

/// What a merge writes for slot `i`: nothing for a slot that the first image
/// leaves empty, else the chosen track with relocated offsets, then its payloads.
pub open spec fn slot_bytes(a: DiskImage, b: DiskImage, sel: Seq<u8>, i: int) -> Seq<u8> {
    if a.tracks@[i] is None {
        Seq::empty()
    } else {
        let src = chosen(a, b, sel, i);
        let t = src.tracks@[i]->Some_0;
        record_bytes(t.track_number, relocated(t.revs@)) + fluxes(src, i, t.revs@)
    }
}

/// What a merge writes after the header for slots `0..k`.
pub open spec fn merged_body(a: DiskImage, b: DiskImage, sel: Seq<u8>, k: int) -> Seq<u8>
    decreases k,
{
    if k <= 0 {
        Seq::empty()
    } else {
        merged_body(a, b, sel, k - 1) + slot_bytes(a, b, sel, k - 1)
    }
}

/// The entry of the merged slot table for slot `i`.
pub open spec fn merged_slot(a: DiskImage, b: DiskImage, sel: Seq<u8>, i: int) -> u32 {
    if a.tracks@[i] is None {
        0
    } else {
        (HEADER_LEN + merged_body(a, b, sel, i).len()) as u32
    }
}

/// A merge of `a` and `b` under `sel` can be written: each slot that `a`
/// fills is filled in the chosen image with all its payloads present, and
/// the result fits in 32-bit offsets.
pub open spec fn mergeable(a: DiskImage, b: DiskImage, sel: Seq<u8>) -> bool {
    &&& forall|i: int|
        0 <= i < TRACK_SLOTS && (#[trigger] a.tracks@[i]) is Some ==> slot_ready(
            chosen(a, b, sel, i),
            i,
        )
    &&& HEADER_LEN + merged_body(a, b, sel, TRACK_SLOTS as int).len() <= u32::MAX
}

/// `out` is the merge of `a` and `b` under `sel`: the first image's header
/// fields, the merged slot table, the checksum of everything from the slot
/// table on, and after the header the slots' tracks and payloads in slot order.
pub open spec fn merged_image(a: DiskImage, b: DiskImage, sel: Seq<u8>, out: Seq<u8>) -> bool {
    &&& out.len() == HEADER_LEN + merged_body(a, b, sel, TRACK_SLOTS as int).len()
    &&& out.subrange(HEADER_LEN as int, out.len() as int) == merged_body(
        a,
        b,
        sel,
        TRACK_SLOTS as int,
    )
    &&& forall|k: int| 0 <= k < 12 ==> #[trigger] out[k] == a.data@[k]
    &&& forall|i: int|
        0 <= i < TRACK_SLOTS ==> #[trigger] slot_offset(out, i) == merged_slot(a, b, sel, i)
    &&& le32_at(out, 12) == sum32(out.subrange(SLOT_TABLE_START as int, out.len() as int))
}

/// A valid selection table: one source index, 0 or 1, per slot.
pub open spec fn selection_ok(sel: Seq<u8>) -> bool {
    &&& sel.len() == TRACK_SLOTS
    &&& forall|i: int| 0 <= i < TRACK_SLOTS ==> #[trigger] sel[i] <= 1
}

pub proof fn lemma_flux_total_nonneg(revs: Seq<Revolution>)
    ensures
        flux_total(revs) >= 0,
    decreases revs.len(),
{
    if revs.len() > 0 {
        lemma_flux_total_nonneg(revs.drop_last());
    }
}

/// Payloads that lie inside the image are exactly as long as they claim.
pub proof fn lemma_fluxes_len(src: DiskImage, i: int, revs: Seq<Revolution>)
    requires
        fluxes_in_bounds(src, i, revs),
    ensures
        fluxes(src, i, revs).len() == flux_total(revs),
    decreases revs.len(),
{
    if revs.len() > 0 {
        let r = revs.last();
        assert(revs[revs.len() - 1] == r);
        assert(fluxes_in_bounds(src, i, revs.drop_last())) by {
            assert forall|j: int| 0 <= j < revs.drop_last().len() implies flux_start(
                src,
                i,
                #[trigger] revs.drop_last()[j],
            ) + 2 * revs.drop_last()[j].num_bitcells <= src.data@.len() by {
                assert(revs.drop_last()[j] == revs[j]);
            }
        }
        lemma_fluxes_len(src, i, revs.drop_last());
    }
}

/// The written body only grows from slot to slot.
pub proof fn lemma_body_prefix(a: DiskImage, b: DiskImage, sel: Seq<u8>, k: int, m: int)
    requires
        0 <= k <= m,
    ensures
        merged_body(a, b, sel, k).len() <= merged_body(a, b, sel, m).len(),
        merged_body(a, b, sel, m).subrange(0, merged_body(a, b, sel, k).len() as int)
            == merged_body(a, b, sel, k),
    decreases m - k,
{
    if k < m {
        lemma_body_prefix(a, b, sel, k, m - 1);
        let bk = merged_body(a, b, sel, k);
        let bm1 = merged_body(a, b, sel, m - 1);
        assert(merged_body(a, b, sel, m) == bm1 + slot_bytes(a, b, sel, m - 1));
        assert((bm1 + slot_bytes(a, b, sel, m - 1)).subrange(0, bk.len() as int) =~= bm1.subrange(
            0,
            bk.len() as int,
        ));
    }
}

/// Appends `s` to `out`.
fn append_slice(out: &mut Vec<u8>, s: &[u8])
    ensures
        final(out)@ == old(out)@ + s@,
{
    let mut k: usize = 0;
    while k < s.len()
        invariant
            k <= s@.len(),
            out@ == old(out)@ + s@.subrange(0, k as int),
        decreases s@.len() - k,
    {
        out.push(s[k]);
        k = k + 1;
        assert(out@ =~= old(out)@ + s@.subrange(0, k as int));
    }
    assert(s@.subrange(0, k as int) =~= s@);
}

/// Replaces `out[pos..pos + s.len()]` by `s`.
fn overwrite(out: &mut Vec<u8>, pos: usize, s: &[u8])
    requires
        pos + s@.len() <= old(out)@.len(),
    ensures
        final(out)@ == old(out)@.subrange(0, pos as int) + s@ + old(out)@.subrange(
            pos + s@.len(),
            old(out)@.len() as int,
        ),
{
    let n: usize = out.len();
    let mut k: usize = 0;
    while k < s.len()
        invariant
            k <= s@.len(),
            n == old(out)@.len(),
            pos + s@.len() <= old(out)@.len(),
            out@ == old(out)@.subrange(0, pos as int) + s@.subrange(0, k as int) + old(
                out,
            )@.subrange(pos + k, old(out)@.len() as int),
        decreases s@.len() - k,
    {
        out.set(pos + k, s[k]);
        k = k + 1;
        assert(out@ =~= old(out)@.subrange(0, pos as int) + s@.subrange(0, k as int) + old(
            out,
        )@.subrange(pos + k, old(out)@.len() as int));
    }
    assert(s@.subrange(0, k as int) =~= s@);
}

/// A prefix of the records carries no more payload than all of them.
pub proof fn lemma_flux_total_prefix(revs: Seq<Revolution>, j: int)
    requires
        0 <= j <= revs.len(),
    ensures
        flux_total(revs.subrange(0, j)) <= flux_total(revs),
    decreases revs.len(),
{
    if j < revs.len() {
        assert(revs.drop_last().subrange(0, j) =~= revs.subrange(0, j));
        lemma_flux_total_prefix(revs.drop_last(), j);
    } else {
        assert(revs.subrange(0, j) =~= revs);
    }
}

/// One more record extends the payload total and the payload bytes by its own.
proof fn lemma_prefix_step(src: DiskImage, i: int, revs: Seq<Revolution>, j: int)
    requires
        0 <= j < revs.len(),
    ensures
        flux_total(revs.subrange(0, j + 1)) == flux_total(revs.subrange(0, j)) + 2
            * revs[j].num_bitcells,
        fluxes(src, i, revs.subrange(0, j + 1)) == fluxes(src, i, revs.subrange(0, j)) + flux_of(
            src,
            i,
            revs[j],
        ),
{
    assert(revs.subrange(0, j + 1).drop_last() =~= revs.subrange(0, j));
}

/// The payload size of slot `i` of `src`, or `None` where the slot has no
/// track or a payload reaches past the end of the image.
fn payload_size(src: &DiskImage, i: usize) -> (r: Option<u64>)
    requires
        src.wf(),
        i < TRACK_SLOTS,
    ensures
        r is Some <==> slot_ready(*src, i as int),
        r matches Some(v) ==> v == flux_total(src.tracks@[i as int]->Some_0.revs@) && v <= 255
            * 0x2_0000_0000,
{
    let t = match &src.tracks[i] {
        Some(t) => t,
        None => {
            return None;
        },
    };
    let ghost revs = t.revs@;
    let mut total: u64 = 0;
    let mut j: usize = 0;
    while j < t.revs.len()
        invariant
            src.wf(),
            i < TRACK_SLOTS,
            src.tracks@[i as int] == Some(*t),
            revs == t.revs@,
            revs.len() <= 255,
            j <= revs.len(),
            total == flux_total(revs.subrange(0, j as int)),
            total <= j * 0x2_0000_0000,
            fluxes_in_bounds(*src, i as int, revs.subrange(0, j as int)),
        decreases revs.len() - j,
    {
        let r = t.revs[j];
        let start: u64 = src.header.track_data_headers[i] as u64 + r.offset as u64;
        let len: u64 = 2 * r.num_bitcells as u64;
        if start + len > src.data.len() as u64 {
            proof {
                assert(revs[j as int] == r);
            }
            return None;
        }
        proof {
            lemma_prefix_step(*src, i as int, revs, j as int);
            assert forall|k: int| 0 <= k < j + 1 implies flux_start(
                *src,
                i as int,
                #[trigger] revs.subrange(0, j + 1)[k],
            ) + 2 * revs.subrange(0, j + 1)[k].num_bitcells <= src.data@.len() by {
                if k < j {
                    assert(revs.subrange(0, j + 1)[k] == revs.subrange(0, j as int)[k]);
                }
            }
        }
        total = total + len;
        j = j + 1;
    }
    assert(revs.subrange(0, j as int) =~= revs);
    Some(total)
}

/// Appends the payloads of `t`, slot `i` of `src`, to `out`, whose track
/// structure starts at `pos`. Returns the records with the offsets of the
/// payloads as written, and the checksum of the payloads.
fn copy_payloads(src: &DiskImage, i: usize, t: &Track, pos: usize, out: &mut Vec<u8>) -> (res: (
    Vec<Revolution>,
    u32,
))
    requires
        src.wf(),
        i < TRACK_SLOTS,
        src.tracks@[i as int] == Some(*t),
        slot_ready(*src, i as int),
        t.revs@.len() <= 255,
        pos + track_len(t.revs@.len()) == old(out)@.len(),
        pos + track_len(t.revs@.len()) + flux_total(t.revs@) <= u32::MAX,
    ensures
        final(out)@ == old(out)@ + fluxes(*src, i as int, t.revs@),
        res.0@ == relocated(t.revs@),
        res.1 == sum32(fluxes(*src, i as int, t.revs@)),
{
    let ghost revs = t.revs@;
    let ghost n = revs.len();
    let dlen: usize = src.data.len();
    let mut moved: Vec<Revolution> = Vec::new();
    let mut acc: u32 = 0;
    let mut j: usize = 0;
    while j < t.revs.len()
        invariant
            src.wf(),
            i < TRACK_SLOTS,
            src.tracks@[i as int] == Some(*t),
            revs == t.revs@,
            n == revs.len(),
            dlen == src.data@.len(),
            slot_ready(*src, i as int),
            j <= n,
            pos + track_len(n) == old(out)@.len(),
            pos + track_len(n) + flux_total(revs) <= u32::MAX,
            out@ == old(out)@ + fluxes(*src, i as int, revs.subrange(0, j as int)),
            out@.len() == pos + track_len(n) + flux_total(revs.subrange(0, j as int)),
            moved@ == relocated(revs).subrange(0, j as int),
            acc == sum32(fluxes(*src, i as int, revs.subrange(0, j as int))),
        decreases n - j,
    {
        let r = t.revs[j];
        proof {
            assert(revs[j as int] == r);
            assert(flux_start(*src, i as int, revs[j as int]) + 2 * revs[j as int].num_bitcells
                <= src.data@.len());
            lemma_prefix_step(*src, i as int, revs, j as int);
            lemma_flux_total_prefix(revs, j as int + 1);
            lemma_flux_total_nonneg(revs.subrange(0, j as int));
        }
        let start: usize = src.header.track_data_headers[i] as usize + r.offset as usize;
        let len: usize = 2 * r.num_bitcells as usize;
        let flux = slice_subrange(src.data.as_slice(), start, start + len);
        assert(flux@ == flux_of(*src, i as int, r));
        let off: u32 = (out.len() - pos) as u32;
        moved.push(Revolution { duration: r.duration, num_bitcells: r.num_bitcells, offset: off });
        acc = fold_sum(acc, checksum(flux));
        proof {
            lemma_sum32_concat(fluxes(*src, i as int, revs.subrange(0, j as int)), flux@);
        }
        append_slice(out, flux);
        j = j + 1;
        proof {
            assert(moved@ =~= relocated(revs).subrange(0, j as int));
            assert(out@ =~= old(out)@ + fluxes(*src, i as int, revs.subrange(0, j as int)));
        }
    }
    proof {
        assert(revs.subrange(0, j as int) =~= revs);
        assert(relocated(revs).subrange(0, j as int) =~= relocated(revs));
    }
    (moved, acc)
}

/// Writes slot `i` of `src` at the end of `out`: the track as it stands, then
/// each payload in turn, then the track again over its first copy with the
/// offsets of the payloads as written. Returns the checksum of what it wrote.
fn write_slot(src: &DiskImage, i: usize, out: &mut Vec<u8>) -> (added: u32)
    requires
        src.wf(),
        i < TRACK_SLOTS,
        slot_ready(*src, i as int),
        old(out)@.len() + track_len(src.tracks@[i as int]->Some_0.revs@.len()) + flux_total(
            src.tracks@[i as int]->Some_0.revs@,
        ) <= u32::MAX,
    ensures
        ({
            let t = src.tracks@[i as int]->Some_0;
            let written = record_bytes(t.track_number, relocated(t.revs@)) + fluxes(
                *src,
                i as int,
                t.revs@,
            );
            &&& final(out)@ == old(out)@ + written
            &&& added == sum32(written)
        }),
{
    let t = match &src.tracks[i] {
        Some(t) => t,
        None => {
            proof {
                assert(false);
            }
            return 0;
        },
    };
    let ghost revs = t.revs@;
    let pos: usize = out.len();
    write_track(t, out);
    let ghost placed = out@;
    let (moved, acc) = copy_payloads(src, i, t, pos, out);
    let fixed = Track { track_number: t.track_number, revs: moved };
    let mut buf: Vec<u8> = Vec::new();
    write_track(&fixed, &mut buf);
    let ghost stale = out@;
    let ghost payload = fluxes(*src, i as int, revs);
    overwrite(out, pos, buf.as_slice());
    let added = fold_sum(acc, checksum(buf.as_slice()));
    proof {
        let rec = record_bytes(t.track_number, relocated(revs));
        assert(buf@ =~= rec);
        assert(stale.subrange(0, pos as int) =~= old(out)@);
        assert(stale.subrange(pos + buf@.len(), stale.len() as int) =~= payload);
        assert(out@ =~= old(out)@ + (rec + payload));
        lemma_sum32_concat(rec, payload);
    }
    added
}

fn copy_slots(v: &Vec<u32>) -> (r: Vec<u32>)
    ensures
        r@ == v@,
{
    let mut r: Vec<u32> = Vec::new();
    let mut k: usize = 0;
    while k < v.len()
        invariant
            k <= v@.len(),
            r@ == v@.subrange(0, k as int),
        decreases v@.len() - k,
    {
        r.push(v[k]);
        k = k + 1;
        assert(r@ =~= v@.subrange(0, k as int));
    }
    assert(v@.subrange(0, k as int) =~= v@);
    r
}

/// Appends every slot after the header in `out`. Returns the merged slot
/// table and the checksum of what was appended.
fn write_slots(first: &DiskImage, second: &DiskImage, selection: &Vec<u8>, out: &mut Vec<u8>) -> (r:
    Result<(Vec<u32>, u32), ScpError>)
    requires
        first.wf(),
        second.wf(),
        selection_ok(selection@),
        old(out)@.len() == HEADER_LEN,
    ensures
        r.is_ok() <==> mergeable(*first, *second, selection@),
        r.is_err() ==> r == Err::<(Vec<u32>, u32), ScpError>(ScpError::Format),
        r matches Ok((slots, sum)) ==> {
            let body = merged_body(*first, *second, selection@, TRACK_SLOTS as int);
            &&& final(out)@.len() == HEADER_LEN + body.len()
            &&& final(out)@.subrange(0, HEADER_LEN as int) == old(out)@
            &&& final(out)@.subrange(HEADER_LEN as int, final(out)@.len() as int) == body
            &&& slots@.len() == TRACK_SLOTS
            &&& forall|k: int|
                0 <= k < TRACK_SLOTS ==> #[trigger] slots@[k] == merged_slot(
                    *first,
                    *second,
                    selection@,
                    k,
                )
            &&& sum == sum32(body)
        },
{
    let ghost a = *first;
    let ghost b = *second;
    let ghost sel = selection@;
    let mut slots: Vec<u32> = Vec::new();
    let mut sum: u32 = 0;
    let mut i: usize = 0;
    while i < TRACK_SLOTS
        invariant
            first.wf(),
            second.wf(),
            a == *first,
            b == *second,
            sel == selection@,
            selection_ok(sel),
            i <= TRACK_SLOTS,
            out@.len() == HEADER_LEN + merged_body(a, b, sel, i as int).len(),
            out@.len() <= u32::MAX,
            out@.subrange(HEADER_LEN as int, out@.len() as int) == merged_body(a, b, sel, i as int),
            slots@.len() == i,
            forall|k: int| 0 <= k < i ==> #[trigger] slots@[k] == merged_slot(a, b, sel, k),
            forall|k: int|
                0 <= k < i && (#[trigger] a.tracks@[k]) is Some ==> slot_ready(
                    chosen(a, b, sel, k),
                    k,
                ),
            sum == sum32(merged_body(a, b, sel, i as int)),
            out@.subrange(0, HEADER_LEN as int) == old(out)@,
        decreases TRACK_SLOTS - i,
    {
        let ghost before = out@;
        proof {
            assert(merged_body(a, b, sel, i + 1) == merged_body(a, b, sel, i as int) + slot_bytes(
                a,
                b,
                sel,
                i as int,
            ));
        }
        if first.tracks[i].is_none() {
            slots.push(0);
            proof {
                assert(slot_bytes(a, b, sel, i as int) =~= Seq::<u8>::empty());
                assert(merged_body(a, b, sel, i + 1) =~= merged_body(a, b, sel, i as int));
            }
        } else {
            let src = if selection[i] == 0 {
                first
            } else {
                second
            };
            assert(*src == chosen(a, b, sel, i as int));
            let size = match payload_size(src, i) {
                Some(v) => v,
                None => {
                    return Err(ScpError::Format);
                },
            };
            let ghost t = src.tracks@[i as int]->Some_0;
            proof {
                lemma_fluxes_len(*src, i as int, t.revs@);
            }
            let rc: u64 = src.header.rev_count as u64;
            if out.len() as u64 + 4 + 12 * rc + size > 0xffff_ffffu64 {
                proof {
                    lemma_body_prefix(a, b, sel, i + 1, TRACK_SLOTS as int);
                }
                return Err(ScpError::Format);
            }
            slots.push(out.len() as u32);
            let added = write_slot(src, i, out);
            proof {
                lemma_sum32_concat(merged_body(a, b, sel, i as int), slot_bytes(a, b, sel, i as int));
                assert(out@.subrange(HEADER_LEN as int, out@.len() as int) =~= before.subrange(
                    HEADER_LEN as int,
                    before.len() as int,
                ) + slot_bytes(a, b, sel, i as int));
                assert(out@.subrange(0, HEADER_LEN as int) =~= before.subrange(0, HEADER_LEN as int));
            }
            sum = fold_sum(sum, added);
        }
        i = i + 1;
        proof {
            assert forall|k: int| 0 <= k < i implies #[trigger] slots@[k] == merged_slot(a, b, sel, k) by {
                if k == i - 1 {
                }
            }
        }
    }
    Ok((slots, sum))
}

/// Two headers with the same slot table encode it alike.
proof fn lemma_same_table(h1: Header, h2: Header)
    requires
        h1.track_data_headers@ == h2.track_data_headers@,
    ensures
        header_bytes(h1).subrange(SLOT_TABLE_START as int, HEADER_LEN as int) == header_bytes(
            h2,
        ).subrange(SLOT_TABLE_START as int, HEADER_LEN as int),
{
    assert(header_bytes(h1).subrange(SLOT_TABLE_START as int, HEADER_LEN as int) =~= header_bytes(
        h2,
    ).subrange(SLOT_TABLE_START as int, HEADER_LEN as int));
}

/// A header followed by `body` reads back as that header, and what follows
/// its first 16 bytes is its slot table and then `body`.
proof fn lemma_sealed(h: Header, body: Seq<u8>, d: Seq<u8>)
    requires
        h.wf(),
        d == header_bytes(h) + body,
    ensures
        forall|k: int| 0 <= k < 12 ==> #[trigger] d[k] == header_byte(h, k),
        header_read(h, d),
        d.subrange(HEADER_LEN as int, d.len() as int) == body,
        d.subrange(SLOT_TABLE_START as int, d.len() as int) == header_bytes(h).subrange(
            SLOT_TABLE_START as int,
            HEADER_LEN as int,
        ) + body,
{
    assert forall|k: int| 0 <= k < HEADER_LEN implies d[k] == #[trigger] header_byte(h, k) by {
        assert(d[k] == header_bytes(h)[k]);
    }
    lemma_header_placed(h, d);
    assert(d.subrange(HEADER_LEN as int, d.len() as int) =~= body);
    assert(d.subrange(SLOT_TABLE_START as int, d.len() as int) =~= header_bytes(h).subrange(
        SLOT_TABLE_START as int,
        HEADER_LEN as int,
    ) + body);
}

/// A sealed header followed by the merged body is the merged image.
proof fn lemma_merged(
    a: DiskImage,
    b: DiskImage,
    sel: Seq<u8>,
    sealed: Header,
    body: Seq<u8>,
    out: Seq<u8>,
)
    requires
        sealed.wf(),
        out == header_bytes(sealed) + body,
        body == merged_body(a, b, sel, TRACK_SLOTS as int),
        forall|i: int|
            0 <= i < TRACK_SLOTS ==> #[trigger] sealed.track_data_headers@[i] == merged_slot(
                a,
                b,
                sel,
                i,
            ),
        forall|k: int| 0 <= k < 12 ==> #[trigger] header_byte(sealed, k) == a.data@[k],
        sealed.checksum == sum32(
            header_bytes(sealed).subrange(SLOT_TABLE_START as int, HEADER_LEN as int) + body,
        ),
    ensures
        merged_image(a, b, sel, out),
{
    lemma_sealed(sealed, body, out);
    assert forall|i: int| 0 <= i < TRACK_SLOTS implies #[trigger] slot_offset(out, i)
        == merged_slot(a, b, sel, i) by {
        assert(sealed.track_data_headers@[i] == slot_offset(out, i));
    }
}

/// Writes over the header at the start of `out` a header with the fields of
/// `h`, the slot table `slots`, and the checksum that folds the header's slot
/// table into `sum`, the checksum of what follows the header. Returns that
/// header.
fn seal(h: &Header, slots: Vec<u32>, sum: u32, out: &mut Vec<u8>) -> (sealed: Header)
    requires
        h.wf(),
        slots@.len() == TRACK_SLOTS,
        old(out)@.len() >= HEADER_LEN,
        sum == sum32(old(out)@.subrange(HEADER_LEN as int, old(out)@.len() as int)),
    ensures
        sealed.wf(),
        sealed.track_data_headers@ == slots@,
        forall|k: int| 0 <= k < 12 ==> #[trigger] header_byte(sealed, k) == header_byte(*h, k),
        final(out)@ == header_bytes(sealed) + old(out)@.subrange(
            HEADER_LEN as int,
            old(out)@.len() as int,
        ),
        sealed.checksum == sum32(
            header_bytes(sealed).subrange(SLOT_TABLE_START as int, HEADER_LEN as int) + old(
                out,
            )@.subrange(HEADER_LEN as int, old(out)@.len() as int),
        ),
{
    let mut header = Header {
        version: h.version,
        disk_type: h.disk_type,
        rev_count: h.rev_count,
        start_track: h.start_track,
        end_track: h.end_track,
        flags: h.flags,
        bitcell_time: h.bitcell_time,
        heads: h.heads,
        resolution: h.resolution,
        checksum: 0,
        track_data_headers: slots,
    };
    let mut table: Vec<u8> = Vec::new();
    write_header(&header, &mut table);
    let ghost header_of_table = header;
    let table_sum = checksum(slice_subrange(table.as_slice(), SLOT_TABLE_START, HEADER_LEN));
    let total = fold_sum(sum, table_sum);
    header.checksum = total;
    let mut head: Vec<u8> = Vec::new();
    write_header(&header, &mut head);
    let ghost body = out@.subrange(HEADER_LEN as int, out@.len() as int);
    overwrite(out, 0, head.as_slice());
    proof {
        assert(final(out)@ =~= head@ + body);
        lemma_same_table(header, header_of_table);
        lemma_sum32_concat(table@.subrange(SLOT_TABLE_START as int, HEADER_LEN as int), body);
    }
    header
}

/// Merges two images slot by slot, taking slot `i` from `first` where
/// `selection[i]` is 0 and from `second` where it is 1. Which slots hold a
/// track is decided by `first` alone. Returns the bytes of the merged image,
/// or `ScpError::Format` where a chosen image lacks a slot's track, a payload
/// reaches past the end of its image, or the result would not fit 32-bit
/// offsets.
pub fn merge(first: &DiskImage, second: &DiskImage, selection: &Vec<u8>) -> (r: Result<
    Vec<u8>,
    ScpError,
>)
    requires
        first.wf(),
        second.wf(),
        selection_ok(selection@),
    ensures
        r.is_ok() <==> mergeable(*first, *second, selection@),
        r.is_err() ==> r == Err::<Vec<u8>, ScpError>(ScpError::Format),
        r matches Ok(out) ==> merged_image(*first, *second, selection@, out@),
{
    let h = &first.header;
    let placeholder = Header {
        version: h.version,
        disk_type: h.disk_type,
        rev_count: h.rev_count,
        start_track: h.start_track,
        end_track: h.end_track,
        flags: h.flags,
        bitcell_time: h.bitcell_time,
        heads: h.heads,
        resolution: h.resolution,
        checksum: 0,
        track_data_headers: copy_slots(&h.track_data_headers),
    };
    let mut out: Vec<u8> = Vec::new();
    write_header(&placeholder, &mut out);
    let (slots, sum) = match write_slots(first, second, selection, &mut out) {
        Ok(res) => res,
        Err(e) => {
            return Err(e);
        },
    };
    let ghost body = out@.subrange(HEADER_LEN as int, out@.len() as int);
    let sealed = seal(h, slots, sum, &mut out);
    proof {
        assert forall|k: int| 0 <= k < 12 implies #[trigger] header_byte(sealed, k)
            == first.data@[k] by {
            assert(header_byte(*h, k) == first.data@[k]);
        }
        lemma_merged(*first, *second, selection@, sealed, body, out@);
    }
    Ok(out)
}

} // verus!
