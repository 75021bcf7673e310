use vstd::prelude::*;
use crate::format::{
    has_header, has_track, lemma_record_placed, record_byte, record_bytes, records_read,
    slot_offset, track_len, Revolution, HEADER_LEN, TRACK_SLOTS,
};
use crate::bytes::le32_at;
use crate::image::{slot_loadable, tracks_loadable, DiskImage};
use crate::format::track_read;
use crate::merge::{
    chosen, flux_of, flux_total, fluxes, fluxes_in_bounds, lemma_body_prefix, lemma_flux_total_nonneg,
    lemma_flux_total_prefix, lemma_fluxes_len, merged_body, merged_image, merged_slot, mergeable,
    relocated, selection_ok, slot_bytes, slot_ready,
};

verus! {

/// The payloads of a prefix of `revs` open the payloads of all of `revs`.
proof fn lemma_fluxes_prefix(src: DiskImage, i: int, revs: Seq<Revolution>, m: int)
    requires
        0 <= m <= revs.len(),
    ensures
        fluxes(src, i, revs.subrange(0, m)).len() <= fluxes(src, i, revs).len(),
        fluxes(src, i, revs).subrange(0, fluxes(src, i, revs.subrange(0, m)).len() as int)
            == fluxes(src, i, revs.subrange(0, m)),
    decreases revs.len(),
{
    if m < revs.len() {
        assert(revs.drop_last().subrange(0, m) =~= revs.subrange(0, m));
        lemma_fluxes_prefix(src, i, revs.drop_last(), m);
        let f = fluxes(src, i, revs.drop_last());
        assert(fluxes(src, i, revs) == f + flux_of(src, i, revs.last()));
        assert((f + flux_of(src, i, revs.last())).subrange(
            0,
            fluxes(src, i, revs.subrange(0, m)).len() as int,
        ) =~= f.subrange(0, fluxes(src, i, revs.subrange(0, m)).len() as int));
    } else {
        assert(revs.subrange(0, m) =~= revs);
        assert(fluxes(src, i, revs).subrange(0, fluxes(src, i, revs).len() as int) =~= fluxes(
            src,
            i,
            revs,
        ));
    }
}

proof fn lemma_in_bounds_prefix(src: DiskImage, i: int, revs: Seq<Revolution>, m: int)
    requires
        0 <= m <= revs.len(),
        fluxes_in_bounds(src, i, revs),
    ensures
        fluxes_in_bounds(src, i, revs.subrange(0, m)),
{
    assert forall|j: int| 0 <= j < m implies crate::merge::flux_start(
        src,
        i,
        #[trigger] revs.subrange(0, m)[j],
    ) + 2 * revs.subrange(0, m)[j].num_bitcells <= src.data@.len() by {
        assert(revs.subrange(0, m)[j] == revs[j]);
    }
}

/// The payload of record `j` stands in the joined payloads right after
/// those of the records before it.
proof fn lemma_flux_at(src: DiskImage, i: int, revs: Seq<Revolution>, j: int)
    requires
        0 <= j < revs.len(),
        fluxes_in_bounds(src, i, revs),
    ensures
        fluxes(src, i, revs).subrange(
            flux_total(revs.subrange(0, j)),
            flux_total(revs.subrange(0, j)) + 2 * revs[j].num_bitcells,
        ) == flux_of(src, i, revs[j]),
{
    lemma_in_bounds_prefix(src, i, revs, j);
    lemma_in_bounds_prefix(src, i, revs, j + 1);
    lemma_fluxes_len(src, i, revs.subrange(0, j));
    lemma_fluxes_len(src, i, revs.subrange(0, j + 1));
    lemma_fluxes_prefix(src, i, revs, j + 1);
    assert(revs.subrange(0, j + 1).drop_last() =~= revs.subrange(0, j));
    let all = fluxes(src, i, revs);
    let before = fluxes(src, i, revs.subrange(0, j));
    let upto = fluxes(src, i, revs.subrange(0, j + 1));
    assert(upto == before + flux_of(src, i, revs[j]));
    assert(all.subrange(before.len() as int, upto.len() as int) =~= upto.subrange(
        before.len() as int,
        upto.len() as int,
    ));
    assert(upto.subrange(before.len() as int, upto.len() as int) =~= flux_of(src, i, revs[j]));
}

/// In a merged image, each slot that the first image fills holds, at the
/// offset in the slot table, exactly the bytes written for it.
pub proof fn lemma_slot_placed(a: DiskImage, b: DiskImage, sel: Seq<u8>, out: Seq<u8>, i: int)
    requires
        merged_image(a, b, sel, out),
        mergeable(a, b, sel),
        0 <= i < TRACK_SLOTS,
        a.tracks@[i] is Some,
    ensures
        slot_offset(out, i) as int == HEADER_LEN + merged_body(a, b, sel, i).len(),
        slot_offset(out, i) + slot_bytes(a, b, sel, i).len() <= out.len(),
        out.subrange(
            slot_offset(out, i) as int,
            slot_offset(out, i) + slot_bytes(a, b, sel, i).len(),
        ) == slot_bytes(a, b, sel, i),
{
    lemma_body_prefix(a, b, sel, i + 1, TRACK_SLOTS as int);
    lemma_body_prefix(a, b, sel, i, i + 1);
    let body = merged_body(a, b, sel, TRACK_SLOTS as int);
    let bi = merged_body(a, b, sel, i);
    let sb = slot_bytes(a, b, sel, i);
    let lo = bi.len() as int;
    let hi = (bi.len() + sb.len()) as int;
    assert(merged_body(a, b, sel, i + 1) == bi + sb);
    assert(slot_offset(out, i) == merged_slot(a, b, sel, i));
    let p = HEADER_LEN + bi.len();
    assert(out.subrange(p, p + sb.len()) =~= body.subrange(lo, hi));
    assert(body.subrange(lo, hi) =~= (bi + sb).subrange(lo, hi));
    assert((bi + sb).subrange(lo, hi) =~= sb);
}

/// Payload offsets within a merged track: the first payload follows the
/// track structure, and each next one follows the one before it.
proof fn lemma_offsets_follow(revs: Seq<Revolution>, j: int)
    requires
        0 <= j < revs.len(),
        track_len(revs.len()) + flux_total(revs) <= u32::MAX,
    ensures
        j == 0 ==> relocated(revs)[j].offset == track_len(revs.len()),
        j + 1 < revs.len() ==> relocated(revs)[j + 1].offset == relocated(revs)[j].offset + 2
            * revs[j].num_bitcells,
        revs[j].num_bitcells > 0 && j + 1 < revs.len() ==> relocated(revs)[j].offset < relocated(
            revs,
        )[j + 1].offset,
{
    assert(revs.subrange(0, 0) =~= Seq::<Revolution>::empty());
    lemma_flux_total_prefix(revs, j);
    lemma_flux_total_nonneg(revs.subrange(0, j));
    if j + 1 < revs.len() {
        assert(revs.subrange(0, j + 1).drop_last() =~= revs.subrange(0, j));
        lemma_flux_total_prefix(revs, j + 1);
    }
}

/// In a merged image, each slot that the first image fills holds the chosen
/// image's track: the same track number, durations and bitcell counts,
/// payload offsets counted from the track, and at each offset the chosen
/// image's payload for that revolution, byte for byte.
pub proof fn lemma_slot_contents(a: DiskImage, b: DiskImage, sel: Seq<u8>, out: Seq<u8>, i: int)
    requires
        merged_image(a, b, sel, out),
        mergeable(a, b, sel),
        0 <= i < TRACK_SLOTS,
        a.tracks@[i] is Some,
    ensures
        ({
            let src = chosen(a, b, sel, i);
            let revs = src.tracks@[i]->Some_0.revs@;
            let p = slot_offset(out, i) as int;
            &&& has_track(out, p, revs.len())
            &&& records_read(src.tracks@[i]->Some_0.track_number, relocated(revs), out, p)
            &&& forall|j: int|
                0 <= j < revs.len() ==> out.subrange(
                    p + (#[trigger] relocated(revs)[j]).offset,
                    p + relocated(revs)[j].offset + 2 * revs[j].num_bitcells,
                ) == flux_of(src, i, revs[j])
        }),
{
    let src = chosen(a, b, sel, i);
    let t = src.tracks@[i]->Some_0;
    let revs = t.revs@;
    let moved = relocated(revs);
    let p = slot_offset(out, i) as int;
    let rec = record_bytes(t.track_number, moved);
    let pay = fluxes(src, i, revs);
    lemma_slot_placed(a, b, sel, out, i);
    assert(slot_ready(src, i));
    lemma_fluxes_len(src, i, revs);
    let sb = slot_bytes(a, b, sel, i);
    assert(sb == rec + pay);
    assert(out.subrange(p, p + sb.len()) == sb);
    assert forall|k: int| 0 <= k < track_len(moved.len()) implies out[p + k] == #[trigger] record_byte(
        t.track_number,
        moved,
        k,
    ) by {
        assert(out.subrange(p, p + sb.len())[k] == sb[k]);
    }
    lemma_record_placed(t.track_number, moved, out, p);
    assert forall|j: int| 0 <= j < revs.len() implies out.subrange(
        p + (#[trigger] relocated(revs)[j]).offset,
        p + relocated(revs)[j].offset + 2 * revs[j].num_bitcells,
    ) == flux_of(src, i, revs[j]) by {
        lemma_flux_at(src, i, revs, j);
        lemma_flux_total_prefix(revs, j + 1);
        assert(revs.subrange(0, j + 1).drop_last() =~= revs.subrange(0, j));
        lemma_flux_total_nonneg(revs.subrange(0, j));
        let start = track_len(revs.len()) + flux_total(revs.subrange(0, j));
        assert(moved[j].offset == start);
        let lo = p + start;
        let hi = lo + 2 * revs[j].num_bitcells;
        assert(out.subrange(lo, hi) =~= sb.subrange(start, start + 2 * revs[j].num_bitcells)) by {
            assert forall|k: int| 0 <= k < hi - lo implies out.subrange(lo, hi)[k] == sb.subrange(
                start,
                start + 2 * revs[j].num_bitcells,
            )[k] by {
                assert(out.subrange(p, p + sb.len())[start + k] == sb[start + k]);
            }
        }
        assert(sb.subrange(start, start + 2 * revs[j].num_bitcells) =~= pay.subrange(
            flux_total(revs.subrange(0, j)),
            flux_total(revs.subrange(0, j)) + 2 * revs[j].num_bitcells,
        ));
    }
}

/// Every slot taken from the second image comes from an image with as many
/// revolutions per track as the first.
pub open spec fn counts_agree(a: DiskImage, b: DiskImage, sel: Seq<u8>) -> bool {
    forall|i: int|
        0 <= i < TRACK_SLOTS && (#[trigger] a.tracks@[i]) is Some ==> chosen(
            a,
            b,
            sel,
            i,
        ).header.rev_count == a.header.rev_count
}

/// A slot that the first image leaves empty is empty in the merge, whatever
/// the selection says of it.
pub proof fn lemma_empty_slot(a: DiskImage, b: DiskImage, sel: Seq<u8>, out: Seq<u8>, i: int)
    requires
        merged_image(a, b, sel, out),
        0 <= i < TRACK_SLOTS,
        a.tracks@[i] is None,
    ensures
        slot_offset(out, i) == 0,
{
}

/// A merged image loads again: its header is complete, its bitcell time is
/// the standard one, and every slot is empty or points at a complete track.
pub proof fn lemma_merged_loads(a: DiskImage, b: DiskImage, sel: Seq<u8>, out: Seq<u8>)
    requires
        a.wf(),
        b.wf(),
        selection_ok(sel),
        counts_agree(a, b, sel),
        mergeable(a, b, sel),
        merged_image(a, b, sel, out),
    ensures
        has_header(out),
        out[9] == 0,
        tracks_loadable(out),
{
    assert(out[0] == a.data@[0] && out[1] == a.data@[1] && out[2] == a.data@[2]);
    assert(out[5] == a.data@[5] && out[9] == a.data@[9]);
    assert forall|i: int| 0 <= i < TRACK_SLOTS implies #[trigger] slot_loadable(out, i) by {
        if a.tracks@[i] is Some {
            lemma_slot_contents(a, b, sel, out, i);
            let src = chosen(a, b, sel, i);
            assert(src.tracks@[i] is Some);
            assert(track_read(
                src.tracks@[i]->Some_0,
                src.data@,
                src.header.track_data_headers@[i] as int,
                src.header.rev_count as nat,
            ));
        }
    }
}

/// Loading a merged image gives back what was written: the slots that the
/// first image fills, each with the chosen image's track number, durations
/// and bitcell counts, and its payloads byte for byte.
pub proof fn lemma_round_trip(
    a: DiskImage,
    b: DiskImage,
    sel: Seq<u8>,
    out: Seq<u8>,
    img: DiskImage,
)
    requires
        a.wf(),
        b.wf(),
        selection_ok(sel),
        counts_agree(a, b, sel),
        mergeable(a, b, sel),
        merged_image(a, b, sel, out),
        img.wf(),
        img.data@ == out,
    ensures
        forall|i: int|
            0 <= i < TRACK_SLOTS ==> (#[trigger] img.tracks@[i] is Some <==> a.tracks@[i] is Some),
        forall|i: int|
            0 <= i < TRACK_SLOTS && (#[trigger] img.tracks@[i]) is Some ==> {
                let src = chosen(a, b, sel, i);
                let t = src.tracks@[i]->Some_0;
                let u = img.tracks@[i]->Some_0;
                &&& u.track_number == t.track_number
                &&& u.revs@.len() == t.revs@.len()
                &&& forall|j: int|
                    0 <= j < u.revs@.len() ==> {
                        &&& (#[trigger] u.revs@[j]).duration == t.revs@[j].duration
                        &&& u.revs@[j].num_bitcells == t.revs@[j].num_bitcells
                        &&& flux_of(img, i, u.revs@[j]) == flux_of(src, i, t.revs@[j])
                    }
            },
{
    assert(out[5] == a.data@[5]);
    assert forall|i: int| 0 <= i < TRACK_SLOTS implies (#[trigger] img.tracks@[i] is Some
        <==> a.tracks@[i] is Some) by {
        assert(img.header.track_data_headers@[i] == slot_offset(out, i));
        if a.tracks@[i] is Some {
            lemma_slot_placed(a, b, sel, out, i);
        }
    }
    assert forall|i: int| 0 <= i < TRACK_SLOTS && (#[trigger] img.tracks@[i]) is Some implies {
        let src = chosen(a, b, sel, i);
        let t = src.tracks@[i]->Some_0;
        let u = img.tracks@[i]->Some_0;
        &&& u.track_number == t.track_number
        &&& u.revs@.len() == t.revs@.len()
        &&& forall|j: int|
            0 <= j < u.revs@.len() ==> {
                &&& (#[trigger] u.revs@[j]).duration == t.revs@[j].duration
                &&& u.revs@[j].num_bitcells == t.revs@[j].num_bitcells
                &&& flux_of(img, i, u.revs@[j]) == flux_of(src, i, t.revs@[j])
            }
    } by {
        assert(img.header.track_data_headers@[i] == slot_offset(out, i));
        assert(a.tracks@[i] is Some);
        lemma_slot_contents(a, b, sel, out, i);
        let src = chosen(a, b, sel, i);
        let t = src.tracks@[i]->Some_0;
        let u = img.tracks@[i]->Some_0;
        let p = slot_offset(out, i) as int;
        assert(src.tracks@[i] is Some);
        assert(track_read(
            t,
            src.data@,
            src.header.track_data_headers@[i] as int,
            src.header.rev_count as nat,
        ));
        assert(track_read(u, out, p, img.header.rev_count as nat));
        assert forall|j: int| 0 <= j < u.revs@.len() implies {
            &&& (#[trigger] u.revs@[j]).duration == t.revs@[j].duration
            &&& u.revs@[j].num_bitcells == t.revs@[j].num_bitcells
            &&& flux_of(img, i, u.revs@[j]) == flux_of(src, i, t.revs@[j])
        } by {
            assert(relocated(t.revs@)[j].offset == u.revs@[j].offset);
        }
    }
}

/// With every slot taken from the first image, loading the merge gives back
/// the first image's tracks: the same slots filled, the same track numbers,
/// durations and bitcell counts, and the same payloads byte for byte.
pub proof fn lemma_first_only(
    a: DiskImage,
    b: DiskImage,
    sel: Seq<u8>,
    out: Seq<u8>,
    img: DiskImage,
)
    requires
        a.wf(),
        b.wf(),
        selection_ok(sel),
        forall|i: int| 0 <= i < TRACK_SLOTS ==> #[trigger] sel[i] == 0,
        mergeable(a, b, sel),
        merged_image(a, b, sel, out),
        img.wf(),
        img.data@ == out,
    ensures
        forall|i: int|
            0 <= i < TRACK_SLOTS ==> (#[trigger] img.tracks@[i] is Some <==> a.tracks@[i] is Some),
        forall|i: int|
            0 <= i < TRACK_SLOTS && (#[trigger] img.tracks@[i]) is Some ==> {
                let t = a.tracks@[i]->Some_0;
                let u = img.tracks@[i]->Some_0;
                &&& u.track_number == t.track_number
                &&& u.revs@.len() == t.revs@.len()
                &&& forall|j: int|
                    0 <= j < u.revs@.len() ==> {
                        &&& (#[trigger] u.revs@[j]).duration == t.revs@[j].duration
                        &&& u.revs@[j].num_bitcells == t.revs@[j].num_bitcells
                        &&& flux_of(img, i, u.revs@[j]) == flux_of(a, i, t.revs@[j])
                    }
            },
{
    assert forall|i: int| 0 <= i < TRACK_SLOTS implies #[trigger] chosen(a, b, sel, i) == a by {
        assert(sel[i] == 0);
    }
    assert(counts_agree(a, b, sel));
    lemma_round_trip(a, b, sel, out, img);
}

/// The payload offsets written into a merged track: the first payload
/// follows the track structure, each next one follows the one before it, so
/// they grow strictly wherever a revolution has bitcells.
pub proof fn lemma_written_offsets(
    a: DiskImage,
    b: DiskImage,
    sel: Seq<u8>,
    out: Seq<u8>,
    i: int,
    j: int,
)
    requires
        merged_image(a, b, sel, out),
        mergeable(a, b, sel),
        0 <= i < TRACK_SLOTS,
        a.tracks@[i] is Some,
        0 <= j < chosen(a, b, sel, i).tracks@[i]->Some_0.revs@.len(),
    ensures
        ({
            let revs = chosen(a, b, sel, i).tracks@[i]->Some_0.revs@;
            let p = slot_offset(out, i) as int;
            &&& j == 0 ==> le32_at(out, p + 12) == track_len(revs.len())
            &&& j + 1 < revs.len() ==> le32_at(out, p + 12 + 12 * (j + 1)) == le32_at(
                out,
                p + 12 + 12 * j,
            ) + 2 * revs[j].num_bitcells
            &&& revs[j].num_bitcells > 0 && j + 1 < revs.len() ==> le32_at(out, p + 12 + 12 * j)
                < le32_at(out, p + 12 + 12 * (j + 1))
        }),
{
    let src = chosen(a, b, sel, i);
    let revs = src.tracks@[i]->Some_0.revs@;
    lemma_slot_contents(a, b, sel, out, i);
    lemma_slot_placed(a, b, sel, out, i);
    assert(slot_ready(src, i));
    lemma_fluxes_len(src, i, revs);
    lemma_offsets_follow(revs, j);
    let moved = relocated(revs);
    assert(moved[j] == moved[j]);
    if j + 1 < revs.len() {
        assert(moved[j + 1] == moved[j + 1]);
    }
}

} // verus!
