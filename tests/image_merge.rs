use scp_merge::format::{decode_header, decode_track, write_header, write_track, Header, Revolution, ScpError, Track};
use scp_merge::image::DiskImage;
use scp_merge::merge::merge;
use scp_merge::selection::{default_selection, select};
use scp_merge::sum::checksum;

/// Payload of a revolution: `n` flux words derived from a seed.
fn payload(seed: u32, n: u32) -> Vec<u8> {
    let mut v = Vec::new();
    for k in 0..n {
        let w = (seed.wrapping_mul(31).wrapping_add(k * 7)) as u16;
        v.push((w & 0xff) as u8);
        v.push((w >> 8) as u8);
    }
    v
}

fn le32(d: &[u8], p: usize) -> u32 {
    u32::from_le_bytes([d[p], d[p + 1], d[p + 2], d[p + 3]])
}

/// Builds an image laid out as a merge writes one: header, then each present
/// slot's track followed by its payloads. `slots[i]` gives the bitcell count
/// of each revolution of slot `i`, or `None` for an empty slot.
fn build_image(rev_count: u8, bitcell_time: u8, seed: u32, slots: &[Option<Vec<u32>>]) -> Vec<u8> {
    let mut header = Header {
        version: 0x19,
        disk_type: 0x80,
        rev_count,
        start_track: 0,
        end_track: 167,
        flags: 0x03,
        bitcell_time,
        heads: 0,
        resolution: 0,
        checksum: 0,
        track_data_headers: vec![0; 168],
    };
    let mut body: Vec<u8> = Vec::new();
    for (i, slot) in slots.iter().enumerate() {
        if let Some(counts) = slot {
            let pos = 688 + body.len();
            header.track_data_headers[i] = pos as u32;
            let mut off = 4 + 12 * counts.len() as u32;
            let mut revs = Vec::new();
            let mut flux = Vec::new();
            for (j, &n) in counts.iter().enumerate() {
                revs.push(Revolution { duration: 1000 + j as u32, num_bitcells: n, offset: off });
                off += 2 * n;
                flux.extend(payload(seed + i as u32 * 10 + j as u32, n));
            }
            let t = Track { track_number: (i / 2) as u8, revs };
            write_track(&t, &mut body);
            body.extend(flux);
        }
    }
    let mut table = Vec::new();
    write_header(&header, &mut table);
    header.checksum = checksum(&table[16..]).wrapping_add(checksum(&body));
    let mut out = Vec::new();
    write_header(&header, &mut out);
    out.extend(body);
    out
}

fn full_slots(rev_count: usize) -> Vec<Option<Vec<u32>>> {
    (0..168).map(|i| Some((0..rev_count).map(|j| 3 + (i % 5) as u32 + j as u32).collect())).collect()
}

/// The payload bytes of revolution `j` of slot `i` of a loaded image.
fn flux_bytes(img: &DiskImage, i: usize, j: usize) -> Vec<u8> {
    let t = img.tracks[i].as_ref().unwrap();
    let r = t.revs[j];
    let start = img.header.track_data_headers[i] as usize + r.offset as usize;
    img.data[start..start + 2 * r.num_bitcells as usize].to_vec()
}

fn stored_checksum_holds(d: &[u8]) -> bool {
    le32(d, 12) == checksum(&d[16..])
}

#[test]
fn checksum_sums_bytes() {
    assert_eq!(checksum(&[]), 0);
    assert_eq!(checksum(&[1, 2, 3]), 6);
    assert_eq!(checksum(&[0xff, 0xff]), 510);
}

#[test]
fn checksum_wraps_around() {
    let data = vec![0xffu8; 16_843_010];
    assert_eq!(checksum(&data), 254);
}

#[test]
fn header_encodes_and_decodes() {
    let img = build_image(2, 0, 1, &full_slots(2));
    let h = decode_header(&img).unwrap();
    assert_eq!(h.version, 0x19);
    assert_eq!(h.rev_count, 2);
    assert_eq!(h.end_track, 167);
    assert_eq!(h.track_data_headers.len(), 168);
    assert_eq!(h.track_data_headers[0], 688);
    let mut again = Vec::new();
    write_header(&h, &mut again);
    assert_eq!(&again[..], &img[..688]);
    assert_eq!(&img[0..3], b"SCP");
}

#[test]
fn track_encodes_and_decodes() {
    let img = build_image(2, 0, 1, &full_slots(2));
    let t = decode_track(&img, 688, 2).unwrap();
    assert_eq!(t.track_number, 0);
    assert_eq!(t.revs.len(), 2);
    assert_eq!(t.revs[0], Revolution { duration: 1000, num_bitcells: 3, offset: 28 });
    assert_eq!(t.revs[1], Revolution { duration: 1001, num_bitcells: 4, offset: 34 });
    let mut again = Vec::new();
    write_track(&t, &mut again);
    assert_eq!(&again[..], &img[688..688 + 28]);
    assert_eq!(&again[0..3], b"TRK");
}

#[test]
fn decode_rejects_bad_magic_and_short_input() {
    let mut img = build_image(1, 0, 1, &full_slots(1));
    assert_eq!(decode_header(&img[..687]).err(), Some(ScpError::Format));
    assert_eq!(decode_track(&img, 689, 1).err(), Some(ScpError::Format));
    assert_eq!(decode_track(&img, img.len() - 8, 1).err(), Some(ScpError::Format));
    img[1] = b'X';
    assert_eq!(decode_header(&img).err(), Some(ScpError::Format));
}

#[test]
fn load_reads_every_slot() {
    let mut slots = full_slots(1);
    slots[7] = None;
    let img = DiskImage::load(build_image(1, 0, 5, &slots)).ok().unwrap();
    assert_eq!(img.tracks.len(), 168);
    assert!(img.tracks[7].is_none());
    assert_eq!(img.header.track_data_headers[7], 0);
    assert_eq!(img.tracks[9].as_ref().unwrap().track_number, 4);
    assert_eq!(flux_bytes(&img, 3, 0), payload(5 + 30, 6));
}

#[test]
fn load_rejects_nonstandard_bitcell_time() {
    let bytes = build_image(1, 3, 1, &full_slots(1));
    assert_eq!(DiskImage::load(bytes).err(), Some(ScpError::UnsupportedFormat));
}

#[test]
fn load_rejects_truncated_track() {
    let bytes = build_image(1, 0, 1, &full_slots(1));
    let short = bytes[..bytes.len() - 20].to_vec();
    assert_eq!(DiskImage::load(short).err(), Some(ScpError::Format));
    let mut bad = bytes.clone();
    bad[688] = b'X';
    assert_eq!(DiskImage::load(bad).err(), Some(ScpError::Format));
    let mut no_magic = bytes;
    no_magic[0] = b'x';
    assert_eq!(DiskImage::load(no_magic).err(), Some(ScpError::Format));
}

#[test]
fn merge_takes_selected_slot_from_second() {
    let a_bytes = build_image(1, 0, 100, &full_slots(1));
    let b_bytes = build_image(1, 0, 900, &full_slots(1));
    let a = DiskImage::load(a_bytes).ok().unwrap();
    let b = DiskImage::load(b_bytes).ok().unwrap();
    let mut sel = default_selection();
    assert!(select(&mut sel, 5, 0, 1));
    let out = merge(&a, &b, &sel).unwrap();
    assert!(stored_checksum_holds(&out));
    let m = DiskImage::load(out).ok().unwrap();
    for i in 0..168 {
        let expected = if i == 10 { flux_bytes(&b, i, 0) } else { flux_bytes(&a, i, 0) };
        assert_eq!(flux_bytes(&m, i, 0), expected);
    }
    assert_ne!(flux_bytes(&m, 10, 0), flux_bytes(&a, 10, 0));
}

#[test]
fn merge_with_itself_reproduces_image() {
    let bytes = build_image(2, 0, 7, &full_slots(2));
    let a = DiskImage::load(bytes.clone()).ok().unwrap();
    let b = DiskImage::load(bytes.clone()).ok().unwrap();
    let out = merge(&a, &b, &default_selection()).unwrap();
    assert_eq!(out, bytes);
    assert_eq!(le32(&out, 12), le32(&bytes, 12));
}

#[test]
fn merge_keeps_empty_slots_of_first() {
    let mut slots = full_slots(1);
    slots[5] = None;
    slots[6] = None;
    let a = DiskImage::load(build_image(1, 0, 1, &slots)).ok().unwrap();
    let b = DiskImage::load(build_image(1, 0, 2, &full_slots(1))).ok().unwrap();
    let mut sel = default_selection();
    assert!(select(&mut sel, 2, 1, 1));
    assert!(select(&mut sel, 3, 0, 1));
    let out = merge(&a, &b, &sel).unwrap();
    assert_eq!(le32(&out, 16 + 4 * 5), 0);
    assert_eq!(le32(&out, 16 + 4 * 6), 0);
    assert_ne!(le32(&out, 16 + 4 * 7), 0);
    assert!(stored_checksum_holds(&out));
}

#[test]
fn merge_offsets_follow_each_other() {
    let mut slots = full_slots(3);
    slots[0] = Some(vec![5, 0, 2]);
    let a = DiskImage::load(build_image(3, 0, 1, &slots)).ok().unwrap();
    let b = DiskImage::load(build_image(3, 0, 2, &full_slots(3))).ok().unwrap();
    let out = merge(&a, &b, &default_selection()).unwrap();
    let p = le32(&out, 16) as usize;
    assert_eq!(p, 688);
    assert_eq!(le32(&out, p + 12), 40);
    assert_eq!(le32(&out, p + 24), 50);
    assert_eq!(le32(&out, p + 36), 50);
    let m = DiskImage::load(out).ok().unwrap();
    for i in 0..168 {
        let revs = &m.tracks[i].as_ref().unwrap().revs;
        for j in 1..revs.len() {
            assert_eq!(revs[j].offset, revs[j - 1].offset + 2 * revs[j - 1].num_bitcells);
        }
    }
}

#[test]
fn merge_rejects_selected_slot_missing_from_second() {
    let a = DiskImage::load(build_image(1, 0, 1, &full_slots(1))).ok().unwrap();
    let mut slots = full_slots(1);
    slots[10] = None;
    let b = DiskImage::load(build_image(1, 0, 2, &slots)).ok().unwrap();
    let mut sel = default_selection();
    assert!(select(&mut sel, 5, 0, 1));
    assert_eq!(merge(&a, &b, &sel).err(), Some(ScpError::Format));
    assert!(merge(&a, &b, &default_selection()).is_ok());
}

#[test]
fn merge_rejects_payload_past_end() {
    let bytes = build_image(1, 0, 1, &full_slots(1));
    let short = bytes[..bytes.len() - 2].to_vec();
    let a = DiskImage::load(short).ok().unwrap();
    let b = DiskImage::load(bytes).ok().unwrap();
    assert_eq!(merge(&a, &b, &default_selection()).err(), Some(ScpError::Format));
    let mut sel = default_selection();
    assert!(select(&mut sel, 83, 1, 1));
    assert!(merge(&a, &b, &sel).is_ok());
}

#[test]
fn select_checks_its_arguments() {
    let mut sel = default_selection();
    assert_eq!(sel.len(), 168);
    assert!(sel.iter().all(|&s| s == 0));
    assert!(select(&mut sel, 83, 1, 1));
    assert_eq!(sel[167], 1);
    assert!(select(&mut sel, 0, 1, 1));
    assert_eq!(sel[1], 1);
    assert!(!select(&mut sel, 84, 0, 1));
    assert!(!select(&mut sel, 1, 2, 1));
    assert!(!select(&mut sel, 1, 0, 2));
    assert_eq!(sel.iter().filter(|&&s| s == 1).count(), 2);
}
