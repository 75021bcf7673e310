use vstd::prelude::*;
use crate::bytes::{byte_of, le32_at, lemma_div_exact, lemma_le32_of_bytes, push_u32, read_u32};

verus! {

/// Number of track slots in an image: track number times two plus side.
pub const TRACK_SLOTS: usize = 168;

/// Size in bytes of an encoded header.
pub const HEADER_LEN: usize = 688;

/// Byte offset of the slot offset table inside the header.
pub const SLOT_TABLE_START: usize = 16;

/// Ways a run can fail.
#[derive(Clone, Copy, Debug, PartialEq, Eq, Structural)]
pub enum ScpError {
    /// A magic tag is absent, a structure is truncated, or the data a slot
    /// needs is missing.
    Format,
    /// The image uses a bitcell time other than the standard one.
    UnsupportedFormat,
    /// Reading or writing a file failed.
    Io,
}

/// One captured revolution of a track.
#[derive(Clone, Copy, Debug, PartialEq, Eq, Structural)]
pub struct Revolution {
    pub duration: u32,
    pub num_bitcells: u32,
    /// Position of the flux payload, counted from the start of the track.
    pub offset: u32,
}

/// A track structure: its number and one record per revolution.
#[derive(Debug)]
pub struct Track {
    pub track_number: u8,
    pub revs: Vec<Revolution>,
}

/// The image header.
#[derive(Debug)]
pub struct Header {
    pub version: u8,
    pub disk_type: u8,
    pub rev_count: u8,
    pub start_track: u8,
    pub end_track: u8,
    pub flags: u8,
    pub bitcell_time: u8,
    pub heads: u8,
    pub resolution: u8,
    pub checksum: u32,
    /// Absolute offset of each slot's track, 0 for an empty slot.
    pub track_data_headers: Vec<u32>,
}

impl Header {
    pub open spec fn wf(&self) -> bool {
        self.track_data_headers@.len() == TRACK_SLOTS
    }
}

/// Encoded size of a track with `rc` revolutions.
pub open spec fn track_len(rc: nat) -> int {
    4 + 12 * (rc as int)
}

/// Byte `m` of an encoded revolution record.
pub open spec fn rev_byte(r: Revolution, m: int) -> u8 {
    if m < 4 {
        byte_of(r.duration, m)
    } else if m < 8 {
        byte_of(r.num_bitcells, m - 4)
    } else {
        byte_of(r.offset, m - 8)
    }
}

/// Byte `k` of the encoding of a track numbered `number` with records `revs`.
pub open spec fn record_byte(number: u8, revs: Seq<Revolution>, k: int) -> u8 {
    if k == 0 {
        0x54u8
    } else if k == 1 {
        0x52u8
    } else if k == 2 {
        0x4bu8
    } else if k == 3 {
        number
    } else {
        rev_byte(revs[(k - 4) / 12], (k - 4) % 12)
    }
}

/// Byte `k` of the encoding of `h`.
pub open spec fn header_byte(h: Header, k: int) -> u8 {
    if k == 0 {
        0x53u8
    } else if k == 1 {
        0x43u8
    } else if k == 2 {
        0x50u8
    } else if k == 3 {
        h.version
    } else if k == 4 {
        h.disk_type
    } else if k == 5 {
        h.rev_count
    } else if k == 6 {
        h.start_track
    } else if k == 7 {
        h.end_track
    } else if k == 8 {
        h.flags
    } else if k == 9 {
        h.bitcell_time
    } else if k == 10 {
        h.heads
    } else if k == 11 {
        h.resolution
    } else if k < 16 {
        byte_of(h.checksum, k - 12)
    } else {
        byte_of(h.track_data_headers@[(k - 16) / 4], (k - 16) % 4)
    }
}

/// The encoding of a track numbered `number` with records `revs`.
pub open spec fn record_bytes(number: u8, revs: Seq<Revolution>) -> Seq<u8> {
    Seq::new(track_len(revs.len()) as nat, |k: int| record_byte(number, revs, k))
}

/// The encoding of a track.
pub open spec fn track_bytes(t: Track) -> Seq<u8> {
    record_bytes(t.track_number, t.revs@)
}

/// The encoding of a header.
pub open spec fn header_bytes(h: Header) -> Seq<u8> {
    Seq::new(HEADER_LEN as nat, |k: int| header_byte(h, k))
}

/// `d` starts with a complete header and its magic tag.
pub open spec fn has_header(d: Seq<u8>) -> bool {
    d.len() >= HEADER_LEN && d[0] == 0x53u8 && d[1] == 0x43u8 && d[2] == 0x50u8
}

/// Entry `i` of the slot offset table stored in `d`.
pub open spec fn slot_offset(d: Seq<u8>, i: int) -> u32 {
    le32_at(d, SLOT_TABLE_START + 4 * i)
}

/// `h` holds the fields stored in the header at the start of `d`.
pub open spec fn header_read(h: Header, d: Seq<u8>) -> bool {
    &&& h.wf()
    &&& h.version == d[3]
    &&& h.disk_type == d[4]
    &&& h.rev_count == d[5]
    &&& h.start_track == d[6]
    &&& h.end_track == d[7]
    &&& h.flags == d[8]
    &&& h.bitcell_time == d[9]
    &&& h.heads == d[10]
    &&& h.resolution == d[11]
    &&& h.checksum == le32_at(d, 12)
    &&& forall|i: int| 0 <= i < TRACK_SLOTS ==> #[trigger] h.track_data_headers@[i] == slot_offset(d, i)
}

/// `d` holds a complete track with `rc` revolutions, and its magic tag, at `p`.
pub open spec fn has_track(d: Seq<u8>, p: int, rc: nat) -> bool {
    &&& 0 <= p
    &&& p + track_len(rc) <= d.len()
    &&& d[p] == 0x54u8
    &&& d[p + 1] == 0x52u8
    &&& d[p + 2] == 0x4bu8
}

/// `number` and `revs` are the fields of the track stored at `p` in `d`.
pub open spec fn records_read(number: u8, revs: Seq<Revolution>, d: Seq<u8>, p: int) -> bool {
    &&& number == d[p + 3]
    &&& forall|j: int|
        0 <= j < revs.len() ==> {
            &&& (#[trigger] revs[j]).duration == le32_at(d, p + 4 + 12 * j)
            &&& revs[j].num_bitcells == le32_at(d, p + 8 + 12 * j)
            &&& revs[j].offset == le32_at(d, p + 12 + 12 * j)
        }
}

/// `t` holds the fields of the track with `rc` revolutions stored at `p` in `d`.
pub open spec fn track_read(t: Track, d: Seq<u8>, p: int, rc: nat) -> bool {
    &&& t.revs@.len() == rc
    &&& records_read(t.track_number, t.revs@, d, p)
}

/// Track bytes laid out at `p` read back as the fields they encode.
pub proof fn lemma_record_placed(number: u8, revs: Seq<Revolution>, d: Seq<u8>, p: int)
    requires
        0 <= p,
        p + track_len(revs.len()) <= d.len(),
        forall|k: int| 0 <= k < track_len(revs.len()) ==> d[p + k] == #[trigger] record_byte(number, revs, k),
    ensures
        has_track(d, p, revs.len()),
        records_read(number, revs, d, p),
{
    let n = revs.len();
    assert(d[p + 0] == record_byte(number, revs, 0));
    assert(d[p + 1] == record_byte(number, revs, 1));
    assert(d[p + 2] == record_byte(number, revs, 2));
    assert(d[p + 3] == record_byte(number, revs, 3));
    assert forall|j: int| 0 <= j < n implies {
        &&& (#[trigger] revs[j]).duration == le32_at(d, p + 4 + 12 * j)
        &&& revs[j].num_bitcells == le32_at(d, p + 8 + 12 * j)
        &&& revs[j].offset == le32_at(d, p + 12 + 12 * j)
    } by {
        let r = revs[j];
        assert forall|m: int| 0 <= m < 12 implies d[p + 4 + 12 * j + m] == rev_byte(r, m) by {
            lemma_div_exact(j, 12, m);
            assert(d[p + (4 + 12 * j + m)] == record_byte(number, revs, 4 + 12 * j + m));
        }
        assert(d[p + 4 + 12 * j + 0] == rev_byte(r, 0));
        assert(d[p + 4 + 12 * j + 1] == rev_byte(r, 1));
        assert(d[p + 4 + 12 * j + 2] == rev_byte(r, 2));
        assert(d[p + 4 + 12 * j + 3] == rev_byte(r, 3));
        assert(d[p + 4 + 12 * j + 4] == rev_byte(r, 4));
        assert(d[p + 4 + 12 * j + 5] == rev_byte(r, 5));
        assert(d[p + 4 + 12 * j + 6] == rev_byte(r, 6));
        assert(d[p + 4 + 12 * j + 7] == rev_byte(r, 7));
        assert(d[p + 4 + 12 * j + 8] == rev_byte(r, 8));
        assert(d[p + 4 + 12 * j + 9] == rev_byte(r, 9));
        assert(d[p + 4 + 12 * j + 10] == rev_byte(r, 10));
        assert(d[p + 4 + 12 * j + 11] == rev_byte(r, 11));
        lemma_le32_of_bytes(d, p + 4 + 12 * j, r.duration);
        lemma_le32_of_bytes(d, p + 8 + 12 * j, r.num_bitcells);
        lemma_le32_of_bytes(d, p + 12 + 12 * j, r.offset);
    }
}

/// Header bytes at the start of `d` read back as the header's own fields.
pub proof fn lemma_header_placed(h: Header, d: Seq<u8>)
    requires
        h.wf(),
        HEADER_LEN <= d.len(),
        forall|k: int| 0 <= k < HEADER_LEN ==> d[k] == #[trigger] header_byte(h, k),
    ensures
        has_header(d),
        header_read(h, d),
{
    assert(d[0] == header_byte(h, 0));
    assert(d[1] == header_byte(h, 1));
    assert(d[2] == header_byte(h, 2));
    assert(d[3] == header_byte(h, 3));
    assert(d[4] == header_byte(h, 4));
    assert(d[5] == header_byte(h, 5));
    assert(d[6] == header_byte(h, 6));
    assert(d[7] == header_byte(h, 7));
    assert(d[8] == header_byte(h, 8));
    assert(d[9] == header_byte(h, 9));
    assert(d[10] == header_byte(h, 10));
    assert(d[11] == header_byte(h, 11));
    assert(d[12] == header_byte(h, 12));
    assert(d[13] == header_byte(h, 13));
    assert(d[14] == header_byte(h, 14));
    assert(d[15] == header_byte(h, 15));
    lemma_le32_of_bytes(d, 12, h.checksum);
    assert forall|i: int| 0 <= i < TRACK_SLOTS implies #[trigger] h.track_data_headers@[i]
        == slot_offset(d, i) by {
        let v = h.track_data_headers@[i];
        assert forall|m: int| 0 <= m < 4 implies d[16 + 4 * i + m] == byte_of(v, m) by {
            lemma_div_exact(i, 4, m);
            assert(d[16 + 4 * i + m] == header_byte(h, 16 + 4 * i + m));
        }
        assert(d[16 + 4 * i + 0] == byte_of(v, 0));
        assert(d[16 + 4 * i + 1] == byte_of(v, 1));
        assert(d[16 + 4 * i + 2] == byte_of(v, 2));
        assert(d[16 + 4 * i + 3] == byte_of(v, 3));
        lemma_le32_of_bytes(d, 16 + 4 * i, v);
    }
}

/// Appends the encoding of `t`.
pub fn write_track(t: &Track, out: &mut Vec<u8>)
    requires
        t.revs@.len() <= 255,
    ensures
        final(out)@ == old(out)@ + track_bytes(*t),
{
    let ghost base = old(out)@.len();
    out.push(0x54u8);
    out.push(0x52u8);
    out.push(0x4bu8);
    out.push(t.track_number);
    let mut j: usize = 0;
    while j < t.revs.len()
        invariant
            j <= t.revs@.len() <= 255,
            out@.len() == base + 4 + 12 * j,
            forall|k: int| 0 <= k < base ==> out@[k] == old(out)@[k],
            forall|k: int| 0 <= k < 4 + 12 * j ==> out@[base + k] == record_byte(t.track_number, t.revs@, k),
        decreases t.revs@.len() - j,
    {
        let r = t.revs[j];
        let ghost before = out@;
        push_u32(out, r.duration);
        push_u32(out, r.num_bitcells);
        push_u32(out, r.offset);
        proof {
            assert forall|k: int| 0 <= k < 4 + 12 * (j + 1) implies out@[base + k] == record_byte(
                t.track_number,
                t.revs@,
                k,
            ) by {
                if k >= 4 + 12 * j {
                    lemma_div_exact(j as int, 12, k - 4 - 12 * j);
                    assert(4 + 12 * j + (k - 4 - 12 * j) == k);
                }
            }
        }
        j = j + 1;
    }
    assert(final(out)@ =~= old(out)@ + track_bytes(*t));
}

/// Appends the encoding of `h`.
pub fn write_header(h: &Header, out: &mut Vec<u8>)
    requires
        h.wf(),
    ensures
        final(out)@ == old(out)@ + header_bytes(*h),
{
    let ghost base = old(out)@.len();
    out.push(0x53u8);
    out.push(0x43u8);
    out.push(0x50u8);
    out.push(h.version);
    out.push(h.disk_type);
    out.push(h.rev_count);
    out.push(h.start_track);
    out.push(h.end_track);
    out.push(h.flags);
    out.push(h.bitcell_time);
    out.push(h.heads);
    out.push(h.resolution);
    push_u32(out, h.checksum);
    let mut i: usize = 0;
    while i < TRACK_SLOTS
        invariant
            i <= TRACK_SLOTS,
            h.wf(),
            out@.len() == base + 16 + 4 * i,
            forall|k: int| 0 <= k < base ==> out@[k] == old(out)@[k],
            forall|k: int| 0 <= k < 16 + 4 * i ==> out@[base + k] == header_byte(*h, k),
        decreases TRACK_SLOTS - i,
    {
        push_u32(out, h.track_data_headers[i]);
        proof {
            assert forall|k: int| 0 <= k < 16 + 4 * (i + 1) implies out@[base + k] == header_byte(*h, k) by {
                if k >= 16 + 4 * i {
                    lemma_div_exact(i as int, 4, k - 16 - 4 * i);
                    assert(16 + 4 * i + (k - 16 - 4 * i) == k);
                }
            }
        }
        i = i + 1;
    }
    assert(final(out)@ =~= old(out)@ + header_bytes(*h));
}

/// Decodes the header at the start of `d`.
pub fn decode_header(d: &[u8]) -> (r: Result<Header, ScpError>)
    ensures
        r.is_ok() <==> has_header(d@),
        r.is_err() ==> r == Err::<Header, ScpError>(ScpError::Format),
        r matches Ok(h) ==> header_read(h, d@),
{
    if d.len() < HEADER_LEN || d[0] != 0x53u8 || d[1] != 0x43u8 || d[2] != 0x50u8 {
        return Err(ScpError::Format);
    }
    let mut slots: Vec<u32> = Vec::new();
    let mut i: usize = 0;
    while i < TRACK_SLOTS
        invariant
            i <= TRACK_SLOTS,
            has_header(d@),
            slots@.len() == i,
            forall|k: int| 0 <= k < i ==> #[trigger] slots@[k] == slot_offset(d@, k),
        decreases TRACK_SLOTS - i,
    {
        slots.push(read_u32(d, SLOT_TABLE_START + 4 * i));
        i = i + 1;
    }
    Ok(Header {
        version: d[3],
        disk_type: d[4],
        rev_count: d[5],
        start_track: d[6],
        end_track: d[7],
        flags: d[8],
        bitcell_time: d[9],
        heads: d[10],
        resolution: d[11],
        checksum: read_u32(d, 12),
        track_data_headers: slots,
    })
}

/// Decodes the track with `rev_count` revolutions at byte `p` of `d`.
pub fn decode_track(d: &[u8], p: usize, rev_count: u8) -> (r: Result<Track, ScpError>)
    ensures
        r.is_ok() <==> has_track(d@, p as int, rev_count as nat),
        r.is_err() ==> r == Err::<Track, ScpError>(ScpError::Format),
        r matches Ok(t) ==> track_read(t, d@, p as int, rev_count as nat),
{
    let size: usize = 4 + 12 * rev_count as usize;
    if p > d.len() || d.len() - p < size || d[p] != 0x54u8 || d[p + 1] != 0x52u8 || d[p + 2]
        != 0x4bu8 {
        return Err(ScpError::Format);
    }
    let n: usize = d.len();
    let mut revs: Vec<Revolution> = Vec::new();
    let mut j: usize = 0;
    while j < rev_count as usize
        invariant
            j <= rev_count,
            p + size <= d@.len(),
            n == d@.len(),
            size == track_len(rev_count as nat),
            revs@.len() == j,
            forall|k: int|
                0 <= k < j ==> {
                    &&& (#[trigger] revs@[k]).duration == le32_at(d@, p + 4 + 12 * k)
                    &&& revs@[k].num_bitcells == le32_at(d@, p + 8 + 12 * k)
                    &&& revs@[k].offset == le32_at(d@, p + 12 + 12 * k)
                },
        decreases rev_count - j,
    {
        proof {
            assert(12 * j + 12 <= 12 * (rev_count as int)) by (nonlinear_arith)
                requires
                    j < rev_count,
            ;
        }
        let base: usize = p + 4 + 12 * j;
        let duration = read_u32(d, base);
        let num_bitcells = read_u32(d, base + 4);
        let offset = read_u32(d, base + 8);
        revs.push(Revolution { duration, num_bitcells, offset });
        j = j + 1;
    }
    Ok(Track { track_number: d[p + 3], revs })
}

} // verus!
