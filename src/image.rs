use vstd::prelude::*;
use crate::format::{
    decode_header, decode_track, has_header, has_track, header_read, slot_offset, track_read,
    Header, ScpError, Track, TRACK_SLOTS,
};

verus! {

/// A loaded image: its bytes, its decoded header and the track of each slot.
///
/// Track and revolution records are decoded when the image is loaded; flux
/// payloads stay in `data` and are read from there when they are needed.
pub struct DiskImage {
    pub data: Vec<u8>,
    pub header: Header,
    pub tracks: Vec<Option<Track>>,
}

/// Slot `i` of the image in `d` is empty or points at a complete track.
pub open spec fn slot_loadable(d: Seq<u8>, i: int) -> bool {
    slot_offset(d, i) == 0 || has_track(d, slot_offset(d, i) as int, d[5] as nat)
}

/// Every slot of the image in `d` is empty or points at a complete track.
pub open spec fn tracks_loadable(d: Seq<u8>) -> bool {
    forall|i: int| 0 <= i < TRACK_SLOTS ==> #[trigger] slot_loadable(d, i)
}

impl DiskImage {
    /// The header and tracks are those stored in `data`.
    pub open spec fn wf(&self) -> bool {
        &&& has_header(self.data@)
        &&& header_read(self.header, self.data@)
        &&& self.header.bitcell_time == 0
        &&& self.tracks@.len() == TRACK_SLOTS
        &&& forall|i: int|
            0 <= i < TRACK_SLOTS ==> {
                &&& (#[trigger] self.tracks@[i] is None <==> self.header.track_data_headers@[i] == 0)
                &&& (self.tracks@[i] matches Some(t) ==> {
                    &&& has_track(
                        self.data@,
                        self.header.track_data_headers@[i] as int,
                        self.header.rev_count as nat,
                    )
                    &&& track_read(
                        t,
                        self.data@,
                        self.header.track_data_headers@[i] as int,
                        self.header.rev_count as nat,
                    )
                })
            }
    }

    /// Decodes the image held in `data`.
    pub fn load(data: Vec<u8>) -> (r: Result<DiskImage, ScpError>)
        ensures
            r matches Err(e) ==> (e == ScpError::Format || e == ScpError::UnsupportedFormat),
            r == Err::<DiskImage, ScpError>(ScpError::Format) <==> !has_header(data@) || (
            data@[9] == 0 && !tracks_loadable(data@)),
            r == Err::<DiskImage, ScpError>(ScpError::UnsupportedFormat) <==> has_header(data@)
                && data@[9] != 0,
            r matches Ok(img) ==> img.wf() && img.data@ == data@,
    {
        let header = match decode_header(data.as_slice()) {
            Ok(h) => h,
            Err(e) => {
                return Err(e);
            },
        };
        if header.bitcell_time != 0 {
            return Err(ScpError::UnsupportedFormat);
        }
        let mut tracks: Vec<Option<Track>> = Vec::new();
        let mut i: usize = 0;
        while i < TRACK_SLOTS
            invariant
                i <= TRACK_SLOTS,
                header_read(header, data@),
                header.bitcell_time == 0,
                tracks@.len() == i,
                forall|k: int| 0 <= k < i ==> #[trigger] slot_loadable(data@, k),
                forall|k: int|
                    0 <= k < i ==> {
                        &&& (#[trigger] tracks@[k] is None <==> header.track_data_headers@[k] == 0)
                        &&& (tracks@[k] matches Some(t) ==> {
                            &&& has_track(
                                data@,
                                header.track_data_headers@[k] as int,
                                header.rev_count as nat,
                            )
                            &&& track_read(
                                t,
                                data@,
                                header.track_data_headers@[k] as int,
                                header.rev_count as nat,
                            )
                        })
                    },
            decreases TRACK_SLOTS - i,
        {
            let offset = header.track_data_headers[i];
            assert(offset == slot_offset(data@, i as int));
            if offset == 0 {
                tracks.push(None);
            } else {
                match decode_track(data.as_slice(), offset as usize, header.rev_count) {
                    Ok(t) => {
                        tracks.push(Some(t));
                    },
                    Err(e) => {
                        assert(!slot_loadable(data@, i as int));
                        return Err(e);
                    },
                }
            }
            i = i + 1;
        }
        Ok(DiskImage { data, header, tracks })
    }
}

} // verus!
