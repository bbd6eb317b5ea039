//! The write-ahead log: the tagged mutation records and the on-disk
//! framing.
//!
//! Each record is framed as a 4-byte little-endian length followed by
//! that many bytes of the record's serialization. The reader tolerates a
//! torn tail: a scan stops at the first incomplete frame and keeps what
//! came before it.

use vstd::prelude::*;
use vstd::bytes::{
    lemma_auto_spec_u32_to_from_le_bytes, spec_u32_from_le_bytes, spec_u32_to_le_bytes,
    u32_from_le_bytes, u32_to_le_bytes,
};
use vstd::slice::{slice_subrange, slice_to_vec};

use crate::models::tags_map;

verus! {

/// View of an optional string.
pub open spec fn opt_str_view(o: Option<String>) -> Option<Seq<char>> {
    match o {
        Some(s) => Some(s@),
        None => None,
    }
}

/// View of an optional tag list.
pub open spec fn opt_tags_view(o: Option<Vec<(String, String)>>) -> Option<
    Map<Seq<char>, Seq<char>>,
> {
    match o {
        Some(v) => Some(tags_map(v@.map_values(|p: (String, String)| (p.0@, p.1@)))),
        None => None,
    }
}

/// Mathematical view of a log record.
#[allow(inconsistent_fields)]
pub ghost enum WalRec {
    RepoCreated {
        id: u128,
        name: Seq<char>,
        max_size_bytes: u64,
        default_ttl_seconds: Option<u64>,
        created_at: i64,
    },
    RepoUpdated {
        id: u128,
        name: Option<Seq<char>>,
        max_size_bytes: Option<u64>,
        default_ttl_seconds: Option<Option<u64>>,
        tags: Option<Map<Seq<char>, Seq<char>>>,
        updated_at: i64,
    },
    RepoDeleted { id: u128 },
    RepoSizeChanged { id: u128, current_size_bytes: u64, file_count: u64 },
    FileCreated {
        repo_id: u128,
        path: Seq<char>,
        size_bytes: u64,
        etag: Seq<char>,
        content_type: Seq<char>,
        created_at: i64,
        expires_at: Option<i64>,
    },
    FileDeleted { repo_id: u128, path: Seq<char> },
    FileMoved { repo_id: u128, source: Seq<char>, destination: Seq<char>, updated_at: i64 },
}

/// One durable metadata mutation. Every mutation that changes durable
/// state emits exactly one of these; append order is the serialization
/// order.
#[allow(inconsistent_fields)]
#[derive(Debug)]
pub enum WalEntry {
    RepoCreated {
        id: u128,
        name: String,
        max_size_bytes: u64,
        default_ttl_seconds: Option<u64>,
        created_at: i64,
    },
    RepoUpdated {
        id: u128,
        name: Option<String>,
        max_size_bytes: Option<u64>,
        default_ttl_seconds: Option<Option<u64>>,
        tags: Option<Vec<(String, String)>>,
        updated_at: i64,
    },
    RepoDeleted { id: u128 },
    RepoSizeChanged { id: u128, current_size_bytes: u64, file_count: u64 },
    FileCreated {
        repo_id: u128,
        path: String,
        size_bytes: u64,
        etag: String,
        content_type: String,
        created_at: i64,
        expires_at: Option<i64>,
    },
    FileDeleted { repo_id: u128, path: String },
    FileMoved { repo_id: u128, source: String, destination: String, updated_at: i64 },
}

impl View for WalEntry {
    type V = WalRec;

    open spec fn view(&self) -> WalRec {
        match self {
            WalEntry::RepoCreated { id, name, max_size_bytes, default_ttl_seconds, created_at } => WalRec::RepoCreated {
                id: *id,
                name: name@,
                max_size_bytes: *max_size_bytes,
                default_ttl_seconds: *default_ttl_seconds,
                created_at: *created_at,
            },
            WalEntry::RepoUpdated {
                id,
                name,
                max_size_bytes,
                default_ttl_seconds,
                tags,
                updated_at,
            } => WalRec::RepoUpdated {
                id: *id,
                name: opt_str_view(*name),
                max_size_bytes: *max_size_bytes,
                default_ttl_seconds: *default_ttl_seconds,
                tags: opt_tags_view(*tags),
                updated_at: *updated_at,
            },
            WalEntry::RepoDeleted { id } => WalRec::RepoDeleted { id: *id },
            WalEntry::RepoSizeChanged { id, current_size_bytes, file_count } => WalRec::RepoSizeChanged {
                id: *id,
                current_size_bytes: *current_size_bytes,
                file_count: *file_count,
            },
            WalEntry::FileCreated {
                repo_id,
                path,
                size_bytes,
                etag,
                content_type,
                created_at,
                expires_at,
            } => WalRec::FileCreated {
                repo_id: *repo_id,
                path: path@,
                size_bytes: *size_bytes,
                etag: etag@,
                content_type: content_type@,
                created_at: *created_at,
                expires_at: *expires_at,
            },
            WalEntry::FileDeleted { repo_id, path } => WalRec::FileDeleted {
                repo_id: *repo_id,
                path: path@,
            },
            WalEntry::FileMoved { repo_id, source, destination, updated_at } => WalRec::FileMoved {
                repo_id: *repo_id,
                source: source@,
                destination: destination@,
                updated_at: *updated_at,
            },
        }
    }
}

/// The frame of one payload: 4-byte little-endian length, then the
/// payload bytes.
pub open spec fn frame_of(p: Seq<u8>) -> Seq<u8> {
    spec_u32_to_le_bytes(p.len() as u32) + p
}

/// Frame one serialized record for appending to the log.
pub fn frame_payload(payload: &[u8]) -> (r: Vec<u8>)
    requires
        payload@.len() <= u32::MAX,
    ensures
        r@ == frame_of(payload@),
{
    let len = payload.len() as u32;
    let mut out = u32_to_le_bytes(len);
    let mut i: usize = 0;
    while i < payload.len()
        invariant
            i <= payload@.len(),
            payload@.len() <= u32::MAX,
            out@ == spec_u32_to_le_bytes(payload@.len() as u32) + payload@.subrange(
                0,
                i as int,
            ),
        decreases payload@.len() - i,
    {
        out.push(payload[i]);
        proof {
            assert(payload@.subrange(0, i + 1) =~= payload@.subrange(0, i as int).push(
                payload@[i as int],
            ));
            assert(out@ =~= spec_u32_to_le_bytes(payload@.len() as u32) + payload@.subrange(
                0,
                i + 1,
            ));
        }
        i += 1;
    }
    proof {
        assert(payload@.subrange(0, payload@.len() as int) =~= payload@);
    }
    out
}

/// The payloads of every complete frame at the head of `d`; the scan
/// stops at the first frame whose length prefix or body is cut short.
pub open spec fn scan_spec(d: Seq<u8>) -> Seq<Seq<u8>>
    decreases d.len(),
{
    if d.len() < 4 {
        Seq::empty()
    } else {
        let n = spec_u32_from_le_bytes(d.subrange(0, 4)) as int;
        if 4 + n > d.len() {
            Seq::empty()
        } else {
            seq![d.subrange(4, 4 + n)] + scan_spec(d.skip(4 + n))
        }
    }
}

/// Split a log image into the payloads of its complete frames.
pub fn scan_frames(data: &[u8]) -> (r: Vec<Vec<u8>>)
    ensures
        r@.map_values(|v: Vec<u8>| v@) == scan_spec(data@),
{
    let mut out: Vec<Vec<u8>> = Vec::new();
    let mut cursor: usize = 0;
    proof {
        assert(data@.skip(0) =~= data@);
        assert(out@.map_values(|v: Vec<u8>| v@) =~= Seq::<Seq<u8>>::empty());
    }
    loop
        invariant
            cursor <= data@.len(),
            scan_spec(data@) == out@.map_values(|v: Vec<u8>| v@) + scan_spec(
                data@.skip(cursor as int),
            ),
        decreases data@.len() - cursor,
    {
        let ghost rest = data@.skip(cursor as int);
        if data.len() - cursor < 4 {
            proof {
                assert(rest.len() < 4);
                assert(out@.map_values(|v: Vec<u8>| v@) + Seq::<Seq<u8>>::empty() =~= out@
                    .map_values(|v: Vec<u8>| v@));
            }
            return out;
        }
        let len_bytes = slice_subrange(data, cursor, cursor + 4);
        let n32 = u32_from_le_bytes(len_bytes);
        proof {
            assert(len_bytes@ =~= rest.subrange(0, 4));
        }
        let n = n32 as usize;
        if data.len() - cursor - 4 < n {
            proof {
                assert(4 + n32 > rest.len());
                assert(scan_spec(rest) =~= Seq::<Seq<u8>>::empty());
                assert(out@.map_values(|v: Vec<u8>| v@) + Seq::<Seq<u8>>::empty() =~= out@
                    .map_values(|v: Vec<u8>| v@));
            }
            return out;
        }
        let payload = slice_to_vec(slice_subrange(data, cursor + 4, cursor + 4 + n));
        proof {
            assert(payload@ =~= rest.subrange(4, 4 + n32 as int));
        }
        let ghost out0 = out@;
        out.push(payload);
        proof {
            assert(rest.skip(4 + n32 as int) =~= data@.skip(cursor + 4 + n32 as int));
            assert(scan_spec(rest) == seq![rest.subrange(4, 4 + n32 as int)] + scan_spec(
                rest.skip(4 + n32 as int),
            ));
            assert(out@.map_values(|v: Vec<u8>| v@) =~= out0.map_values(|v: Vec<u8>| v@).push(
                rest.subrange(4, 4 + n32 as int),
            ));
            assert(out0.map_values(|v: Vec<u8>| v@).push(rest.subrange(4, 4 + n32 as int))
                + scan_spec(rest.skip(4 + n32 as int)) =~= out0.map_values(|v: Vec<u8>| v@)
                + scan_spec(rest));
        }
        cursor = cursor + 4 + n;
    }
}

/// The concatenation of the frames of a payload sequence.
pub open spec fn frames_concat(ps: Seq<Seq<u8>>) -> Seq<u8>
    decreases ps.len(),
{
    if ps.len() == 0 {
        Seq::empty()
    } else {
        frame_of(ps[0]) + frames_concat(ps.drop_first())
    }
}

/// A byte tail that holds no complete frame: it is shorter than a length
/// prefix, or announces more bytes than it has.
pub open spec fn torn_tail(t: Seq<u8>) -> bool {
    t.len() < 4 || 4 + spec_u32_from_le_bytes(t.subrange(0, 4)) > t.len()
}

/// Recovery tolerates truncation: scanning a log image that holds whole
/// frames followed by a torn tail yields exactly the whole frames'
/// payloads.
pub proof fn lemma_scan_torn_tail(ps: Seq<Seq<u8>>, t: Seq<u8>)
    requires
        forall|i: int| 0 <= i < ps.len() ==> (#[trigger] ps[i]).len() <= u32::MAX,
        torn_tail(t),
    ensures
        scan_spec(frames_concat(ps) + t) == ps,
    decreases ps.len(),
{
    lemma_auto_spec_u32_to_from_le_bytes();
    if ps.len() == 0 {
        assert(frames_concat(ps) + t =~= t);
        assert(scan_spec(t) =~= Seq::<Seq<u8>>::empty());
        assert(scan_spec(frames_concat(ps) + t) =~= ps);
    } else {
        let p = ps[0];
        let d = frames_concat(ps) + t;
        let rest = frames_concat(ps.drop_first()) + t;
        assert(d =~= frame_of(p) + rest);
        assert(d.len() >= 4 + p.len());
        assert(d.subrange(0, 4) =~= spec_u32_to_le_bytes(p.len() as u32));
        assert(spec_u32_from_le_bytes(d.subrange(0, 4)) == p.len());
        assert(d.subrange(4, 4 + p.len() as int) =~= p);
        assert(d.skip(4 + p.len() as int) =~= rest);
        lemma_scan_torn_tail(ps.drop_first(), t);
        assert(forall|i: int|
            0 <= i < ps.drop_first().len() ==> (#[trigger] ps.drop_first()[i]).len()
                <= u32::MAX);
        assert(scan_spec(d) == seq![p] + ps.drop_first());
        assert(seq![p] + ps.drop_first() =~= ps);
    }
}

} // verus!
