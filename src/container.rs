//! The PackFile container: header, index and payloads.
//!
//! Layout: the signature `PFH5`; a 32-bit word holding the type ordinal (bits 0-3)
//! and the flags (bit 4 data encrypted, 5 data compressed, 6 index timestamps,
//! 7 index encrypted, 8 extended header); the entry count; the byte length of the
//! index; twenty reserved bytes when the header is extended; the index; then the
//! payloads, concatenated in index order. An index record is the payload size, a
//! 32-bit timestamp when the header asks for one, and the path: a 16-bit segment
//! count, then each segment as a 16-bit count of UTF-16 code units and the units.
//!
//! Encryption and compression are transforms of the host: this codec reads and
//! writes the index and payloads as they stand and carries the flags as metadata.

use vstd::prelude::*;

use crate::bytes::{
    Cursor, le32, string16_bytes, take_string16, take_u16, take_u32, u16_bytes, u32_bytes,
    write_bytes, write_string16, write_u16, write_u32,
};
use crate::bytes::{
    lemma_string16_round_trip, lemma_string16_split, lemma_u16_round_trip, lemma_u16_split,
    lemma_u32_round_trip, lemma_u32_split,
};
use crate::error::PackError;
use crate::path::{copy_path, is_valid_path, path_view, paths_equal, valid_path};

verus! {

/// What an archive is for, by its ordinal 0 to 4.
#[derive(Debug, Clone, Copy, PartialEq, Eq, Structural)]
pub enum PackFileType {
    Boot,
    Release,
    Patch,
    Mod,
    Movie,
}

/// The type of an archive and the flags that describe its layout.
#[derive(Debug, Clone, Copy, PartialEq, Eq, Structural)]
pub struct Header {
    pub pack_file_type: PackFileType,
    pub data_is_encrypted: bool,
    pub index_has_timestamp: bool,
    pub index_is_encrypted: bool,
    pub header_is_extended: bool,
    pub data_is_compressed: bool,
}

/// One named payload.
#[derive(Debug)]
pub struct Entry {
    pub path: Vec<Vec<u16>>,
    pub timestamp: Option<u32>,
    pub data: Vec<u8>,
}

/// An archive: its header and its entries, in the order they are written.
#[derive(Debug)]
pub struct Container {
    pub header: Header,
    pub entries: Vec<Entry>,
}

pub struct EntryView {
    pub path: Seq<Seq<u16>>,
    pub timestamp: Option<u32>,
    pub data: Seq<u8>,
}

pub struct ContainerView {
    pub header: Header,
    pub entries: Seq<EntryView>,
}

impl View for Entry {
    type V = EntryView;

    open spec fn view(&self) -> EntryView {
        EntryView { path: path_view(self.path@), timestamp: self.timestamp, data: self.data@ }
    }
}

pub open spec fn entries_view(es: Seq<Entry>) -> Seq<EntryView> {
    es.map_values(|e: Entry| e@)
}

impl View for Container {
    type V = ContainerView;

    open spec fn view(&self) -> ContainerView {
        ContainerView { header: self.header, entries: entries_view(self.entries@) }
    }
}

/// One record of the index.
pub struct IndexRecord {
    pub path: Seq<Seq<u16>>,
    pub size: u32,
    pub timestamp: Option<u32>,
}

/// No two entries share a path.
pub open spec fn unique_paths(es: Seq<EntryView>) -> bool {
    forall|i: int, j: int|
        0 <= i < es.len() && 0 <= j < es.len() && i != j ==> (#[trigger] es[i]).path
            != (#[trigger] es[j]).path
}

/// An entry that the format can hold.
pub open spec fn valid_entry(e: EntryView) -> bool {
    valid_path(e.path) && e.data.len() <= u32::MAX
}

/// The container invariant: valid entries with unique paths, counted in 32 bits.
pub open spec fn wf_view(c: ContainerView) -> bool {
    &&& c.entries.len() <= u32::MAX
    &&& forall|i: int| 0 <= i < c.entries.len() ==> valid_entry(#[trigger] c.entries[i])
    &&& unique_paths(c.entries)
}

/// Every entry has a timestamp exactly when the index records them.
pub open spec fn stamps_match(c: ContainerView) -> bool {
    forall|i: int|
        0 <= i < c.entries.len() ==> ((#[trigger] c.entries[i]).timestamp is Some
            <==> c.header.index_has_timestamp)
}

pub open spec fn magic() -> Seq<u8> {
    seq![0x50u8, 0x46u8, 0x48u8, 0x35u8]
}

pub open spec fn type_ordinal(t: PackFileType) -> u32 {
    match t {
        PackFileType::Boot => 0,
        PackFileType::Release => 1,
        PackFileType::Patch => 2,
        PackFileType::Mod => 3,
        PackFileType::Movie => 4,
    }
}

pub open spec fn type_of_ordinal(o: u32) -> PackFileType {
    if o == 0 {
        PackFileType::Boot
    } else if o == 1 {
        PackFileType::Release
    } else if o == 2 {
        PackFileType::Patch
    } else if o == 3 {
        PackFileType::Mod
    } else {
        PackFileType::Movie
    }
}

pub open spec fn bit(b: bool, weight: u32) -> u32 {
    if b {
        weight
    } else {
        0
    }
}

/// The type and flags packed in one word.
pub open spec fn header_word(h: Header) -> u32 {
    (type_ordinal(h.pack_file_type) + bit(h.data_is_encrypted, 16) + bit(h.data_is_compressed, 32)
        + bit(h.index_has_timestamp, 64) + bit(h.index_is_encrypted, 128) + bit(
        h.header_is_extended,
        256,
    )) as u32
}

/// The header a word describes; none for an unknown ordinal or an unknown flag.
pub open spec fn header_of_word(w: u32) -> Option<Header> {
    if w >= 512 || w % 16 > 4 {
        None
    } else {
        Some(
            Header {
                pack_file_type: type_of_ordinal(w % 16),
                data_is_encrypted: (w / 16) % 2 == 1,
                data_is_compressed: (w / 32) % 2 == 1,
                index_has_timestamp: (w / 64) % 2 == 1,
                index_is_encrypted: (w / 128) % 2 == 1,
                header_is_extended: w / 256 == 1,
            },
        )
    }
}

/// The size of the header: sixteen bytes, and twenty more when extended.
pub open spec fn header_len(h: Header) -> nat {
    if h.header_is_extended {
        36
    } else {
        16
    }
}

pub open spec fn take_segments(s: Seq<u8>, n: nat) -> Option<(Seq<Seq<u16>>, Seq<u8>)>
    decreases n,
{
    if n == 0 {
        Some((Seq::empty(), s))
    } else {
        match take_string16(s) {
            None => None,
            Some((u, r)) => match take_segments(r, (n - 1) as nat) {
                None => None,
                Some((us, r2)) => Some((seq![u] + us, r2)),
            },
        }
    }
}

pub open spec fn take_path(s: Seq<u8>) -> Option<(Seq<Seq<u16>>, Seq<u8>)> {
    match take_u16(s) {
        None => None,
        Some((n, r)) => take_segments(r, n as nat),
    }
}

pub open spec fn take_timestamp(s: Seq<u8>, stamped: bool) -> Option<(Option<u32>, Seq<u8>)> {
    if stamped {
        match take_u32(s) {
            Some((t, r)) => Some((Some(t), r)),
            None => None,
        }
    } else {
        Some((None, s))
    }
}

pub open spec fn take_record(s: Seq<u8>, stamped: bool) -> Option<(IndexRecord, Seq<u8>)> {
    match take_u32(s) {
        None => None,
        Some((size, r1)) => match take_timestamp(r1, stamped) {
            None => None,
            Some((ts, r2)) => match take_path(r2) {
                None => None,
                Some((p, r3)) => Some((IndexRecord { path: p, size, timestamp: ts }, r3)),
            },
        },
    }
}

pub open spec fn take_records(s: Seq<u8>, stamped: bool, n: nat) -> Option<
    (Seq<IndexRecord>, Seq<u8>),
>
    decreases n,
{
    if n == 0 {
        Some((Seq::empty(), s))
    } else {
        match take_record(s, stamped) {
            None => None,
            Some((r, s2)) => match take_records(s2, stamped, (n - 1) as nat) {
                None => None,
                Some((rs, s3)) => Some((seq![r] + rs, s3)),
            },
        }
    }
}

/// Cuts the payloads of the records, in order, from the front of `s`.
pub open spec fn take_payloads(recs: Seq<IndexRecord>, s: Seq<u8>) -> Option<Seq<EntryView>>
    decreases recs.len(),
{
    if recs.len() == 0 {
        Some(Seq::empty())
    } else if s.len() < recs[0].size {
        None
    } else {
        match take_payloads(recs.drop_first(), s.skip(recs[0].size as int)) {
            None => None,
            Some(es) => Some(
                seq![
                    EntryView {
                        path: recs[0].path,
                        timestamp: recs[0].timestamp,
                        data: s.take(recs[0].size as int),
                    },
                ] + es,
            ),
        }
    }
}

pub open spec fn records_valid(recs: Seq<IndexRecord>) -> bool {
    &&& forall|i: int| 0 <= i < recs.len() ==> valid_path((#[trigger] recs[i]).path)
    &&& forall|i: int, j: int|
        0 <= i < recs.len() && 0 <= j < recs.len() && i != j ==> (#[trigger] recs[i]).path
            != (#[trigger] recs[j]).path
}

/// What decoding an archive gives: the container, or the first error met, in the
/// order header, index bounds, index records, paths, payload bounds.
pub open spec fn spec_decode(b: Seq<u8>) -> Result<ContainerView, PackError> {
    if b.len() < 16 || b.take(4) != magic() {
        Err(PackError::MalformedHeader)
    } else {
        match header_of_word(le32(b.skip(4))) {
            None => Err(PackError::MalformedHeader),
            Some(h) => if b.len() < header_len(h) {
                Err(PackError::MalformedHeader)
            } else {
                let count = le32(b.skip(8));
                let ilen = le32(b.skip(12));
                let start = header_len(h) as int;
                if b.len() - start < ilen {
                    Err(PackError::TruncatedData)
                } else {
                    match take_records(
                        b.subrange(start, start + ilen),
                        h.index_has_timestamp,
                        count as nat,
                    ) {
                        None => Err(PackError::IndexCorrupt),
                        Some((recs, rest)) => if rest.len() > 0 || !records_valid(recs) {
                            Err(PackError::IndexCorrupt)
                        } else {
                            match take_payloads(recs, b.skip(start + ilen)) {
                                None => Err(PackError::TruncatedData),
                                Some(es) => Ok(ContainerView { header: h, entries: es }),
                            }
                        },
                    }
                }
            },
        }
    }
}

/// The index record written for an entry.
pub open spec fn record_of(e: EntryView, stamped: bool) -> IndexRecord {
    IndexRecord {
        path: e.path,
        size: e.data.len() as u32,
        timestamp: if stamped {
            Some(
                match e.timestamp {
                    Some(t) => t,
                    None => 0,
                },
            )
        } else {
            None
        },
    }
}

pub open spec fn segments_bytes(p: Seq<Seq<u16>>) -> Seq<u8> {
    p.map_values(|u: Seq<u16>| string16_bytes(u)).flatten()
}

pub open spec fn path_bytes(p: Seq<Seq<u16>>) -> Seq<u8> {
    u16_bytes(p.len() as u16) + segments_bytes(p)
}

pub open spec fn stamp_bytes(ts: Option<u32>) -> Seq<u8> {
    match ts {
        Some(t) => u32_bytes(t),
        None => Seq::empty(),
    }
}

pub open spec fn record_bytes(r: IndexRecord) -> Seq<u8> {
    u32_bytes(r.size) + stamp_bytes(r.timestamp) + path_bytes(r.path)
}

pub open spec fn records_bytes(recs: Seq<IndexRecord>) -> Seq<u8> {
    recs.map_values(|r: IndexRecord| record_bytes(r)).flatten()
}

pub open spec fn records_of(es: Seq<EntryView>, stamped: bool) -> Seq<IndexRecord> {
    es.map_values(|e: EntryView| record_of(e, stamped))
}

pub open spec fn index_bytes(es: Seq<EntryView>, stamped: bool) -> Seq<u8> {
    records_bytes(records_of(es, stamped))
}

pub open spec fn payload_bytes(es: Seq<EntryView>) -> Seq<u8> {
    es.map_values(|e: EntryView| e.data).flatten()
}

pub open spec fn reserved_bytes(h: Header) -> Seq<u8> {
    if h.header_is_extended {
        Seq::new(20, |i: int| 0u8)
    } else {
        Seq::empty()
    }
}

/// The sixteen bytes of a header, and the reserved bytes of an extended one.
pub open spec fn header_bytes(h: Header, count: u32, ilen: u32) -> Seq<u8> {
    magic() + u32_bytes(header_word(h)) + u32_bytes(count) + u32_bytes(ilen) + reserved_bytes(h)
}

/// The bytes an archive is written as.
pub open spec fn spec_encode(c: ContainerView) -> Seq<u8> {
    let index = index_bytes(c.entries, c.header.index_has_timestamp);
    header_bytes(c.header, c.entries.len() as u32, index.len() as u32) + index + payload_bytes(
        c.entries,
    )
}

proof fn lemma_header_word(h: Header)
    ensures
        header_of_word(header_word(h)) == Some(h),
{
    let w = header_word(h);
    let o = type_ordinal(h.pack_file_type);
    let a = bit(h.data_is_encrypted, 16) / 16;
    let b = bit(h.data_is_compressed, 32) / 32;
    let c = bit(h.index_has_timestamp, 64) / 64;
    let d = bit(h.index_is_encrypted, 128) / 128;
    let e = bit(h.header_is_extended, 256) / 256;
    assert(w == o + 16 * a + 32 * b + 64 * c + 128 * d + 256 * e);
    assert(w % 16 == o);
    assert((w / 16) % 2 == a);
    assert((w / 32) % 2 == b);
    assert((w / 64) % 2 == c);
    assert((w / 128) % 2 == d);
    assert(w / 256 == e);
}

proof fn lemma_segments_bytes_unfold(p: Seq<Seq<u16>>)
    requires
        p.len() > 0,
    ensures
        segments_bytes(p) == string16_bytes(p[0]) + segments_bytes(p.drop_first()),
{
    let m = p.map_values(|u: Seq<u16>| string16_bytes(u));
    assert(m.drop_first() =~= p.drop_first().map_values(|u: Seq<u16>| string16_bytes(u)));
}

proof fn lemma_records_bytes_unfold(recs: Seq<IndexRecord>)
    requires
        recs.len() > 0,
    ensures
        records_bytes(recs) == record_bytes(recs[0]) + records_bytes(recs.drop_first()),
{
    let m = recs.map_values(|r: IndexRecord| record_bytes(r));
    assert(m.drop_first() =~= recs.drop_first().map_values(|r: IndexRecord| record_bytes(r)));
}

proof fn lemma_payload_bytes_unfold(es: Seq<EntryView>)
    requires
        es.len() > 0,
    ensures
        payload_bytes(es) == es[0].data + payload_bytes(es.drop_first()),
{
    let m = es.map_values(|e: EntryView| e.data);
    assert(m.drop_first() =~= es.drop_first().map_values(|e: EntryView| e.data));
}

proof fn lemma_segments_round_trip(p: Seq<Seq<u16>>, rest: Seq<u8>)
    requires
        forall|k: int| 0 <= k < p.len() ==> (#[trigger] p[k]).len() <= u16::MAX,
    ensures
        take_segments(segments_bytes(p) + rest, p.len()) == Some((p, rest)),
    decreases p.len(),
{
    if p.len() == 0 {
        assert(segments_bytes(p) + rest =~= rest);
        assert(p =~= Seq::<Seq<u16>>::empty());
    } else {
        lemma_segments_bytes_unfold(p);
        let tail = segments_bytes(p.drop_first()) + rest;
        assert(segments_bytes(p) + rest =~= string16_bytes(p[0]) + tail);
        lemma_string16_round_trip(p[0], tail);
        assert forall|k: int| 0 <= k < p.drop_first().len() implies (
        #[trigger] p.drop_first()[k]).len() <= u16::MAX by {
            assert(p.drop_first()[k] == p[k + 1]);
        }
        lemma_segments_round_trip(p.drop_first(), rest);
        assert(seq![p[0]] + p.drop_first() =~= p);
    }
}

proof fn lemma_segments_split(s: Seq<u8>, n: nat)
    requires
        take_segments(s, n) is Some,
    ensures
        match take_segments(s, n) {
            Some((p, rest)) => s == segments_bytes(p) + rest && p.len() == n && forall|k: int|
                0 <= k < p.len() ==> (#[trigger] p[k]).len() <= u16::MAX,
            None => false,
        },
    decreases n,
{
    if n == 0 {
        assert(s =~= segments_bytes(Seq::<Seq<u16>>::empty()) + s);
    } else {
        lemma_string16_split(s);
        let (u, r) = take_string16(s)->0;
        lemma_segments_split(r, (n - 1) as nat);
        let (us, rest) = take_segments(r, (n - 1) as nat)->0;
        let p = seq![u] + us;
        assert(p.drop_first() =~= us);
        lemma_segments_bytes_unfold(p);
        assert(s =~= segments_bytes(p) + rest);
        assert forall|k: int| 0 <= k < p.len() implies (#[trigger] p[k]).len() <= u16::MAX by {
            if k > 0 {
                assert(p[k] == us[k - 1]);
            }
        }
    }
}

/// The limits under which a record's path and timestamp can be written and read back.
pub open spec fn record_fits(r: IndexRecord, stamped: bool) -> bool {
    &&& (r.timestamp is Some <==> stamped)
    &&& r.path.len() <= u16::MAX
    &&& forall|k: int| 0 <= k < r.path.len() ==> (#[trigger] r.path[k]).len() <= u16::MAX
}

#[verifier::rlimit(100)]
proof fn lemma_record_round_trip(r: IndexRecord, stamped: bool, rest: Seq<u8>)
    requires
        record_fits(r, stamped),
    ensures
        take_record(record_bytes(r) + rest, stamped) == Some((r, rest)),
{
    let t3 = segments_bytes(r.path) + rest;
    let t2 = path_bytes(r.path) + rest;
    let t1 = stamp_bytes(r.timestamp) + t2;
    assert(record_bytes(r) + rest =~= u32_bytes(r.size) + t1);
    assert(t2 =~= u16_bytes(r.path.len() as u16) + t3);
    lemma_u32_round_trip(r.size, t1);
    match r.timestamp {
        Some(t) => {
            lemma_u32_round_trip(t, t2);
        },
        None => {
            assert(t1 =~= t2);
        },
    }
    lemma_u16_round_trip(r.path.len() as u16, t3);
    lemma_segments_round_trip(r.path, rest);
}

proof fn lemma_assoc<A>(a: Seq<A>, b: Seq<A>, c: Seq<A>)
    ensures
        (a + b) + c == a + (b + c),
{
    assert((a + b) + c =~= a + (b + c));
}

proof fn lemma_record_split(s: Seq<u8>, stamped: bool)
    requires
        take_record(s, stamped) is Some,
    ensures
        match take_record(s, stamped) {
            Some((r, rest)) => s == record_bytes(r) + rest && record_fits(r, stamped),
            None => false,
        },
{
    let (size, r1) = take_u32(s)->0;
    assert(s == u32_bytes(size) + r1) by {
        lemma_u32_split(s);
    }
    let (ts, r2) = take_timestamp(r1, stamped)->0;
    assert(r1 == stamp_bytes(ts) + r2) by {
        if stamped {
            lemma_u32_split(r1);
        } else {
            assert(r1 =~= stamp_bytes(ts) + r2);
        }
    }
    let (n, r3) = take_u16(r2)->0;
    assert(r2 == u16_bytes(n) + r3) by {
        lemma_u16_split(r2);
    }
    let (p, rest) = take_segments(r3, n as nat)->0;
    assert(r3 == segments_bytes(p) + rest && p.len() == n && forall|k: int|
        0 <= k < p.len() ==> (#[trigger] p[k]).len() <= u16::MAX) by {
        lemma_segments_split(r3, n as nat);
    }
    let rec = IndexRecord { path: p, size, timestamp: ts };
    let a = u32_bytes(size);
    let b = stamp_bytes(ts);
    let c = u16_bytes(n);
    let d = segments_bytes(p);
    assert(path_bytes(p) == c + d);
    lemma_assoc(c, d, rest);
    lemma_assoc(b, c + d, rest);
    lemma_assoc(a, b, (c + d) + rest);
    lemma_assoc(a + b, c + d, rest);
    assert(take_record(s, stamped) == Some((rec, rest)));
}

proof fn lemma_records_round_trip(recs: Seq<IndexRecord>, stamped: bool, rest: Seq<u8>)
    requires
        forall|i: int| 0 <= i < recs.len() ==> record_fits(#[trigger] recs[i], stamped),
    ensures
        take_records(records_bytes(recs) + rest, stamped, recs.len()) == Some((recs, rest)),
    decreases recs.len(),
{
    if recs.len() == 0 {
        assert(records_bytes(recs) + rest =~= rest);
        assert(recs =~= Seq::<IndexRecord>::empty());
    } else {
        lemma_records_bytes_unfold(recs);
        let tail = records_bytes(recs.drop_first()) + rest;
        assert(records_bytes(recs) + rest =~= record_bytes(recs[0]) + tail);
        lemma_record_round_trip(recs[0], stamped, tail);
        lemma_records_round_trip(recs.drop_first(), stamped, rest);
        assert(seq![recs[0]] + recs.drop_first() =~= recs);
    }
}

#[verifier::rlimit(100)]
proof fn lemma_records_split(s: Seq<u8>, stamped: bool, n: nat)
    requires
        take_records(s, stamped, n) is Some,
    ensures
        match take_records(s, stamped, n) {
            Some((recs, rest)) => s == records_bytes(recs) + rest && recs.len() == n && forall|
                i: int,
            | 0 <= i < recs.len() ==> record_fits(#[trigger] recs[i], stamped),
            None => false,
        },
    decreases n,
{
    if n == 0 {
        assert(s =~= records_bytes(Seq::<IndexRecord>::empty()) + s);
    } else {
        lemma_record_split(s, stamped);
        let (r, s2) = take_record(s, stamped)->0;
        lemma_records_split(s2, stamped, (n - 1) as nat);
        let (rs, rest) = take_records(s2, stamped, (n - 1) as nat)->0;
        let recs = seq![r] + rs;
        assert(recs.drop_first() =~= rs);
        lemma_records_bytes_unfold(recs);
        assert(s =~= records_bytes(recs) + rest);
        assert forall|i: int| 0 <= i < recs.len() implies record_fits(
            #[trigger] recs[i],
            stamped,
        ) by {
            if i > 0 {
                assert(recs[i] == rs[i - 1]);
            }
        }
    }
}

proof fn lemma_payloads_round_trip(es: Seq<EntryView>, stamped: bool, rest: Seq<u8>)
    requires
        forall|i: int|
            0 <= i < es.len() ==> (#[trigger] es[i]).data.len() <= u32::MAX && (
            es[i].timestamp is Some <==> stamped),
    ensures
        take_payloads(records_of(es, stamped), payload_bytes(es) + rest) == Some(es),
    decreases es.len(),
{
    let recs = records_of(es, stamped);
    if es.len() == 0 {
        assert(es =~= Seq::<EntryView>::empty());
    } else {
        lemma_payload_bytes_unfold(es);
        let s = payload_bytes(es) + rest;
        let tail = payload_bytes(es.drop_first()) + rest;
        assert(s =~= es[0].data + tail);
        assert(recs.drop_first() =~= records_of(es.drop_first(), stamped));
        assert(s.skip(es[0].data.len() as int) =~= tail);
        assert(s.take(es[0].data.len() as int) =~= es[0].data);
        lemma_payloads_round_trip(es.drop_first(), stamped, rest);
        let e0 = EntryView { path: recs[0].path, timestamp: recs[0].timestamp, data: es[0].data };
        assert(e0 == es[0]);
        assert(seq![es[0]] + es.drop_first() =~= es);
    }
}

proof fn lemma_payloads_split(recs: Seq<IndexRecord>, s: Seq<u8>, stamped: bool)
    requires
        take_payloads(recs, s) is Some,
        forall|i: int|
            0 <= i < recs.len() ==> ((#[trigger] recs[i]).timestamp is Some <==> stamped),
    ensures
        match take_payloads(recs, s) {
            Some(es) => es.len() == recs.len() && records_of(es, stamped) == recs && forall|
                i: int,
            |
                0 <= i < es.len() ==> (#[trigger] es[i]).data.len() <= u32::MAX && (
                es[i].timestamp is Some <==> stamped) && es[i].path == recs[i].path,
            None => false,
        },
    decreases recs.len(),
{
    if recs.len() == 0 {
        assert(records_of(Seq::<EntryView>::empty(), stamped) =~= recs);
    } else {
        let size = recs[0].size as int;
        assert forall|i: int| 0 <= i < recs.drop_first().len() implies (
        #[trigger] recs.drop_first()[i]).timestamp is Some <==> stamped by {
            assert(recs.drop_first()[i] == recs[i + 1]);
        }
        lemma_payloads_split(recs.drop_first(), s.skip(size), stamped);
        let rest = take_payloads(recs.drop_first(), s.skip(size))->0;
        let e0 = EntryView { path: recs[0].path, timestamp: recs[0].timestamp, data: s.take(size) };
        let es = seq![e0] + rest;
        assert(record_of(e0, stamped) == recs[0]);
        assert forall|i: int| 0 <= i < es.len() implies #[trigger] records_of(es, stamped)[i]
            == recs[i] by {
            if i > 0 {
                assert(es[i] == rest[i - 1]);
                assert(records_of(rest, stamped)[i - 1] == recs.drop_first()[i - 1]);
            }
        }
        assert(records_of(es, stamped) =~= recs);
        assert forall|i: int| 0 <= i < es.len() implies (#[trigger] es[i]).data.len() <= u32::MAX
            && (es[i].timestamp is Some <==> stamped) && es[i].path == recs[i].path by {
            if i > 0 {
                assert(es[i] == rest[i - 1]);
                assert(recs.drop_first()[i - 1] == recs[i]);
            }
        }
    }
}

proof fn lemma_records_of_valid(es: Seq<EntryView>, stamped: bool)
    requires
        wf_view(ContainerView { header: arbitrary(), entries: es }),
    ensures
        records_valid(records_of(es, stamped)),
        forall|i: int|
            0 <= i < es.len() ==> record_fits(#[trigger] records_of(es, stamped)[i], stamped),
{
    let recs = records_of(es, stamped);
    assert forall|i: int| 0 <= i < recs.len() implies valid_path((#[trigger] recs[i]).path) by {
        assert(valid_entry(es[i]));
    }
    assert forall|i: int, j: int|
        0 <= i < recs.len() && 0 <= j < recs.len() && i != j implies (#[trigger] recs[i]).path
        != (#[trigger] recs[j]).path by {
        assert(es[i].path != es[j].path);
    }
    assert forall|i: int| 0 <= i < es.len() implies record_fits(
        #[trigger] records_of(es, stamped)[i],
        stamped,
    ) by {
        assert(valid_entry(es[i]));
    }
}

proof fn lemma_split_at<A>(x: Seq<A>, y: Seq<A>)
    ensures
        (x + y).take(x.len() as int) == x,
        (x + y).skip(x.len() as int) == y,
{
    assert((x + y).take(x.len() as int) =~= x);
    assert((x + y).skip(x.len() as int) =~= y);
}

/// The header fields are read back from the front of the bytes they were written as.
proof fn lemma_header_parse(h: Header, count: u32, ilen: u32, body: Seq<u8>)
    ensures
        ({
            let b = header_bytes(h, count, ilen) + body;
            &&& b.len() >= header_len(h)
            &&& b.len() >= 16
            &&& b.take(4) == magic()
            &&& le32(b.skip(4)) == header_word(h)
            &&& le32(b.skip(8)) == count
            &&& le32(b.skip(12)) == ilen
            &&& b.skip(header_len(h) as int) == body
        }),
{
    let b = header_bytes(h, count, ilen) + body;
    let t3 = reserved_bytes(h) + body;
    let t2 = u32_bytes(ilen) + t3;
    let t1 = u32_bytes(count) + t2;
    let t0 = u32_bytes(header_word(h)) + t1;
    assert(b =~= magic() + t0);
    lemma_split_at(magic(), t0);
    lemma_u32_round_trip(header_word(h), t1);
    lemma_u32_round_trip(count, t2);
    lemma_u32_round_trip(ilen, t3);
    assert(b.skip(4) == t0);
    assert(b.skip(8) =~= t1);
    assert(b.skip(12) =~= t2);
    assert(b.skip(16) =~= t3);
    lemma_split_at(reserved_bytes(h), body);
    assert(b.skip(header_len(h) as int) =~= body);
}

/// The index and payloads of a valid container are read back as its entries.
proof fn lemma_body_parse(es: Seq<EntryView>, stamped: bool)
    requires
        wf_view(ContainerView { header: arbitrary(), entries: es }),
        forall|i: int| 0 <= i < es.len() ==> ((#[trigger] es[i]).timestamp is Some <==> stamped),
    ensures
        take_records(index_bytes(es, stamped), stamped, es.len()) == Some(
            (records_of(es, stamped), Seq::<u8>::empty()),
        ),
        records_valid(records_of(es, stamped)),
        take_payloads(records_of(es, stamped), payload_bytes(es)) == Some(es),
{
    let index = index_bytes(es, stamped);
    let payload = payload_bytes(es);
    lemma_records_of_valid(es, stamped);
    lemma_records_round_trip(records_of(es, stamped), stamped, Seq::empty());
    assert(index + Seq::<u8>::empty() =~= index);
    assert forall|i: int|
        0 <= i < es.len() implies (#[trigger] es[i]).data.len() <= u32::MAX && (
        es[i].timestamp is Some <==> stamped) by {
        assert(valid_entry(es[i]));
    }
    lemma_payloads_round_trip(es, stamped, Seq::empty());
    assert(payload + Seq::<u8>::empty() =~= payload);
}

/// The steps of a successful decode, each met, give its result.
proof fn lemma_decode_steps(
    b: Seq<u8>,
    h: Header,
    count: u32,
    ilen: u32,
    recs: Seq<IndexRecord>,
    es: Seq<EntryView>,
)
    requires
        b.len() >= 16,
        b.take(4) == magic(),
        header_of_word(le32(b.skip(4))) == Some(h),
        b.len() >= header_len(h),
        le32(b.skip(8)) == count,
        le32(b.skip(12)) == ilen,
        b.len() - header_len(h) >= ilen,
        take_records(
            b.subrange(header_len(h) as int, header_len(h) + ilen),
            h.index_has_timestamp,
            count as nat,
        ) == Some((recs, Seq::<u8>::empty())),
        records_valid(recs),
        take_payloads(recs, b.skip(header_len(h) + ilen)) == Some(es),
    ensures
        spec_decode(b) == Ok::<ContainerView, PackError>(ContainerView { header: h, entries: es }),
{
}

/// Writing a valid container whose index fits in 32 bits and reading the bytes back
/// gives the same container, when every entry has a timestamp exactly when the
/// header says the index records them.
pub proof fn lemma_encode_decode(c: ContainerView)
    requires
        wf_view(c),
        stamps_match(c),
        index_bytes(c.entries, c.header.index_has_timestamp).len() <= u32::MAX,
    ensures
        spec_decode(spec_encode(c)) == Ok::<ContainerView, PackError>(c),
{
    let h = c.header;
    let stamped = h.index_has_timestamp;
    let es = c.entries;
    let index = index_bytes(es, stamped);
    let payload = payload_bytes(es);
    let b = spec_encode(c);
    let start = header_len(h) as int;
    let body = index + payload;
    let count = es.len() as u32;
    let ilen = index.len() as u32;
    assert(b == header_bytes(h, count, ilen) + body) by {
        lemma_assoc(header_bytes(h, count, ilen), index, payload);
    }
    lemma_header_parse(h, count, ilen, body);
    lemma_header_word(h);
    assert(b.subrange(start, start + ilen) == index) by {
        assert(b.subrange(start, start + ilen) =~= body.take(ilen as int));
        lemma_split_at(index, payload);
    }
    assert(b.skip(start + ilen) == payload) by {
        assert(b.skip(start + ilen) =~= body.skip(ilen as int));
        lemma_split_at(index, payload);
    }
    lemma_body_parse(es, stamped);
    lemma_decode_steps(b, h, count, ilen, records_of(es, stamped), es);
}

/// A container read from any bytes is valid, its timestamps match its header, and
/// its index fits in 32 bits: it can be written again.
pub proof fn lemma_decoded_is_valid(b: Seq<u8>)
    requires
        spec_decode(b) is Ok,
    ensures
        match spec_decode(b) {
            Ok(c) => wf_view(c) && stamps_match(c) && index_bytes(
                c.entries,
                c.header.index_has_timestamp,
            ).len() <= u32::MAX,
            Err(_) => false,
        },
{
    let h = header_of_word(le32(b.skip(4)))->0;
    let stamped = h.index_has_timestamp;
    let count = le32(b.skip(8));
    let ilen = le32(b.skip(12));
    let start = header_len(h) as int;
    let region = b.subrange(start, start + ilen);
    lemma_records_split(region, stamped, count as nat);
    let (recs, rest) = take_records(region, stamped, count as nat)->0;
    lemma_payloads_split(recs, b.skip(start + ilen), stamped);
    let es = take_payloads(recs, b.skip(start + ilen))->0;
    assert(region =~= records_bytes(recs));
    let c = spec_decode(b)->Ok_0;
    assert(c.entries == es);
    assert forall|i: int| 0 <= i < es.len() implies valid_entry(#[trigger] es[i]) by {
        assert(valid_path(recs[i].path));
    }
    assert forall|i: int, j: int|
        0 <= i < es.len() && 0 <= j < es.len() && i != j implies (#[trigger] es[i]).path
        != (#[trigger] es[j]).path by {
        assert(recs[i].path != recs[j].path);
    }
}

/// Decoding an archive, writing the container back, and decoding again gives the
/// same container: the same entries, with the same paths and payloads, in the same
/// order.
pub proof fn lemma_round_trip(b: Seq<u8>)
    requires
        spec_decode(b) is Ok,
    ensures
        spec_decode(spec_encode(spec_decode(b)->Ok_0)) == spec_decode(b),
{
    lemma_decoded_is_valid(b);
    lemma_encode_decode(spec_decode(b)->Ok_0);
}

/// A buffer shorter than the sixteen bytes of the smallest header is refused as
/// malformed.
pub proof fn lemma_short_buffer(b: Seq<u8>)
    requires
        b.len() < 16,
    ensures
        spec_decode(b) == Err::<ContainerView, PackError>(PackError::MalformedHeader),
{
}


/// An index record as read, before its payload is cut.
struct RecordBuf {
    path: Vec<Vec<u16>>,
    size: u32,
    timestamp: Option<u32>,
}

impl View for RecordBuf {
    type V = IndexRecord;

    closed spec fn view(&self) -> IndexRecord {
        IndexRecord { path: path_view(self.path@), size: self.size, timestamp: self.timestamp }
    }
}

spec fn records_view(rs: Seq<RecordBuf>) -> Seq<IndexRecord> {
    rs.map_values(|r: RecordBuf| r@)
}

/// The 32-bit little-endian value at `pos`.
fn u32_at(b: &[u8], pos: usize) -> (r: u32)
    requires
        pos + 4 <= b@.len(),
    ensures
        r == le32(b@.skip(pos as int)),
{
    b[pos] as u32 + 256 * (b[pos + 1] as u32) + 65536 * (b[pos + 2] as u32) + 16777216 * (b[pos
        + 3] as u32)
}

fn header_from_word(w: u32) -> (r: Option<Header>)
    ensures
        r == header_of_word(w),
{
    if w >= 512 || w % 16 > 4 {
        return None;
    }
    let o = w % 16;
    let pack_file_type = if o == 0 {
        PackFileType::Boot
    } else if o == 1 {
        PackFileType::Release
    } else if o == 2 {
        PackFileType::Patch
    } else if o == 3 {
        PackFileType::Mod
    } else {
        PackFileType::Movie
    };
    Some(
        Header {
            pack_file_type,
            data_is_encrypted: (w / 16) % 2 == 1,
            data_is_compressed: (w / 32) % 2 == 1,
            index_has_timestamp: (w / 64) % 2 == 1,
            index_is_encrypted: (w / 128) % 2 == 1,
            header_is_extended: w / 256 == 1,
        },
    )
}

fn word_of_header(h: Header) -> (r: u32)
    ensures
        r == header_word(h),
{
    let o: u32 = match h.pack_file_type {
        PackFileType::Boot => 0,
        PackFileType::Release => 1,
        PackFileType::Patch => 2,
        PackFileType::Mod => 3,
        PackFileType::Movie => 4,
    };
    let a: u32 = if h.data_is_encrypted { 16 } else { 0 };
    let b: u32 = if h.data_is_compressed { 32 } else { 0 };
    let c: u32 = if h.index_has_timestamp { 64 } else { 0 };
    let d: u32 = if h.index_is_encrypted { 128 } else { 0 };
    let e: u32 = if h.header_is_extended { 256 } else { 0 };
    o + a + b + c + d + e
}

fn read_path(cur: &mut Cursor) -> (r: Option<Vec<Vec<u16>>>)
    requires
        old(cur).wf(),
    ensures
        final(cur).wf(),
        final(cur).bytes@ == old(cur).bytes@,
        match take_path(old(cur).rest()) {
            Some((p, rest)) => r is Some && path_view(r->0@) == p && final(cur).rest() == rest,
            None => r is None,
        },
{
    let n = match cur.read_u16() {
        Ok(n) => n,
        Err(_) => {
            return None;
        },
    };
    let ghost whole = take_segments(cur.rest(), n as nat);
    let mut segs: Vec<Vec<u16>> = Vec::new();
    let mut i: u16 = 0;
    while i < n
        invariant
            i <= n,
            cur.wf(),
            cur.bytes@ == old(cur).bytes@,
            whole == take_path(old(cur).rest()),
            whole == match take_segments(cur.rest(), (n - i) as nat) {
                Some((us, rest)) => Some((path_view(segs@) + us, rest)),
                None => None,
            },
        decreases n - i,
    {
        let ghost before = cur.rest();
        match cur.read_string16() {
            Ok(u) => {
                proof {
                    assert(path_view(segs@.push(u)) =~= path_view(segs@).push(u@));
                    assert forall|us: Seq<Seq<u16>>|
                        #![auto]
                        path_view(segs@) + (seq![u@] + us) =~= path_view(segs@).push(u@) + us by {}
                }
                segs.push(u);
            },
            Err(_) => {
                assert(take_segments(before, (n - i) as nat) is None);
                return None;
            },
        }
        i = i + 1;
    }
    assert(path_view(segs@) + Seq::<Seq<u16>>::empty() =~= path_view(segs@));
    Some(segs)
}

fn read_record(cur: &mut Cursor, stamped: bool) -> (r: Option<RecordBuf>)
    requires
        old(cur).wf(),
    ensures
        final(cur).wf(),
        final(cur).bytes@ == old(cur).bytes@,
        match take_record(old(cur).rest(), stamped) {
            Some((rec, rest)) => r is Some && r->0@ == rec && final(cur).rest() == rest,
            None => r is None,
        },
{
    let size = match cur.read_u32() {
        Ok(v) => v,
        Err(_) => {
            return None;
        },
    };
    let timestamp = if stamped {
        match cur.read_u32() {
            Ok(t) => Some(t),
            Err(_) => {
                return None;
            },
        }
    } else {
        None
    };
    match read_path(cur) {
        Some(path) => Some(RecordBuf { path, size, timestamp }),
        None => None,
    }
}

/// Reads `count` records that fill the whole index.
fn read_index(index: &[u8], stamped: bool, count: u32) -> (r: Option<Vec<RecordBuf>>)
    ensures
        match take_records(index@, stamped, count as nat) {
            Some((recs, rest)) => if rest.len() == 0 {
                r is Some && records_view(r->0@) == recs
            } else {
                r is None
            },
            None => r is None,
        },
{
    let mut cur = Cursor::new(index);
    let ghost whole = take_records(index@, stamped, count as nat);
    let mut recs: Vec<RecordBuf> = Vec::new();
    let mut i: u32 = 0;
    while i < count
        invariant
            i <= count,
            cur.wf(),
            cur.bytes@ == index@,
            whole == take_records(index@, stamped, count as nat),
            whole == match take_records(cur.rest(), stamped, (count - i) as nat) {
                Some((rs, rest)) => Some((records_view(recs@) + rs, rest)),
                None => None,
            },
        decreases count - i,
    {
        let ghost before = cur.rest();
        match read_record(&mut cur, stamped) {
            Some(rec) => {
                proof {
                    assert(records_view(recs@.push(rec)) =~= records_view(recs@).push(rec@));
                    assert forall|rs: Seq<IndexRecord>|
                        #![auto]
                        records_view(recs@) + (seq![rec@] + rs) =~= records_view(recs@).push(
                            rec@,
                        ) + rs by {}
                }
                recs.push(rec);
            },
            None => {
                assert(take_records(before, stamped, (count - i) as nat) is None);
                return None;
            },
        }
        i = i + 1;
    }
    assert(records_view(recs@) + Seq::<IndexRecord>::empty() =~= records_view(recs@));
    if cur.remaining() != 0 {
        return None;
    }
    Some(recs)
}

/// Whether every record's path is valid and no two records share a path.
fn records_ok(recs: &Vec<RecordBuf>) -> (r: bool)
    ensures
        r == records_valid(records_view(recs@)),
{
    let ghost v = records_view(recs@);
    let n = recs.len();
    let mut i: usize = 0;
    while i < n
        invariant
            n == recs@.len() == v.len(),
            v == records_view(recs@),
            i <= n,
            forall|k: int| 0 <= k < i ==> valid_path((#[trigger] v[k]).path),
            forall|a: int, b: int|
                0 <= a < i && 0 <= b < i && a != b ==> (#[trigger] v[a]).path != (
                #[trigger] v[b]).path,
        decreases n - i,
    {
        if !is_valid_path(&recs[i].path) {
            return false;
        }
        let mut j: usize = 0;
        while j < i
            invariant
                n == recs@.len() == v.len(),
                v == records_view(recs@),
                i < n,
                j <= i,
                forall|b: int| 0 <= b < j ==> v[i as int].path != (#[trigger] v[b]).path,
            decreases i - j,
        {
            if paths_equal(&recs[i].path, &recs[j].path) {
                assert(v[i as int].path == v[j as int].path);
                return false;
            }
            j = j + 1;
        }
        i = i + 1;
    }
    true
}

/// Cuts the records' payloads, in order, from the bytes after `start`.
fn cut_payloads(recs: &Vec<RecordBuf>, bytes: &[u8], start: usize) -> (r: Option<Vec<Entry>>)
    requires
        start <= bytes@.len(),
    ensures
        match take_payloads(records_view(recs@), bytes@.skip(start as int)) {
            Some(es) => r is Some && entries_view(r->0@) == es,
            None => r is None,
        },
{
    let ghost rv = records_view(recs@);
    let ghost whole = take_payloads(rv, bytes@.skip(start as int));
    let n = recs.len();
    let len = bytes.len();
    let mut out: Vec<Entry> = Vec::new();
    let mut pos = start;
    let mut i: usize = 0;
    assert(rv.skip(0) =~= rv);
    assert forall|es: Seq<EntryView>| #![auto] entries_view(out@) + es =~= es by {}
    while i < n
        invariant
            n == recs@.len() == rv.len(),
            rv == records_view(recs@),
            len == bytes@.len(),
            i <= n,
            pos <= len,
            whole == take_payloads(rv, bytes@.skip(start as int)),
            whole == match take_payloads(rv.skip(i as int), bytes@.skip(pos as int)) {
                Some(es) => Some(entries_view(out@) + es),
                None => None,
            },
        decreases n - i,
    {
        let rec = &recs[i];
        let size = rec.size as usize;
        let ghost rest = rv.skip(i as int);
        assert(rest[0] == rv[i as int]);
        assert(rest.drop_first() =~= rv.skip(i + 1));
        if len - pos < size {
            return None;
        }
        let data = vstd::slice::slice_to_vec(vstd::slice::slice_subrange(bytes, pos, pos + size));
        let e = Entry { path: copy_path(&rec.path), timestamp: rec.timestamp, data };
        proof {
            let s = bytes@.skip(pos as int);
            assert(s.take(size as int) =~= bytes@.subrange(pos as int, pos + size));
            assert(s.skip(size as int) =~= bytes@.skip(pos + size));
            assert(entries_view(out@.push(e)) =~= entries_view(out@).push(e@));
            assert forall|es: Seq<EntryView>|
                #![auto]
                entries_view(out@) + (seq![e@] + es) =~= entries_view(out@).push(e@) + es by {}
        }
        out.push(e);
        pos = pos + size;
        i = i + 1;
    }
    assert(entries_view(out@) + Seq::<EntryView>::empty() =~= entries_view(out@));
    Some(out)
}

fn write_path(out: &mut Vec<u8>, p: &Vec<Vec<u16>>)
    requires
        valid_path(path_view(p@)),
    ensures
        final(out)@ == old(out)@ + path_bytes(path_view(p@)),
{
    let ghost pv = path_view(p@);
    write_u16(out, p.len() as u16);
    let ghost start = out@;
    let n = p.len();
    let mut i: usize = 0;
    while i < n
        invariant
            n == pv.len(),
            pv == path_view(p@),
            valid_path(pv),
            i <= n,
            out@ == start + segments_bytes(pv.take(i as int)),
        decreases n - i,
    {
        assert(pv[i as int] == p@[i as int]@);
        assert(pv[i as int].len() <= u16::MAX);
        write_string16(out, p[i].as_slice());
        proof {
            let f = |u: Seq<u16>| string16_bytes(u);
            assert(pv.take(i + 1).map_values(f) =~= pv.take(i as int).map_values(f).push(
                string16_bytes(pv[i as int]),
            ));
            pv.take(i as int).map_values(f).lemma_flatten_push(string16_bytes(pv[i as int]));
        }
        i = i + 1;
    }
    assert(pv.take(n as int) =~= pv);
    assert(final(out)@ =~= old(out)@ + path_bytes(pv));
}

fn write_record(out: &mut Vec<u8>, e: &Entry, stamped: bool)
    requires
        valid_entry(e@),
    ensures
        final(out)@ == old(out)@ + record_bytes(record_of(e@, stamped)),
{
    write_u32(out, e.data.len() as u32);
    if stamped {
        let t = match e.timestamp {
            Some(t) => t,
            None => 0,
        };
        write_u32(out, t);
    }
    write_path(out, &e.path);
    assert(final(out)@ =~= old(out)@ + record_bytes(record_of(e@, stamped)));
}

impl Container {
    /// An empty archive with the given header.
    pub fn new(header: Header) -> (r: Self)
        ensures
            r@.header == header,
            r@.entries.len() == 0,
            wf_view(r@),
    {
        Container { header, entries: Vec::new() }
    }

    /// Reads an archive. Fails with `MalformedHeader` on a short buffer, a bad
    /// signature, an unknown type ordinal or flag; `TruncatedData` when the index or
    /// a payload runs past the end; `IndexCorrupt` when the index cannot be read,
    /// leaves bytes over, or names an invalid or repeated path.
    pub fn decode(bytes: &[u8]) -> (r: Result<Container, PackError>)
        ensures
            match spec_decode(bytes@) {
                Ok(c) => r is Ok && r->Ok_0@ == c,
                Err(e) => r == Err::<Container, PackError>(e),
            },
            r is Ok ==> wf_view(r->Ok_0@),
    {
        if bytes.len() < 16 {
            return Err(PackError::MalformedHeader);
        }
        if bytes[0] != 0x50 || bytes[1] != 0x46 || bytes[2] != 0x48 || bytes[3] != 0x35 {
            assert(bytes@.take(4) != magic()) by {
                assert(bytes@.take(4)[0] == bytes@[0]);
                assert(bytes@.take(4)[1] == bytes@[1]);
                assert(bytes@.take(4)[2] == bytes@[2]);
                assert(bytes@.take(4)[3] == bytes@[3]);
            }
            return Err(PackError::MalformedHeader);
        }
        assert(bytes@.take(4) =~= magic());
        let header = match header_from_word(u32_at(bytes, 4)) {
            Some(h) => h,
            None => {
                return Err(PackError::MalformedHeader);
            },
        };
        let start: usize = if header.header_is_extended { 36 } else { 16 };
        if bytes.len() < start {
            return Err(PackError::MalformedHeader);
        }
        let count = u32_at(bytes, 8);
        let ilen = u32_at(bytes, 12) as usize;
        if bytes.len() - start < ilen {
            return Err(PackError::TruncatedData);
        }
        let index = vstd::slice::slice_subrange(bytes, start, start + ilen);
        let recs = match read_index(index, header.index_has_timestamp, count) {
            Some(recs) => recs,
            None => {
                return Err(PackError::IndexCorrupt);
            },
        };
        if !records_ok(&recs) {
            return Err(PackError::IndexCorrupt);
        }
        match cut_payloads(&recs, bytes, start + ilen) {
            Some(entries) => {
                let r = Container { header, entries };
                proof {
                    lemma_decoded_is_valid(bytes@);
                }
                Ok(r)
            },
            None => Err(PackError::TruncatedData),
        }
    }

    /// Writes the archive: header, index in the current entry order, then the
    /// payloads in the same order, each size taken from the payload's length. The
    /// index must fit in the 32-bit length field, else `IndexCorrupt`.
    pub fn encode(&self) -> (r: Result<Vec<u8>, PackError>)
        requires
            wf_view(self@),
        ensures
            index_bytes(self@.entries, self.header.index_has_timestamp).len() <= u32::MAX ==> r
                is Ok && r->Ok_0@ == spec_encode(self@),
            index_bytes(self@.entries, self.header.index_has_timestamp).len() > u32::MAX ==> r
                == Err::<Vec<u8>, PackError>(PackError::IndexCorrupt),
    {
        let ghost es = self@.entries;
        let stamped = self.header.index_has_timestamp;
        let n = self.entries.len();
        let mut index: Vec<u8> = Vec::new();
        let mut i: usize = 0;
        while i < n
            invariant
                n == es.len(),
                es == self@.entries,
                stamped == self.header.index_has_timestamp,
                wf_view(self@),
                i <= n,
                index@ == records_bytes(records_of(es.take(i as int), stamped)),
            decreases n - i,
        {
            assert(es[i as int] == self.entries@[i as int]@);
            assert(valid_entry(es[i as int]));
            write_record(&mut index, &self.entries[i], stamped);
            proof {
                let f = |r: IndexRecord| record_bytes(r);
                let rec = record_of(es[i as int], stamped);
                assert(records_of(es.take(i + 1), stamped) =~= records_of(
                    es.take(i as int),
                    stamped,
                ).push(rec));
                assert(records_of(es.take(i + 1), stamped).map_values(f) =~= records_of(
                    es.take(i as int),
                    stamped,
                ).map_values(f).push(record_bytes(rec)));
                records_of(es.take(i as int), stamped).map_values(f).lemma_flatten_push(
                    record_bytes(rec),
                );
            }
            i = i + 1;
        }
        assert(es.take(n as int) =~= es);
        if index.len() > 0xFFFF_FFFF {
            return Err(PackError::IndexCorrupt);
        }
        let mut out: Vec<u8> = Vec::new();
        out.push(0x50);
        out.push(0x46);
        out.push(0x48);
        out.push(0x35);
        write_u32(&mut out, word_of_header(self.header));
        write_u32(&mut out, n as u32);
        write_u32(&mut out, index.len() as u32);
        if self.header.header_is_extended {
            let ghost before = out@;
            let mut k: usize = 0;
            while k < 20
                invariant
                    k <= 20,
                    out@ =~= before + Seq::new(k as nat, |j: int| 0u8),
                decreases 20 - k,
            {
                out.push(0);
                k = k + 1;
            }
        }
        assert(out@ =~= header_bytes(self.header, n as u32, index@.len() as u32));
        write_bytes(&mut out, index.as_slice());
        let ghost head = out@;
        let mut i: usize = 0;
        while i < n
            invariant
                n == es.len(),
                es == self@.entries,
                i <= n,
                out@ == head + payload_bytes(es.take(i as int)),
            decreases n - i,
        {
            assert(es[i as int] == self.entries@[i as int]@);
            write_bytes(&mut out, self.entries[i].data.as_slice());
            proof {
                let g = |e: EntryView| e.data;
                assert(es.take(i + 1).map_values(g) =~= es.take(i as int).map_values(g).push(
                    es[i as int].data,
                ));
                es.take(i as int).map_values(g).lemma_flatten_push(es[i as int].data);
            }
            i = i + 1;
        }
        assert(out@ =~= spec_encode(self@));
        Ok(out)
    }
}

} // verus!
