//! Entries and their records on the medium.
//!
//! A record is one tag byte, the payload's length as eight little-endian
//! bytes, the payload, and the CRC-32 of everything before it as four
//! little-endian bytes. A stream of records is read from the front; reading
//! stops, without an error, at the first place where no whole record with a
//! matching checksum stands.

use crate::checksum;
use crate::format::{Format, FormatError};
use vstd::bytes::*;
use vstd::prelude::*;
use vstd::slice::*;

verus! {

/// Bytes of a record before its payload: the tag and the length.
pub const HEADER_LEN: usize = 9;

/// Bytes of a record after its payload: the checksum.
pub const CHECKSUM_LEN: usize = 4;

/// Bytes of a record besides its payload.
pub const OVERHEAD: usize = 13;

/// What an entry holds: the tag of its format and its payload as stored.
pub struct EntryView {
    pub tag: u8,
    pub payload: Seq<u8>,
}

/// One append record of a resource. The checksum it carries is always the
/// one that belongs to its tag and payload.
pub struct Entry {
    tag: u8,
    payload: Vec<u8>,
    checksum: u32,
}

/// The tag and the length as they stand at the front of a record.
pub open spec fn spec_header(tag: u8, len: u64) -> Seq<u8> {
    seq![tag] + spec_u64_to_le_bytes(len)
}

/// The part of a record that the checksum covers.
pub open spec fn spec_body(entry: EntryView) -> Seq<u8> {
    spec_header(entry.tag, entry.payload.len() as u64) + entry.payload
}

/// The checksum of an entry.
pub open spec fn spec_checksum(entry: EntryView) -> u32 {
    checksum::spec_crc32(spec_body(entry))
}

/// The record of an entry.
pub open spec fn spec_frame(entry: EntryView) -> Seq<u8> {
    spec_body(entry) + spec_u32_to_le_bytes(spec_checksum(entry))
}

/// The number of bytes of an entry's record.
pub open spec fn spec_frame_len(entry: EntryView) -> int {
    OVERHEAD + entry.payload.len()
}

/// The records of `entries`, one after the other.
pub open spec fn spec_stream(entries: Seq<EntryView>) -> Seq<u8>
    decreases entries.len(),
{
    if entries.len() == 0 {
        Seq::empty()
    } else {
        spec_frame(entries.first()) + spec_stream(entries.drop_first())
    }
}

/// The entry whose record stands whole, with a matching checksum, at the
/// front of `stream`.
pub open spec fn spec_first(stream: Seq<u8>) -> Option<EntryView> {
    if stream.len() < OVERHEAD {
        None
    } else {
        let len = spec_u64_from_le_bytes(stream.subrange(1, HEADER_LEN as int));
        if len > stream.len() - OVERHEAD {
            None
        } else {
            let end = HEADER_LEN + len;
            let stored = spec_u32_from_le_bytes(stream.subrange(end, end + CHECKSUM_LEN));
            if stored != checksum::spec_crc32(stream.subrange(0, end)) {
                None
            } else {
                Some(EntryView { tag: stream[0], payload: stream.subrange(HEADER_LEN as int, end) })
            }
        }
    }
}

/// The entries read from the front of `stream`.
pub open spec fn spec_scan(stream: Seq<u8>) -> Seq<EntryView>
    decreases stream.len(),
{
    match spec_first(stream) {
        Some(entry) => seq![entry] + spec_scan(stream.skip(spec_frame_len(entry))),
        None => Seq::empty(),
    }
}

/// The number of bytes at the front of `stream` that the entries read
/// from it occupy.
pub open spec fn spec_valid_len(stream: Seq<u8>) -> int
    decreases stream.len(),
{
    match spec_first(stream) {
        Some(entry) => spec_frame_len(entry) + spec_valid_len(
            stream.skip(spec_frame_len(entry)),
        ),
        None => 0,
    }
}

/// What each of `entries` holds.
pub open spec fn spec_views(entries: Seq<Entry>) -> Seq<EntryView> {
    entries.map_values(|entry: Entry| entry@)
}

impl View for Entry {
    type V = EntryView;

    closed spec fn view(&self) -> EntryView {
        EntryView { tag: self.tag, payload: self.payload@ }
    }
}

fn header(tag: u8, len: u64) -> (out: Vec<u8>)
    ensures
        out@ == spec_header(tag, len),
        out@.len() == HEADER_LEN,
{
    let mut out: Vec<u8> = Vec::new();
    out.push(tag);
    let mut len_bytes = u64_to_le_bytes(len);
    out.append(&mut len_bytes);
    assert(out@ =~= spec_header(tag, len));
    out
}

impl Entry {
    #[verifier::type_invariant]
    spec fn sealed(self) -> bool {
        self.checksum == spec_checksum(self@)
    }

    /// An entry of `format` that holds `payload`.
    pub fn new(format: Format, payload: Vec<u8>) -> (entry: Entry)
        ensures
            entry@ == (EntryView { tag: format.spec_tag(), payload: payload@ }),
            spec_fits(entry@),
    {
        let tag = format.tag();
        let head = header(tag, payload.len() as u64);
        let reg = checksum::update(checksum::ALL_ONES, head.as_slice());
        let reg = checksum::update(reg, payload.as_slice());
        proof {
            checksum::lemma_update_concat(checksum::ALL_ONES, head@, payload@);
        }
        Entry { tag, payload, checksum: reg ^ checksum::ALL_ONES }
    }

    /// The tag byte of the entry's format.
    pub fn tag(&self) -> (tag: u8)
        ensures
            tag == self@.tag,
    {
        self.tag
    }

    /// The entry's format; an error that carries the tag when the tag
    /// names no format.
    pub fn format(&self) -> (result: Result<Format, FormatError>)
        ensures
            match Format::spec_from_tag(self@.tag) {
                Some(format) => result == Ok::<Format, FormatError>(format),
                None => result == Err::<Format, FormatError>(FormatError { tag: self@.tag }),
            },
    {
        Format::from_tag(self.tag)
    }

    /// The payload as stored.
    pub fn payload(&self) -> (payload: &Vec<u8>)
        ensures
            payload@ == self@.payload,
    {
        &self.payload
    }

    /// The checksum that the entry's record ends with.
    pub fn checksum(&self) -> (sum: u32)
        ensures
            sum == spec_checksum(self@),
    {
        proof {
            use_type_invariant(self);
        }
        self.checksum
    }

    /// The entry's record.
    pub fn frame(&self) -> (out: Vec<u8>)
        ensures
            out@ == spec_frame(self@),
    {
        proof {
            use_type_invariant(self);
        }
        let mut out = header(self.tag, self.payload.len() as u64);
        let mut body = self.payload.clone();
        out.append(&mut body);
        let mut sum = u32_to_le_bytes(self.checksum);
        out.append(&mut sum);
        assert(out@ =~= spec_frame(self@));
        out
    }
}

/// What reading a stream yields.
pub struct Scan {
    /// The entries, in the order of their records.
    pub entries: Vec<Entry>,
    /// The number of bytes that their records occupy at the front of the
    /// stream. What lies behind is a torn or damaged tail.
    pub valid_len: usize,
}

/// Reads the record at the front of `stream`, if one stands there whole
/// and with a matching checksum.
pub fn first(stream: &[u8]) -> (out: Option<Entry>)
    ensures
        match spec_first(stream@) {
            Some(entry) => out is Some && out->0@ == entry,
            None => out is None,
        },
{
    if stream.len() < OVERHEAD {
        return None;
    }
    let len = u64_from_le_bytes(slice_subrange(stream, 1, HEADER_LEN));
    if len > (stream.len() - OVERHEAD) as u64 {
        return None;
    }
    let end: usize = HEADER_LEN + len as usize;
    let stored = u32_from_le_bytes(slice_subrange(stream, end, end + CHECKSUM_LEN));
    let sum = checksum::crc32(slice_subrange(stream, 0, end));
    if stored != sum {
        return None;
    }
    let tag = stream[0];
    let payload = slice_to_vec(slice_subrange(stream, HEADER_LEN, end));
    proof {
        lemma_auto_spec_u64_to_from_le_bytes();
        let view = EntryView { tag, payload: payload@ };
        assert(spec_u64_to_le_bytes(len) == stream@.subrange(1, HEADER_LEN as int));
        assert(spec_body(view) =~= stream@.subrange(0, end as int));
    }
    Some(Entry { tag, payload, checksum: sum })
}

/// Reads the entries of `stream` and measures what they occupy. Any
/// byte sequence can be read: a tail that is no whole record ends the
/// reading and is left out.
pub fn scan(stream: &[u8]) -> (out: Scan)
    ensures
        spec_views(out.entries@) == spec_scan(stream@),
        out.valid_len == spec_valid_len(stream@),
        out.valid_len <= stream@.len(),
{
    let mut entries: Vec<Entry> = Vec::new();
    let mut pos: usize = 0;
    assert(stream@.skip(0) =~= stream@);
    assert(spec_views(entries@) =~= Seq::<EntryView>::empty());
    loop
        invariant
            pos <= stream@.len(),
            spec_views(entries@) + spec_scan(stream@.skip(pos as int)) == spec_scan(stream@),
            pos + spec_valid_len(stream@.skip(pos as int)) == spec_valid_len(stream@),
        ensures
            pos <= stream@.len(),
            spec_views(entries@) == spec_scan(stream@),
            pos == spec_valid_len(stream@),
        decreases stream@.len() - pos,
    {
        let rest = slice_subrange(stream, pos, stream.len());
        let ghost before = spec_views(entries@);
        match first(rest) {
            Some(entry) => {
                let used: usize = OVERHEAD + entry.payload().len();
                proof {
                    assert(rest@.skip(used as int) =~= stream@.skip(pos + used));
                    assert(spec_views(entries@.push(entry)) =~= before.push(entry@));
                    assert(before.push(entry@) + spec_scan(stream@.skip(pos + used)) =~= before + (
                    seq![entry@] + spec_scan(stream@.skip(pos + used))));
                }
                entries.push(entry);
                pos = pos + used;
            },
            None => {
                assert(before + Seq::<EntryView>::empty() =~= before);
                break ;
            },
        }
    }
    Scan { entries, valid_len: pos }
}

/// Whether a record can hold `entry`: the length of its payload fits the
/// eight bytes of the length field.
pub open spec fn spec_fits(entry: EntryView) -> bool {
    entry.payload.len() <= u64::MAX
}

/// Whether a record can hold each of `entries`.
pub open spec fn spec_all_fit(entries: Seq<EntryView>) -> bool {
    forall|i: int| 0 <= i < entries.len() ==> spec_fits(#[trigger] entries[i])
}

/// A record is its payload and thirteen bytes more.
pub proof fn lemma_frame_len(entry: EntryView)
    ensures
        spec_frame(entry).len() == spec_frame_len(entry),
        spec_body(entry).len() == HEADER_LEN + entry.payload.len(),
{
    lemma_auto_spec_u64_to_from_le_bytes();
    lemma_auto_spec_u32_to_from_le_bytes();
    assert(spec_u64_to_le_bytes(entry.payload.len() as u64).len() == 8);
    assert(spec_u32_to_le_bytes(spec_checksum(entry)).len() == 4);
}

/// A record is read back as the entry it was made from, whatever follows it.
pub proof fn lemma_first_of_frame(entry: EntryView, rest: Seq<u8>)
    requires
        spec_fits(entry),
    ensures
        spec_first(spec_frame(entry) + rest) == Some(entry),
{
    lemma_auto_spec_u64_to_from_le_bytes();
    lemma_auto_spec_u32_to_from_le_bytes();
    lemma_frame_len(entry);
    let len = entry.payload.len() as u64;
    let stream = spec_frame(entry) + rest;
    let end = HEADER_LEN + entry.payload.len();
    assert(stream.subrange(1, HEADER_LEN as int) =~= spec_u64_to_le_bytes(len));
    assert(stream.subrange(0, end) =~= spec_body(entry));
    assert(stream.subrange(end, end + CHECKSUM_LEN) =~= spec_u32_to_le_bytes(
        spec_checksum(entry),
    ));
    assert(stream.subrange(HEADER_LEN as int, end) =~= entry.payload);
    assert(stream[0] == entry.tag);
}

/// The records of a sequence with one more entry at its end are the
/// records of the sequence followed by the record of that entry.
pub proof fn lemma_stream_push(entries: Seq<EntryView>, entry: EntryView)
    ensures
        spec_stream(entries.push(entry)) == spec_stream(entries) + spec_frame(entry),
    decreases entries.len(),
{
    let longer = entries.push(entry);
    if entries.len() == 0 {
        assert(longer.drop_first() =~= Seq::<EntryView>::empty());
        assert(spec_stream(longer.drop_first()) =~= Seq::<u8>::empty());
        assert(spec_stream(longer) =~= spec_frame(entry));
        assert(spec_stream(entries) + spec_frame(entry) =~= spec_frame(entry));
    } else {
        lemma_stream_push(entries.drop_first(), entry);
        assert(longer.drop_first() =~= entries.drop_first().push(entry));
        assert(longer.first() == entries.first());
        assert(spec_stream(longer) =~= spec_stream(entries) + spec_frame(entry));
    }
}

/// Reading a stream of records gives the entries they were made from,
/// followed by whatever is read from what comes after them.
pub proof fn lemma_scan_stream(entries: Seq<EntryView>, rest: Seq<u8>)
    requires
        spec_all_fit(entries),
    ensures
        spec_scan(spec_stream(entries) + rest) == entries + spec_scan(rest),
        spec_valid_len(spec_stream(entries) + rest) == spec_stream(entries).len()
            + spec_valid_len(rest),
    decreases entries.len(),
{
    if entries.len() == 0 {
        assert(spec_stream(entries) + rest =~= rest);
        assert(entries + spec_scan(rest) =~= spec_scan(rest));
    } else {
        let head = entries.first();
        let tail = entries.drop_first();
        let stream = spec_stream(entries) + rest;
        assert(spec_fits(entries[0]));
        assert(spec_all_fit(tail)) by {
            assert forall|i: int| 0 <= i < tail.len() implies spec_fits(#[trigger] tail[i]) by {
                assert(tail[i] == entries[i + 1]);
            }
        }
        lemma_frame_len(head);
        assert(stream =~= spec_frame(head) + (spec_stream(tail) + rest));
        lemma_first_of_frame(head, spec_stream(tail) + rest);
        assert(stream.skip(spec_frame_len(head)) =~= spec_stream(tail) + rest);
        lemma_scan_stream(tail, rest);
        assert(seq![head] + (tail + spec_scan(rest)) =~= entries + spec_scan(rest));
    }
}

/// The entries read from a stream fit their records, and the bytes they
/// occupy are exactly their records, one after the other.
pub proof fn lemma_valid_prefix(stream: Seq<u8>)
    ensures
        0 <= spec_valid_len(stream) <= stream.len(),
        spec_all_fit(spec_scan(stream)),
        stream.take(spec_valid_len(stream)) == spec_stream(spec_scan(stream)),
    decreases stream.len(),
{
    match spec_first(stream) {
        Some(entry) => {
            lemma_auto_spec_u64_to_from_le_bytes();
            lemma_auto_spec_u32_to_from_le_bytes();
            let used = spec_frame_len(entry);
            let rest = stream.skip(used);
            let end = HEADER_LEN + entry.payload.len();
            lemma_valid_prefix(rest);
            lemma_frame_len(entry);
            let scanned = spec_scan(stream);
            assert(scanned.first() == entry);
            assert(scanned.drop_first() =~= spec_scan(rest));
            assert forall|i: int| 0 <= i < scanned.len() implies spec_fits(
                #[trigger] scanned[i],
            ) by {
                if i > 0 {
                    assert(scanned[i] == spec_scan(rest)[i - 1]);
                }
            }
            assert(spec_u64_to_le_bytes(entry.payload.len() as u64) == stream.subrange(
                1,
                HEADER_LEN as int,
            ));
            assert(spec_body(entry) =~= stream.subrange(0, end));
            assert(spec_u32_to_le_bytes(spec_checksum(entry)) == stream.subrange(
                end,
                end + CHECKSUM_LEN,
            ));
            assert(spec_frame(entry) =~= stream.take(used));
            assert(stream.take(spec_valid_len(stream)) =~= stream.take(used) + rest.take(
                spec_valid_len(rest),
            ));
        },
        None => {
            assert(stream.take(0) =~= Seq::<u8>::empty());
        },
    }
}

/// Appending a record behind the bytes that a stream's entries occupy adds
/// its entry at the end of what is read, and changes no entry before it.
pub proof fn lemma_scan_append(stream: Seq<u8>, entry: EntryView)
    requires
        spec_fits(entry),
    ensures
        spec_scan(stream.take(spec_valid_len(stream)) + spec_frame(entry)) == spec_scan(
            stream,
        ).push(entry),
        spec_valid_len(stream.take(spec_valid_len(stream)) + spec_frame(entry))
            == spec_valid_len(stream) + spec_frame_len(entry),
{
    let entries = spec_scan(stream);
    let longer = entries.push(entry);
    lemma_valid_prefix(stream);
    lemma_stream_push(entries, entry);
    lemma_frame_len(entry);
    assert(spec_all_fit(longer));
    lemma_scan_stream(longer, Seq::<u8>::empty());
    assert(spec_first(Seq::<u8>::empty()) is None);
    assert(spec_stream(longer) + Seq::<u8>::empty() =~= spec_stream(longer));
    assert(longer + Seq::<EntryView>::empty() =~= longer);
}

/// Cutting a stream short at any byte loses no entry whose record lies
/// wholly before the cut, and changes none: what is read from the cut
/// stream is the front of what was read from the whole one, and at least
/// as long as any front whose records end at or before the cut.
pub proof fn lemma_scan_truncated(stream: Seq<u8>, cut: int)
    requires
        0 <= cut <= stream.len(),
    ensures
        spec_scan(stream.take(cut)).is_prefix_of(spec_scan(stream)),
        spec_valid_len(stream.take(cut)) <= spec_valid_len(stream),
        forall|count: int|
            0 <= count <= spec_scan(stream).len() && (#[trigger] spec_stream(
                spec_scan(stream).take(count),
            )).len() <= cut ==> spec_scan(stream.take(cut)).len() >= count,
    decreases stream.len(),
{
    let whole = spec_scan(stream);
    let short = stream.take(cut);
    match spec_first(stream) {
        Some(entry) => {
            let used = spec_frame_len(entry);
            let rest = stream.skip(used);
            let end = HEADER_LEN + entry.payload.len();
            lemma_frame_len(entry);
            lemma_valid_prefix(stream);
            assert(whole.first() == entry);
            assert(whole.drop_first() =~= spec_scan(rest));
            if cut >= used {
                assert(short.subrange(1, HEADER_LEN as int) =~= stream.subrange(
                    1,
                    HEADER_LEN as int,
                ));
                assert(short.subrange(0, end) =~= stream.subrange(0, end));
                assert(short.subrange(end, end + CHECKSUM_LEN) =~= stream.subrange(
                    end,
                    end + CHECKSUM_LEN,
                ));
                assert(short.subrange(HEADER_LEN as int, end) =~= stream.subrange(
                    HEADER_LEN as int,
                    end,
                ));
                assert(spec_first(short) == Some(entry));
                assert(short.skip(used) =~= rest.take(cut - used));
                lemma_scan_truncated(rest, cut - used);
                let short_rest = spec_scan(rest.take(cut - used));
                assert(spec_scan(short) =~= seq![entry] + short_rest);
                assert forall|count: int|
                    0 <= count <= whole.len() && (#[trigger] spec_stream(
                        whole.take(count),
                    )).len() <= cut implies spec_scan(short).len() >= count by {
                    if count > 0 {
                        let front = whole.take(count);
                        assert(front.first() == entry);
                        assert(front.drop_first() =~= spec_scan(rest).take(count - 1));
                        assert(spec_stream(front) =~= spec_frame(entry) + spec_stream(
                            spec_scan(rest).take(count - 1),
                        ));
                        assert(spec_stream(spec_scan(rest).take(count - 1)).len() <= cut - used);
                    }
                }
            } else {
                if short.len() >= OVERHEAD {
                    assert(short.subrange(1, HEADER_LEN as int) =~= stream.subrange(
                        1,
                        HEADER_LEN as int,
                    ));
                }
                assert(spec_first(short) is None);
                assert forall|count: int|
                    0 <= count <= whole.len() && (#[trigger] spec_stream(
                        whole.take(count),
                    )).len() <= cut implies spec_scan(short).len() >= count by {
                    if count > 0 {
                        let front = whole.take(count);
                        assert(front.first() == entry);
                        assert(spec_stream(front).len() >= spec_frame(entry).len());
                    }
                }
            }
        },
        None => {
            if short.len() >= OVERHEAD {
                let len = spec_u64_from_le_bytes(stream.subrange(1, HEADER_LEN as int));
                assert(short.subrange(1, HEADER_LEN as int) =~= stream.subrange(
                    1,
                    HEADER_LEN as int,
                ));
                if len <= short.len() - OVERHEAD {
                    let end = HEADER_LEN + len;
                    assert(short.subrange(0, end) =~= stream.subrange(0, end));
                    assert(short.subrange(end, end + CHECKSUM_LEN) =~= stream.subrange(
                        end,
                        end + CHECKSUM_LEN,
                    ));
                }
            }
            assert(spec_first(short) is None);
        },
    }
}

/// A record of which only a part reached the medium is as if it had never
/// been written: behind the entries of a stream, the whole record adds its
/// entry, and any shorter front of it adds nothing and costs nothing.
pub proof fn lemma_torn_append(stream: Seq<u8>, entry: EntryView, written: int)
    requires
        spec_fits(entry),
        0 <= written <= spec_frame_len(entry),
    ensures
        spec_scan(stream.take(spec_valid_len(stream)) + spec_frame(entry).take(written)) == if written
            == spec_frame_len(entry) {
            spec_scan(stream).push(entry)
        } else {
            spec_scan(stream)
        },
{
    let entries = spec_scan(stream);
    let base = stream.take(spec_valid_len(stream));
    let full = base + spec_frame(entry);
    let cut = spec_valid_len(stream) + written;
    let short = base + spec_frame(entry).take(written);
    lemma_frame_len(entry);
    lemma_valid_prefix(stream);
    lemma_scan_append(stream, entry);
    assert(full.take(cut) =~= short);
    if written == spec_frame_len(entry) {
        assert(spec_frame(entry).take(written) =~= spec_frame(entry));
    } else {
        lemma_scan_truncated(full, cut);
        lemma_valid_prefix(full);
        lemma_valid_prefix(short);
        let count = entries.len() as int;
        assert(spec_scan(full).take(count) =~= entries);
        assert(spec_stream(spec_scan(full).take(count)).len() <= cut);
        assert(spec_scan(short).len() >= count);
        if spec_scan(short).len() > count {
            assert(spec_scan(short) =~= spec_scan(full));
            assert(spec_stream(spec_scan(full)).len() == full.len());
            assert(spec_stream(spec_scan(short)).len() <= short.len());
        }
        assert(spec_scan(short) =~= entries);
    }
}

} // verus!
