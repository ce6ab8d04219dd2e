//! The ZIP container a spreadsheet file is packed in.
//!
//! Only the parts the format actually uses. Entries are **stored**, not
//! compressed: a stored ZIP is a valid ZIP that every reader accepts.
//!
//! The layout, from the appnote:
//!
//! ```text
//! local header + data      one per entry
//! ...
//! central directory        one record per entry
//! end of central directory
//! ```

use vstd::prelude::*;

use vstd::utf8::encode_utf8;

use crate::crc32::{checksum, crc32};

verus! {

pub const LOCAL_HEADER: u32 = 0x0403_4B50;

pub const CENTRAL_HEADER: u32 = 0x0201_4B50;

pub const END_OF_DIRECTORY: u32 = 0x0605_4B50;

/// The version that understands stored entries and directories.
pub const VERSION: u16 = 20;

/// Stored, meaning the bytes are written as they are.
pub const METHOD_STORED: u16 = 0;

/// Deflated. Recognised when reading; not produced.
pub const METHOD_DEFLATED: u16 = 8;

/// A 16-bit value, low byte first.
pub open spec fn le16(v: u16) -> Seq<u8> {
    seq![(v & 0xff) as u8, (v >> 8) as u8]
}

/// A 32-bit value, low byte first.
pub open spec fn le32(v: u32) -> Seq<u8> {
    seq![(v & 0xff) as u8, ((v >> 8) & 0xff) as u8, ((v >> 16) & 0xff) as u8, (v >> 24) as u8]
}

fn push_u16(out: &mut Vec<u8>, v: u16)
    ensures
        final(out)@ == old(out)@ + le16(v),
{
    out.push((v & 0xff) as u8);
    out.push((v >> 8) as u8);
    assert(out@ =~= old(out)@ + le16(v));
}

fn push_u32(out: &mut Vec<u8>, v: u32)
    ensures
        final(out)@ == old(out)@ + le32(v),
{
    out.push((v & 0xff) as u8);
    out.push(((v >> 8) & 0xff) as u8);
    out.push(((v >> 16) & 0xff) as u8);
    out.push((v >> 24) as u8);
    assert(out@ =~= old(out)@ + le32(v));
}

/// Why a file could not be packed.
#[derive(Clone, PartialEq, Eq, Debug)]
pub enum ZipError {
    /// An entry, or the archive, is larger than a plain ZIP can address.
    ///
    /// Past this the format needs its 64-bit extension, which a spreadsheet
    /// of any sane size never reaches.
    TooLarge,
    /// A name that cannot go in an archive.
    BadName(String),
}

/// A moment, in the shape MS-DOS used and ZIP inherited.
#[derive(Clone, Copy, PartialEq, Eq, Structural, Debug)]
pub struct DosTime {
    time: u16,
    date: u16,
}

pub open spec fn clamp(v: int, lo: int, hi: int) -> int {
    if v < lo {
        lo
    } else if v > hi {
        hi
    } else {
        v
    }
}

impl DosTime {
    /// The packed time of day: hours, minutes, and seconds in units of two.
    pub closed spec fn time_field(self) -> u16 {
        self.time
    }

    /// The packed date: years since 1980, month, day.
    pub closed spec fn date_field(self) -> u16 {
        self.date
    }

    /// The packed time of day.
    pub fn time_bits(&self) -> (t: u16)
        ensures
            t == self.time_field(),
    {
        self.time
    }

    /// The packed date.
    pub fn date_bits(&self) -> (d: u16)
        ensures
            d == self.date_field(),
    {
        self.date
    }

    /// The earliest the format can express, which is what an archive with no
    /// meaningful timestamp should carry.
    ///
    /// Using a fixed value by default makes the output byte-for-byte
    /// reproducible, so two saves of one workbook compare equal.
    pub fn epoch() -> (t: Self)
        ensures
            t.time_field() == 0,
            t.date_field() == 1 * 32 + 1,
    {
        DosTime { time: 0, date: 33 }
    }

    /// Build from a civil date and time. Out-of-range parts are clamped
    /// rather than refused, because a timestamp is not worth failing a save
    /// over.
    pub fn new(year: u16, month: u8, day: u8, hour: u8, minute: u8, second: u8) -> (t: Self)
        ensures
            t.date_field() == (clamp(year as int, 1980, 2107) - 1980) * 512 + clamp(month as int, 1, 12)
                * 32 + clamp(day as int, 1, 31),
            t.time_field() == clamp(hour as int, 0, 23) * 2048 + clamp(minute as int, 0, 59) * 32
                + clamp(second as int, 0, 59) / 2,
    {
        let y: u16 = if year < 1980 { 1980 } else if year > 2107 { 2107 } else { year };
        let y: u16 = y - 1980;
        let month: u16 = if month < 1 { 1 } else if month > 12 { 12 } else { month as u16 };
        let day: u16 = if day < 1 { 1 } else if day > 31 { 31 } else { day as u16 };
        let hour: u16 = if hour > 23 { 23 } else { hour as u16 };
        let minute: u16 = if minute > 59 { 59 } else { minute as u16 };
        let second: u16 = (if second > 59 { 59 } else { second as u16 }) / 2;
        let time = hour << 11 | minute << 5 | second;
        let date = y << 9 | month << 5 | day;
        assert(time == hour * 2048 + minute * 32 + second) by (bit_vector)
            requires
                time == hour << 11 | minute << 5 | second,
                hour <= 23,
                minute <= 59,
                second <= 29,
        ;
        assert(date == y * 512 + month * 32 + day) by (bit_vector)
            requires
                date == y << 9 | month << 5 | day,
                y <= 127,
                month <= 12,
                day <= 31,
        ;
        DosTime { time, date }
    }
}

struct Entry {
    name: Vec<u8>,
    crc: u32,
    size: u32,
    offset: u32,
}

/// The local header that goes in front of an entry's bytes.
pub open spec fn local_header(time: DosTime, crc: u32, size: u32, name: Seq<u8>) -> Seq<u8> {
    le32(LOCAL_HEADER) + le16(VERSION) + le16(0) + le16(METHOD_STORED) + le16(time.time_field())
        + le16(time.date_field()) + le32(crc) + le32(size) + le32(size) + le16(name.len() as u16)
        + le16(0) + name
}

/// One record of the central directory, pointing back at a local header.
pub open spec fn central_record(time: DosTime, name: Seq<u8>, crc: u32, size: u32, offset: u32) -> Seq<u8> {
    le32(CENTRAL_HEADER) + le16(VERSION) + le16(VERSION) + le16(0) + le16(METHOD_STORED) + le16(
        time.time_field(),
    ) + le16(time.date_field()) + le32(crc) + le32(size) + le32(size) + le16(name.len() as u16)
        + le16(0) + le16(0) + le16(0) + le16(0) + le32(0) + le32(offset) + name
}

/// The record that closes an archive and says where its directory is.
pub open spec fn end_record(count: u16, directory_len: u32, directory_start: u32) -> Seq<u8> {
    le32(END_OF_DIRECTORY) + le16(0) + le16(0) + le16(count) + le16(count) + le32(directory_len)
        + le32(directory_start) + le16(0)
}

/// At the entry's offset sit the local-header signature, its crc, its size
/// twice, its name length and its name.
pub open spec fn header_at(bytes: Seq<u8>, info: EntryInfo) -> bool {
    let (name, crc, size, offset) = info;
    &&& offset + 30 + name.len() <= bytes.len()
    &&& bytes.subrange(offset as int, offset + 4) == le32(LOCAL_HEADER)
    &&& bytes.subrange(offset + 14, offset + 18) == le32(crc)
    &&& bytes.subrange(offset + 18, offset + 22) == le32(size)
    &&& bytes.subrange(offset + 22, offset + 26) == le32(size)
    &&& bytes.subrange(offset + 26, offset + 28) == le16(name.len() as u16)
    &&& bytes.subrange(offset + 30, offset + 30 + name.len()) == name
}

proof fn lemma_header_survives_append(bytes: Seq<u8>, extra: Seq<u8>, info: EntryInfo)
    requires
        header_at(bytes, info),
    ensures
        header_at(bytes + extra, info),
{
    let (name, crc, size, o) = info;
    let out = bytes + extra;
    assert(out.subrange(o as int, o + 4) =~= bytes.subrange(o as int, o + 4));
    assert(out.subrange(o + 14, o + 18) =~= bytes.subrange(o + 14, o + 18));
    assert(out.subrange(o + 18, o + 22) =~= bytes.subrange(o + 18, o + 22));
    assert(out.subrange(o + 22, o + 26) =~= bytes.subrange(o + 22, o + 26));
    assert(out.subrange(o + 26, o + 28) =~= bytes.subrange(o + 26, o + 28));
    assert(out.subrange(o + 30, o + 30 + name.len()) =~= bytes.subrange(o + 30, o + 30 + name.len()));
}

proof fn lemma_new_header(before: Seq<u8>, time: DosTime, crc: u32, size: u32, name: Seq<u8>, data: Seq<u8>)
    requires
        before.len() <= u32::MAX,
    ensures
        header_at(
            before + (local_header(time, crc, size, name) + data),
            (name, crc, size, before.len() as u32),
        ),
{
    let out = before + (local_header(time, crc, size, name) + data);
    let o = before.len() as int;
    assert(out.subrange(o, o + 4) =~= le32(LOCAL_HEADER));
    assert(out.subrange(o + 14, o + 18) =~= le32(crc));
    assert(out.subrange(o + 18, o + 22) =~= le32(size));
    assert(out.subrange(o + 22, o + 26) =~= le32(size));
    assert(out.subrange(o + 26, o + 28) =~= le16(name.len() as u16));
    assert(out.subrange(o + 30, o + 30 + name.len()) =~= name);
}

/// The name, crc, size and offset of every entry added so far.
pub type EntryInfo = (Seq<u8>, u32, u32, u32);

/// The central directory for these entries, in order.
pub open spec fn directory(time: DosTime, entries: Seq<EntryInfo>) -> Seq<u8>
    decreases entries.len(),
{
    if entries.len() == 0 {
        Seq::empty()
    } else {
        let (name, crc, size, offset) = entries.last();
        directory(time, entries.drop_last()) + central_record(time, name, crc, size, offset)
    }
}

/// The bytes and entries a writer stamped with `time` holds after these
/// files, name and contents, were added in order, every one accepted.
pub open spec fn added(time: DosTime, files: Seq<(Seq<char>, Seq<u8>)>) -> (Seq<u8>, Seq<EntryInfo>)
    decreases files.len(),
{
    if files.len() == 0 {
        (Seq::empty(), Seq::empty())
    } else {
        let (bytes, entries) = added(time, files.drop_last());
        let (name, data) = files.last();
        let name_bytes = encode_utf8(name);
        (
            bytes + local_header(time, checksum(data), data.len() as u32, name_bytes) + data,
            entries.push((name_bytes, checksum(data), data.len() as u32, bytes.len() as u32)),
        )
    }
}

/// Whether every one of these files is accepted in turn: a good name, at
/// most 4 GiB of data, and the archive not yet past 4 GiB.
pub open spec fn addable(time: DosTime, files: Seq<(Seq<char>, Seq<u8>)>) -> bool
    decreases files.len(),
{
    if files.len() == 0 {
        true
    } else {
        let (name, data) = files.last();
        &&& addable(time, files.drop_last())
        &&& !bad_name(encode_utf8(name))
        &&& data.len() <= u32::MAX
        &&& added(time, files.drop_last()).0.len() <= u32::MAX
    }
}

/// The archive of these files, when it can be written: every file accepted,
/// and the whole still addressable.
pub open spec fn archive(time: DosTime, files: Seq<(Seq<char>, Seq<u8>)>) -> Option<Seq<u8>> {
    let (bytes, entries) = added(time, files);
    let dir = directory(time, entries);
    if !addable(time, files) || bytes.len() > u32::MAX || bytes.len() + dir.len() > u32::MAX
        || entries.len() > u16::MAX {
        None
    } else {
        Some(
            bytes + dir + end_record(entries.len() as u16, dir.len() as u32, bytes.len() as u32),
        )
    }
}

/// The bytes the entries of these files take: for each, a local header of
/// thirty bytes and the name, then the data.
pub open spec fn entries_len(files: Seq<(Seq<char>, Seq<u8>)>) -> nat
    decreases files.len(),
{
    if files.len() == 0 {
        0
    } else {
        entries_len(files.drop_last()) + 30 + encode_utf8(files.last().0).len() + files.last().1.len()
    }
}

/// The bytes the central directory of these files takes: for each, a record
/// of forty-six bytes and the name.
pub open spec fn directory_len(files: Seq<(Seq<char>, Seq<u8>)>) -> nat
    decreases files.len(),
{
    if files.len() == 0 {
        0
    } else {
        directory_len(files.drop_last()) + 46 + encode_utf8(files.last().0).len()
    }
}

/// What the archive records of the `k`-th file: its name, crc, size, and
/// where its local header starts, after the entries before it.
pub open spec fn entry_of(files: Seq<(Seq<char>, Seq<u8>)>, k: int) -> EntryInfo {
    (
        encode_utf8(files[k].0),
        checksum(files[k].1),
        files[k].1.len() as u32,
        entries_len(files.take(k)) as u32,
    )
}

/// The directory bytes these entries take, a record and a name each.
pub open spec fn records_len(entries: Seq<EntryInfo>) -> nat
    decreases entries.len(),
{
    if entries.len() == 0 {
        0
    } else {
        records_len(entries.drop_last()) + 46 + entries.last().0.len()
    }
}

proof fn lemma_added_shape(time: DosTime, files: Seq<(Seq<char>, Seq<u8>)>)
    requires
        addable(time, files),
    ensures
        added(time, files).0.len() == entries_len(files),
        added(time, files).1.len() == files.len(),
        forall|k: int| 0 <= k < files.len() ==> #[trigger] added(time, files).1[k] == entry_of(files, k),
        forall|k: int| 0 <= k < files.len() ==> header_at(added(time, files).0, #[trigger] added(time, files).1[k]),
    decreases files.len(),
{
    if files.len() > 0 {
        let init = files.drop_last();
        lemma_added_shape(time, init);
        let (bytes, entries) = added(time, init);
        let (name, data) = files.last();
        let name_bytes = encode_utf8(name);
        let header = local_header(time, checksum(data), data.len() as u32, name_bytes);
        assert(header.len() == 30 + name_bytes.len());
        let (out, infos) = added(time, files);
        assert(out =~= bytes + (header + data));
        let n = files.len() - 1;
        assert(files.take(n) =~= init);
        lemma_new_header(bytes, time, checksum(data), data.len() as u32, name_bytes, data);
        assert forall|k: int| 0 <= k < files.len() implies #[trigger] infos[k] == entry_of(files, k) && header_at(
            out,
            infos[k],
        ) by {
            if k < n {
                assert(files.take(k) =~= init.take(k));
                assert(init[k] == files[k]);
                assert(infos[k] == entries[k]);
                lemma_header_survives_append(bytes, header + data, entries[k]);
            }
        }
    }
}

proof fn lemma_directory_shape(time: DosTime, entries: Seq<EntryInfo>)
    requires
        forall|k: int| 0 <= k < entries.len() ==> (#[trigger] entries[k]).0.len() <= 0xFFFF,
    ensures
        directory(time, entries).len() == records_len(entries),
        forall|k: int|
            0 <= k < entries.len() ==> {
                let at: int = (#[trigger] records_len(entries.take(k))) as int;
                &&& directory(time, entries).subrange(at, at + 4) == le32(CENTRAL_HEADER)
                &&& directory(time, entries).subrange(at + 42, at + 46) == le32(entries[k].3)
            },
    decreases entries.len(),
{
    if entries.len() > 0 {
        let init = entries.drop_last();
        assert forall|k: int| 0 <= k < init.len() implies (#[trigger] init[k]).0.len() <= 0xFFFF by {
            assert(init[k] == entries[k]);
        }
        lemma_directory_shape(time, init);
        let (name, crc, size, offset) = entries.last();
        let record = central_record(time, name, crc, size, offset);
        let before = directory(time, init);
        let whole = directory(time, entries);
        assert(whole == before + record);
        assert(record.len() == 46 + name.len());
        let n = entries.len() - 1;
        assert(entries.take(n) =~= init);
        assert forall|k: int| 0 <= k < entries.len() implies {
            let at: int = (#[trigger] records_len(entries.take(k))) as int;
            &&& whole.subrange(at, at + 4) == le32(CENTRAL_HEADER)
            &&& whole.subrange(at + 42, at + 46) == le32(entries[k].3)
        } by {
            let at: int = records_len(entries.take(k)) as int;
            if k < n {
                assert(entries.take(k) =~= init.take(k));
                assert(init[k] == entries[k]);
                lemma_records_prefix(init, k + 1);
                assert(init.take(k + 1).drop_last() =~= init.take(k));
                assert(init.take(k + 1).last() == init[k]);
                assert(records_len(init.take(k + 1)) == at + 46 + init[k].0.len());
                assert(whole.subrange(at, at + 4) =~= before.subrange(at, at + 4));
                assert(whole.subrange(at + 42, at + 46) =~= before.subrange(at + 42, at + 46));
            } else {
                assert(whole.subrange(at, at + 4) =~= le32(CENTRAL_HEADER));
                assert(whole.subrange(at + 42, at + 46) =~= le32(offset));
            }
        }
    }
}

/// A prefix of the entries takes no more directory bytes than the whole.
proof fn lemma_records_prefix(entries: Seq<EntryInfo>, m: int)
    requires
        0 <= m <= entries.len(),
    ensures
        records_len(entries.take(m)) <= records_len(entries),
    decreases entries.len(),
{
    if m < entries.len() {
        let init = entries.drop_last();
        assert(init.take(m) =~= entries.take(m));
        lemma_records_prefix(init, m);
    } else {
        assert(entries.take(m) =~= entries);
    }
}

proof fn lemma_records_of_files(time: DosTime, files: Seq<(Seq<char>, Seq<u8>)>, entries: Seq<EntryInfo>, m: int)
    requires
        entries.len() == files.len(),
        forall|k: int| 0 <= k < files.len() ==> (#[trigger] entries[k]).0 == encode_utf8(files[k].0),
        0 <= m <= files.len(),
    ensures
        records_len(entries.take(m)) == directory_len(files.take(m)),
    decreases m,
{
    if m > 0 {
        lemma_records_of_files(time, files, entries, m - 1);
        assert(entries.take(m).drop_last() =~= entries.take(m - 1));
        assert(files.take(m).drop_last() =~= files.take(m - 1));
    }
}

/// The layout of an archive that can be written: first every file's local
/// header and data, in the order added; then the central directory, one
/// record per file in the same order, each holding at byte 42 the offset of
/// its file's local header; then a 22-byte end record whose entry count (at
/// byte 10) is the number of files and whose directory offset (at byte 16)
/// is where the entries end. Each local header carries its file's name, crc
/// and size. With no files the archive is the end record alone. This is
/// what `ZipWriter::finish` hands back for a writer made from these files.
pub proof fn lemma_archive_layout(time: DosTime, files: Seq<(Seq<char>, Seq<u8>)>)
    requires
        archive(time, files) is Some,
    ensures
        ({
            let bytes = archive(time, files)->0;
            let l: int = entries_len(files) as int;
            let d: int = directory_len(files) as int;
            &&& bytes.len() == l + d + 22
            &&& bytes.subrange(l + d, l + d + 4) == le32(END_OF_DIRECTORY)
            &&& bytes.subrange(l + d + 10, l + d + 12) == le16(files.len() as u16)
            &&& bytes.subrange(l + d + 16, l + d + 20) == le32(l as u32)
            &&& forall|k: int|
                0 <= k < files.len() ==> {
                    let at: int = l + #[trigger] directory_len(files.take(k));
                    &&& bytes.subrange(at, at + 4) == le32(CENTRAL_HEADER)
                    &&& bytes.subrange(at + 42, at + 46) == le32(entries_len(files.take(k)) as u32)
                    &&& header_at(bytes, entry_of(files, k))
                }
        }),
{
    let (out, entries) = added(time, files);
    lemma_added_shape(time, files);
    assert forall|k: int| 0 <= k < entries.len() implies (#[trigger] entries[k]).0.len() <= 0xFFFF by {
        assert(entries[k] == entry_of(files, k));
        lemma_addable_names(time, files, k);
    }
    lemma_directory_shape(time, entries);
    let dir = directory(time, entries);
    let l: int = entries_len(files) as int;
    let d: int = directory_len(files) as int;
    assert forall|k: int| 0 <= k < files.len() implies (#[trigger] entries[k]).0 == encode_utf8(files[k].0) by {
        assert(entries[k] == entry_of(files, k));
    }
    lemma_records_of_files(time, files, entries, files.len() as int);
    assert(entries.take(entries.len() as int) =~= entries);
    assert(files.take(files.len() as int) =~= files);
    let end = end_record(entries.len() as u16, dir.len() as u32, out.len() as u32);
    let bytes = archive(time, files)->0;
    assert(bytes == out + dir + end);
    assert(bytes.subrange(l + d, l + d + 4) =~= le32(END_OF_DIRECTORY));
    assert(bytes.subrange(l + d + 10, l + d + 12) =~= le16(files.len() as u16));
    assert(bytes.subrange(l + d + 16, l + d + 20) =~= le32(l as u32));
    assert forall|k: int| 0 <= k < files.len() implies {
        let at: int = l + #[trigger] directory_len(files.take(k));
        &&& bytes.subrange(at, at + 4) == le32(CENTRAL_HEADER)
        &&& bytes.subrange(at + 42, at + 46) == le32(entries_len(files.take(k)) as u32)
        &&& header_at(bytes, entry_of(files, k))
    } by {
        lemma_records_of_files(time, files, entries, k);
        lemma_record_in_archive(time, out, entries, dir, end, k);
    }
}

proof fn lemma_record_in_archive(
    time: DosTime,
    out: Seq<u8>,
    entries: Seq<EntryInfo>,
    dir: Seq<u8>,
    end: Seq<u8>,
    k: int,
)
    requires
        0 <= k < entries.len(),
        dir.len() == records_len(entries),
        header_at(out, entries[k]),
        ({
            let r: int = records_len(entries.take(k)) as int;
            &&& dir.subrange(r, r + 4) == le32(CENTRAL_HEADER)
            &&& dir.subrange(r + 42, r + 46) == le32(entries[k].3)
        }),
    ensures
        ({
            let bytes = out + dir + end;
            let at: int = (out.len() + records_len(entries.take(k))) as int;
            &&& bytes.subrange(at, at + 4) == le32(CENTRAL_HEADER)
            &&& bytes.subrange(at + 42, at + 46) == le32(entries[k].3)
            &&& header_at(bytes, entries[k])
        }),
{
    let r: int = records_len(entries.take(k)) as int;
    let l: int = out.len() as int;
    let bytes = out + dir + end;
    lemma_records_prefix(entries, k + 1);
    assert(entries.take(k + 1).drop_last() =~= entries.take(k));
    assert(entries.take(k + 1).last() == entries[k]);
    assert(bytes.subrange(l + r, l + r + 4) =~= dir.subrange(r, r + 4));
    assert(bytes.subrange(l + r + 42, l + r + 46) =~= dir.subrange(r + 42, r + 46));
    assert(bytes =~= out + (dir + end));
    lemma_header_survives_append(out, dir + end, entries[k]);
}

/// A file accepted into an archive has a name of at most 0xFFFF bytes.
proof fn lemma_addable_names(time: DosTime, files: Seq<(Seq<char>, Seq<u8>)>, k: int)
    requires
        addable(time, files),
        0 <= k < files.len(),
    ensures
        encode_utf8(files[k].0).len() <= 0xFFFF,
    decreases files.len(),
{
    if k < files.len() - 1 {
        assert(files.drop_last()[k] == files[k]);
        lemma_addable_names(time, files.drop_last(), k);
    }
}

/// Whether some bytes, read as an entry name, climb out of the archive or
/// cannot be stored: empty, too long, absolute, using a backslash, or with a
/// `..` component.
pub open spec fn bad_name(b: Seq<u8>) -> bool {
    ||| b.len() == 0
    ||| b.len() > 0xFFFF
    ||| b[0] == 0x2F
    ||| exists|i: int| 0 <= i < b.len() && b[i] == 0x5C
    ||| exists|i: int| 0 <= i && i + 1 < b.len() && #[trigger] dot_dot_at(b, i)
}

/// A `..` component starts at `i`.
pub open spec fn dot_dot_at(b: Seq<u8>, i: int) -> bool {
    &&& b[i] == 0x2E
    &&& b[i + 1] == 0x2E
    &&& (i == 0 || b[i - 1] == 0x2F)
    &&& (i + 2 == b.len() || b[i + 2] == 0x2F)
}

/// Entry names are forward-slashed relative paths, and must not try to climb
/// out of the archive when it is unpacked.
fn name_is_bad(b: &[u8]) -> (r: bool)
    ensures
        r == bad_name(b@),
{
    let n = b.len();
    if n == 0 || n > 0xFFFF || b[0] == 0x2F {
        return true;
    }
    let mut i: usize = 0;
    while i < n
        invariant
            n == b@.len(),
            i <= n,
            forall|j: int| 0 <= j < i ==> b@[j] != 0x5C,
            forall|j: int| 0 <= j < i && j + 1 < n ==> !#[trigger] dot_dot_at(b@, j),
        decreases n - i,
    {
        if b[i] == 0x5C {
            return true;
        }
        if i + 1 < n && b[i] == 0x2E && b[i + 1] == 0x2E && (i == 0 || b[i - 1] == 0x2F) && (i + 2
            == n || b[i + 2] == 0x2F) {
            assert(dot_dot_at(b@, i as int));
            return true;
        }
        i = i + 1;
    }
    false
}

/// Entry names are forward-slashed relative paths, and must not try to climb
/// out of the archive when it is unpacked.
fn check_name(name: &str) -> (r: Result<(), ZipError>)
    ensures
        r is Ok <==> !bad_name(encode_utf8(name@)),
        r matches Err(e) ==> e matches ZipError::BadName(s) && s@ == name@,
{
    if name_is_bad(name.as_bytes()) {
        return Err(ZipError::BadName(String::from_str(name)));
    }
    Ok(())
}

fn write_local_header(out: &mut Vec<u8>, time: DosTime, crc: u32, size: u32, name: &[u8])
    requires
        name@.len() <= 0xFFFF,
    ensures
        final(out)@ == old(out)@ + local_header(time, crc, size, name@),
{
    push_u32(out, LOCAL_HEADER);
    push_u16(out, VERSION);
    push_u16(out, 0);
    push_u16(out, METHOD_STORED);
    push_u16(out, time.time);
    push_u16(out, time.date);
    push_u32(out, crc);
    push_u32(out, size);
    push_u32(out, size);
    push_u16(out, name.len() as u16);
    push_u16(out, 0);
    out.extend_from_slice(name);
    assert(out@ =~= old(out)@ + local_header(time, crc, size, name@));
}

fn write_central_record(out: &mut Vec<u8>, time: DosTime, name: &[u8], crc: u32, size: u32, offset: u32)
    ensures
        final(out)@ == old(out)@ + central_record(time, name@, crc, size, offset),
{
    push_u32(out, CENTRAL_HEADER);
    push_u16(out, VERSION);
    push_u16(out, VERSION);
    push_u16(out, 0);
    push_u16(out, METHOD_STORED);
    push_u16(out, time.time);
    push_u16(out, time.date);
    push_u32(out, crc);
    push_u32(out, size);
    push_u32(out, size);
    push_u16(out, name.len() as u16);
    push_u16(out, 0);
    push_u16(out, 0);
    push_u16(out, 0);
    push_u16(out, 0);
    push_u32(out, 0);
    push_u32(out, offset);
    out.extend_from_slice(name);
    assert(out@ =~= old(out)@ + central_record(time, name@, crc, size, offset));
}

/// Packs entries into an archive, in memory.
pub struct ZipWriter {
    out: Vec<u8>,
    entries: Vec<Entry>,
    time: DosTime,
}

impl ZipWriter {
    /// The bytes written so far: every local header and its data.
    pub closed spec fn bytes(&self) -> Seq<u8> {
        self.out@
    }

    /// What has been recorded of each entry, for the directory.
    pub closed spec fn entry_infos(&self) -> Seq<EntryInfo> {
        self.entries@.map_values(|e: Entry| (e.name@, e.crc, e.size, e.offset))
    }

    /// The time every entry is stamped with.
    pub closed spec fn stamp(&self) -> DosTime {
        self.time
    }

    /// The writer holds exactly what adding these files in turn, each one
    /// accepted, writes: their local headers and data, and their entries.
    pub open spec fn made_from(&self, files: Seq<(Seq<char>, Seq<u8>)>) -> bool {
        &&& addable(self.stamp(), files)
        &&& self.bytes() == added(self.stamp(), files).0
        &&& self.entry_infos() == added(self.stamp(), files).1
    }

    /// Every recorded entry points at its own local header.
    pub open spec fn well_formed(&self) -> bool {
        forall|k: int|
            0 <= k < self.entry_infos().len() ==> header_at(self.bytes(), #[trigger] self.entry_infos()[k])
    }

    pub fn new() -> (w: Self)
        ensures
            w.bytes() == Seq::<u8>::empty(),
            w.entry_infos() == Seq::<EntryInfo>::empty(),
            w.stamp().time_field() == 0,
            w.stamp().date_field() == 1 * 32 + 1,
            w.well_formed(),
            w.made_from(Seq::empty()),
    {
        let w = ZipWriter { out: Vec::new(), entries: Vec::new(), time: DosTime::epoch() };
        assert(w.entry_infos() =~= Seq::<EntryInfo>::empty());
        w
    }

    /// Stamp every entry with this time. Defaults to [`DosTime::epoch`], which
    /// keeps the output reproducible.
    pub fn with_time(self, time: DosTime) -> (w: Self)
        ensures
            w.bytes() == self.bytes(),
            w.entry_infos() == self.entry_infos(),
            w.stamp() == time,
            self.well_formed() ==> w.well_formed(),
            self.made_from(Seq::empty()) ==> w.made_from(Seq::empty()),
    {
        let mut w = self;
        w.time = time;
        assert(w.entry_infos() =~= self.entry_infos());
        w
    }

    /// Add one file.
    ///
    /// Refused, with nothing written, for a name that cannot be an entry, for
    /// data past 4 GiB, and once the archive itself has passed 4 GiB.
    pub fn add(&mut self, name: &str, data: &[u8]) -> (r: Result<(), ZipError>)
        requires
            old(self).well_formed(),
        ensures
            final(self).well_formed(),
            final(self).stamp() == old(self).stamp(),
            bad_name(encode_utf8(name@)) ==> (r matches Err(ZipError::BadName(s)) && s@ == name@),
            !bad_name(encode_utf8(name@)) && (data@.len() > u32::MAX || old(self).bytes().len()
                > u32::MAX) ==> (r matches Err(ZipError::TooLarge)),
            r is Ok <==> !bad_name(encode_utf8(name@)) && data@.len() <= u32::MAX
                && old(self).bytes().len() <= u32::MAX,
            r is Err ==> final(self).bytes() == old(self).bytes() && final(self).entry_infos()
                == old(self).entry_infos(),
            r is Ok ==> {
                &&& final(self).bytes() == old(self).bytes() + local_header(
                    old(self).stamp(),
                    checksum(data@),
                    data@.len() as u32,
                    encode_utf8(name@),
                ) + data@
                &&& final(self).entry_infos() == old(self).entry_infos().push(
                    (
                        encode_utf8(name@),
                        checksum(data@),
                        data@.len() as u32,
                        old(self).bytes().len() as u32,
                    ),
                )
            },
            forall|files: Seq<(Seq<char>, Seq<u8>)>|
                #[trigger] old(self).made_from(files) ==> if r is Ok {
                    final(self).made_from(files.push((name@, data@)))
                } else {
                    final(self).made_from(files)
                },
    {
        match check_name(name) {
            Err(e) => {
                return Err(e);
            },
            Ok(()) => {},
        }
        let name_bytes = name.as_bytes();
        if data.len() > 0xFFFF_FFFF || self.out.len() > 0xFFFF_FFFF {
            return Err(ZipError::TooLarge);
        }
        let size = data.len() as u32;
        let offset = self.out.len() as u32;
        let crc = crc32(data);
        let ghost before = self.out@;
        let ghost infos = self.entry_infos();

        write_local_header(&mut self.out, self.time, crc, size, name_bytes);
        self.out.extend_from_slice(data);

        let mut owned_name: Vec<u8> = Vec::new();
        owned_name.extend_from_slice(name_bytes);
        self.entries.push(Entry { name: owned_name, crc, size, offset });

        proof {
            let header = local_header(self.time, crc, size, name_bytes@);
            assert(self.out@ =~= before + (header + data@));
            assert(owned_name@ =~= name_bytes@);
            assert(self.entry_infos() =~= infos.push((name_bytes@, crc, size, offset)));
            lemma_new_header(before, self.time, crc, size, name_bytes@, data@);
            assert forall|k: int| 0 <= k < self.entry_infos().len() implies header_at(
                self.out@,
                #[trigger] self.entry_infos()[k],
            ) by {
                if k < infos.len() {
                    assert(infos[k] == self.entry_infos()[k]);
                    assert(header_at(before, infos[k]));
                    lemma_header_survives_append(before, header + data@, infos[k]);
                }
            }
            assert forall|files: Seq<(Seq<char>, Seq<u8>)>| #[trigger] old(self).made_from(files) implies self.made_from(
                files.push((name@, data@)),
            ) by {
                assert(files.push((name@, data@)).drop_last() =~= files);
                assert(name_bytes@ == encode_utf8(name@));
                assert(self.out@ =~= before + header + data@);
            }
        }
        Ok(())
    }

    /// Close the archive and hand back its bytes: the entries, then one
    /// directory record for each, then the end record pointing at the
    /// directory.
    pub fn finish(self) -> (r: Result<Vec<u8>, ZipError>)
        ensures
            ({
                let dir = directory(self.stamp(), self.entry_infos());
                let start = self.bytes().len();
                if start > u32::MAX || start + dir.len() > u32::MAX || self.entry_infos().len()
                    > u16::MAX {
                    r matches Err(ZipError::TooLarge)
                } else {
                    r matches Ok(bytes) && bytes@ == self.bytes() + dir + end_record(
                        self.entry_infos().len() as u16,
                        dir.len() as u32,
                        start as u32,
                    )
                }
            }),
            forall|files: Seq<(Seq<char>, Seq<u8>)>|
                #[trigger] self.made_from(files) ==> match archive(self.stamp(), files) {
                    Some(bytes) => r matches Ok(out) && out@ == bytes,
                    None => r matches Err(ZipError::TooLarge),
                },
    {
        let mut out = self.out;
        if out.len() > 0xFFFF_FFFF {
            return Err(ZipError::TooLarge);
        }
        let directory_start = out.len() as u32;
        let ghost infos = self.entries@.map_values(|e: Entry| (e.name@, e.crc, e.size, e.offset));
        let ghost start = out@;
        let mut i: usize = 0;
        while i < self.entries.len()
            invariant
                i <= self.entries@.len(),
                infos == self.entries@.map_values(|e: Entry| (e.name@, e.crc, e.size, e.offset)),
                out@ == start + directory(self.time, infos.subrange(0, i as int)),
            decreases self.entries.len() - i,
        {
            let entry = &self.entries[i];
            let ghost before = out@;
            write_central_record(&mut out, self.time, entry.name.as_slice(), entry.crc, entry.size, entry.offset);
            proof {
                assert(infos[i as int] == (entry.name@, entry.crc, entry.size, entry.offset));
                assert(infos.subrange(0, i + 1).drop_last() =~= infos.subrange(0, i as int));
                assert(out@ =~= before + central_record(
                    self.time,
                    entry.name@,
                    entry.crc,
                    entry.size,
                    entry.offset,
                ));
            }
            i = i + 1;
        }
        assert(infos.subrange(0, infos.len() as int) =~= infos);
        if out.len() > 0xFFFF_FFFF {
            return Err(ZipError::TooLarge);
        }
        let directory_end = out.len() as u32;
        if self.entries.len() > 0xFFFF {
            return Err(ZipError::TooLarge);
        }
        let count = self.entries.len() as u16;
        let ghost before = out@;
        push_u32(&mut out, END_OF_DIRECTORY);
        push_u16(&mut out, 0);
        push_u16(&mut out, 0);
        push_u16(&mut out, count);
        push_u16(&mut out, count);
        push_u32(&mut out, directory_end - directory_start);
        push_u32(&mut out, directory_start);
        push_u16(&mut out, 0);
        assert(out@ =~= before + end_record(count, (directory_end - directory_start) as u32, directory_start));
        Ok(out)
    }
}

} // verus!
