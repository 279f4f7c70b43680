//! Building one archive of stored entries in memory.

use vstd::prelude::*;
use crate::error::PackError;

verus! {

/// How the bytes of an entry are kept in the archive.
#[derive(Clone, Copy, Debug, PartialEq, Eq, Structural)]
pub enum Method {
    /// As they are, without compression.
    Stored,
}

/// The number that the archive format has for a method.
pub open spec fn method_code(method: Method) -> u16 {
    match method {
        Method::Stored => 0,
    }
}

/// The method of every entry: stored.
pub const ENTRY_METHOD: Method = Method::Stored;

/// The permission bits of every entry: read, write and execute for the
/// owner, read and execute for group and others.
pub const ENTRY_MODE: u32 = 0o755;

/// The date of every entry, as the archive format packs it: 1980-01-01,
/// the first day that the format can name. With one date for all, an
/// archive's bytes depend on its entries alone.
pub const ENTRY_DATE: u16 = 0x21;

/// The time of day of every entry, as the archive format packs it:
/// midnight.
pub const ENTRY_TIME: u16 = 0;

/// The largest content that one entry takes, in bytes.
pub const ENTRY_LIMIT: usize = 0xFFFF_FFFF;

/// A `zip::ZipWriter` over a buffer in memory.
#[verifier::external_body]
pub struct ZipBuffer {
    inner: zip::ZipWriter<std::io::Cursor<Vec<u8>>>,
}

/// The error type of the `zip` crate, carried from the writer to
/// `entry_outcome` and `image_outcome`.
#[verifier::external_type_specification]
#[verifier::external_body]
pub struct ExZipError(zip::result::ZipError);

/// The entries that the writer holds, in the order in which they were
/// started. Of each: its name; its method as the format's number, its
/// permission bits, and its date and time in the format's packed form;
/// and the bytes written so far.
pub uninterp spec fn zip_entries(writer: ZipBuffer) -> Seq<
    (Seq<char>, (u16, u32, u16, u16), Seq<u8>),
>;

/// Whether the writer still takes entries and data: it has not been closed,
/// neither by finishing nor by an entry that outgrew what the format's
/// plain size fields hold.
pub uninterp spec fn zip_usable(writer: ZipBuffer) -> bool;

/// The bytes of the finished archive that holds `entries`.
pub uninterp spec fn zip_image(entries: Seq<(Seq<char>, (u16, u32, u16, u16), Seq<u8>)>) -> Seq<
    u8,
>;

/// `zip::ZipWriter::new` on an empty buffer: the writer holds no entry and
/// is open.
#[verifier::external_body]
fn zip_new() -> (writer: ZipBuffer)
    ensures
        zip_entries(writer) == Seq::<(Seq<char>, (u16, u32, u16, u16), Seq<u8>)>::empty(),
        zip_usable(writer),
{
    ZipBuffer { inner: zip::ZipWriter::new(std::io::Cursor::new(Vec::new())) }
}

/// `zip::ZipWriter::start_file` with options made of `method`, `mode`, and
/// the date that `zip::DateTime::from_msdos` reads from `date` and `time`.
/// Where it succeeds, the writer holds one more entry, the last, with that
/// name and those attributes and no data yet. On an open writer it does
/// succeed, and the writer stays open: the buffer in memory takes every
/// write, and nothing else is tested.
#[verifier::external_body]
fn zip_start_file(
    writer: &mut ZipBuffer,
    name: &str,
    method: Method,
    mode: u32,
    date: u16,
    time: u16,
) -> (res: Result<(), zip::result::ZipError>)
    requires
        mode <= 0o777,
    ensures
        res is Ok ==> zip_entries(*final(writer)) == zip_entries(*old(writer)).push(
            (name@, (method_code(method), mode, date, time), Seq::<u8>::empty()),
        ),
        zip_usable(*old(writer)) ==> res is Ok && zip_usable(*final(writer)),
{
    let method = match method {
        Method::Stored => zip::CompressionMethod::Stored,
    };
    let options = zip::write::FileOptions::default()
        .compression_method(method)
        .last_modified_time(zip::DateTime::from_msdos(date, time))
        .unix_permissions(mode);
    writer.inner.start_file(name, options)
}

/// `std::io::Write::write_all` on the writer. Where it succeeds and an
/// entry has been started, `data` is appended to the last entry and the
/// others are untouched. On an open writer with an entry started it does
/// succeed as long as the entry stays within 4 GiB less one byte, and where
/// it succeeds an open writer stays open.
#[verifier::external_body]
fn zip_write_all(writer: &mut ZipBuffer, data: &[u8]) -> (res: Result<(), zip::result::ZipError>)
    ensures
        res is Ok && zip_entries(*old(writer)).len() > 0 ==> zip_entries(*final(writer))
            == zip_entries(*old(writer)).drop_last().push(
            (
                zip_entries(*old(writer)).last().0,
                zip_entries(*old(writer)).last().1,
                zip_entries(*old(writer)).last().2 + data@,
            ),
        ),
        zip_usable(*old(writer)) && zip_entries(*old(writer)).len() > 0 && zip_entries(
            *old(writer),
        ).last().2.len() + data@.len() <= 0xFFFF_FFFF ==> res is Ok,
        res is Ok && zip_usable(*old(writer)) ==> zip_usable(*final(writer)),
{
    match std::io::Write::write_all(&mut writer.inner, data) {
        Ok(()) => Ok(()),
        Err(e) => Err(zip::result::ZipError::Io(e)),
    }
}

/// `zip::ZipWriter::finish`: closes the last entry, writes the central
/// directory and hands the buffer back. Where it succeeds, the bytes are
/// those of the archive of the writer's entries; on an open writer it does
/// succeed.
#[verifier::external_body]
fn zip_finish(writer: ZipBuffer) -> (res: Result<Vec<u8>, zip::result::ZipError>)
    ensures
        res matches Ok(bytes) ==> bytes@ == zip_image(zip_entries(writer)),
        zip_usable(writer) ==> res is Ok,
{
    let mut writer = writer;
    match writer.inner.finish() {
        Ok(cursor) => Ok(cursor.into_inner()),
        Err(e) => Err(e),
    }
}

/// What the writer's outcome on an entry means for the run.
pub fn entry_outcome(outcome: Result<(), zip::result::ZipError>) -> (res: Result<(), PackError>)
    ensures
        match outcome {
            Ok(_) => res == Ok::<(), PackError>(()),
            Err(_) => res == Err::<(), PackError>(PackError::Archive),
        },
{
    match outcome {
        Ok(_) => Ok(()),
        Err(_) => Err(PackError::Archive),
    }
}

/// What the writer's outcome on closing means for the run: the archive's
/// bytes as they are, or an archive failure.
pub fn image_outcome(outcome: Result<Vec<u8>, zip::result::ZipError>) -> (res: Result<
    Vec<u8>,
    PackError,
>)
    ensures
        match outcome {
            Ok(bytes) => res == Ok::<Vec<u8>, PackError>(bytes),
            Err(_) => res == Err::<Vec<u8>, PackError>(PackError::Archive),
        },
{
    match outcome {
        Ok(bytes) => Ok(bytes),
        Err(_) => Err(PackError::Archive),
    }
}

/// The attributes of every entry: stored, with the fixed permissions and
/// the fixed date.
pub open spec fn entry_attributes() -> (u16, u32, u16, u16) {
    (method_code(ENTRY_METHOD), ENTRY_MODE, ENTRY_DATE, ENTRY_TIME)
}

/// The entry that the archive keeps for a file stored as `name` with the
/// content `data`.
pub open spec fn stored(name: Seq<char>, data: Seq<u8>) -> (
    Seq<char>,
    (u16, u32, u16, u16),
    Seq<u8>,
) {
    (name, entry_attributes(), data)
}

/// An archive under construction. Entries are added one by one and stay in
/// the order in which they were added.
pub struct ArchiveWriter {
    buffer: ZipBuffer,
}

impl ArchiveWriter {
    /// The entries added so far, in order.
    pub closed spec fn entries(&self) -> Seq<(Seq<char>, (u16, u32, u16, u16), Seq<u8>)> {
        zip_entries(self.buffer)
    }

    /// Whether the writer is ready for the next entry. A new writer is,
    /// and it stays so with every entry that it takes and every one that
    /// it refuses.
    pub closed spec fn usable(&self) -> bool {
        zip_usable(self.buffer)
    }

    /// A writer for an archive without entries.
    pub fn new() -> (writer: ArchiveWriter)
        ensures
            writer.entries() == Seq::<(Seq<char>, (u16, u32, u16, u16), Seq<u8>)>::empty(),
            writer.usable(),
    {
        ArchiveWriter { buffer: zip_new() }
    }

    /// Adds the whole of `data` as one stored entry called `name`, behind
    /// the entries already there. Content of more than `ENTRY_LIMIT` bytes
    /// is refused before the entry is begun, and the archive stays as it
    /// was; any other content is taken.
    pub fn add(&mut self, name: &str, data: &[u8]) -> (res: Result<(), PackError>)
        ensures
            old(self).usable() ==> (res is Ok <==> data@.len() <= ENTRY_LIMIT),
            old(self).usable() ==> final(self).usable(),
            res is Ok ==> final(self).entries() == old(self).entries().push(stored(name@, data@)),
            data@.len() > ENTRY_LIMIT ==> res is Err && *final(self) == *old(self),
            res matches Err(e) ==> e == PackError::Archive,
    {
        if data.len() > ENTRY_LIMIT {
            return Err(PackError::Archive);
        }
        let started = entry_outcome(
            zip_start_file(
                &mut self.buffer,
                name,
                ENTRY_METHOD,
                ENTRY_MODE,
                ENTRY_DATE,
                ENTRY_TIME,
            ),
        );
        if started.is_err() {
            return started;
        }
        let written = entry_outcome(zip_write_all(&mut self.buffer, data));
        proof {
            let before = old(self).entries();
            let opened = before.push((name@, entry_attributes(), Seq::<u8>::empty()));
            assert(opened.drop_last() =~= before);
            assert(Seq::<u8>::empty() + data@ =~= data@);
        }
        written
    }

    /// Closes the archive and hands out its bytes.
    pub fn finish(self) -> (res: Result<Vec<u8>, PackError>)
        ensures
            self.usable() ==> res is Ok,
            res matches Ok(bytes) ==> bytes@ == zip_image(self.entries()),
            res matches Err(e) ==> e == PackError::Archive,
    {
        image_outcome(zip_finish(self.buffer))
    }
}

} // verus!
