//! The archive container: what the `zip` crate writes and reads back.
//!
//! One thing is assumed of the crate: what it does depends on what it is
//! given alone. Whether a writer takes an entry, and which bytes it gives
//! when it is finished, depends on the entries that it was handed, in their
//! order; what is read from an archive depends on the bytes of the archive.
//! The entries are written for one system and without the time of day, so
//! that this holds on every machine and at every hour; the crate is built
//! without its `time` feature. Nothing is assumed of what the written bytes
//! read back as: whatever this library promises of an archive, it states
//! through what reading the archive gives, and has read before it promises.

use vstd::prelude::*;

verus! {

/// The error type of the `zip` crate. Its contents are not looked at.
#[verifier::external_type_specification]
#[verifier::external_body]
pub struct ExZipError(zip::result::ZipError);

/// An archive that is being written to memory: a `zip::ZipWriter` over a
/// `std::io::Cursor`. Verus sees nothing of it.
#[verifier::external_body]
pub struct ArchiveWriter {
    inner: zip::ZipWriter<std::io::Cursor<Vec<u8>>>,
}

/// What a writer has been handed: entry by entry, in the order in which it
/// took them, all that was given with the entry. Of an entry that was
/// written, this is its name, whether it is stored, the level and the size
/// of the buffer, and its content. Of an entry that was copied, it is the
/// archive that it was copied from and its index there.
pub uninterp spec fn handed(writer: ArchiveWriter) -> Seq<
    (Seq<char>, bool, Option<i64>, Option<usize>, Seq<u8>, Option<nat>),
>;

/// An entry that is written: its name, whether it is stored, the level and
/// the size of the buffer that it is compressed with, and its content.
pub open spec fn written_entry(
    name: Seq<char>,
    stored: bool,
    level: Option<i64>,
    buffer: Option<usize>,
    content: Seq<u8>,
) -> (Seq<char>, bool, Option<i64>, Option<usize>, Seq<u8>, Option<nat>) {
    (name, stored, level, buffer, content, None::<nat>)
}

/// An entry that is copied as it is: the archive that it is copied from, and
/// its index there.
pub open spec fn copied_entry(archive: Seq<u8>, index: nat) -> (
    Seq<char>,
    bool,
    Option<i64>,
    Option<usize>,
    Seq<u8>,
    Option<nat>,
) {
    (Seq::<char>::empty(), false, None::<i64>, None::<usize>, archive, Some(index))
}

/// Whether a writer that has been handed all but the last of these entries
/// takes the last, an entry that is written: whether
/// `zip::ZipWriter::start_file` and `write_all` succeed on it.
pub uninterp spec fn entry_taken(
    history: Seq<(Seq<char>, bool, Option<i64>, Option<usize>, Seq<u8>, Option<nat>)>,
) -> bool;

/// Whether a writer that has been handed all but the last of these entries
/// takes the last, an entry that is copied: whether
/// `zip::ZipWriter::raw_copy_file` succeeds on it.
pub uninterp spec fn copy_taken(
    history: Seq<(Seq<char>, bool, Option<i64>, Option<usize>, Seq<u8>, Option<nat>)>,
) -> bool;

/// The bytes that `zip::ZipWriter::finish` gives for a writer that has been
/// handed these entries, if it gives any.
pub uninterp spec fn finished(
    history: Seq<(Seq<char>, bool, Option<i64>, Option<usize>, Seq<u8>, Option<nat>)>,
) -> Option<Seq<u8>>;

/// One entry as it is read from an archive.
#[derive(Clone, Debug, PartialEq, Eq)]
pub struct Entry {
    /// The name of the entry.
    pub name: String,
    /// Whether the entry is stored, that is, holds its content as it is.
    pub stored: bool,
    /// The number of bytes that the entry's data takes in the archive.
    pub compressed_size: u64,
    /// The content of the entry, decompressed where it was compressed.
    pub content: Vec<u8>,
}

impl View for Entry {
    type V = (Seq<char>, bool, u64, Seq<u8>);

    /// The name, whether the entry is stored, the size of its data, and
    /// its content.
    open spec fn view(&self) -> (Seq<char>, bool, u64, Seq<u8>) {
        (self.name@, self.stored, self.compressed_size, self.content@)
    }
}

/// The number of entries that `zip::ZipArchive` finds in the given bytes, if
/// it takes them for an archive.
pub uninterp spec fn read_count(archive: Seq<u8>) -> Option<nat>;

/// What `zip::ZipArchive` reads as the entry at `index` of the given bytes:
/// its name, whether it is stored, the size of its data in the archive, and
/// its content.
pub uninterp spec fn read_at(archive: Seq<u8>, index: nat) -> Option<
    (Seq<char>, bool, u64, Seq<u8>),
>;

/// Opens the bytes with `zip::ZipArchive::new` and asks for `len`. The
/// result depends on the bytes alone.
#[verifier::external_body]
pub(crate) fn count_entries(archive: &Vec<u8>) -> (r: Result<usize, zip::result::ZipError>)
    ensures
        match r {
            Ok(count) => read_count(archive@) == Some(count as nat),
            Err(_) => read_count(archive@) is None,
        },
{
    let reader = zip::ZipArchive::new(std::io::Cursor::new(archive.as_slice()))?;
    Ok(reader.len())
}

/// How the data of an entry is to be kept.
#[derive(Clone, Copy, Debug, PartialEq, Eq, Structural)]
pub(crate) enum Method {
    /// As it is.
    Stored,
    /// Compressed by deflate.
    Deflated,
}

/// The largest buffer that may be asked for.
pub(crate) const BUFFER_LIMIT: usize = 0x100_0000;

/// Opens the bytes with `zip::ZipArchive::new`, takes the entry with
/// `by_index` and reads it to its end. The result depends on the bytes and
/// the index alone.
#[verifier::external_body]
pub(crate) fn read_entry(archive: &Vec<u8>, index: usize) -> (r: Result<
    Entry,
    zip::result::ZipError,
>)
    ensures
        match r {
            Ok(entry) => read_at(archive@, index as nat) == Some(entry@),
            Err(_) => read_at(archive@, index as nat) is None,
        },
{
    let mut reader = zip::ZipArchive::new(std::io::Cursor::new(archive.as_slice()))?;
    let mut file = reader.by_index(index)?;
    let mut content = Vec::new();
    std::io::Read::read_to_end(&mut file, &mut content)?;
    let name = file.name()?.into_owned();
    let stored = match file.compression() {
        zip::CompressionMethod::Stored => true,
        _ => false,
    };
    Ok(Entry { name, stored, compressed_size: file.compressed_size(), content })
}

/// `zip::ZipWriter::new` on an empty in-memory file. The new writer has been
/// handed nothing.
#[verifier::external_body]
pub(crate) fn new_writer() -> (writer: ArchiveWriter)
    ensures
        handed(writer).len() == 0,
{
    ArchiveWriter { inner: zip::ZipWriter::new(std::io::Cursor::new(Vec::new())) }
}

/// `zip::ZipWriter::start_file` and then `write_all` of the content. The
/// options are the crate's constant ones, which hold no time of day, for
/// Unix as the system, and with the method, the level and the size of the
/// buffer as given. The buffer is allocated at once, so its size is limited.
/// Whether the writer takes the entry depends on the entry and on what the
/// writer was handed before; a writer that took it has been handed it.
/// Nothing is claimed of a writer that refused.
#[verifier::external_body]
pub(crate) fn add_entry(
    writer: &mut ArchiveWriter,
    name: &str,
    method: Method,
    level: Option<i64>,
    buffer: Option<usize>,
    content: &Vec<u8>,
) -> (r: Result<(), zip::result::ZipError>)
    requires
        buffer matches Some(size) ==> size <= BUFFER_LIMIT,
    ensures
        r is Ok <==> entry_taken(
            handed(*old(writer)).push(
                written_entry(name@, method is Stored, level, buffer, content@),
            ),
        ),
        r is Ok ==> handed(*final(writer)) == handed(*old(writer)).push(
            written_entry(name@, method is Stored, level, buffer, content@),
        ),
{
    let method = match method {
        Method::Stored => zip::CompressionMethod::Stored,
        Method::Deflated => zip::CompressionMethod::Deflated,
    };
    let options = zip::write::SimpleFileOptions::DEFAULT.system(
        zip::System::Unix,
    ).compression_method(method).compression_level(level).with_zopfli_buffer(buffer);
    writer.inner.start_file(name, options)?;
    Ok(std::io::Write::write_all(&mut writer.inner, content.as_slice())?)
}

/// `zip::ZipWriter::raw_copy_file` of one entry of another archive, taken
/// from it with `by_index_raw`: the entry is copied as it is, compressed or
/// not. Whether the writer takes the entry depends on the archive, the
/// index and what the writer was handed before; a writer that took it has
/// been handed it. Nothing is claimed of a writer that refused.
#[verifier::external_body]
pub(crate) fn copy_entry(writer: &mut ArchiveWriter, archive: &Vec<u8>, index: usize) -> (r:
    Result<(), zip::result::ZipError>)
    ensures
        r is Ok <==> copy_taken(handed(*old(writer)).push(copied_entry(archive@, index as nat))),
        r is Ok ==> handed(*final(writer)) == handed(*old(writer)).push(
            copied_entry(archive@, index as nat),
        ),
{
    let mut reader = zip::ZipArchive::new(std::io::Cursor::new(archive.as_slice()))?;
    let entry = reader.by_index_raw(index)?;
    writer.inner.raw_copy_file(entry)
}

/// `zip::ZipWriter::finish`, and the bytes of the in-memory file. Whether
/// there are any, and which, depends on what the writer was handed.
#[verifier::external_body]
pub(crate) fn finish_writer(writer: ArchiveWriter) -> (r: Result<Vec<u8>, zip::result::ZipError>)
    ensures
        match r {
            Ok(bytes) => finished(handed(writer)) == Some(bytes@),
            Err(_) => finished(handed(writer)) is None,
        },
{
    Ok(writer.inner.finish()?.into_inner())
}

} // verus!
