//! The ZIP reader and writer of the `zip` crate, as the library uses them.

use vstd::prelude::*;

use std::io::{Cursor, Read, Write};
use zip::write::SimpleFileOptions;
use zip::{CompressionMethod, ZipArchive, ZipWriter};

use crate::epub::Error;
use vstd::utf8::encode_utf8;

verus! {

#[verifier::external_type_specification]
#[verifier::external_body]
#[verifier::reject_recursive_types(T)]
pub struct ExCursor<T>(Cursor<T>);

#[verifier::external_type_specification]
#[verifier::external_body]
#[verifier::reject_recursive_types(R)]
pub struct ExZipArchive<R>(ZipArchive<R>);

/// A ZIP archive being written in memory, by a `ZipWriter` over a growing
/// buffer; what it holds is described by `zip_written` and `zip_bytes`.
#[verifier::external_body]
pub struct ArchiveWriter {
    writer: ZipWriter<Cursor<Vec<u8>>>,
}

#[verifier::external_type_specification]
#[verifier::external_body]
pub struct ExZipError(zip::result::ZipError);

#[verifier::external_type_specification]
#[verifier::external_body]
pub struct ExIoError(std::io::Error);

/// How a member was put into an archive being written: stored as it is,
/// compressed with Deflate at a level, or copied with its compressed data
/// from another archive.
pub enum Storage {
    Stored,
    Deflated(i64),
    Copied,
}

/// The members of a ZIP archive being read, in their order: name, whether
/// the name marks a directory, and the uncompressed content.
pub uninterp spec fn zip_members(archive: ZipArchive<Cursor<Vec<u8>>>) -> Seq<
    (Seq<char>, bool, Seq<u8>),
>;

/// The bytes that an archive being read reads from.
pub uninterp spec fn zip_source(archive: ZipArchive<Cursor<Vec<u8>>>) -> Seq<u8>;

/// Whether the reader takes `bytes` for a ZIP archive (`ZipArchive::new`).
pub uninterp spec fn zip_opens(bytes: Seq<u8>) -> bool;

/// The members of the ZIP archive held in `bytes`, as the reader lists them.
pub uninterp spec fn zip_archive_members(bytes: Seq<u8>) -> Seq<(Seq<char>, bool, Seq<u8>)>;

/// Whether member `index` of the archive in `bytes` can be opened without
/// decompressing it (`ZipArchive::by_index_raw`).
pub uninterp spec fn zip_entry_opens(bytes: Seq<u8>, index: int) -> bool;

/// Whether member `index` of the archive in `bytes` can be read whole
/// (`ZipArchive::by_index` and `Read::read_to_end`).
pub uninterp spec fn zip_entry_reads(bytes: Seq<u8>, index: int) -> bool;

/// Whether member `index` of the archive in `bytes` can be copied with its
/// compressed data into an archive being written under a name it does not
/// yet hold (`ZipArchive::by_index_raw` and `ZipWriter::raw_copy_file`).
pub uninterp spec fn zip_entry_copies(bytes: Seq<u8>, index: int) -> bool;

/// The members written so far into a ZIP archive being written: name,
/// uncompressed content, and how it was stored.
pub uninterp spec fn zip_written(writer: ArchiveWriter) -> Seq<(Seq<char>, Seq<u8>, Storage)>;

/// The bytes of the finished archive that a writer holds.
pub uninterp spec fn zip_bytes(writer: ArchiveWriter) -> Seq<u8>;

/// Whether a member name marks a directory: it ends in `/` or `\`.
pub open spec fn names_directory(name: Seq<char>) -> bool {
    name.len() > 0 && (name.last() == '/' || name.last() == '\\')
}

/// A member within the limits of a writer without the large-file option:
/// a name of at most 65535 bytes; stored content of at most 4 GiB - 1 bytes
/// (the writer's limit on the bytes of a member); compressed content under
/// 2 GiB, so that its Deflate output, which can be larger than the content,
/// stays within the same limit. A copied member is checked as it is copied.
pub open spec fn member_fits(member: (Seq<char>, Seq<u8>, Storage)) -> bool {
    &&& encode_utf8(member.0).len() <= 0xFFFF
    &&& match member.2 {
        Storage::Stored => member.1.len() <= 0xFFFF_FFFF,
        Storage::Deflated(_) => member.1.len() < 0x8000_0000,
        Storage::Copied => true,
    }
}

/// Every written member is within the limits.
pub open spec fn written_fit(written: Seq<(Seq<char>, Seq<u8>, Storage)>) -> bool {
    forall|k: int| 0 <= k < written.len() ==> member_fits(#[trigger] written[k])
}

/// Whether a member named `name` was written.
pub open spec fn written_name(written: Seq<(Seq<char>, Seq<u8>, Storage)>, name: Seq<char>) -> bool {
    exists|k: int| 0 <= k < written.len() && (#[trigger] written[k]).0 == name
}

/// The members that an archive written with `written` reads back as.
pub open spec fn read_back(written: Seq<(Seq<char>, Seq<u8>, Storage)>) -> Seq<(Seq<char>, bool, Seq<u8>)> {
    written.map_values(|m: (Seq<char>, Seq<u8>, Storage)| (m.0, names_directory(m.0), m.1))
}

/// Opens the ZIP archive held in `source` (`ZipArchive::new`). It succeeds
/// exactly when the reader takes the bytes for an archive; otherwise it gives
/// `InvalidArchive` with the reader's message.
#[verifier::external_body]
pub(crate) fn zip_open(source: &[u8]) -> (r: Result<ZipArchive<Cursor<Vec<u8>>>, Error>)
    ensures
        r is Ok <==> zip_opens(source@),
        r matches Ok(archive) ==> zip_members(archive) == zip_archive_members(source@)
            && zip_source(archive) == source@,
        r matches Err(e) ==> e is InvalidArchive,
{
    ZipArchive::new(Cursor::new(source.to_vec())).map_err(
        |error| Error::InvalidArchive(error.to_string()),
    )
}

/// The number of members (`ZipArchive::len`).
#[verifier::external_body]
pub(crate) fn zip_len(archive: &ZipArchive<Cursor<Vec<u8>>>) -> (r: usize)
    ensures
        r == zip_members(*archive).len(),
{
    archive.len()
}

/// The name of member `index`, and whether it marks a directory
/// (`ZipArchive::by_index_raw`, `ZipFile::name`, `ZipFile::is_dir`).
#[verifier::external_body]
pub(crate) fn zip_member_name(archive: &mut ZipArchive<Cursor<Vec<u8>>>, index: usize) -> (r: Result<
    (String, bool),
    Error,
>)
    requires
        index < zip_members(*old(archive)).len(),
    ensures
        zip_members(*final(archive)) == zip_members(*old(archive)),
        zip_source(*final(archive)) == zip_source(*old(archive)),
        r is Ok <==> zip_entry_opens(zip_source(*old(archive)), index as int),
        r matches Ok((name, directory)) ==> {
            &&& name@ == zip_members(*old(archive))[index as int].0
            &&& directory == zip_members(*old(archive))[index as int].1
            &&& directory == names_directory(name@)
        },
        r matches Err(e) ==> e is Zip,
{
    let file = archive.by_index_raw(index).map_err(Error::Zip)?;
    Ok((file.name().to_owned(), file.is_dir()))
}

/// The uncompressed content of member `index` (`ZipArchive::by_index`,
/// `Read::read_to_end`).
#[verifier::external_body]
pub(crate) fn zip_read(archive: &mut ZipArchive<Cursor<Vec<u8>>>, index: usize) -> (r: Result<
    Vec<u8>,
    Error,
>)
    requires
        index < zip_members(*old(archive)).len(),
    ensures
        zip_members(*final(archive)) == zip_members(*old(archive)),
        zip_source(*final(archive)) == zip_source(*old(archive)),
        r is Ok <==> zip_entry_reads(zip_source(*old(archive)), index as int),
        r matches Ok(content) ==> content@ == zip_members(*old(archive))[index as int].2,
        r matches Err(e) ==> e is Zip || e is Io,
{
    let mut file = archive.by_index(index).map_err(Error::Zip)?;
    let mut content = Vec::new();
    file.read_to_end(&mut content).map_err(Error::Io)?;
    Ok(content)
}

/// A writer of a new archive in memory (`ZipWriter::new`).
#[verifier::external_body]
pub(crate) fn zip_writer() -> (r: ArchiveWriter)
    ensures
        zip_written(r) == Seq::<(Seq<char>, Seq<u8>, Storage)>::empty(),
{
    ArchiveWriter { writer: ZipWriter::new(Cursor::new(Vec::new())) }
}

/// Adds a member stored as it is (`ZipWriter::start_file` with
/// `CompressionMethod::Stored`, `Write::write_all`). The writer refuses a
/// name it already holds; within the limits of `member_fits`, for this and
/// the members before it, nothing else fails when writing to memory. A name
/// longer than 65535 bytes makes the writer panic, so it is left out.
#[verifier::external_body]
pub(crate) fn zip_add_stored(writer: &mut ArchiveWriter, name: &str, content: &[u8]) -> (r: Result<(), Error>)
    requires
        encode_utf8(name@).len() <= 0xFFFF,
    ensures
        r is Ok ==> zip_written(*final(writer)) == zip_written(*old(writer)).push(
            (name@, content@, Storage::Stored),
        ),
        written_fit(zip_written(*old(writer))) && member_fits((name@, content@, Storage::Stored))
            && !written_name(zip_written(*old(writer)), name@) ==> r is Ok,
        r matches Err(e) ==> e is Zip || e is Io,
{
    let options = SimpleFileOptions::default().compression_method(CompressionMethod::Stored);
    writer.writer.start_file(name, options).map_err(Error::Zip)?;
    writer.writer.write_all(content).map_err(Error::Io)
}

/// Adds a member compressed with Deflate at `level` (`ZipWriter::start_file`
/// with `CompressionMethod::Deflated` and the level, `Write::write_all`).
/// Levels 1 to 9 are taken; beyond that, as for `zip_add_stored`.
#[verifier::external_body]
pub(crate) fn zip_add_deflated(writer: &mut ArchiveWriter, name: &str, content: &[u8], level: i64) -> (r: Result<(), Error>)
    requires
        encode_utf8(name@).len() <= 0xFFFF,
    ensures
        r is Ok ==> zip_written(*final(writer)) == zip_written(*old(writer)).push(
            (name@, content@, Storage::Deflated(level)),
        ),
        1 <= level <= 9 && written_fit(zip_written(*old(writer))) && member_fits(
            (name@, content@, Storage::Deflated(level)),
        ) && !written_name(zip_written(*old(writer)), name@) ==> r is Ok,
        r matches Err(e) ==> e is Zip || e is Io,
{
    let options = SimpleFileOptions::default().compression_method(CompressionMethod::Deflated)
        .compression_level(Some(level));
    writer.writer.start_file(name, options).map_err(Error::Zip)?;
    writer.writer.write_all(content).map_err(Error::Io)
}

/// Copies member `index` of `archive` with its compressed data as it is
/// (`ZipArchive::by_index_raw`, `ZipWriter::raw_copy_file`). A member name
/// longer than 65535 bytes makes the writer panic, so it is left out.
#[verifier::external_body]
pub(crate) fn zip_copy(
    writer: &mut ArchiveWriter,
    archive: &mut ZipArchive<Cursor<Vec<u8>>>,
    index: usize,
) -> (r: Result<(), Error>)
    requires
        index < zip_members(*old(archive)).len(),
        encode_utf8(zip_members(*old(archive))[index as int].0).len() <= 0xFFFF,
    ensures
        zip_members(*final(archive)) == zip_members(*old(archive)),
        zip_source(*final(archive)) == zip_source(*old(archive)),
        r is Ok ==> zip_written(*final(writer)) == zip_written(*old(writer)).push(
            (
                zip_members(*old(archive))[index as int].0,
                zip_members(*old(archive))[index as int].2,
                Storage::Copied,
            ),
        ),
        zip_entry_copies(zip_source(*old(archive)), index as int) && written_fit(
            zip_written(*old(writer)),
        ) && member_fits(
            (
                zip_members(*old(archive))[index as int].0,
                zip_members(*old(archive))[index as int].2,
                Storage::Copied,
            ),
        ) && !written_name(zip_written(*old(writer)), zip_members(*old(archive))[index as int].0)
            ==> r is Ok,
        r matches Err(e) ==> e is Zip,
{
    let file = archive.by_index_raw(index).map_err(Error::Zip)?;
    writer.writer.raw_copy_file(file).map_err(Error::Zip)
}

/// The bytes of the finished archive (`ZipWriter::finish`). Within the
/// limits it succeeds, and the bytes read back as the members written, in
/// their order.
#[verifier::external_body]
pub(crate) fn zip_finish(writer: ArchiveWriter) -> (r: Result<Vec<u8>, Error>)
    ensures
        written_fit(zip_written(writer)) ==> r is Ok,
        r matches Ok(bytes) ==> bytes@ == zip_bytes(writer),
        written_fit(zip_written(writer)) ==> (r matches Ok(bytes) ==> zip_opens(bytes@)
            && zip_archive_members(bytes@) == read_back(zip_written(writer))),
        r matches Err(e) ==> e is Zip,
{
    Ok(writer.writer.finish().map_err(Error::Zip)?.into_inner())
}

} // verus!
