//! Zip archives in memory, through the `zip` crate.

use vstd::prelude::*;
use std::io::Cursor;
use crate::paths::{portable_path, slash_pieces, is_plain_char};
use zip::result::ZipError;
use zip::ZipArchive;

verus! {

/// Lets `zip::result::ZipError` stand in signatures.
#[verifier::external_type_specification]
#[verifier::external_body]
pub struct ExZipError(ZipError);

/// Lets `std::io::Error` stand in signatures.
#[verifier::external_type_specification]
#[verifier::external_body]
pub struct ExIoError(std::io::Error);

/// Lets `std::io::Cursor` stand in signatures.
#[verifier::external_type_specification]
#[verifier::external_body]
#[verifier::reject_recursive_types(T)]
pub struct ExCursor<T>(Cursor<T>);

/// Lets `zip::ZipArchive` stand in signatures.
#[verifier::external_type_specification]
#[verifier::external_body]
#[verifier::reject_recursive_types(R)]
pub struct ExZipArchive<R>(ZipArchive<R>);

/// How an entry's data is stored.
#[derive(Clone, Copy, Debug, PartialEq, Eq, Structural)]
pub enum Compression {
    /// As it is (for data that is already compressed).
    Stored,
    /// Deflate.
    Deflated,
}

/// A zip archive being written in memory (a `zip::ZipWriter` over a
/// `Cursor<Vec<u8>>`). The writer's type cannot be declared to Verus (its
/// bounds name `std::io::Write` and `std::io::Seek`), so it is held here.
#[verifier::external_body]
pub struct ZipOut {
    w: zip::ZipWriter<Cursor<Vec<u8>>>,
}

/// The files written into `z` so far, in order: its name, whether it is
/// stored as it is (else deflated), and the data of each write into it.
pub uninterp spec fn zip_out_files(z: ZipOut) -> Seq<(Seq<char>, bool, Seq<Seq<u8>>)>;

/// Whether a file of `z` is open for writing: started, and not yet closed
/// by the start of the next one.
pub uninterp spec fn zip_out_open(z: ZipOut) -> bool;

/// The most data one file may hold here: 2 GiB. The crate refuses a file
/// whose data or compressed data passes 4 GiB (without its large-file
/// option); deflate grows data by at most an eighth.
pub const MAX_FILE_BYTES: u64 = 0x8000_0000;

/// How many bytes were written into file `f`.
pub open spec fn file_len(f: (Seq<char>, bool, Seq<Seq<u8>>)) -> int {
    f.2.flatten().len() as int
}

/// Whether every file of `files` holds at most [`MAX_FILE_BYTES`].
pub open spec fn files_fit(files: Seq<(Seq<char>, bool, Seq<Seq<u8>>)>) -> bool {
    forall|i: int| 0 <= i < files.len() ==> file_len(#[trigger] files[i]) <= MAX_FILE_BYTES
}

/// The bytes of a finished archive holding `files` (as [`zip_out_files`]
/// lists them), as `zip::ZipWriter::finish` gives them.
pub uninterp spec fn zip_archive(files: Seq<(Seq<char>, bool, Seq<Seq<u8>>)>) -> Seq<u8>;

/// The writes that put `data` into a file: none for no data.
pub open spec fn writes_of(data: Seq<u8>) -> Seq<Seq<u8>> {
    if data.len() == 0 {
        Seq::empty()
    } else {
        seq![data]
    }
}

/// `zip::ZipWriter::new` over an empty buffer: an archive with no files.
#[verifier::external_body]
pub(crate) fn zip_out_new() -> (z: ZipOut)
    ensures
        zip_out_files(z) == Seq::<(Seq<char>, bool, Seq<Seq<u8>>)>::empty(),
        !zip_out_open(z),
{
    ZipOut { w: zip::ZipWriter::new(Cursor::new(Vec::new())) }
}

/// The longest file name a zip can hold, in bytes of UTF-8.
pub const MAX_NAME_BYTES: usize = 65535;

/// Whether a zip can hold a file named `name`.
pub open spec fn fits_zip_name(name: Seq<char>) -> bool {
    vstd::utf8::encode_utf8(name).len() <= MAX_NAME_BYTES
}

/// A name of plain characters is as long in UTF-8 as it is in characters.
pub proof fn lemma_plain_name_fits(name: Seq<char>)
    requires
        forall|k: int| 0 <= k < name.len() ==> is_plain_char(#[trigger] name[k]),
        name.len() <= MAX_NAME_BYTES,
    ensures
        fits_zip_name(name),
{
    assert(vstd::utf8::is_ascii_chars(name)) by {
        assert forall|k: int| 0 <= k < name.len() implies '\0' <= #[trigger] name[k] <= '\u{7f}' by {
            assert(is_plain_char(name[k]));
        }
    }
    vstd::utf8::is_ascii_chars_encode_utf8(name);
}

/// `zip::ZipWriter::start_file`: on success a new, empty file named `name`
/// follows the others (the default options, with `method`) and is open for
/// writing. A name already taken is refused; a new name is taken when the
/// files so far fit (writing to the in-memory buffer cannot fail). The
/// name's length is written as a 16-bit number; the crate panics on a
/// longer name.
#[verifier::external_body]
pub(crate) fn zip_out_start(z: &mut ZipOut, name: &str, method: Compression) -> (r: Result<(), ZipError>)
    requires
        fits_zip_name(name@),
    ensures
        file_names(zip_out_files(*old(z))).contains(name@) ==> r is Err,
        !file_names(zip_out_files(*old(z))).contains(name@) && files_fit(zip_out_files(*old(z))) ==> r is Ok,
        r is Ok ==> zip_out_files(*final(z)) == zip_out_files(*old(z)).push(
            (name@, method == Compression::Stored, Seq::<Seq<u8>>::empty()),
        ),
        r is Ok ==> zip_out_open(*final(z)),
{
    let m = match method {
        Compression::Stored => zip::CompressionMethod::Stored,
        Compression::Deflated => zip::CompressionMethod::Deflated,
    };
    z.w.start_file(name, zip::write::SimpleFileOptions::default().compression_method(m))
}

/// `std::io::Write::write_all` on the writer: on success `data` is
/// written into the file started last (writing nothing needs no file and
/// changes nothing). Writing into an open file succeeds while its data
/// stays within [`MAX_FILE_BYTES`].
#[verifier::external_body]
pub(crate) fn zip_out_write(z: &mut ZipOut, data: &[u8]) -> (r: Result<(), std::io::Error>)
    ensures
        data@.len() == 0 ==> r is Ok,
        ({
            let old_files = zip_out_files(*old(z));
            zip_out_open(*old(z)) && old_files.len() > 0 && file_len(old_files.last()) + data@.len() <= MAX_FILE_BYTES
                ==> r is Ok
        }),
        r is Ok ==> zip_out_open(*final(z)) == zip_out_open(*old(z)),
        r is Ok && data@.len() > 0 ==> {
            let old_files = zip_out_files(*old(z));
            let f = old_files.last();
            &&& old_files.len() > 0
            &&& zip_out_files(*final(z)) == old_files.update(old_files.len() - 1, (f.0, f.1, f.2.push(data@)))
        },
        r is Ok && data@.len() == 0 ==> zip_out_files(*final(z)) == zip_out_files(*old(z)),
{
    std::io::Write::write_all(&mut z.w, data)
}

/// `zip::ZipWriter::finish`: the bytes of the archive. The same files,
/// written the same way, give the same bytes: the timestamps are fixed (the
/// crate is built without its `time` feature) and the compressors are
/// deterministic. Read back, the archive lists the files by their names,
/// in order, and each holds what was written into it. It succeeds when
/// the files fit.
#[verifier::external_body]
pub(crate) fn zip_out_finish(z: ZipOut) -> (r: Result<Vec<u8>, ZipError>)
    ensures
        files_fit(zip_out_files(z)) ==> r is Ok,
        r matches Ok(b) ==> b@ == zip_archive(zip_out_files(z)),
        r matches Ok(b) ==> archive_reads_back(b@, zip_out_files(z)),
{
    z.w.finish().map(|c| c.into_inner())
}

/// One file of an archive being read.
pub struct ZipEntry {
    /// Its name, when it stays inside the folder it is extracted to
    /// (`zip::read::ZipFile::enclosed_name`).
    pub name: Option<String>,
    pub is_dir: bool,
    pub data: Vec<u8>,
}

/// The names of the files that `zip::ZipArchive::new` lists in `bytes`,
/// in order, or nothing when it finds no valid archive there.
pub uninterp spec fn zip_listing(bytes: Seq<u8>) -> Option<Seq<Seq<char>>>;

/// The bytes an archive reads from.
pub uninterp spec fn zip_source(a: ZipArchive<Cursor<Vec<u8>>>) -> Seq<u8>;

/// Whether `zip::ZipArchive::by_index` opens file `i` of the archive in
/// `bytes`.
pub uninterp spec fn zip_file_opens(bytes: Seq<u8>, i: int) -> bool;

/// The data of file `i` of the archive in `bytes`, decompressed
/// (`std::io::Read::read_to_end` on what `by_index` opens), or nothing
/// when it cannot be read.
pub uninterp spec fn zip_file_data(bytes: Seq<u8>, i: int) -> Option<Seq<u8>>;

/// The names of `files`, in order.
pub open spec fn file_names(files: Seq<(Seq<char>, bool, Seq<Seq<u8>>)>) -> Seq<Seq<char>> {
    files.map_values(|f: (Seq<char>, bool, Seq<Seq<u8>>)| f.0)
}

/// Read back, the archive `bytes` lists `files` by name, in order, and
/// each file opens and holds the data written into it.
pub open spec fn archive_reads_back(bytes: Seq<u8>, files: Seq<(Seq<char>, bool, Seq<Seq<u8>>)>) -> bool {
    &&& zip_listing(bytes) == Some(file_names(files))
    &&& forall|i: int| 0 <= i < files.len() ==> #[trigger] zip_file_opens(bytes, i)
    &&& forall|i: int| 0 <= i < files.len() ==> #[trigger] zip_file_data(bytes, i) == Some(files[i].2.flatten())
}

/// A name that `enclosed_name` keeps as it is on every platform: no NUL,
/// portable, not absolute, and no `..` piece.
pub open spec fn stays_enclosed(name: Seq<char>) -> bool {
    &&& !name.contains('\0')
    &&& portable_path(name)
    &&& !(name.len() > 0 && name[0] == '/')
    &&& forall|k: int| 0 <= k < slash_pieces(name).len() ==> #[trigger] slash_pieces(name)[k] != seq!['.', '.']
}

/// A name of a folder: it ends with `/` or `\`.
pub open spec fn names_folder(name: Seq<char>) -> bool {
    name.len() > 0 && (name.last() == '/' || name.last() == '\\')
}

/// `zip::ZipArchive::new` over a copy of `bytes`: it succeeds exactly when
/// it finds an archive there.
#[verifier::external_body]
pub(crate) fn zip_open(bytes: &[u8]) -> (r: Result<ZipArchive<Cursor<Vec<u8>>>, ZipError>)
    ensures
        r is Ok <==> zip_listing(bytes@) is Some,
        r matches Ok(a) ==> zip_source(a) == bytes@,
{
    ZipArchive::new(Cursor::new(bytes.to_vec()))
}

/// `zip::ZipArchive::len`: how many files the archive lists.
#[verifier::external_body]
pub(crate) fn zip_len(a: &ZipArchive<Cursor<Vec<u8>>>) -> (n: usize)
    ensures
        zip_listing(zip_source(*a)) matches Some(names) ==> n == names.len(),
{
    a.len()
}

/// File `i` of the archive (`zip::ZipArchive::by_index`), handed out as its
/// enclosed name (`enclosed_name`: the name as it is, or nothing for a
/// name that could leave the folder it is extracted to) and whether it is a
/// folder. Which unusual names are refused depends on the platform's path
/// syntax; names that [`stays_enclosed`] accepts are kept everywhere.
#[verifier::external_body]
pub(crate) fn zip_entry_head(a: &mut ZipArchive<Cursor<Vec<u8>>>, i: usize) -> (r: Result<(Option<String>, bool), ZipError>)
    ensures
        zip_source(*final(a)) == zip_source(*old(a)),
        r is Ok <==> zip_file_opens(zip_source(*old(a)), i as int),
        r matches Ok((nm, d)) ==> match zip_listing(zip_source(*old(a))) {
            Some(names) => i < names.len() ==> {
                &&& nm matches Some(s) ==> s@ == names[i as int]
                &&& stays_enclosed(names[i as int]) ==> nm is Some
                &&& d == names_folder(names[i as int])
            },
            None => true,
        },
{
    let f = a.by_index(i)?;
    let name = f.enclosed_name().map(|p| p.to_string_lossy().to_string());
    Ok((name, f.is_dir()))
}

/// The decompressed data of file `i` of the archive: `by_index` (a zip
/// error when it fails), then `std::io::Read::read_to_end` (an I/O error
/// when the data cannot be read, as when it fails its checksum).
#[verifier::external_body]
pub(crate) fn zip_entry_data(a: &mut ZipArchive<Cursor<Vec<u8>>>, i: usize) -> (r: Result<Result<Vec<u8>, std::io::Error>, ZipError>)
    ensures
        zip_source(*final(a)) == zip_source(*old(a)),
        r is Ok <==> zip_file_opens(zip_source(*old(a)), i as int),
        r matches Ok(d) ==> (d is Ok <==> zip_file_data(zip_source(*old(a)), i as int) is Some),
        r matches Ok(Ok(d)) ==> zip_file_data(zip_source(*old(a)), i as int) == Some(d@),
{
    let mut f = a.by_index(i)?;
    let mut data = Vec::new();
    Ok(std::io::Read::read_to_end(&mut f, &mut data).map(|_| data))
}

} // verus!
