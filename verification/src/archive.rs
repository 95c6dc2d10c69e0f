//! The archive writer: builds an uncompressed zip container in memory, one
//! entry at a time, in the order supplied. The container format itself comes
//! from the zip crate, reached only through the trusted items below.

use vstd::prelude::*;

verus! {

/// Holds the zip crate's writer over an in-memory cursor. The writer's type
/// itself cannot be declared to the verifier (its bounds name std::io
/// traits), so the whole struct is opaque and is spoken of only through
/// `zip_entries`.
#[verifier::external_body]
pub struct ArchiveWriter {
    inner: zip::ZipWriter<std::io::Cursor<Vec<u8>>>,
}

/// The entries started in the writer so far, in order: for each entry its
/// name and the bytes written into it.
pub uninterp spec fn zip_entries(w: ArchiveWriter) -> Seq<(Seq<char>, Seq<u8>)>;

/// Whether the most recently started entry is still open for writing; a
/// failed operation may close it.
pub uninterp spec fn zip_open(w: ArchiveWriter) -> bool;

/// The bytes of a finalized zip container that stores exactly the given
/// entries, in order, uncompressed and with constant default metadata.
pub uninterp spec fn zip_bytes(entries: Seq<(Seq<char>, Seq<u8>)>) -> Seq<u8>;

/// No already-recorded entry bears this name.
pub open spec fn name_fresh(name: Seq<char>, entries: Seq<(Seq<char>, Seq<u8>)>) -> bool {
    forall|j: int| 0 <= j < entries.len() ==> (#[trigger] entries[j]).0 != name
}

/// One stored entry within the container's limits: the name within the
/// 64 KiB name field (a char takes at most four UTF-8 bytes, hence the
/// factor), and the content within the 32-bit stored-size field.
pub open spec fn entry_fits(name: Seq<char>, data: Seq<u8>) -> bool {
    4 * name.len() <= 65535 && data.len() <= 4294967295
}

/// Error from the archive container; any such failure aborts the whole run,
/// leaving no usable archive.
#[derive(Clone, Copy, Debug, PartialEq, Eq, Structural)]
pub enum ArchiveError {
    EntryStart,
    EntryWrite,
    Finalize,
}

/// Relies on zip::ZipWriter::new: a writer over a fresh in-memory cursor
/// holds no entries.
#[verifier::external_body]
fn archive_writer_new() -> (a: ArchiveWriter)
    ensures
        zip_entries(a) == Seq::<(Seq<char>, Seq<u8>)>::empty(),
{
    ArchiveWriter { inner: zip::ZipWriter::new(std::io::Cursor::new(Vec::new())) }
}

impl ArchiveWriter {
    /// The (name, content) entries added so far, in insertion order.
    pub closed spec fn entries(self) -> Seq<(Seq<char>, Seq<u8>)> {
        zip_entries(self)
    }

    /// Relies on zip::ZipWriter::start_file, called with the constant
    /// DEFAULT options switched to stored (uncompressed) mode and a fixed
    /// system tag, so the written entry metadata is the same on every
    /// machine: on success it appends a new, still-empty entry under `name`,
    /// open for writing, after the entries already started. Over an
    /// in-memory cursor its only failure paths are a duplicate name and a
    /// name over the 64 KiB name field (a char takes at most four UTF-8
    /// bytes), so a fresh, short enough name is guaranteed to succeed; every
    /// failure path leaves the recorded entries unchanged.
    #[verifier::external_body]
    fn start_entry(&mut self, name: &str) -> (r: Result<(), ArchiveError>)
        ensures
            r is Ok ==> zip_entries(*final(self)) == zip_entries(*old(self)).push(
                (name@, Seq::<u8>::empty()),
            ),
            r is Ok ==> zip_open(*final(self)),
            r is Err ==> zip_entries(*final(self)) == zip_entries(*old(self)),
            name_fresh(name@, zip_entries(*old(self))) && 4 * name@.len() <= 65535 ==> r is Ok,
    {
        let options = zip::write::SimpleFileOptions::DEFAULT
            .compression_method(zip::CompressionMethod::Stored)
            .system(zip::System::Unix);
        match self.inner.start_file(name, options) {
            Ok(()) => Ok(()),
            Err(_) => Err(ArchiveError::EntryStart),
        }
    }

    /// Relies on the std::io::Write impl of zip::ZipWriter: on success
    /// write_all has appended exactly `data` to the most recently started
    /// entry. Over an in-memory cursor a write fails only when no entry is
    /// open or when the entry would cross the 32-bit stored-size limit, so
    /// a write into an open entry that stays within that limit is
    /// guaranteed to succeed.
    #[verifier::external_body]
    fn write_bytes(&mut self, data: &[u8]) -> (r: Result<(), ArchiveError>)
        requires
            zip_entries(*old(self)).len() > 0,
        ensures
            r is Ok ==> zip_entries(*final(self)) == zip_entries(*old(self)).update(
                zip_entries(*old(self)).len() - 1,
                (
                    zip_entries(*old(self)).last().0,
                    zip_entries(*old(self)).last().1 + data@,
                ),
            ),
            r is Ok ==> zip_open(*final(self)) == zip_open(*old(self)),
            zip_open(*old(self)) && zip_entries(*old(self)).last().1.len() + data@.len()
                <= 4294967295 ==> r is Ok,
    {
        match std::io::Write::write_all(&mut self.inner, data) {
            Ok(()) => Ok(()),
            Err(_) => Err(ArchiveError::EntryWrite),
        }
    }

    /// Relies on zip::ZipWriter::finish (which writes the central directory,
    /// so the container is a valid, openable archive) and
    /// std::io::Cursor::into_inner: the returned bytes are the finalized
    /// container holding exactly the entries written, in order. Over an
    /// in-memory cursor, with stored mode, no encryption and no comments,
    /// finalization has no failure path in any state these wrappers can
    /// produce: names were already bounded when accepted, sizes and offsets
    /// past the 32-bit fields are carried in the container's 64-bit
    /// records, and cursor writes cannot fail.
    #[verifier::external_body]
    fn finish_bytes(self) -> (r: Result<Vec<u8>, ArchiveError>)
        ensures
            r is Ok,
            r is Ok ==> r->Ok_0@ == zip_bytes(zip_entries(self)),
    {
        match self.inner.finish() {
            Ok(cursor) => Ok(cursor.into_inner()),
            Err(_) => Err(ArchiveError::Finalize),
        }
    }

    pub fn new() -> (a: ArchiveWriter)
        ensures
            a.entries() == Seq::<(Seq<char>, Seq<u8>)>::empty(),
    {
        archive_writer_new()
    }

    /// Appends exactly one entry storing `data` verbatim under `name`.
    /// Success is owed whenever the name is fresh and the entry is within
    /// the container's limits; on failure the run is aborted, so nothing
    /// more is promised of the container.
    pub fn add_entry(&mut self, name: &str, data: &[u8]) -> (r: Result<(), ArchiveError>)
        ensures
            r is Ok ==> final(self).entries() == old(self).entries().push((name@, data@)),
            name_fresh(name@, old(self).entries()) && entry_fits(name@, data@) ==> r is Ok,
    {
        let ghost e0 = self.entries();
        match self.start_entry(name) {
            Ok(()) => {},
            Err(e) => {
                return Err(e);
            },
        }
        assert(self.entries().len() == e0.len() + 1);
        match self.write_bytes(data) {
            Ok(()) => {},
            Err(e) => {
                return Err(e);
            },
        }
        proof {
            let mid = e0.push((name@, Seq::<u8>::empty()));
            assert(mid.last().0 == name@);
            assert(mid.last().1 + data@ =~= data@);
            assert(mid.update(mid.len() - 1, (name@, data@)) =~= e0.push((name@, data@)));
        }
        Ok(())
    }

    /// Finalizes the archive: the returned bytes are a valid uncompressed
    /// zip container holding exactly the entries added, in order. Over the
    /// in-memory cursor finalization always succeeds; the Result shape is
    /// kept because for the run an unfinalized archive would be fatal.
    pub fn finish(self) -> (r: Result<Vec<u8>, ArchiveError>)
        ensures
            r is Ok,
            r is Ok ==> r->Ok_0@ == zip_bytes(self.entries()),
    {
        self.finish_bytes()
    }
}

} // verus!
