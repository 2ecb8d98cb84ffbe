//! Archive bundles: one zip file for the files of one directory and one
//! calendar day.

use crate::calendar::{day_label, lemma_label_tells_days_apart, CalendarDay};
use crate::catalog::{bundle_suffix, is_bundle_name};
use vstd::prelude::*;
use vstd::string::*;

verus! {

/// A file that goes into a bundle: the name it has in its directory and what
/// it holds.
#[derive(Clone, Debug, PartialEq, Eq)]
pub struct Member {
    pub name: String,
    pub bytes: Vec<u8>,
}

/// A finished bundle: the name of the file to create and the bytes to put in
/// it.
#[derive(Clone, Debug, PartialEq, Eq)]
pub struct Bundle {
    pub file_name: String,
    pub bytes: Vec<u8>,
}

/// Why a bundle could not be made.
#[derive(Clone, Debug, PartialEq, Eq)]
pub enum ArchiveError {
    /// The calendar has no such day, so the bundle has no name.
    NoSuchDay,
    /// The zip writer refused a member or could not finish; its message.
    Zip(String),
}

/// The name of the bundle of a directory for a day: the directory's name, an
/// underscore, the day as `DD-MM-YYYY`, and the bundle extension.
pub open spec fn bundle_name_spec(dir_name: Seq<char>, day: CalendarDay) -> Seq<char> {
    dir_name + seq!['_'] + day.label() + bundle_suffix()
}

/// What a zip archive holds for each member: its name and its bytes.
pub open spec fn entries_of(members: Seq<Member>) -> Seq<(Seq<char>, Seq<u8>)> {
    members.map_values(|m: Member| (m.name@, m.bytes@))
}

/// A bundle's name ends in the bundle extension, so the next catalog of the
/// directory sets the bundle aside.
pub proof fn lemma_bundle_name_has_suffix(dir_name: Seq<char>, day: CalendarDay)
    ensures
        is_bundle_name(bundle_name_spec(dir_name, day)),
{
    let name = bundle_name_spec(dir_name, day);
    assert(name.subrange(name.len() - 4, name.len() as int) =~= bundle_suffix());
}

/// In one directory the bundles of two days have two names.
pub proof fn lemma_bundle_names_differ_by_day(dir_name: Seq<char>, a: CalendarDay, b: CalendarDay)
    requires
        a.wf(),
        b.wf(),
        a != b,
    ensures
        bundle_name_spec(dir_name, a) != bundle_name_spec(dir_name, b),
{
    let name_a = bundle_name_spec(dir_name, a);
    let name_b = bundle_name_spec(dir_name, b);
    if name_a == name_b {
        let from: int = dir_name.len() as int + 1;
        assert(name_a.subrange(from, from + 10) =~= a.label());
        assert(name_b.subrange(from, from + 10) =~= b.label());
        lemma_label_tells_days_apart(a, b);
    }
}

/// Directories of different names have bundles of different names, whatever
/// the days.
pub proof fn lemma_bundle_names_differ_by_directory(
    first: Seq<char>,
    second: Seq<char>,
    a: CalendarDay,
    b: CalendarDay,
)
    requires
        first != second,
    ensures
        bundle_name_spec(first, a) != bundle_name_spec(second, b),
{
    let name_a = bundle_name_spec(first, a);
    let name_b = bundle_name_spec(second, b);
    if name_a == name_b {
        assert(a.label().len() == 10 && b.label().len() == 10);
        assert(bundle_suffix().len() == 4);
        assert(name_a.len() == first.len() + 15);
        assert(name_b.len() == second.len() + 15);
        assert(name_a.subrange(0, first.len() as int) =~= first);
        assert(name_b.subrange(0, second.len() as int) =~= second);
    }
}

/// The zip writer of the `zip` crate over a buffer in memory.
#[verifier::external_body]
pub struct ArchiveWriter {
    inner: zip::ZipWriter<std::io::Cursor<Vec<u8>>>,
}

/// The error of the `zip` crate.
#[verifier::external_type_specification]
#[verifier::external_body]
pub struct ExZipError(zip::result::ZipError);

/// The entries that a writer holds, oldest first: for each the member's name
/// and the bytes written under it so far.
pub uninterp spec fn archive_entries(w: ArchiveWriter) -> Seq<(Seq<char>, Seq<u8>)>;

/// The writer has refused nothing so far. A writer that has refused a call
/// may be closed, and what it then does is no longer told by its entries.
pub uninterp spec fn archive_open(w: ArchiveWriter) -> bool;

/// The bytes of the finished zip archive that holds the given entries, each
/// deflated and dated as the writer dates an entry by default. The `zip` crate
/// is built without its `time` feature, so that date is fixed and the bytes
/// depend on the entries alone.
pub uninterp spec fn archive_image(entries: Seq<(Seq<char>, Seq<u8>)>) -> Seq<u8>;

/// Whether a writer that holds the given entries and has refused nothing
/// refuses to start an entry named `name`. Starting an entry closes the one
/// before it, and the writer refuses where that one does not fit the sizes
/// of the plain zip format once deflated.
pub uninterp spec fn start_refused(entries: Seq<(Seq<char>, Seq<u8>)>, name: Seq<char>) -> bool;

/// Whether a writer that holds the given entries and has refused nothing
/// refuses to finish the archive: it closes the last entry and writes the
/// directory of the archive.
pub uninterp spec fn finish_refused(entries: Seq<(Seq<char>, Seq<u8>)>) -> bool;

/// The most bytes that one entry of the plain zip format can hold.
pub const MAX_MEMBER_BYTES: u64 = 0xFFFF_FFFF;

/// `zip::ZipWriter::new` over an empty buffer: a writer without entries that
/// has refused nothing.
#[verifier::external_body]
fn new_writer() -> (w: ArchiveWriter)
    ensures
        archive_entries(w) == Seq::<(Seq<char>, Seq<u8>)>::empty(),
        archive_open(w),
{
    ArchiveWriter { inner: zip::ZipWriter::new(std::io::Cursor::new(Vec::new())) }
}

/// `zip::ZipWriter::start_file` with the deflate method and otherwise default
/// options, on a writer that has refused nothing. Whether it refuses depends
/// on what the writer holds. On success the writer has one more entry, named
/// `name` and still empty.
#[verifier::external_body]
fn start_member(w: &mut ArchiveWriter, name: &str) -> (r: Result<(), zip::result::ZipError>)
    requires
        archive_open(*old(w)),
    ensures
        r is Err <==> start_refused(archive_entries(*old(w)), name@),
        r is Ok ==> archive_open(*final(w)),
        r is Ok ==> archive_entries(*final(w)) == archive_entries(*old(w)).push(
            (name@, Seq::<u8>::empty()),
        ),
{
    let options = zip::write::FileOptions::default().compression_method(
        zip::CompressionMethod::Deflated,
    );
    w.inner.start_file(name, options)
}

/// `std::io::Write::write_all` on the zip writer, for an entry that has just
/// been started on a writer that has refused nothing. The writer refuses
/// bytes that are more than an entry of the plain zip format can hold, and no
/// others. On success the entry holds the bytes.
#[verifier::external_body]
fn write_member(w: &mut ArchiveWriter, bytes: &[u8]) -> (r: Result<(), zip::result::ZipError>)
    requires
        archive_open(*old(w)),
        archive_entries(*old(w)).len() > 0,
        archive_entries(*old(w)).last().1.len() == 0,
    ensures
        r is Err <==> bytes@.len() > MAX_MEMBER_BYTES,
        r is Ok ==> archive_open(*final(w)),
        r is Ok ==> archive_entries(*final(w)) == archive_entries(*old(w)).drop_last().push(
            (archive_entries(*old(w)).last().0, bytes@),
        ),
{
    std::io::Write::write_all(&mut w.inner, bytes).map_err(zip::result::ZipError::Io)
}

/// `zip::ZipWriter::finish` on a writer that has refused nothing. Whether it
/// refuses depends on what the writer holds. On success it gives the bytes of
/// the archive that holds the writer's entries.
#[verifier::external_body]
fn finish_writer(w: ArchiveWriter) -> (r: Result<Vec<u8>, zip::result::ZipError>)
    requires
        archive_open(w),
    ensures
        r is Err <==> finish_refused(archive_entries(w)),
        r matches Ok(bytes) ==> bytes@ == archive_image(archive_entries(w)),
{
    let mut inner = w.inner;
    inner.finish().map(|cursor| cursor.into_inner())
}

/// The message of a `zip` error, as its `Display` writes it.
#[verifier::external_body]
fn zip_error_message(e: &zip::result::ZipError) -> (message: String) {
    e.to_string()
}

/// The zip writer refuses one of the first `count` of the entries, when it is
/// given them one after the other: it refuses to start the entry after those
/// ahead of it, or the entry's bytes are more than an entry can hold.
pub open spec fn refuses_among(entries: Seq<(Seq<char>, Seq<u8>)>, count: nat) -> bool
    decreases count,
{
    if count == 0 {
        false
    } else {
        let k = count - 1;
        ||| refuses_among(entries, k as nat)
        ||| start_refused(entries.take(k), entries[k].0)
        ||| entries[k].1.len() > MAX_MEMBER_BYTES
    }
}

/// The zip writer refuses to make an archive of the entries: it refuses one
/// of them, or it refuses to finish the archive that holds them all.
pub open spec fn zip_refuses(entries: Seq<(Seq<char>, Seq<u8>)>) -> bool {
    refuses_among(entries, entries.len()) || finish_refused(entries)
}

/// The name of the bundle file of a directory for a day, if the calendar has
/// that day in a year of at most four digits.
pub fn bundle_name(dir_name: &str, day: &CalendarDay) -> (r: Option<String>)
    ensures
        r is Some <==> day.wf(),
        r matches Some(name) ==> name@ == bundle_name_spec(dir_name@, *day),
{
    match day_label(day) {
        Some(label) => {
            let mut name = String::from_str(dir_name);
            name.append("_");
            name.append(label.as_str());
            name.append(".zip");
            proof {
                reveal_strlit("_");
                reveal_strlit(".zip");
                assert("_"@ =~= seq!['_']);
                assert(".zip"@ =~= bundle_suffix());
                assert(name@ =~= bundle_name_spec(dir_name@, *day));
            }
            Some(name)
        },
        None => None,
    }
}

/// Adds the members to a new archive, one entry each, in their order.
///
/// Without members nothing is asked of the writer, so nothing can fail and
/// the archive stays empty. Otherwise the writer is left at the first member
/// that it refuses.
fn write_members(w: &mut ArchiveWriter, members: &Vec<Member>) -> (r: Result<
    (),
    zip::result::ZipError,
>)
    requires
        archive_open(*old(w)),
        archive_entries(*old(w)).len() == 0,
    ensures
        r is Err <==> refuses_among(entries_of(members@), members@.len()),
        r is Ok ==> archive_open(*final(w)),
        r is Ok ==> archive_entries(*final(w)) == entries_of(members@),
{
    let ghost all = entries_of(members@);
    let mut i: usize = 0;
    proof {
        assert(archive_entries(*w) =~= all.take(0));
    }
    while i < members.len()
        invariant
            i <= members.len(),
            all == entries_of(members@),
            archive_open(*w),
            archive_entries(*w) == all.take(i as int),
            !refuses_among(all, i as nat),
        decreases members.len() - i,
    {
        proof {
            assert(all[i as int] == (members@[i as int].name@, members@[i as int].bytes@));
        }
        match start_member(w, members[i].name.as_str()) {
            Ok(()) => {},
            Err(e) => {
                proof {
                    lemma_refusal_stays(all, (i + 1) as nat, members@.len());
                }
                return Err(e);
            },
        }
        match write_member(w, members[i].bytes.as_slice()) {
            Ok(()) => {},
            Err(e) => {
                proof {
                    lemma_refusal_stays(all, (i + 1) as nat, members@.len());
                }
                return Err(e);
            },
        }
        proof {
            assert(archive_entries(*w) =~= all.take(i + 1));
        }
        i += 1;
    }
    proof {
        assert(all.take(members.len() as int) =~= all);
    }
    Ok(())
}

/// A refusal among the first entries is a refusal among more of them.
proof fn lemma_refusal_stays(entries: Seq<(Seq<char>, Seq<u8>)>, count: nat, more: nat)
    requires
        count <= more,
        refuses_among(entries, count),
    ensures
        refuses_among(entries, more),
    decreases more,
{
    if count < more {
        lemma_refusal_stays(entries, count, (more - 1) as nat);
    }
}

/// The bundle that a name and an archive make, or the reason why one of them
/// is missing.
pub fn assemble_bundle(file_name: Option<String>, image: Result<Vec<u8>, String>) -> (r: Result<
    Bundle,
    ArchiveError,
>)
    ensures
        match (file_name, image) {
            (None, _) => r matches Err(ArchiveError::NoSuchDay),
            (Some(_), Err(message)) => r matches Err(ArchiveError::Zip(m)) && m == message,
            (Some(name), Ok(bytes)) => r matches Ok(b) && b.file_name == name && b.bytes == bytes,
        },
{
    match file_name {
        None => Err(ArchiveError::NoSuchDay),
        Some(file_name) => match image {
            Ok(bytes) => Ok(Bundle { file_name, bytes }),
            Err(message) => Err(ArchiveError::Zip(message)),
        },
    }
}

/// Writes the members into a zip archive in memory and hands back its bytes,
/// or the writer's message where it refuses.
fn zip_members(members: &Vec<Member>) -> (r: Result<Vec<u8>, String>)
    ensures
        r is Err <==> zip_refuses(entries_of(members@)),
        r matches Ok(bytes) ==> bytes@ == archive_image(entries_of(members@)),
{
    let mut w = new_writer();
    match write_members(&mut w, members) {
        Ok(()) => {},
        Err(e) => {
            return Err(zip_error_message(&e));
        },
    }
    match finish_writer(w) {
        Ok(bytes) => Ok(bytes),
        Err(e) => Err(zip_error_message(&e)),
    }
}

/// Packs the files of one day into the bundle of their directory.
///
/// The bundle is flat: each member stands in it under its own name, in the
/// order given. Without members there is nothing to pack and no bundle. The
/// files themselves are not touched; they may go once the bundle is on disk.
///
/// Members of a day that the calendar does not have are not packed. Members
/// that the zip writer refuses give its message: a member of more bytes than
/// an entry of the plain zip format can hold is one.
pub fn pack_to_archive(members: &Vec<Member>, dir_name: &str, day: &CalendarDay) -> (r: Result<
    Option<Bundle>,
    ArchiveError,
>)
    ensures
        members@.len() == 0 ==> r matches Ok(None),
        members@.len() > 0 && !day.wf() ==> r matches Err(ArchiveError::NoSuchDay),
        members@.len() > 0 && day.wf() && zip_refuses(entries_of(members@)) ==> r matches Err(
            ArchiveError::Zip(_),
        ),
        members@.len() > 0 && day.wf() && !zip_refuses(entries_of(members@)) ==> r matches Ok(
            Some(_),
        ),
        r matches Ok(Some(bundle)) ==> {
            &&& bundle.file_name@ == bundle_name_spec(dir_name@, *day)
            &&& bundle.bytes@ == archive_image(entries_of(members@))
        },
{
    if members.len() == 0 {
        return Ok(None);
    }
    let file_name = bundle_name(dir_name, day);
    if file_name.is_none() {
        return Err(ArchiveError::NoSuchDay);
    }
    match assemble_bundle(file_name, zip_members(members)) {
        Ok(bundle) => Ok(Some(bundle)),
        Err(e) => Err(e),
    }
}

} // verus!
