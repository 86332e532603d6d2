//! Assembly of the archive: the members in their order, each stored or
//! copied in compressed form, and the archive read back before it is handed
//! out.

use vstd::prelude::*;
use crate::container::{
    add_entry, copied_entry, copy_entry, copy_taken, count_entries, entry_taken, finish_writer,
    finished, handed, new_writer, read_at, read_count, read_entry, written_entry, ArchiveWriter,
    Entry, Method,
};
use crate::member::{same_bytes, EncodedMember};
use crate::text::{chars_of, same_chars};

verus! {

/// What a member is to read back as: its name, stored unless it is
/// compressed, its data of the member's size, and its content that of the
/// file.
pub open spec fn expected_entry(member: EncodedMember) -> (Seq<char>, bool, u64, Seq<u8>) {
    (member.name_text(), !member.compressed(), member.size() as u64, member.content())
}

/// The archive reads back as exactly the given members, in their order.
pub open spec fn holds(archive: Seq<u8>, members: Seq<EncodedMember>) -> bool {
    &&& read_count(archive) == Some(members.len())
    &&& forall|i: int|
        0 <= i < members.len() ==> read_at(archive, i as nat) == Some(
            expected_entry(#[trigger] members[i]),
        )
}

/// Why there is no archive.
#[derive(Clone, Copy, Debug, PartialEq, Eq, Structural)]
pub enum AssembleError {
    /// The container did not take the member at `index`.
    Rejected { index: usize },
    /// The container could not be finished.
    Unfinished,
    /// The finished archive does not read back as the members: it differs at
    /// `index`, or, where `index` is the number of members, in the number of
    /// its entries.
    Mismatch { index: usize },
}

/// An archive in which every member reads back with the content of its
/// file: the round trip through the archive changes no byte, whether a
/// member is stored or compressed.
pub proof fn lemma_round_trip(
    archive: Seq<u8>,
    members: Seq<EncodedMember>,
    contents: Seq<Seq<u8>>,
    i: int,
)
    requires
        holds(archive, members),
        contents.len() == members.len(),
        forall|j: int| 0 <= j < members.len() ==> (#[trigger] members[j]).content() == contents[j],
        0 <= i < members.len(),
    ensures
        read_at(archive, i as nat) matches Some(entry) && entry.0 == members[i].name_text()
            && entry.3 == contents[i],
{
    assert(read_at(archive, i as nat) == Some(expected_entry(members[i])));
}

/// In an archive that reads back as its members, the data of each entry is
/// no larger than its file, and no larger than the compressed form of its
/// file: no other choice between storing and compressing makes any entry
/// smaller.
pub proof fn lemma_entry_sizes(archive: Seq<u8>, members: Seq<EncodedMember>, i: int)
    requires
        holds(archive, members),
        0 <= i < members.len(),
    ensures
        read_at(archive, i as nat) matches Some(entry) && entry.2 == members[i].size()
            && entry.2 <= members[i].file_len() && entry.2 <= members[i].trial(),
{
    assert(read_at(archive, i as nat) == Some(expected_entry(members[i])));
    members[i].lemma_sizes_fit();
}

/// Whether an entry is of the given name, kind, size and content.
pub fn entry_agrees(entry: &Entry, name: &str, stored: bool, size: u64, content: &Vec<u8>) -> (agrees:
    bool)
    ensures
        agrees == (entry@ == (name@, stored, size, content@)),
{
    entry.stored == stored && entry.compressed_size == size && same_chars(
        &chars_of(entry.name.as_str()),
        &chars_of(name),
    ) && same_bytes(&entry.content, content)
}

/// Whether the entry at `index` of the archive is what the member is to
/// read back as.
fn member_reads_back(archive: &Vec<u8>, index: usize, member: &EncodedMember) -> (agrees: bool)
    ensures
        agrees == (read_at(archive@, index as nat) == Some(expected_entry(*member))),
{
    let entry = match read_entry(archive, index) {
        Ok(entry) => entry,
        Err(_) => {
            return false;
        },
    };
    let compressed = member.is_precompressed();
    let size = member.stored_size();
    let payload = member.payload();
    if compressed {
        match read_entry(payload, 0) {
            Ok(kept) => entry_agrees(&entry, member.name().as_str(), false, size, &kept.content),
            Err(_) => false,
        }
    } else {
        entry_agrees(&entry, member.name().as_str(), true, size, payload)
    }
}

/// Reads the archive back and holds it against the members. The archive
/// passes exactly when it reads back as the members, in their order;
/// otherwise the first place is reported at which it does not.
pub fn verify_archive(archive: &Vec<u8>, members: &Vec<EncodedMember>) -> (r: Result<
    (),
    AssembleError,
>)
    ensures
        r is Ok <==> holds(archive@, members@),
        r matches Err(e) ==> e matches AssembleError::Mismatch { index } && first_mismatch(
            archive@,
            members@,
            index as int,
        ),
{
    let mut i: usize = 0;
    while i < members.len()
        invariant
            i <= members.len(),
            forall|j: int|
                0 <= j < i ==> read_at(archive@, j as nat) == Some(
                    expected_entry(#[trigger] members[j]),
                ),
        decreases members.len() - i,
    {
        if !member_reads_back(archive, i, &members[i]) {
            return Err(AssembleError::Mismatch { index: i });
        }
        i += 1;
    }
    match count_entries(archive) {
        Ok(count) => {
            if count == members.len() {
                Ok(())
            } else {
                Err(AssembleError::Mismatch { index: i })
            }
        },
        Err(_) => Err(AssembleError::Mismatch { index: i }),
    }
}

/// Whether a writer that has been handed all but the last of these entries
/// takes the last.
pub open spec fn taken(
    history: Seq<(Seq<char>, bool, Option<i64>, Option<usize>, Seq<u8>, Option<nat>)>,
) -> bool {
    if history.len() == 0 {
        true
    } else if history.last().5 is Some {
        copy_taken(history)
    } else {
        entry_taken(history)
    }
}

/// Whether a new writer takes these entries one after the other.
pub open spec fn all_taken(
    history: Seq<(Seq<char>, bool, Option<i64>, Option<usize>, Seq<u8>, Option<nat>)>,
) -> bool {
    forall|n: int| 0 < n <= history.len() ==> taken(#[trigger] history.take(n))
}

/// The bytes of the archive that a new writer gives which is handed these
/// entries and then finished, where it takes them all and finishes.
pub open spec fn written(
    history: Seq<(Seq<char>, bool, Option<i64>, Option<usize>, Seq<u8>, Option<nat>)>,
) -> Option<Seq<u8>> {
    if all_taken(history) {
        finished(history)
    } else {
        None
    }
}

/// What a writer is handed for a member: for a compressed member, the first
/// entry of its payload, to be copied as it is; for a stored member, its
/// name and its payload, to be stored.
pub open spec fn member_entry(member: EncodedMember) -> (
    Seq<char>,
    bool,
    Option<i64>,
    Option<usize>,
    Seq<u8>,
    Option<nat>,
) {
    if member.compressed() {
        copied_entry(member.payload_bytes(), 0)
    } else {
        written_entry(member.name_text(), true, None, None, member.payload_bytes())
    }
}

/// What a writer is handed for the members, in their order.
pub open spec fn handed_entries(members: Seq<EncodedMember>) -> Seq<
    (Seq<char>, bool, Option<i64>, Option<usize>, Seq<u8>, Option<nat>),
> {
    members.map_values(|member: EncodedMember| member_entry(member))
}

/// The place at which an archive first fails to read back as the members:
/// all entries before it read back as their members, and the entry at it
/// does not, or, where it is the number of the members, the archive holds
/// another number of entries.
pub open spec fn first_mismatch(archive: Seq<u8>, members: Seq<EncodedMember>, index: int) -> bool {
    &&& 0 <= index <= members.len()
    &&& forall|j: int|
        0 <= j < index ==> read_at(archive, j as nat) == Some(
            expected_entry(#[trigger] members[j]),
        )
    &&& index < members.len() ==> read_at(archive, index as nat) != Some(
        expected_entry(members[index]),
    )
    &&& index == members.len() ==> read_count(archive) != Some(members.len())
}

/// Why there is no archive of the members: the writer refuses the member at
/// `index`, the first that it refuses; or it takes them all and does not
/// finish; or the archive that it gives first fails to read back as the
/// members at `index`.
pub open spec fn failure_of(members: Seq<EncodedMember>, cause: AssembleError) -> bool {
    let history = handed_entries(members);
    match cause {
        AssembleError::Rejected { index } => {
            &&& index < members.len()
            &&& !taken(history.take(index + 1))
            &&& forall|n: int| 0 < n <= index ==> taken(#[trigger] history.take(n))
        },
        AssembleError::Unfinished => all_taken(history) && finished(history) is None,
        AssembleError::Mismatch { index } => written(history) matches Some(archive)
            && first_mismatch(archive, members, index as int),
    }
}

/// Hands the members to a new container, in their order: a compressed
/// member by copying its compressed entry as it is, a stored member by
/// storing its content under its name. There is a writer exactly where the
/// container takes every member, and it has been handed the members, one
/// entry for each and in their order, and nothing else. Where the container
/// refuses a member, the first such member is reported.
fn write_members(members: &Vec<EncodedMember>) -> (r: Result<ArchiveWriter, AssembleError>)
    ensures
        r is Ok <==> all_taken(handed_entries(members@)),
        r matches Ok(writer) ==> handed(writer) == handed_entries(members@),
        r matches Err(e) ==> e is Rejected && failure_of(members@, e),
{
    let ghost history = handed_entries(members@);
    let mut writer = new_writer();
    let mut i: usize = 0;
    assert(handed(writer) =~= history.take(0));
    while i < members.len()
        invariant
            i <= members.len(),
            history == handed_entries(members@),
            handed(writer) == history.take(i as int),
            forall|n: int| 0 < n <= i ==> taken(#[trigger] history.take(n)),
        decreases members.len() - i,
    {
        let member = &members[i];
        let compressed = member.is_precompressed();
        let payload = member.payload();
        proof {
            assert(history[i as int] == member_entry(*member));
            assert(history.take(i + 1) =~= history.take(i as int).push(member_entry(*member)));
        }
        let accepted = if compressed {
            copy_entry(&mut writer, payload, 0).is_ok()
        } else {
            add_entry(&mut writer, member.name().as_str(), Method::Stored, None, None, payload).is_ok()
        };
        assert(accepted == taken(history.take(i + 1)));
        if !accepted {
            return Err(AssembleError::Rejected { index: i });
        }
        i += 1;
    }
    assert(history.take(members.len() as int) =~= history);
    Ok(writer)
}

/// The archive of the given members, in their order.
///
/// A compressed member goes in as it is, without being compressed again; a
/// stored member is stored. The finished archive is read back, and it is
/// handed out only if it reads back as the members: entry by entry the name
/// of the member, stored or compressed as the member is, with data of the
/// member's size and the content of the member's file.
///
/// There is an archive exactly where the container takes every member and
/// finishes, and what it gives reads back as the members. Each error says
/// which of these did not hold, and where.
pub fn assemble(members: &Vec<EncodedMember>) -> (r: Result<Vec<u8>, AssembleError>)
    ensures
        r is Ok <==> (written(handed_entries(members@)) matches Some(archive) && holds(
            archive,
            members@,
        )),
        r matches Ok(archive) ==> written(handed_entries(members@)) == Some(archive@) && holds(
            archive@,
            members@,
        ),
        r matches Err(e) ==> failure_of(members@, e),
{
    let writer = match write_members(members) {
        Ok(writer) => writer,
        Err(e) => {
            return Err(e);
        },
    };
    let archive = match finish_writer(writer) {
        Ok(archive) => archive,
        Err(_) => {
            return Err(AssembleError::Unfinished);
        },
    };
    match verify_archive(&archive, members) {
        Ok(()) => Ok(archive),
        Err(e) => Err(e),
    }
}

} // verus!
