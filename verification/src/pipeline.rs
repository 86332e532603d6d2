//! The whole way from a directory listing to an archive: which entries are
//! images, in which order they go, how they are renamed, and the archive of
//! their contents.

use vstd::prelude::*;
use crate::archive::{
    all_taken, assemble, expected_entry, failure_of, first_mismatch, handed_entries, holds,
    member_entry, taken, written, AssembleError,
};
use crate::container::{copied_entry, finished, read_at, read_count, written_entry};
use crate::member::{
    encode_member, is_member_of, member_outcome, member_size, trial_of, EncodeError,
    EncodedMember, Representation,
};
use crate::naming::{canonical_for, extension_of, is_image_name, is_recognized};
use crate::natural::{digit_runs, runs_fit};
use crate::rename::{alias_among, plan_renames, PlanError, RenamePlan};
use crate::sort::{
    arranged_by, in_natural_order, is_natural_arrangement, is_permutation, sorted_names,
};
use crate::text::{chars_of, same_chars, string_of, texts};

verus! {

/// The entries of a listing that are images, in the order of the listing.
pub open spec fn images(entries: Seq<Seq<char>>, recognized: Seq<Seq<char>>) -> Seq<Seq<char>> {
    entries.filter(|name: Seq<char>| is_recognized(name, recognized))
}

/// The entries of a listing that are no images, in the order of the listing.
pub open spec fn non_images(entries: Seq<Seq<char>>, recognized: Seq<Seq<char>>) -> Seq<
    Seq<char>,
> {
    entries.filter(|name: Seq<char>| !is_recognized(name, recognized))
}

/// The name of the archive of a directory: the name of the directory, a dot
/// and `cbz`.
pub open spec fn archive_name_of(directory: Seq<char>) -> Seq<char> {
    directory + seq!['.', 'c', 'b', 'z']
}

/// The name of the archive of a directory, which is to stand beside the
/// directory.
pub fn archive_name(directory: &str) -> (name: String)
    ensures
        name@ == archive_name_of(directory@),
{
    let mut name = chars_of(directory);
    name.push('.');
    name.push('c');
    name.push('b');
    name.push('z');
    assert(name@ =~= archive_name_of(directory@));
    string_of(&name)
}

/// The name is the canonical name of one of the images, taken in some
/// natural arrangement of them, and is the name or an alias of the name of
/// one of the other entries.
pub open spec fn is_taken_target(
    name: Seq<char>,
    images: Seq<Seq<char>>,
    others: Seq<Seq<char>>,
) -> bool {
    exists|sorted: Seq<Seq<char>>, index: int|
        {
            &&& is_natural_arrangement(sorted, images)
            &&& 0 <= index < sorted.len()
            &&& #[trigger] named_at(sorted, index, name)
            &&& alias_among(name, others)
        }
}

/// The canonical name of the source at `index` of the list is `name`.
pub open spec fn named_at(sources: Seq<Seq<char>>, index: int, name: Seq<char>) -> bool {
    canonical_for(sources[index], index as nat, sources.len() as nat) == Some(name)
}

/// What is to be done with a directory.
#[derive(Clone, Debug, PartialEq, Eq)]
pub struct Collation {
    /// The images, in natural order.
    pub sources: Vec<String>,
    /// Every other entry: the files that are no images, in the order of the
    /// listing, and then the entries that are no files.
    pub others: Vec<String>,
    /// The canonical names of the images and the renames that give them.
    pub plan: RenamePlan,
}

/// Why a directory cannot be collated.
#[derive(Clone, Debug, PartialEq, Eq)]
pub enum CollateError {
    /// A digit run of this image's name has a value above `u64::MAX`.
    NumberTooLarge { name: String },
    /// This canonical name is the name, or an alias of the name, of an entry
    /// that is no image.
    TargetTaken { name: String },
}

/// The images and the other entries of a listing, each in the order of the
/// listing.
pub fn split_entries(entries: &Vec<String>, recognized: &Vec<String>) -> (r: (
    Vec<String>,
    Vec<String>,
))
    ensures
        texts(r.0@) == images(texts(entries@), texts(recognized@)),
        texts(r.1@) == non_images(texts(entries@), texts(recognized@)),
{
    let mut found: Vec<String> = Vec::new();
    let mut others: Vec<String> = Vec::new();
    let ghost all = texts(entries@);
    let ghost set = texts(recognized@);
    let mut i: usize = 0;
    proof {
        reveal(Seq::filter);
        assert(all.take(0) =~= Seq::<Seq<char>>::empty());
        assert(texts(found@) =~= Seq::<Seq<char>>::empty());
        assert(texts(others@) =~= Seq::<Seq<char>>::empty());
    }
    while i < entries.len()
        invariant
            i <= entries.len(),
            all == texts(entries@),
            set == texts(recognized@),
            texts(found@) == images(all.take(i as int), set),
            texts(others@) == non_images(all.take(i as int), set),
        decreases entries.len() - i,
    {
        let ghost found_before = found@;
        let ghost others_before = others@;
        proof {
            reveal(Seq::filter);
            assert(all.take(i + 1).drop_last() == all.take(i as int));
            assert(all.take(i + 1).last() == entries[i as int]@);
        }
        if is_image_name(entries[i].as_str(), recognized) {
            found.push(entries[i].clone());
            assert(texts(found@) =~= texts(found_before).push(entries[i as int]@));
        } else {
            others.push(entries[i].clone());
            assert(texts(others@) =~= texts(others_before).push(entries[i as int]@));
        }
        i += 1;
    }
    assert(all.take(entries.len() as int) == all);
    (found, others)
}

/// What is to be done with a directory, given the names of its files, the
/// names of its other entries, such as directories, and the recognized
/// extensions.
///
/// The images are the files with a recognized extension. They are put in
/// natural order, given canonical names in that order, and the renames are
/// planned around every other entry. A directory without images gives an
/// empty plan.
///
/// There are two errors. An image whose name holds a number too large cannot
/// be put in order. And a canonical name cannot be given where it is the
/// name, or an alias of the name, of an entry that is no image: the name
/// that is reported is the canonical name of an image in its place in the
/// order, so that a directory is refused for no other entry.
pub fn collate(files: &Vec<String>, kept: &Vec<String>, recognized: &Vec<String>) -> (r: Result<
    Collation,
    CollateError,
>)
    ensures
        match r {
            Ok(collation) => {
                &&& is_natural_arrangement(
                    texts(collation.sources@),
                    images(texts(files@), texts(recognized@)),
                )
                &&& texts(collation.others@) == non_images(texts(files@), texts(recognized@))
                    + texts(kept@)
                &&& collation.plan.is_for(texts(collation.sources@), texts(collation.others@))
                &&& forall|i: int|
                    0 <= i < images(texts(files@), texts(recognized@)).len() ==> runs_fit(
                        digit_runs(#[trigger] images(texts(files@), texts(recognized@))[i]),
                    )
            },
            Err(CollateError::NumberTooLarge { name }) => {
                &&& images(texts(files@), texts(recognized@)).contains(name@)
                &&& !runs_fit(digit_runs(name@))
            },
            Err(CollateError::TargetTaken { name }) => {
                &&& is_taken_target(
                    name@,
                    images(texts(files@), texts(recognized@)),
                    non_images(texts(files@), texts(recognized@)) + texts(kept@),
                )
                &&& forall|i: int|
                    0 <= i < images(texts(files@), texts(recognized@)).len() ==> runs_fit(
                        digit_runs(#[trigger] images(texts(files@), texts(recognized@))[i]),
                    )
            },
        },
{
    let (found, mut others) = split_entries(files, recognized);
    let ghost all = images(texts(files@), texts(recognized@));
    let ghost rest = non_images(texts(files@), texts(recognized@));
    let mut k: usize = 0;
    assert(texts(kept@).take(0) =~= Seq::<Seq<char>>::empty());
    assert(rest + Seq::<Seq<char>>::empty() =~= rest);
    while k < kept.len()
        invariant
            k <= kept.len(),
            texts(others@) == rest + texts(kept@).take(k as int),
        decreases kept.len() - k,
    {
        let ghost before = others@;
        others.push(kept[k].clone());
        assert(texts(others@) =~= texts(before).push(kept[k as int]@));
        assert(texts(kept@).take(k + 1) =~= texts(kept@).take(k as int).push(kept[k as int]@));
        k += 1;
    }
    assert(texts(kept@).take(kept.len() as int) =~= texts(kept@));
    let sources = match sorted_names(&found) {
        Ok(sources) => sources,
        Err(e) => {
            assert(all[e.index as int] == found[e.index as int]@);
            return Err(CollateError::NumberTooLarge { name: found[e.index].clone() });
        },
    };
    assert forall|i: int| 0 <= i < all.len() implies runs_fit(digit_runs(#[trigger] all[i])) by {
        assert(all[i] == found[i]@);
    }
    match plan_renames(&sources, &others) {
        Ok(plan) => Ok(Collation { sources, others, plan }),
        Err(PlanError::TargetTaken { index, name }) => {
            assert(named_at(texts(sources@), index as int, name@));
            Err(CollateError::TargetTaken { name })
        },
        Err(PlanError::MissingExtension { index }) => {
            proof {
                lemma_images_have_extensions(
                    texts(files@),
                    texts(recognized@),
                    texts(sources@),
                    index as int,
                );
            }
            Err(CollateError::TargetTaken { name: String::new() })
        },
    }
}

/// Every image has an extension, in whatever order the images stand.
proof fn lemma_images_have_extensions(
    entries: Seq<Seq<char>>,
    recognized: Seq<Seq<char>>,
    sources: Seq<Seq<char>>,
    index: int,
)
    requires
        is_natural_arrangement(sources, images(entries, recognized)),
        0 <= index < sources.len(),
    ensures
        extension_of(sources[index]) is Some,
{
    let all = images(entries, recognized);
    let order = choose|order: Seq<usize>|
        {
            &&& order.len() == all.len()
            &&& is_permutation(order)
            &&& in_natural_order(all, order)
            &&& sources == #[trigger] arranged_by(all, order)
        };
    let at = order[index] as int;
    assert(arranged_by(all, order)[index] == all[at]);
    entries.lemma_filter_pred(|name: Seq<char>| is_recognized(name, recognized), at);
}

/// Why there is no archive of the given files.
#[derive(Clone, Copy, Debug, PartialEq, Eq, Structural)]
pub enum PackError {
    /// There are not as many contents as names.
    Unpaired,
    /// The file at `index` cannot become a member.
    Member { index: usize, error: EncodeError },
    /// The member at `index` is not of the name at `index`.
    Misplaced { index: usize },
    /// The members cannot be assembled.
    Archive { cause: AssembleError },
}

/// The contents of a list of files.
pub open spec fn bytes_of(contents: Seq<Vec<u8>>) -> Seq<Seq<u8>> {
    contents.map_values(|content: Vec<u8>| content@)
}

/// Every file of the list can become a member.
pub open spec fn all_encodable(names: Seq<Seq<char>>, contents: Seq<Seq<u8>>, level: i64) -> bool {
    forall|i: int|
        0 <= i < names.len() ==> (#[trigger] member_outcome(names[i], contents[i], level)) is Ok
}

/// No content is empty.
pub open spec fn all_filled(contents: Seq<Vec<u8>>) -> bool {
    forall|i: int| 0 <= i < contents.len() ==> (#[trigger] contents[i])@.len() > 0
}

/// Where the members could not be assembled, the place that the cause names
/// is one of the members, or, for an archive that reads back with another
/// number of entries, the number of the members.
pub open spec fn cause_in_bounds(cause: AssembleError, count: nat) -> bool {
    match cause {
        AssembleError::Rejected { index } => index < count,
        AssembleError::Unfinished => true,
        AssembleError::Mismatch { index } => index <= count,
    }
}

/// What a writer is handed for a file: the trial of the file, to be copied
/// as it is, where the file is to be compressed, and the file itself, to be
/// stored, where it is not.
pub open spec fn file_entry(name: Seq<char>, content: Seq<u8>, level: i64) -> (
    Seq<char>,
    bool,
    Option<i64>,
    Option<usize>,
    Seq<u8>,
    Option<nat>,
) {
    if member_outcome(name, content, level) == Ok::<Representation, EncodeError>(
        Representation::Compressed,
    ) {
        copied_entry(trial_of(name, content, level)->0, 0)
    } else {
        written_entry(name, true, None, None, content)
    }
}

/// What a writer is handed for the files, in their order.
pub open spec fn file_entries(names: Seq<Seq<char>>, contents: Seq<Seq<u8>>, level: i64) -> Seq<
    (Seq<char>, bool, Option<i64>, Option<usize>, Seq<u8>, Option<nat>),
> {
    Seq::new(names.len(), |i: int| file_entry(names[i], contents[i], level))
}

/// The size that the trial of a file reads back with.
pub open spec fn trial_size(name: Seq<char>, content: Seq<u8>, level: i64) -> nat {
    let scratch = trial_of(name, content, level)->0;
    let trial = read_at(scratch, 0)->0;
    trial.2 as nat
}

/// What a file is to read back as: its name, stored unless it is to be
/// compressed, its data of the smaller of the file's size and the size of
/// its trial, and its content.
pub open spec fn file_reads_as(name: Seq<char>, content: Seq<u8>, level: i64) -> (
    Seq<char>,
    bool,
    u64,
    Seq<u8>,
) {
    (
        name,
        member_outcome(name, content, level) != Ok::<Representation, EncodeError>(
            Representation::Compressed,
        ),
        member_size(content.len(), trial_size(name, content, level)) as u64,
        content,
    )
}

/// The archive reads back as exactly the given files, in their order.
pub open spec fn holds_files(
    archive: Seq<u8>,
    names: Seq<Seq<char>>,
    contents: Seq<Seq<u8>>,
    level: i64,
) -> bool {
    &&& read_count(archive) == Some(names.len())
    &&& forall|i: int|
        0 <= i < names.len() ==> #[trigger] read_at(archive, i as nat) == Some(
            file_reads_as(names[i], contents[i], level),
        )
}

/// The place at which an archive first fails to read back as the files.
pub open spec fn first_mismatch_of_files(
    archive: Seq<u8>,
    names: Seq<Seq<char>>,
    contents: Seq<Seq<u8>>,
    level: i64,
    index: int,
) -> bool {
    &&& 0 <= index <= names.len()
    &&& forall|j: int|
        0 <= j < index ==> #[trigger] read_at(archive, j as nat) == Some(
            file_reads_as(names[j], contents[j], level),
        )
    &&& index < names.len() ==> read_at(archive, index as nat) != Some(
        file_reads_as(names[index], contents[index], level),
    )
    &&& index == names.len() ==> read_count(archive) != Some(names.len())
}

/// Why there is no archive of files that can all become members: the writer
/// refuses the file at `index`, the first that it refuses; or it takes them
/// all and does not finish; or the archive that it gives first fails to
/// read back as the files at `index`.
pub open spec fn failure_of_files(
    names: Seq<Seq<char>>,
    contents: Seq<Seq<u8>>,
    level: i64,
    cause: AssembleError,
) -> bool {
    let history = file_entries(names, contents, level);
    match cause {
        AssembleError::Rejected { index } => {
            &&& index < names.len()
            &&& !taken(history.take(index + 1))
            &&& forall|n: int| 0 < n <= index ==> taken(#[trigger] history.take(n))
        },
        AssembleError::Unfinished => all_taken(history) && finished(history) is None,
        AssembleError::Mismatch { index } => written(history) matches Some(archive)
            && first_mismatch_of_files(archive, names, contents, level, index as int),
    }
}

/// The members for the given files, one for each and in their order.
///
/// There are members exactly where there are as many contents as names and
/// every file can become a member. Otherwise the first file that cannot is
/// reported, with what is in its way.
pub fn encode_members(names: &Vec<String>, contents: Vec<Vec<u8>>, level: i64) -> (r: Result<
    Vec<EncodedMember>,
    PackError,
>)
    ensures
        names.len() != contents.len() <==> r == Err::<Vec<EncodedMember>, PackError>(
            PackError::Unpaired,
        ),
        r is Ok <==> names.len() == contents.len() && all_encodable(
            texts(names@),
            bytes_of(contents@),
            level,
        ),
        r matches Ok(members) ==> {
            &&& members.len() == names.len()
            &&& forall|i: int|
                0 <= i < members.len() ==> is_member_of(
                    #[trigger] members[i],
                    names[i]@,
                    contents[i]@,
                    level,
                )
        },
        r matches Err(PackError::Member { index, error }) ==> {
            &&& index < contents.len()
            &&& member_outcome(names[index as int]@, contents[index as int]@, level) == Err::<
                Representation,
                EncodeError,
            >(error)
            &&& forall|j: int|
                0 <= j < index ==> (#[trigger] member_outcome(
                    names[j]@,
                    contents[j]@,
                    level,
                )) is Ok
        },
        r matches Err(e) ==> e is Unpaired || e is Member,
        r is Ok ==> all_filled(contents@),
{
    if names.len() != contents.len() {
        return Err(PackError::Unpaired);
    }
    let ghost given = contents@;
    let ghost all_names = texts(names@);
    let ghost all_contents = bytes_of(contents@);
    let mut members: Vec<EncodedMember> = Vec::new();
    for content in it: contents
        invariant
            it.seq() == given,
            names.len() == given.len(),
            all_names == texts(names@),
            all_contents == bytes_of(given),
            members.len() == it.index(),
            forall|i: int|
                0 <= i < members.len() ==> is_member_of(
                    #[trigger] members[i],
                    names[i]@,
                    given[i]@,
                    level,
                ),
            forall|j: int|
                0 <= j < it.index() ==> (#[trigger] member_outcome(
                    names[j]@,
                    given[j]@,
                    level,
                )) is Ok,
    {
        let index: usize = members.len();
        match encode_member(names[index].as_str(), content, level) {
            Ok(member) => {
                members.push(member);
            },
            Err(error) => {
                proof {
                    assert(member_outcome(all_names[index as int], all_contents[index as int], level)
                        is Err);
                }
                return Err(PackError::Member { index, error });
            },
        }
    }
    proof {
        assert forall|i: int| 0 <= i < all_names.len() implies (#[trigger] member_outcome(
            all_names[i],
            all_contents[i],
            level,
        )) is Ok by {
            assert(member_outcome(names[i]@, given[i]@, level) is Ok);
        }
        assert forall|i: int| 0 <= i < given.len() implies (#[trigger] given[i])@.len() > 0 by {
            assert(member_outcome(names[i]@, given[i]@, level) is Ok);
        }
    }
    Ok(members)
}

/// The archive of the given members, which are to be of the given names,
/// one by one.
///
/// Members that were made side by side are held against the names before
/// they go into the archive, so that its order is that of the names
/// whatever order the members were finished in. There is an archive exactly
/// where there are as many members as names, each member is of its name,
/// and the members can be assembled.
pub fn assemble_in_order(names: &Vec<String>, members: &Vec<EncodedMember>) -> (r: Result<
    Vec<u8>,
    PackError,
>)
    ensures
        names.len() != members.len() <==> r == Err::<Vec<u8>, PackError>(PackError::Unpaired),
        r is Ok <==> {
            &&& names.len() == members.len()
            &&& forall|i: int|
                0 <= i < names.len() ==> (#[trigger] members[i]).name_text() == names[i]@
            &&& written(handed_entries(members@)) matches Some(archive) && holds(
                archive,
                members@,
            )
        },
        r matches Ok(archive) ==> written(handed_entries(members@)) == Some(archive@) && holds(
            archive@,
            members@,
        ),
        r matches Err(PackError::Misplaced { index }) ==> {
            &&& index < names.len() == members.len()
            &&& members[index as int].name_text() != names[index as int]@
            &&& forall|j: int| 0 <= j < index ==> (#[trigger] members[j]).name_text() == names[j]@
        },
        r matches Err(PackError::Archive { cause }) ==> {
            &&& forall|i: int|
                0 <= i < names.len() ==> (#[trigger] members[i]).name_text() == names[i]@
            &&& failure_of(members@, cause)
            &&& cause_in_bounds(cause, members.len() as nat)
        },
        r matches Err(e) ==> !(e is Member),
{
    if names.len() != members.len() {
        return Err(PackError::Unpaired);
    }
    let mut i: usize = 0;
    while i < names.len()
        invariant
            i <= names.len(),
            names.len() == members.len(),
            forall|j: int| 0 <= j < i ==> (#[trigger] members[j]).name_text() == names[j]@,
        decreases names.len() - i,
    {
        let given = chars_of(members[i].name().as_str());
        if !same_chars(&given, &chars_of(names[i].as_str())) {
            return Err(PackError::Misplaced { index: i });
        }
        i += 1;
    }
    match assemble(members) {
        Ok(archive) => Ok(archive),
        Err(cause) => Err(PackError::Archive { cause }),
    }
}

/// The members of files are handed to the writer as the files say, and are
/// to read back as the files say.
proof fn lemma_members_of_files(
    members: Seq<EncodedMember>,
    names: Seq<Seq<char>>,
    contents: Seq<Seq<u8>>,
    level: i64,
)
    requires
        members.len() == names.len(),
        names.len() == contents.len(),
        forall|i: int|
            0 <= i < members.len() ==> is_member_of(
                #[trigger] members[i],
                names[i],
                contents[i],
                level,
            ),
    ensures
        handed_entries(members) == file_entries(names, contents, level),
        forall|i: int|
            0 <= i < members.len() ==> expected_entry(#[trigger] members[i]) == file_reads_as(
                names[i],
                contents[i],
                level,
            ),
        forall|archive: Seq<u8>| #[trigger]
            holds(archive, members) <==> holds_files(archive, names, contents, level),
        forall|cause: AssembleError| #[trigger]
            failure_of(members, cause) ==> failure_of_files(names, contents, level, cause),
{
    assert forall|i: int| 0 <= i < members.len() implies member_entry(#[trigger] members[i])
        == file_entry(names[i], contents[i], level) by {
        assert(is_member_of(members[i], names[i], contents[i], level));
    }
    assert(handed_entries(members) =~= file_entries(names, contents, level));
    assert forall|i: int| 0 <= i < members.len() implies expected_entry(#[trigger] members[i])
        == file_reads_as(names[i], contents[i], level) by {
        assert(is_member_of(members[i], names[i], contents[i], level));
    }
    assert forall|archive: Seq<u8>| #[trigger]
        holds(archive, members) <==> holds_files(archive, names, contents, level) by {
        if holds(archive, members) {
            assert forall|i: int| 0 <= i < names.len() implies #[trigger] read_at(
                archive,
                i as nat,
            ) == Some(file_reads_as(names[i], contents[i], level)) by {
                assert(read_at(archive, i as nat) == Some(expected_entry(members[i])));
            }
        }
        if holds_files(archive, names, contents, level) {
            assert forall|i: int| 0 <= i < members.len() implies read_at(archive, i as nat)
                == Some(expected_entry(#[trigger] members[i])) by {
                assert(read_at(archive, i as nat) == Some(
                    file_reads_as(names[i], contents[i], level),
                ));
            }
        }
    }
    assert forall|cause: AssembleError| #[trigger] failure_of(members, cause) implies failure_of_files(
        names,
        contents,
        level,
        cause,
    ) by {
        if cause is Mismatch {
            let index = cause->Mismatch_index as int;
            let archive = written(handed_entries(members))->0;
            assert(first_mismatch(archive, members, index));
            assert forall|j: int| 0 <= j < index implies #[trigger] read_at(archive, j as nat)
                == Some(file_reads_as(names[j], contents[j], level)) by {
                assert(read_at(archive, j as nat) == Some(expected_entry(members[j])));
            }
            if index < names.len() {
                assert(expected_entry(members[index]) == file_reads_as(
                    names[index],
                    contents[index],
                    level,
                ));
            }
        }
    }
}

/// The archive of the given files, in their order.
///
/// Each file becomes a member, compressed where that is smaller and stored
/// where it is not, and the members are assembled. The archive that comes
/// back reads back as the files: as many entries as files, each with the
/// name and the content of its file, stored or compressed as is smaller,
/// and with data of the smaller size of the two.
///
/// There is an archive exactly where there are as many contents as names,
/// every file can become a member, the container takes them all and
/// finishes, and what it gives reads back as the files.
pub fn pack(names: &Vec<String>, contents: Vec<Vec<u8>>, level: i64) -> (r: Result<
    Vec<u8>,
    PackError,
>)
    ensures
        names.len() != contents.len() <==> r == Err::<Vec<u8>, PackError>(PackError::Unpaired),
        r is Ok <==> {
            &&& names.len() == contents.len()
            &&& all_encodable(texts(names@), bytes_of(contents@), level)
            &&& written(
                file_entries(texts(names@), bytes_of(contents@), level),
            ) matches Some(archive) && holds_files(
                archive,
                texts(names@),
                bytes_of(contents@),
                level,
            )
        },
        r matches Ok(archive) ==> {
            &&& written(file_entries(texts(names@), bytes_of(contents@), level)) == Some(archive@)
            &&& holds_files(archive@, texts(names@), bytes_of(contents@), level)
            &&& all_filled(contents@)
        },
        r matches Err(PackError::Member { index, error }) ==> {
            &&& index < contents.len()
            &&& member_outcome(names[index as int]@, contents[index as int]@, level) == Err::<
                Representation,
                EncodeError,
            >(error)
            &&& forall|j: int|
                0 <= j < index ==> (#[trigger] member_outcome(
                    names[j]@,
                    contents[j]@,
                    level,
                )) is Ok
        },
        r matches Err(PackError::Archive { cause }) ==> {
            &&& all_encodable(texts(names@), bytes_of(contents@), level)
            &&& all_filled(contents@)
            &&& failure_of_files(texts(names@), bytes_of(contents@), level, cause)
            &&& cause_in_bounds(cause, names.len() as nat)
        },
        r matches Err(e) ==> !(e is Misplaced),
{
    let ghost given = contents@;
    let members = match encode_members(names, contents, level) {
        Ok(members) => members,
        Err(e) => {
            return Err(e);
        },
    };
    proof {
        assert forall|i: int| 0 <= i < members.len() implies is_member_of(
            #[trigger] members@[i],
            texts(names@)[i],
            bytes_of(given)[i],
            level,
        ) by {
            assert(is_member_of(members[i], names[i]@, given[i]@, level));
        }
        lemma_members_of_files(members@, texts(names@), bytes_of(given), level);
    }
    match assemble_in_order(names, &members) {
        Ok(archive) => {
            assert(holds(archive@, members@));
            Ok(archive)
        },
        Err(e) => {
            proof {
                if e is Misplaced {
                    let at = e->Misplaced_index as int;
                    assert(is_member_of(members[at], names[at]@, given[at]@, level));
                }
                if e is Archive {
                    let a = written(handed_entries(members@));
                    if a is Some {
                        assert(holds(a->0, members@) <==> holds_files(
                            a->0,
                            texts(names@),
                            bytes_of(given),
                            level,
                        ));
                    }
                    assert(failure_of(members@, e->Archive_cause));
                }
            }
            Err(e)
        },
    }
}

} // verus!
