//! Archive members: the content of one file, stored as it is or compressed,
//! whichever is smaller.

use vstd::prelude::*;
use crate::container::{
    add_entry, entry_taken, finish_writer, finished, handed, new_writer, read_at, read_entry,
    written_entry, ArchiveWriter, Entry, Method,
};
use crate::text::{chars_of, same_chars};

verus! {

/// The most thorough level of compression.
pub const THOROUGH: i64 = 264;

/// The size of the buffer that compression collects its input in.
pub const BUFFER: usize = 0x10_0000;

/// How the content of a member is kept.
#[derive(Clone, Copy, Debug, PartialEq, Eq, Structural)]
pub enum Representation {
    /// The bytes of the file as they are.
    Stored,
    /// The bytes of the file, compressed.
    Compressed,
}

/// Why a file cannot become a member.
#[derive(Clone, Copy, Debug, PartialEq, Eq, Structural)]
pub enum EncodeError {
    /// The file is empty.
    EmptyFile,
    /// Compression failed, or what it gave does not read back as an entry of
    /// the given name with the file's content.
    CodecFailure,
}

/// The representation of a file, given what the trial compression of it
/// reads back as. An empty file has none. A trial that does not read back as
/// a compressed entry of the given name with the file's content is a failure
/// of the codec. Otherwise the trial is kept where its data is smaller than
/// the file, and the file is stored as it is where it is not.
pub open spec fn representation_of(
    name: Seq<char>,
    content: Seq<u8>,
    trial: (Seq<char>, bool, u64, Seq<u8>),
) -> Result<Representation, EncodeError> {
    if content.len() == 0 {
        Err(EncodeError::EmptyFile)
    } else if trial.0 != name || trial.1 || trial.3 != content {
        Err(EncodeError::CodecFailure)
    } else if trial.2 < content.len() {
        Ok(Representation::Compressed)
    } else {
        Ok(Representation::Stored)
    }
}

/// The size that a file's data takes in an archive: the smaller of the size
/// of the file and the size of its compressed form.
pub open spec fn member_size(plain: nat, compressed: nat) -> nat {
    if compressed < plain {
        compressed
    } else {
        plain
    }
}

/// A member never takes more room than the file does, nor more than its
/// compressed form does: choosing per file is never worse than always
/// storing or always compressing.
pub proof fn lemma_member_size(plain: nat, compressed: nat)
    ensures
        member_size(plain, compressed) <= plain,
        member_size(plain, compressed) <= compressed,
        member_size(plain, compressed) == plain || member_size(plain, compressed)
            == compressed,
{
}

/// Whether two byte strings are equal.
pub fn same_bytes(a: &Vec<u8>, b: &Vec<u8>) -> (same: bool)
    ensures
        same == (a@ == b@),
{
    if a.len() != b.len() {
        return false;
    }
    let mut i: usize = 0;
    while i < a.len()
        invariant
            i <= a.len(),
            a.len() == b.len(),
            forall|j: int| 0 <= j < i ==> a@[j] == b@[j],
        decreases a.len() - i,
    {
        if a[i] != b[i] {
            return false;
        }
        i += 1;
    }
    assert(a@ =~= b@);
    true
}

/// The representation of a file, given what the trial compression of it
/// reads back as.
pub fn choose_representation(name: &str, content: &Vec<u8>, trial: &Entry) -> (r: Result<
    Representation,
    EncodeError,
>)
    ensures
        r == representation_of(name@, content@, trial@),
{
    if content.len() == 0 {
        return Err(EncodeError::EmptyFile);
    }
    if trial.stored || !same_chars(&chars_of(trial.name.as_str()), &chars_of(name)) || !same_bytes(
        &trial.content,
        content,
    ) {
        return Err(EncodeError::CodecFailure);
    }
    if trial.compressed_size < content.len() as u64 {
        Ok(Representation::Compressed)
    } else {
        Ok(Representation::Stored)
    }
}

/// One file as it goes into an archive: its name, and its content either as
/// it is or compressed.
pub struct EncodedMember {
    name: String,
    payload: Vec<u8>,
    precompressed: bool,
    file_size: usize,
    compressed_size: u64,
}

impl EncodedMember {
    /// A member is not empty, is compressed exactly where that is smaller,
    /// and holds what the archive needs: the file where it is stored, and
    /// where it is compressed, a container whose first entry reads back as
    /// a compressed entry of the member's name, size and length.
    #[verifier::type_invariant]
    spec fn well_formed(&self) -> bool {
        &&& self.file_size > 0
        &&& self.precompressed <==> self.compressed_size < self.file_size
        &&& !self.precompressed ==> self.payload@.len() == self.file_size
        &&& self.precompressed ==> (read_at(self.payload@, 0) matches Some(trial) && trial.0
            == self.name@ && !trial.1 && trial.2 == self.compressed_size && trial.3.len()
            == self.file_size)
    }

    /// The name of the member.
    pub closed spec fn name_text(&self) -> Seq<char> {
        self.name@
    }

    /// Whether the member is kept compressed.
    pub closed spec fn compressed(&self) -> bool {
        self.precompressed
    }

    /// What the member holds. For a stored member, these are the bytes of
    /// the file. For a compressed member, they are a container whose first
    /// entry is the file, compressed.
    pub closed spec fn payload_bytes(&self) -> Seq<u8> {
        self.payload@
    }

    /// The size of the file.
    pub closed spec fn file_len(&self) -> nat {
        self.file_size as nat
    }

    /// The size of the file's compressed form, as the trial found it.
    pub closed spec fn trial(&self) -> nat {
        self.compressed_size as nat
    }

    /// The content of the file that the member was made of: the payload of a
    /// stored member, and what the payload of a compressed member reads back
    /// as.
    pub closed spec fn content(&self) -> Seq<u8> {
        if self.precompressed {
            let trial = read_at(self.payload@, 0)->0;
            trial.3
        } else {
            self.payload@
        }
    }

    /// The size that the member's data takes in an archive.
    pub open spec fn size(&self) -> nat {
        member_size(self.file_len(), self.trial())
    }

    /// The sizes of a member are machine numbers.
    pub proof fn lemma_sizes_fit(&self)
        ensures
            self.file_len() <= usize::MAX,
            self.trial() <= u64::MAX,
            self.size() <= u64::MAX,
    {
    }

    /// The name that the member goes into the archive under.
    pub fn name(&self) -> (name: &String)
        ensures
            name@ == self.name_text(),
    {
        &self.name
    }

    /// Whether the member is kept compressed: it is exactly where that is
    /// smaller.
    pub fn is_precompressed(&self) -> (compressed: bool)
        ensures
            compressed == self.compressed(),
            compressed <==> self.trial() < self.file_len(),
    {
        proof {
            use_type_invariant(self);
        }
        self.precompressed
    }

    /// What the member holds: the file's content where it is stored, and
    /// where it is compressed, a container that reads back as one compressed
    /// entry of the member's name and content.
    pub fn payload(&self) -> (payload: &Vec<u8>)
        ensures
            payload@ == self.payload_bytes(),
            !self.compressed() ==> payload@ == self.content(),
            self.compressed() ==> read_at(payload@, 0) == Some(
                (self.name_text(), false, self.trial() as u64, self.content()),
            ),
    {
        proof {
            use_type_invariant(self);
        }
        &self.payload
    }

    /// The size of the file, which is not empty.
    pub fn file_size(&self) -> (size: usize)
        ensures
            size == self.file_len(),
            size == self.content().len(),
            size > 0,
    {
        proof {
            use_type_invariant(self);
        }
        self.file_size
    }

    /// The size of the file's compressed form, as the trial found it.
    pub fn compressed_size(&self) -> (size: u64)
        ensures
            size == self.trial(),
    {
        self.compressed_size
    }

    /// The size that the member's data takes in an archive.
    pub fn stored_size(&self) -> (size: u64)
        ensures
            size == self.size(),
    {
        proof {
            use_type_invariant(self);
        }
        if self.precompressed {
            self.compressed_size
        } else {
            self.file_size as u64
        }
    }
}

/// What the writer of a trial is handed: the one entry of the given name,
/// to be compressed at the given level, with the file's content.
pub open spec fn trial_history(name: Seq<char>, content: Seq<u8>, level: i64) -> Seq<
    (Seq<char>, bool, Option<i64>, Option<usize>, Seq<u8>, Option<nat>),
> {
    seq![written_entry(name, false, Some(level), Some(BUFFER), content)]
}

/// The container that the trial compression of a file writes, where the
/// codec takes the file and finishes.
pub open spec fn trial_of(name: Seq<char>, content: Seq<u8>, level: i64) -> Option<Seq<u8>> {
    if entry_taken(trial_history(name, content, level)) {
        finished(trial_history(name, content, level))
    } else {
        None
    }
}

/// What becomes of a file: an empty file is refused, a file whose trial
/// compression fails or does not read back as the file is a failure of the
/// codec, and every other file is compressed where its trial is smaller
/// than the file and stored where it is not.
pub open spec fn member_outcome(name: Seq<char>, content: Seq<u8>, level: i64) -> Result<
    Representation,
    EncodeError,
> {
    if content.len() == 0 {
        Err(EncodeError::EmptyFile)
    } else {
        match trial_of(name, content, level) {
            Some(scratch) => outcome_of(name, content, scratch),
            None => Err(EncodeError::CodecFailure),
        }
    }
}

/// The member is the one for the given file: it has the file's name and
/// content, the size that the trial of the file reads back with, and it
/// keeps the trial where that is smaller than the file and the file's
/// content where it is not.
pub open spec fn is_member_of(
    member: EncodedMember,
    name: Seq<char>,
    content: Seq<u8>,
    level: i64,
) -> bool {
    &&& member_outcome(name, content, level) matches Ok(representation)
    &&& trial_of(name, content, level) matches Some(scratch)
    &&& read_at(scratch, 0) matches Some(trial)
    &&& member.name_text() == name
    &&& member.content() == content
    &&& member.file_len() == content.len()
    &&& member.file_len() > 0
    &&& member.trial() == trial.2
    &&& member.compressed() <==> representation == Representation::Compressed
    &&& member.compressed() <==> member.trial() < member.file_len()
    &&& member.payload_bytes() == if member.compressed() {
        scratch
    } else {
        content
    }
}

/// Hands the content to a container of its own, as the one entry of the
/// given name, to be compressed at the given level. There is a writer
/// exactly where the codec takes the entry, and it has been handed that
/// entry and no other.
fn compress_alone(name: &str, content: &Vec<u8>, level: i64) -> (r: Option<ArchiveWriter>)
    ensures
        r is Some <==> entry_taken(trial_history(name@, content@, level)),
        r matches Some(writer) ==> handed(writer) == trial_history(name@, content@, level),
{
    let mut writer = new_writer();
    assert(handed(writer).push(
        written_entry(name@, false, Some(level), Some(BUFFER), content@),
    ) =~= trial_history(name@, content@, level));
    if add_entry(&mut writer, name, Method::Deflated, Some(level), Some(BUFFER), content).is_err() {
        return None;
    }
    Some(writer)
}

/// What becomes of a file, given the container that the trial compression
/// of it wrote: the file's representation where the container reads back
/// with a first entry, and a failure of the codec where it does not.
pub open spec fn outcome_of(name: Seq<char>, content: Seq<u8>, scratch: Seq<u8>) -> Result<
    Representation,
    EncodeError,
> {
    if content.len() == 0 {
        Err(EncodeError::EmptyFile)
    } else {
        match read_at(scratch, 0) {
            Some(trial) => representation_of(name, content, trial),
            None => Err(EncodeError::CodecFailure),
        }
    }
}

/// The member for one file, given the container that the trial compression
/// of the file wrote.
///
/// The container is read back. Where its first entry is the file,
/// compressed, and smaller than the file, the member keeps the container
/// and is compressed; where the entry is the file but no smaller, the member
/// keeps the file's content and is stored. An empty file is refused, and a
/// container that does not read back as the file is a failure of the codec.
pub fn member_of_trial(name: &str, content: Vec<u8>, scratch: Vec<u8>) -> (r: Result<
    EncodedMember,
    EncodeError,
>)
    ensures
        match outcome_of(name@, content@, scratch@) {
            Ok(representation) => r matches Ok(member) && {
                &&& member.name_text() == name@
                &&& member.content() == content@
                &&& member.file_len() == content@.len()
                &&& member.file_len() > 0
                &&& read_at(scratch@, 0) matches Some(trial) && member.trial() == trial.2
                &&& member.compressed() <==> representation == Representation::Compressed
                &&& member.compressed() <==> member.trial() < member.file_len()
                &&& member.payload_bytes() == if member.compressed() {
                    scratch@
                } else {
                    content@
                }
            },
            Err(e) => r == Err::<EncodedMember, EncodeError>(e),
        },
{
    if content.len() == 0 {
        return Err(EncodeError::EmptyFile);
    }
    let trial = match read_entry(&scratch, 0) {
        Ok(trial) => trial,
        Err(_) => {
            return Err(EncodeError::CodecFailure);
        },
    };
    let file_size: usize = content.len();
    match choose_representation(name, &content, &trial) {
        Ok(Representation::Compressed) => Ok(
            EncodedMember {
                name: trial.name,
                payload: scratch,
                precompressed: true,
                file_size,
                compressed_size: trial.compressed_size,
            },
        ),
        Ok(Representation::Stored) => Ok(
            EncodedMember {
                name: trial.name,
                payload: content,
                precompressed: false,
                file_size,
                compressed_size: trial.compressed_size,
            },
        ),
        Err(e) => Err(e),
    }
}

/// The member for one file, of the given name and content.
///
/// The content is compressed at the given level into a container of its
/// own, and the member is made of what the container reads back as: it is
/// compressed where the compressed data is smaller than the file, and
/// stored where it is not. Either way its content is that of the file, and
/// its size is the smaller of the two.
///
/// An empty file is refused. Every other failure is the codec's: it does not
/// take the file at that level, it does not finish, or what it wrote does
/// not read back as the file under its name.
pub fn encode_member(name: &str, content: Vec<u8>, level: i64) -> (r: Result<
    EncodedMember,
    EncodeError,
>)
    ensures
        r is Ok <==> member_outcome(name@, content@, level) is Ok,
        r matches Ok(member) ==> is_member_of(member, name@, content@, level),
        r matches Err(e) ==> member_outcome(name@, content@, level) == Err::<
            Representation,
            EncodeError,
        >(e),
{
    if content.len() == 0 {
        return Err(EncodeError::EmptyFile);
    }
    let writer = match compress_alone(name, &content, level) {
        Some(writer) => writer,
        None => {
            return Err(EncodeError::CodecFailure);
        },
    };
    match finish_writer(writer) {
        Ok(scratch) => member_of_trial(name, content, scratch),
        Err(_) => Err(EncodeError::CodecFailure),
    }
}

} // verus!
