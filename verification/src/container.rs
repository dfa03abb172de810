//! The compound file (OLE2 container) that holds the streams of a project.
use crate::text::join3;
use std::io::{Cursor, Read};
use vstd::prelude::*;
use vstd::string::StringExecFns;

verus! {

/// `std::io::Cursor`, a reader over a byte buffer in memory.
#[verifier::external_type_specification]
#[verifier::external_body]
#[verifier::reject_recursive_types(T)]
pub struct ExCursor<T>(std::io::Cursor<T>);

/// `cfb::CompoundFile`, an open compound file: a tree of storages that hold streams.
#[verifier::external_type_specification]
#[verifier::external_body]
#[verifier::reject_recursive_types(F)]
pub struct ExCompoundFile<F>(cfb::CompoundFile<F>);

/// `cfb::Stream`, an open stream of a compound file.
#[verifier::external_type_specification]
#[verifier::external_body]
#[verifier::reject_recursive_types(F)]
pub struct ExStream<F>(cfb::Stream<F>);

/// The bytes that a compound file was opened on.
pub uninterp spec fn container_bytes(file: cfb::CompoundFile<Cursor<Vec<u8>>>) -> Seq<u8>;

/// The bytes that a stream has from its current position on.
pub uninterp spec fn unread_bytes(stream: cfb::Stream<Cursor<Vec<u8>>>) -> Seq<u8>;

/// Whether `cfb::CompoundFile::open` takes these bytes for a compound file.
pub uninterp spec fn is_container(bytes: Seq<u8>) -> bool;

/// Whether `cfb::CompoundFile::is_storage` finds a storage at a path of the compound file that these
/// bytes make up.
pub uninterp spec fn has_storage(bytes: Seq<u8>, path: Seq<char>) -> bool;

/// The bytes of the stream that `cfb::CompoundFile::open_stream` finds at a path of the compound
/// file that these bytes make up, if it finds one.
pub uninterp spec fn stream_at(bytes: Seq<u8>, path: Seq<char>) -> Option<Seq<u8>>;

/// Why `cfb::CompoundFile::open` does not take these bytes for a compound file.
pub uninterp spec fn open_failure(bytes: Seq<u8>) -> Seq<char>;

/// What `std::io::Read::read_to_end` finds wrong with the chain of sectors of the stream at a path of
/// the compound file that these bytes make up: nothing, if the chain is well-formed, lies in the file
/// and holds as many bytes as the stream is said to have.
pub uninterp spec fn chain_fault(bytes: Seq<u8>, path: Seq<char>) -> Option<Seq<char>>;

/// What `std::io::Read::read_to_end` finds wrong with the chain of sectors behind a stream.
pub uninterp spec fn stream_fault(stream: cfb::Stream<Cursor<Vec<u8>>>) -> Option<Seq<char>>;

/// Whether nothing is wrong with the chain of sectors of the stream at a path.
pub open spec fn is_whole(bytes: Seq<u8>, path: Seq<char>) -> bool {
    chain_fault(bytes, path) is None
}

/// Whether a path means the same on every system: it does not start with two slashes, and has
/// neither backslashes nor colons.
pub open spec fn is_portable(path: Seq<char>) -> bool {
    &&& !(path.len() >= 2 && path[0] == '/' && path[1] == '/')
    &&& forall|i: int| 0 <= i < path.len() ==> path[i] != '\\' && path[i] != ':'
}

/// `cfb::CompoundFile::open` on a copy of the bytes. Whether it succeeds, and what its message says
/// if it does not, depends on the bytes alone.
#[verifier::external_body]
pub(crate) fn open_container(bytes: &[u8]) -> (file: Result<
    cfb::CompoundFile<Cursor<Vec<u8>>>,
    String,
>)
    ensures
        file is Ok <==> is_container(bytes@),
        file matches Ok(f) ==> container_bytes(f) == bytes@,
        file matches Err(reason) ==> reason@ == open_failure(bytes@),
{
    match cfb::CompoundFile::open(Cursor::new(bytes.to_vec())) {
        Ok(file) => Ok(file),
        Err(error) => Err(error.to_string()),
    }
}

/// `cfb::CompoundFile::is_storage`: the answer depends on the bytes of the file and the path alone.
#[verifier::external_body]
pub(crate) fn is_storage(file: &cfb::CompoundFile<Cursor<Vec<u8>>>, path: &str) -> (found: bool)
    requires
        is_portable(path@),
    ensures
        found == has_storage(container_bytes(*file), path@),
{
    file.is_storage(path)
}

/// Whether a text is a reason for which there is no stream at a path. The place that it names is
/// written as the system writes paths.
pub open spec fn is_missing_reason(reason: Seq<char>) -> bool {
    ||| exists|place: Seq<char>| reason == #[trigger] ("No such stream: "@ + place)
    ||| exists|place: Seq<char>| reason == #[trigger] ("Not a stream: "@ + place)
    ||| reason == "Invalid path (must be within root)"@
}

/// `cfb::CompoundFile::open_stream`: opens the stream at a path, at its start, if there is one, and
/// leaves the file as it is. If there is none, the message says that nothing is there, or something
/// else, or that the path leads out of the file. How it writes the path is left open: that differs
/// between systems.
#[verifier::external_body]
fn open_stream(file: &mut cfb::CompoundFile<Cursor<Vec<u8>>>, path: &str) -> (stream: Result<
    cfb::Stream<Cursor<Vec<u8>>>,
    String,
>)
    requires
        is_portable(path@),
    ensures
        container_bytes(*final(file)) == container_bytes(*old(file)),
        stream is Ok <==> stream_at(container_bytes(*old(file)), path@) is Some,
        stream matches Ok(s) ==> stream_at(container_bytes(*old(file)), path@) == Some(
            unread_bytes(s),
        ) && stream_fault(s) == chain_fault(container_bytes(*old(file)), path@),
        stream matches Err(reason) ==> is_missing_reason(reason@),
{
    match file.open_stream(path) {
        Ok(stream) => Ok(stream),
        Err(error) => Err(error.to_string()),
    }
}

/// Whether a text is one of the reasons for which a stream with a whole chain of sectors cannot be
/// read: want of memory, or that the compound file it belongs to is no longer open.
pub open spec fn is_passing_reason(reason: Seq<char>) -> bool {
    ||| reason == "stream is too large to read into memory"@
    ||| reason == "not enough memory to read the stream"@
    ||| reason == "CompoundFile was dropped"@
}

/// `std::io::Read::read_to_end` on a `cfb::Stream`: all bytes from the current position on. It
/// succeeds only where nothing is wrong with the chain of sectors. It fails for what is wrong with the
/// chain, or else for want of memory or where the compound file is no longer open, of which it says
/// so in one of three fixed texts. Whether the memory suffices is left open.
#[verifier::external_body]
fn read_to_end(stream: &mut cfb::Stream<Cursor<Vec<u8>>>) -> (bytes: Result<Vec<u8>, String>)
    ensures
        bytes matches Ok(b) ==> b@ == unread_bytes(*old(stream)) && stream_fault(
            *old(stream),
        ) is None,
        bytes matches Err(reason) ==> stream_fault(*old(stream)) == Some(reason@)
            || is_passing_reason(reason@),
{
    let mut bytes = Vec::new();
    match stream.read_to_end(&mut bytes) {
        Ok(_) => Ok(bytes),
        Err(error) => Err(error.to_string()),
    }
}

/// The message that says that there is no stream at a path, for a given reason.
pub open spec fn missing_text(path: Seq<char>, reason: Seq<char>) -> Seq<char> {
    "missing stream "@ + path + ": "@ + reason
}

/// Whether a message says that there is no stream at a path, and why.
pub open spec fn says_missing(message: Seq<char>, path: Seq<char>) -> bool {
    exists|reason: Seq<char>|
        message == #[trigger] missing_text(path, reason) && is_missing_reason(reason)
}

/// The message that says that the stream at a path cannot be read, for a given reason.
pub open spec fn unreadable_text(path: Seq<char>, reason: Seq<char>) -> Seq<char> {
    "read "@ + path + ": "@ + reason
}

/// Whether a message says that the stream at a path cannot be read, and why: what is wrong with its
/// chain of sectors, or a passing reason.
pub open spec fn says_unreadable(message: Seq<char>, bytes: Seq<u8>, path: Seq<char>) -> bool {
    exists|reason: Seq<char>|
        message == #[trigger] unreadable_text(path, reason) && (chain_fault(bytes, path) == Some(
            reason,
        ) || is_passing_reason(reason))
}

/// Whether a message says that the stream at a path cannot be read, for a passing reason.
pub open spec fn says_passing(message: Seq<char>, path: Seq<char>) -> bool {
    exists|reason: Seq<char>|
        message == #[trigger] unreadable_text(path, reason) && is_passing_reason(reason)
}

/// What reading the stream at a path can give: all its bytes, if its chain of sectors is whole; a
/// message that says that it is missing, if and only if it is; or a message that says that it cannot
/// be read, for what is wrong with its chain or for a passing reason.
pub open spec fn is_reading(
    reading: Result<Seq<u8>, Seq<char>>,
    bytes: Seq<u8>,
    path: Seq<char>,
) -> bool {
    match reading {
        Ok(content) => stream_at(bytes, path) == Some(content) && is_whole(bytes, path),
        Err(message) => if stream_at(bytes, path) is None {
            says_missing(message, path)
        } else {
            says_unreadable(message, bytes, path)
        },
    }
}

/// The bytes or the message of a reading.
pub open spec fn reading_view(reading: Result<Vec<u8>, String>) -> Result<Seq<u8>, Seq<char>> {
    match reading {
        Ok(content) => Ok(content@),
        Err(message) => Err(message@),
    }
}

/// Reads the stream at a path.
pub fn read_stream(file: &mut cfb::CompoundFile<Cursor<Vec<u8>>>, path: &str) -> (reading: Result<
    Vec<u8>,
    String,
>)
    requires
        is_portable(path@),
    ensures
        container_bytes(*final(file)) == container_bytes(*old(file)),
        is_reading(reading_view(reading), container_bytes(*old(file)), path@),
{
    match open_stream(file, path) {
        Ok(mut stream) => match read_to_end(&mut stream) {
            Ok(content) => Ok(content),
            Err(reason) => {
                let mut message = join3("read ", path, ": ");
                message.append(reason.as_str());
                assert(message@ == unreadable_text(path@, reason@));
                Err(message)
            },
        },
        Err(reason) => {
            let mut message = join3("missing stream ", path, ": ");
            message.append(reason.as_str());
            assert(message@ == missing_text(path@, reason@));
            Err(message)
        },
    }
}

/// A stream that is there, with a whole chain of sectors, is read as all its bytes, or the message
/// gives a passing reason.
pub proof fn lemma_whole_stream_read(
    reading: Result<Seq<u8>, Seq<char>>,
    bytes: Seq<u8>,
    path: Seq<char>,
)
    requires
        is_reading(reading, bytes, path),
        stream_at(bytes, path) is Some,
        is_whole(bytes, path),
    ensures
        match reading {
            Ok(content) => stream_at(bytes, path) == Some(content),
            Err(message) => says_passing(message, path),
        },
{
    if let Err(message) = reading {
        let reason = choose|reason: Seq<char>|
            message == #[trigger] unreadable_text(path, reason) && (chain_fault(bytes, path)
                == Some(reason) || is_passing_reason(reason));
        assert(message == unreadable_text(path, reason) && is_passing_reason(reason));
    }
}

/// What comes back of a stream, word by word: a missing one is told as `missing stream`, its path and
/// a reason; one that cannot be read as `read`, its path, and either what is wrong with its chain of
/// sectors or one of three passing reasons; any other reading is all of the stream.
pub proof fn lemma_reading_texts(
    reading: Result<Seq<u8>, Seq<char>>,
    bytes: Seq<u8>,
    path: Seq<char>,
)
    requires
        is_reading(reading, bytes, path),
    ensures
        reading matches Ok(content) ==> stream_at(bytes, path) == Some(content) && chain_fault(
            bytes,
            path,
        ) is None,
        stream_at(bytes, path) is None ==> (reading matches Err(message) && exists|reason: Seq<char>|
            message == #[trigger] ("missing stream "@ + path + ": "@ + reason) && is_missing_reason(
                reason,
            )),
        reading matches Err(message) ==> stream_at(bytes, path) is Some ==> exists|
            reason: Seq<char>,
        |
            {
                &&& message == #[trigger] ("read "@ + path + ": "@ + reason)
                &&& {
                    ||| chain_fault(bytes, path) == Some(reason)
                    ||| reason == "stream is too large to read into memory"@
                    ||| reason == "not enough memory to read the stream"@
                    ||| reason == "CompoundFile was dropped"@
                }
            },
{
    if let Err(message) = reading {
        if stream_at(bytes, path) is None {
            let reason = choose|reason: Seq<char>|
                message == #[trigger] missing_text(path, reason) && is_missing_reason(reason);
            assert(message == "missing stream "@ + path + ": "@ + reason);
        } else {
            let reason = choose|reason: Seq<char>|
                message == #[trigger] unreadable_text(path, reason) && (chain_fault(bytes, path)
                    == Some(reason) || is_passing_reason(reason));
            assert(message == "read "@ + path + ": "@ + reason);
        }
    }
}

/// How the reason for a missing stream starts: that nothing is there, or something else, or that the
/// path leads out of the file, of which nothing more is said.
pub proof fn lemma_missing_reasons(reason: Seq<char>)
    requires
        is_missing_reason(reason),
    ensures
        ({
            ||| reason.len() >= 16 && reason.take(16) == "No such stream: "@
            ||| reason.len() >= 14 && reason.take(14) == "Not a stream: "@
            ||| reason == "Invalid path (must be within root)"@
        }),
{
    reveal_strlit("No such stream: ");
    reveal_strlit("Not a stream: ");
    if exists|place: Seq<char>| reason == #[trigger] ("No such stream: "@ + place) {
        assert(reason.take(16) =~= "No such stream: "@);
    } else if exists|place: Seq<char>| reason == #[trigger] ("Not a stream: "@ + place) {
        assert(reason.take(14) =~= "Not a stream: "@);
    }
}

} // verus!
