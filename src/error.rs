//! The ways an operation of the store can fail.
use vstd::prelude::*;

verus! {

/// Why decoding, resolving or reading an object or a reference failed.
#[derive(Debug)]
pub enum GitError {
    /// The header lacks its space or its null byte.
    HeaderFormat,
    /// The length in the header is not a number.
    SizeParse,
    /// The content is not as long as the header says.
    HeaderLength,
    /// The type in the header is none of blob, tree and commit.
    UnknownType,
    /// A tree entry has no space after its mode.
    ReadMode,
    /// A tree entry's mode is not one of the known modes.
    ParseMode,
    /// A tree entry's name is not ended by a null byte.
    ReadName,
    /// A tree entry has fewer than twenty bytes of identifier.
    ReadHash,
    /// Text that should be UTF-8 is not.
    InvalidUtf8,
    /// A commit header line has no space between key and value.
    InvalidLine,
    /// A mode string is not one of the known modes.
    UnknownMode,
    /// No stored object matches a revision.
    ObjectNotFound,
    /// Several stored objects match a revision: all of them.
    Ambiguous(Vec<String>),
    /// The named reference does not exist.
    RefNotFound(String),
    /// Following references came back to the named one.
    RefCycle(String),
    /// Stored bytes are not a compressed stream.
    Corrupt,
    /// An identifier too short to name a shard.
    InvalidHash,
}

/// The strings as `{:?}` shows a list of them.
pub uninterp spec fn debug_list_of(v: Seq<Seq<char>>) -> Seq<char>;

/// Relies on std's `Debug` for `Vec<String>`: the text depends on the
/// strings alone.
#[verifier::external_body]
fn debug_list(v: &Vec<String>) -> (r: String)
    ensures
        r@ == debug_list_of(v@.map_values(|s: String| s@)),
{
    format!("{:?}", v)
}

impl GitError {
    /// A message for people.
    pub fn to_string(&self) -> (r: String)
        ensures
            match self {
                GitError::HeaderFormat => r@ == "Incorrect header format"@,
                GitError::SizeParse => r@ == "Invalid object size"@,
                GitError::HeaderLength => r@ == "Incorrect header length"@,
                GitError::UnknownType => r@ == "Unknown object type"@,
                GitError::ReadMode => r@ == "Failed to read mode"@,
                GitError::ParseMode => r@ == "Failed to parse mode"@,
                GitError::ReadName => r@ == "Failed to read file name"@,
                GitError::ReadHash => r@ == "Failed to read hash"@,
                GitError::InvalidUtf8 => r@ == "invalid utf-8 sequence"@,
                GitError::InvalidLine => r@ == "Invalid line"@,
                GitError::UnknownMode => r@ == "Unknown mode"@,
                GitError::ObjectNotFound => r@ == "Object not found"@,
                GitError::Ambiguous(c) => r@ == "Ambiguous reference: "@ + debug_list_of(
                    c@.map_values(|s: String| s@),
                ),
                GitError::RefNotFound(name) => r@ == "Reference not found: "@ + name@,
                GitError::RefCycle(name) => r@ == "Reference cycle at: "@ + name@,
                GitError::Corrupt => r@ == "corrupt deflate stream"@,
                GitError::InvalidHash => r@ == "Invalid hash"@,
            },
    {
        match self {
            GitError::HeaderFormat => "Incorrect header format".to_owned(),
            GitError::SizeParse => "Invalid object size".to_owned(),
            GitError::HeaderLength => "Incorrect header length".to_owned(),
            GitError::UnknownType => "Unknown object type".to_owned(),
            GitError::ReadMode => "Failed to read mode".to_owned(),
            GitError::ParseMode => "Failed to parse mode".to_owned(),
            GitError::ReadName => "Failed to read file name".to_owned(),
            GitError::ReadHash => "Failed to read hash".to_owned(),
            GitError::InvalidUtf8 => "invalid utf-8 sequence".to_owned(),
            GitError::InvalidLine => "Invalid line".to_owned(),
            GitError::UnknownMode => "Unknown mode".to_owned(),
            GitError::ObjectNotFound => "Object not found".to_owned(),
            GitError::Ambiguous(candidates) => {
                let mut s = "Ambiguous reference: ".to_owned();
                s.append(debug_list(candidates).as_str());
                s
            },
            GitError::RefNotFound(name) => {
                let mut s = "Reference not found: ".to_owned();
                s.append(name.as_str());
                s
            },
            GitError::RefCycle(name) => {
                let mut s = "Reference cycle at: ".to_owned();
                s.append(name.as_str());
                s
            },
            GitError::Corrupt => "corrupt deflate stream".to_owned(),
            GitError::InvalidHash => "Invalid hash".to_owned(),
        }
    }
}

} // verus!
