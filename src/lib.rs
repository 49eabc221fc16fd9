//! A content-addressed object store in the manner of git's loose objects:
//! the canonical encoding of blobs, trees and commits, their identifiers,
//! revision and reference resolution, and the history walk.
use vstd::prelude::*;
use vstd::utf8::*;

pub mod codec;
pub mod digest;
pub mod error;
pub mod laws;
pub mod object;
pub mod refs;
pub mod repo;
pub mod show;
pub mod store;
pub mod text;

pub use refs::show_ref;
pub use show::cat_file;

use codec::{frame, frame_bytes, tag_blob};
use digest::hash_of;
use object::{Object, ObjectView};
use repo::{Repo, git_dir_of};
use show::{log_line, push_log_line};
use store::{deflate, zlib_of};
use text::{bytes_of, push_str};

verus! {

broadcast use vstd::seq::group_seq_axioms;

/// Whether `hash_object` only computes the identifier or also stores the blob.
pub enum HashObjectMode<'a> {
    HashOnly,
    Write(&'a Repo),
}

/// A file to write into the store: its directory, its path and its bytes.
#[derive(Debug)]
pub struct ObjectWrite {
    pub dir: String,
    pub path: String,
    pub data: Vec<u8>,
}

/// The identifier of a blob with `content`.
pub open spec fn blob_id(content: Seq<u8>) -> Seq<char> {
    hash_of(frame(tag_blob(), content))
}

/// The directory that holds the shards of the store of the repository at `root`.
pub open spec fn objects_dir_of(root: Seq<char>) -> Seq<char> {
    git_dir_of(root) + seq!['/', 'o', 'b', 'j', 'e', 'c', 't', 's', '/']
}

/// Prints the identifier of a blob with `content`; in `Write` mode also says
/// what to store for it: its compressed canonical bytes, under the shard named
/// by the identifier's first two digits, in a file named by the rest.
pub fn hash_object(mode: HashObjectMode, content: &[u8], stdout: &mut Vec<u8>) -> (r: Option<
    ObjectWrite,
>)
    ensures
        final(stdout)@ == old(stdout)@ + encode_utf8(blob_id(content@)) + seq![10u8],
        mode is HashOnly ==> r is None,
        mode matches HashObjectMode::Write(repo) ==> (r is Some && r->0.data@ == zlib_of(
            frame(tag_blob(), content@),
        ) && r->0.dir@ == objects_dir_of(repo.root@) + blob_id(content@).subrange(0, 2)
            && r->0.path@ == r->0.dir@ + seq!['/'] + blob_id(content@).subrange(2, 40)),
{
    let word = bytes_of([98u8, 108, 111, 98]);
    assert(word@ =~= tag_blob());
    let data = frame_bytes(word.as_slice(), content);
    let id = digest::hash(data.as_slice());
    push_str(stdout, id.as_str());
    stdout.push(10);
    match mode {
        HashObjectMode::HashOnly => None,
        HashObjectMode::Write(repo) => {
            let mut dir = repo.git_dir();
            let objects = "/objects/";
            let slash = "/";
            proof {
                reveal_strlit("/objects/");
                reveal_strlit("/");
            }
            dir.append(objects);
            dir.append(id.as_str().substring_char(0, 2));
            let mut path = dir.clone();
            path.append(slash);
            path.append(id.as_str().substring_char(2, 40));
            let compressed = deflate(data.as_slice());
            assert(dir@ =~= objects_dir_of(repo.root@) + blob_id(content@).subrange(0, 2));
            assert(path@ =~= dir@ + seq!['/'] + blob_id(content@).subrange(2, 40));
            Some(ObjectWrite { dir, path, data: compressed })
        },
    }
}

/// A walk down a history: the revision to resolve next, if any.
pub struct LogWalk {
    next: Option<String>,
}

impl LogWalk {
    pub closed spec fn next(&self) -> Option<Seq<char>> {
        match self.next {
            Some(s) => Some(s@),
            None => None,
        }
    }

    /// A walk that starts at `rev`.
    pub fn new(rev: &str) -> (r: LogWalk)
        ensures
            r.next() == Some(rev@),
    {
        LogWalk { next: Some(rev.to_owned()) }
    }

    /// The revision to resolve next, or `None` when the walk is over.
    pub fn next_rev(&self) -> (r: Option<&str>)
        ensures
            r is None <==> self.next() is None,
            r matches Some(s) ==> self.next() == Some(s@),
    {
        match &self.next {
            Some(s) => Some(s.as_str()),
            None => None,
        }
    }
}

/// One step of the history walk, given the identifier `id` that the walk's
/// next revision resolved to and the object stored under it: a commit prints
/// its line, which starts with the identifier's first six digits, and moves
/// the walk to its parent (ending it at a root commit); anything else ends
/// the walk quietly.
pub fn log(walk: &mut LogWalk, id: &str, object: &Object, stdout: &mut Vec<u8>)
    requires
        old(walk).next() is Some,
    ensures
        match object@ {
            ObjectView::Commit(c) => {
                &&& final(stdout)@ == old(stdout)@ + log_line(id@, c)
                &&& final(walk).next() == if c.parent.len() == 0 {
                    None::<Seq<char>>
                } else {
                    Some(decode_utf8(c.parent))
                }
            },
            _ => final(stdout)@ == old(stdout)@ && final(walk).next() is None,
        },
{
    match object {
        Object::Commit(commit) => {
            push_log_line(stdout, id, commit);
            proof {
                encode_utf8_decode_utf8(commit.parent@);
            }
            if commit.parent.as_str().is_empty() {
                walk.next = None;
            } else {
                walk.next = Some(commit.parent.clone());
            }
        },
        _ => {
            walk.next = None;
        },
    }
}

} // verus!
