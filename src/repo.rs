//! Where a repository keeps its store.
use vstd::prelude::*;

use vstd::utf8::*;

use crate::error::GitError;
use crate::object::{ascii_chars, lemma_ascii_encode};
use crate::text::lemma_encode_utf8_concat;

verus! {

/// The store directory of the repository rooted at `root`.
pub open spec fn git_dir_of(root: Seq<char>) -> Seq<char> {
    root + seq!['/', '.', 'g', 'i', 't']
}

/// `/objects/`.
pub open spec fn objects_segment() -> Seq<u8> {
    seq![47u8, 111, 98, 106, 101, 99, 116, 115, 47]
}

/// The path, as UTF-8 bytes, of the file that stores the object whose
/// identifier has the bytes `id`: the first two bytes name the shard
/// directory, the rest the file.
pub open spec fn object_path_of(root: Seq<char>, id: Seq<u8>) -> Seq<u8> {
    encode_utf8(git_dir_of(root)) + objects_segment() + id.subrange(0, 2) + seq![47u8]
        + id.subrange(2, id.len() as int)
}

/// Whether an identifier with the bytes `id` can be split into a shard and
/// a file name: at least two bytes, and a character boundary after byte two.
pub open spec fn splits_at_shard(id: Seq<u8>) -> bool {
    id.len() >= 2 && is_char_boundary(id, 2)
}

/// A repository, by the path of its root directory.
#[derive(Debug)]
pub struct Repo {
    pub root: String,
}

impl Repo {
    pub fn new(root: &str) -> (r: Repo)
        ensures
            r.root@ == root@,
    {
        Repo { root: root.to_owned() }
    }

    /// The path of the store directory.
    pub fn git_dir(&self) -> (r: String)
        ensures
            r@ == git_dir_of(self.root@),
    {
        let mut r = self.root.clone();
        let suffix = "/.git";
        proof {
            reveal_strlit("/.git");
        }
        r.append(suffix);
        assert(r@ =~= git_dir_of(self.root@));
        r
    }

    /// The path of the file that stores the object `id`, or `InvalidHash`
    /// when `id` cannot be split after its second byte.
    pub fn object_path(&self, id: &str) -> (r: Result<String, GitError>)
        ensures
            splits_at_shard(encode_utf8(id@)) ==> (r matches Ok(p) && encode_utf8(p@)
                == object_path_of(self.root@, encode_utf8(id@))),
            !splits_at_shard(encode_utf8(id@)) ==> (r matches Err(GitError::InvalidHash)),
    {
        let b = id.as_bytes();
        if b.len() < 2 || !id.is_char_boundary(2) {
            return Err(GitError::InvalidHash);
        }
        let (shard, rest) = id.split_at(2);
        let mut p = self.git_dir();
        let objects = "/objects/";
        let slash = "/";
        proof {
            reveal_strlit("/objects/");
            reveal_strlit("/");
            lemma_ascii_encode(objects_segment());
            assert(objects@ =~= ascii_chars(objects_segment()));
            lemma_ascii_encode(seq![47u8]);
            assert(slash@ =~= ascii_chars(seq![47u8]));
        }
        let ghost g = p@;
        p.append(objects);
        p.append(shard);
        p.append(slash);
        p.append(rest);
        proof {
            assert(p@ =~= g + objects@ + shard@ + slash@ + rest@);
            lemma_encode_utf8_concat(g, objects@);
            lemma_encode_utf8_concat(g + objects@, shard@);
            lemma_encode_utf8_concat(g + objects@ + shard@, slash@);
            lemma_encode_utf8_concat(g + objects@ + shard@ + slash@, rest@);
            assert(encode_utf8(p@) =~= object_path_of(self.root@, encode_utf8(id@)));
        }
        Ok(p)
    }
}

} // verus!
