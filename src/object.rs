//! The three kinds of object and their canonical encoding:
//! `"<type> <length>\0<content>"`.
use vstd::prelude::*;
use vstd::utf8::*;

use crate::error::GitError;
use crate::text::{bytes_eq, is_ascii_byte};

pub use crate::digest::hash;

verus! {

broadcast use vstd::seq::group_seq_axioms;

/// Opaque file content.
#[derive(Debug)]
pub struct Blob {
    pub content: Vec<u8>,
}

/// A directory listing, in the order in which its entries are stored.
#[derive(Debug)]
pub struct Tree {
    pub files: Vec<File>,
}

/// What a tree entry is.
#[derive(Debug, PartialEq, Eq, Clone, Copy, Structural)]
pub enum Mode {
    NormalFile,
    Executable,
    SymbolicLink,
    Tree,
    Submodule,
}

/// One entry of a tree.
#[derive(Debug, PartialEq)]
pub struct File {
    pub mode: Mode,
    pub name: String,
    /// The entry's identifier, as forty lowercase hexadecimal digits.
    pub hash: String,
}

/// A commit with at most one parent; an empty field is an absent header.
#[derive(Debug)]
pub struct Commit {
    pub tree: String,
    pub parent: String,
    pub author: String,
    pub committer: String,
    pub encoding: String,
    pub message: String,
}

#[derive(Debug)]
pub enum Object {
    Blob(Blob),
    Tree(Tree),
    Commit(Commit),
}

/// A tree entry as values: the name as its UTF-8 bytes, the identifier as text.
pub struct FileView {
    pub mode: Mode,
    pub name: Seq<u8>,
    pub hash: Seq<char>,
}

/// A commit as values: each field as its UTF-8 bytes.
pub struct CommitView {
    pub tree: Seq<u8>,
    pub parent: Seq<u8>,
    pub author: Seq<u8>,
    pub committer: Seq<u8>,
    pub encoding: Seq<u8>,
    pub message: Seq<u8>,
}

pub enum ObjectView {
    Blob(Seq<u8>),
    Tree(Seq<FileView>),
    Commit(CommitView),
}

impl View for File {
    type V = FileView;

    open spec fn view(&self) -> FileView {
        FileView { mode: self.mode, name: encode_utf8(self.name@), hash: self.hash@ }
    }
}

impl View for Commit {
    type V = CommitView;

    open spec fn view(&self) -> CommitView {
        CommitView {
            tree: encode_utf8(self.tree@),
            parent: encode_utf8(self.parent@),
            author: encode_utf8(self.author@),
            committer: encode_utf8(self.committer@),
            encoding: encode_utf8(self.encoding@),
            message: encode_utf8(self.message@),
        }
    }
}

pub open spec fn files_view(files: Seq<File>) -> Seq<FileView> {
    files.map_values(|f: File| f@)
}

impl View for Object {
    type V = ObjectView;

    open spec fn view(&self) -> ObjectView {
        match self {
            Object::Blob(b) => ObjectView::Blob(b.content@),
            Object::Tree(t) => ObjectView::Tree(files_view(t.files@)),
            Object::Commit(c) => ObjectView::Commit(c@),
        }
    }
}

/// The mode as stored in a tree entry.
pub open spec fn mode_bytes(m: Mode) -> Seq<u8> {
    match m {
        Mode::NormalFile => seq![49u8, 48, 48, 54, 52, 52],
        Mode::Executable => seq![49u8, 48, 48, 55, 53, 53],
        Mode::SymbolicLink => seq![49u8, 50, 48, 48, 48, 48],
        Mode::Tree => seq![52u8, 48, 48, 48, 48],
        Mode::Submodule => seq![49u8, 54, 48, 48, 48, 48],
    }
}

/// The mode that `s` spells, if any.
pub open spec fn mode_of(s: Seq<u8>) -> Option<Mode> {
    if s == mode_bytes(Mode::NormalFile) {
        Some(Mode::NormalFile)
    } else if s == mode_bytes(Mode::Executable) {
        Some(Mode::Executable)
    } else if s == mode_bytes(Mode::SymbolicLink) {
        Some(Mode::SymbolicLink)
    } else if s == mode_bytes(Mode::Tree) {
        Some(Mode::Tree)
    } else if s == mode_bytes(Mode::Submodule) {
        Some(Mode::Submodule)
    } else {
        None
    }
}

/// The label that a listing shows for an entry of mode `m`.
pub open spec fn type_bytes(m: Mode) -> Seq<u8> {
    match m {
        Mode::NormalFile => seq![98u8, 108, 111, 98],
        Mode::Executable => seq![98u8, 108, 111, 98],
        Mode::SymbolicLink => seq![115u8, 121, 109, 108, 105, 110, 107],
        Mode::Tree => seq![116u8, 114, 101, 101],
        Mode::Submodule => seq![115u8, 117, 98, 109, 111, 100, 117, 108, 101],
    }
}

/// Every byte is ASCII.
pub open spec fn is_ascii_bytes(s: Seq<u8>) -> bool {
    forall|i: int| 0 <= i < s.len() ==> is_ascii_byte(#[trigger] s[i])
}

/// The characters of ASCII bytes.
pub open spec fn ascii_chars(s: Seq<u8>) -> Seq<char> {
    s.map_values(|b: u8| b as char)
}

/// ASCII text is its own UTF-8 encoding.
pub proof fn lemma_ascii_encode(s: Seq<u8>)
    requires
        is_ascii_bytes(s),
    ensures
        encode_utf8(ascii_chars(s)) == s,
    decreases s.len(),
{
    if s.len() > 0 {
        let t = s.drop_first();
        assert(is_ascii_bytes(t)) by {
            assert forall|i: int| 0 <= i < t.len() implies is_ascii_byte(#[trigger] t[i]) by {
                assert(t[i] == s[i + 1]);
            }
        }
        lemma_ascii_encode(t);
        assert(ascii_chars(s).drop_first() =~= ascii_chars(t));
        assert(is_ascii_byte(s[0]));
        let x: u32 = s[0] as u32;
        assert(x & 0x7F == x) by (bit_vector)
            requires
                x < 0x80,
        ;
        assert(((s[0] as char) as u32) == x);
        assert(encode_scalar(x) =~= seq![s[0]]);
        assert(encode_utf8(ascii_chars(s)) =~= s);
    }
}

impl Blob {
    pub fn new(content: Vec<u8>) -> (r: Blob)
        ensures
            r.content@ == content@,
    {
        Blob { content }
    }

}

impl Tree {
    pub fn new(files: Vec<File>) -> (r: Tree)
        ensures
            r.files@ == files@,
    {
        Tree { files }
    }
}

impl Mode {
    /// The stored spelling of this mode.
    pub fn bytes(&self) -> (r: Vec<u8>)
        ensures
            r@ == mode_bytes(*self),
    {
        let mut r: Vec<u8> = Vec::new();
        match self {
            Mode::NormalFile => {
                r.push(49);
                r.push(48);
                r.push(48);
                r.push(54);
                r.push(52);
                r.push(52);
            },
            Mode::Executable => {
                r.push(49);
                r.push(48);
                r.push(48);
                r.push(55);
                r.push(53);
                r.push(53);
            },
            Mode::SymbolicLink => {
                r.push(49);
                r.push(50);
                r.push(48);
                r.push(48);
                r.push(48);
                r.push(48);
            },
            Mode::Tree => {
                r.push(52);
                r.push(48);
                r.push(48);
                r.push(48);
                r.push(48);
            },
            Mode::Submodule => {
                r.push(49);
                r.push(54);
                r.push(48);
                r.push(48);
                r.push(48);
                r.push(48);
            },
        }
        assert(r@ =~= mode_bytes(*self));
        r
    }

    /// The mode spelled by the bytes `s`, if any.
    pub fn from_mode_bytes(s: &[u8]) -> (r: Option<Mode>)
        ensures
            r == mode_of(s@),
    {
        if bytes_eq(s, Mode::NormalFile.bytes().as_slice()) {
            Some(Mode::NormalFile)
        } else if bytes_eq(s, Mode::Executable.bytes().as_slice()) {
            Some(Mode::Executable)
        } else if bytes_eq(s, Mode::SymbolicLink.bytes().as_slice()) {
            Some(Mode::SymbolicLink)
        } else if bytes_eq(s, Mode::Tree.bytes().as_slice()) {
            Some(Mode::Tree)
        } else if bytes_eq(s, Mode::Submodule.bytes().as_slice()) {
            Some(Mode::Submodule)
        } else {
            None
        }
    }

    /// The mode spelled by `mode`, or `UnknownMode`.
    pub fn from_mode_str(mode: &str) -> (r: Result<Mode, GitError>)
        ensures
            mode_of(encode_utf8(mode@)) matches Some(m) ==> r == Ok::<Mode, GitError>(m),
            mode_of(encode_utf8(mode@)) is None ==> r matches Err(GitError::UnknownMode),
    {
        match Mode::from_mode_bytes(mode.as_bytes()) {
            Some(m) => Ok(m),
            None => Err(GitError::UnknownMode),
        }
    }

    /// The stored spelling of this mode, as text.
    pub fn mode_str(&self) -> (r: &'static str)
        ensures
            encode_utf8(r@) == mode_bytes(*self),
    {
        match self {
            Mode::NormalFile => {
                let r = "100644";
                proof {
                    reveal_strlit("100644");
                    lemma_ascii_encode(mode_bytes(*self));
                    assert(r@ =~= ascii_chars(mode_bytes(*self)));
                }
                r
            },
            Mode::Executable => {
                let r = "100755";
                proof {
                    reveal_strlit("100755");
                    lemma_ascii_encode(mode_bytes(*self));
                    assert(r@ =~= ascii_chars(mode_bytes(*self)));
                }
                r
            },
            Mode::SymbolicLink => {
                let r = "120000";
                proof {
                    reveal_strlit("120000");
                    lemma_ascii_encode(mode_bytes(*self));
                    assert(r@ =~= ascii_chars(mode_bytes(*self)));
                }
                r
            },
            Mode::Tree => {
                let r = "40000";
                proof {
                    reveal_strlit("40000");
                    lemma_ascii_encode(mode_bytes(*self));
                    assert(r@ =~= ascii_chars(mode_bytes(*self)));
                }
                r
            },
            Mode::Submodule => {
                let r = "160000";
                proof {
                    reveal_strlit("160000");
                    lemma_ascii_encode(mode_bytes(*self));
                    assert(r@ =~= ascii_chars(mode_bytes(*self)));
                }
                r
            },
        }
    }

    /// The label that a listing shows for this mode, as bytes.
    pub fn type_label(&self) -> (r: Vec<u8>)
        ensures
            r@ == type_bytes(*self),
    {
        let mut r: Vec<u8> = Vec::new();
        match self {
            Mode::NormalFile | Mode::Executable => {
                r.push(98);
                r.push(108);
                r.push(111);
                r.push(98);
            },
            Mode::SymbolicLink => {
                r.push(115);
                r.push(121);
                r.push(109);
                r.push(108);
                r.push(105);
                r.push(110);
                r.push(107);
            },
            Mode::Tree => {
                r.push(116);
                r.push(114);
                r.push(101);
                r.push(101);
            },
            Mode::Submodule => {
                r.push(115);
                r.push(117);
                r.push(98);
                r.push(109);
                r.push(111);
                r.push(100);
                r.push(117);
                r.push(108);
                r.push(101);
            },
        }
        assert(r@ =~= type_bytes(*self));
        r
    }
}

impl File {
    /// The label that a listing shows for this entry.
    pub fn type_str(&self) -> (r: &'static str)
        ensures
            encode_utf8(r@) == type_bytes(self.mode),
    {
        match self.mode {
            Mode::NormalFile | Mode::Executable => {
                let r = "blob";
                proof {
                    reveal_strlit("blob");
                    lemma_ascii_encode(type_bytes(self.mode));
                    assert(r@ =~= ascii_chars(type_bytes(self.mode)));
                }
                r
            },
            Mode::SymbolicLink => {
                let r = "symlink";
                proof {
                    reveal_strlit("symlink");
                    lemma_ascii_encode(type_bytes(self.mode));
                    assert(r@ =~= ascii_chars(type_bytes(self.mode)));
                }
                r
            },
            Mode::Tree => {
                let r = "tree";
                proof {
                    reveal_strlit("tree");
                    lemma_ascii_encode(type_bytes(self.mode));
                    assert(r@ =~= ascii_chars(type_bytes(self.mode)));
                }
                r
            },
            Mode::Submodule => {
                let r = "submodule";
                proof {
                    reveal_strlit("submodule");
                    lemma_ascii_encode(type_bytes(self.mode));
                    assert(r@ =~= ascii_chars(type_bytes(self.mode)));
                }
                r
            },
        }
    }
}

} // verus!
