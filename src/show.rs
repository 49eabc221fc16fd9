//! What the commands print: listings of objects and history lines.
use vstd::prelude::*;
use vstd::utf8::*;

use crate::codec::{next_line, split_lines};
use crate::error::GitError;
use crate::object::{Commit, CommitView, File, FileView, Object, ObjectView, files_view, mode_bytes, type_bytes};
use crate::text::{bytes_of, push_bytes, push_str};

verus! {

broadcast use vstd::seq::group_seq_axioms;

/// `n` spaces.
pub open spec fn spaces(n: int) -> Seq<u8> {
    Seq::new(if n > 0 { n as nat } else { 0 }, |i: int| 32u8)
}

/// One line of a tree listing: the mode right-aligned in six columns, the
/// type label right-aligned in four, the identifier left-aligned in 43, then
/// the name.
pub open spec fn tree_line(f: FileView) -> Seq<u8> {
    spaces(6 - mode_bytes(f.mode).len()) + mode_bytes(f.mode) + seq![32u8] + spaces(
        4 - type_bytes(f.mode).len(),
    ) + type_bytes(f.mode) + seq![32u8] + encode_utf8(f.hash) + spaces(43 - f.hash.len())
        + seq![32u8] + f.name + seq![10u8]
}

pub open spec fn tree_lines(fs: Seq<FileView>) -> Seq<u8>
    decreases fs.len(),
{
    if fs.len() == 0 {
        seq![]
    } else {
        tree_lines(fs.drop_last()) + tree_line(fs.last())
    }
}

/// `tree: `, `parent: `, `author: `, `committer: `.
pub open spec fn label_tree() -> Seq<u8> {
    seq![116u8, 114, 101, 101, 58, 32]
}

pub open spec fn label_parent() -> Seq<u8> {
    seq![112u8, 97, 114, 101, 110, 116, 58, 32]
}

pub open spec fn label_author() -> Seq<u8> {
    seq![97u8, 117, 116, 104, 111, 114, 58, 32]
}

pub open spec fn label_committer() -> Seq<u8> {
    seq![99u8, 111, 109, 109, 105, 116, 116, 101, 114, 58, 32]
}

pub open spec fn commit_text(c: CommitView) -> Seq<u8> {
    label_tree() + c.tree + seq![10u8] + label_parent() + c.parent + seq![10u8] + label_author()
        + c.author + seq![10u8] + label_committer() + c.committer + seq![10u8] + seq![10u8]
        + c.message + seq![10u8]
}

/// What printing an object shows, or `None` for a blob that is not text.
pub open spec fn cat_text(o: ObjectView) -> Option<Seq<u8>> {
    match o {
        ObjectView::Blob(b) => if valid_utf8(b) {
            Some(b + seq![10u8])
        } else {
            None
        },
        ObjectView::Tree(fs) => Some(tree_lines(fs)),
        ObjectView::Commit(c) => Some(commit_text(c)),
    }
}

/// Appends `n` spaces.
fn push_spaces(out: &mut Vec<u8>, n: usize)
    ensures
        final(out)@ == old(out)@ + spaces(n as int),
{
    let ghost start = out@;
    let mut i: usize = 0;
    while i < n
        invariant
            i <= n,
            out@ == start + spaces(i as int),
        decreases n - i,
    {
        out.push(32);
        i += 1;
        assert(out@ =~= start + spaces(i as int));
    }
}

#[verifier::rlimit(40)]
fn push_tree_line(out: &mut Vec<u8>, f: &File)
    ensures
        final(out)@ == old(out)@ + tree_line(f@),
{
    let mode = f.mode.bytes();
    let label = f.mode.type_label();
    let width = f.hash.as_str().unicode_len();
    let mut line: Vec<u8> = Vec::new();
    push_spaces(&mut line, 6 - mode.len());
    push_bytes(&mut line, mode.as_slice());
    line.push(32);
    let ghost a = line@;
    push_spaces(&mut line, if label.len() < 4 { 4 - label.len() } else { 0 });
    assert(spaces(4 - type_bytes(f.mode).len()) =~= spaces(
        if label@.len() < 4 { 4 - label@.len() } else { 0 },
    ));
    push_bytes(&mut line, label.as_slice());
    line.push(32);
    let ghost b = line@;
    push_str(&mut line, f.hash.as_str());
    push_spaces(&mut line, if width < 43 { 43 - width } else { 0 });
    assert(spaces(43 - f.hash@.len()) =~= spaces(if width < 43 { 43 - width } else { 0 }));
    line.push(32);
    let ghost c = line@;
    push_str(&mut line, f.name.as_str());
    line.push(10);
    assert(a =~= spaces(6 - mode_bytes(f.mode).len()) + mode_bytes(f.mode) + seq![32u8]);
    assert(b =~= a + spaces(4 - type_bytes(f.mode).len()) + type_bytes(f.mode) + seq![32u8]);
    assert(c =~= b + encode_utf8(f.hash@) + spaces(43 - f.hash@.len()) + seq![32u8]);
    assert(line@ =~= c + encode_utf8(f.name@) + seq![10u8]);
    assert(line@ =~= tree_line(f@));
    push_bytes(out, line.as_slice());
}

/// Appends to `stdout` what printing `object` shows; a blob that is not
/// UTF-8 text is refused.
#[verifier::rlimit(40)]
pub fn cat_file(object: &Object, stdout: &mut Vec<u8>) -> (r: Result<(), GitError>)
    ensures
        cat_text(object@) is Some ==> (r is Ok && final(stdout)@ == old(stdout)@ + cat_text(
            object@,
        )->0),
        cat_text(object@) is None ==> (r matches Err(GitError::InvalidUtf8) && final(stdout)@
            == old(stdout)@),
{
    match object {
        Object::Blob(blob) => {
            match crate::text::text_from_utf8(blob.content.as_slice()) {
                Some(_) => {
                    push_bytes(stdout, blob.content.as_slice());
                    stdout.push(10);
                    Ok(())
                },
                None => Err(GitError::InvalidUtf8),
            }
        },
        Object::Tree(tree) => {
            let ghost start = stdout@;
            let mut i: usize = 0;
            while i < tree.files.len()
                invariant
                    i <= tree.files@.len(),
                    stdout@ == start + tree_lines(files_view(tree.files@.subrange(0, i as int))),
                decreases tree.files@.len() - i,
            {
                let ghost pre = files_view(tree.files@.subrange(0, i as int));
                push_tree_line(stdout, &tree.files[i]);
                proof {
                    let next = files_view(tree.files@.subrange(0, i + 1));
                    assert(next.drop_last() =~= pre);
                    assert(next.last() == tree.files@[i as int]@);
                }
                i += 1;
            }
            assert(tree.files@.subrange(0, tree.files@.len() as int) =~= tree.files@);
            Ok(())
        },
        Object::Commit(commit) => {
            let ghost start = stdout@;
            let l_tree = bytes_of([116u8, 114, 101, 101, 58, 32]);
            let l_parent = bytes_of([112u8, 97, 114, 101, 110, 116, 58, 32]);
            let l_author = bytes_of([97u8, 117, 116, 104, 111, 114, 58, 32]);
            let l_committer = bytes_of([99u8, 111, 109, 109, 105, 116, 116, 101, 114, 58, 32]);
            push_bytes(stdout, l_tree.as_slice());
            push_str(stdout, commit.tree.as_str());
            stdout.push(10);
            push_bytes(stdout, l_parent.as_slice());
            push_str(stdout, commit.parent.as_str());
            stdout.push(10);
            push_bytes(stdout, l_author.as_slice());
            push_str(stdout, commit.author.as_str());
            stdout.push(10);
            push_bytes(stdout, l_committer.as_slice());
            push_str(stdout, commit.committer.as_str());
            stdout.push(10);
            stdout.push(10);
            push_str(stdout, commit.message.as_str());
            stdout.push(10);
            assert(stdout@ =~= start + commit_text(commit@));
            Ok(())
        },
    }
}

/// The first line of a message, or nothing for an empty message.
pub open spec fn first_line(m: Seq<u8>) -> Seq<u8> {
    if split_lines(m).len() > 0 {
        split_lines(m)[0]
    } else {
        seq![]
    }
}

/// The first six characters of an identifier, or all of a shorter one.
pub open spec fn short_rev(rev: Seq<char>) -> Seq<char> {
    if rev.len() > 6 {
        rev.subrange(0, 6)
    } else {
        rev
    }
}

/// A history line: `<first six digits of the identifier> - <first line of
/// message> - "<committer>"`.
pub open spec fn log_line(rev: Seq<char>, c: CommitView) -> Seq<u8> {
    encode_utf8(short_rev(rev)) + seq![32u8, 45, 32] + first_line(c.message) + seq![32u8, 45, 32, 34]
        + c.committer + seq![34u8, 10]
}

/// Appends the history line of `commit`, stored under the identifier `rev`.
pub fn push_log_line(out: &mut Vec<u8>, rev: &str, commit: &Commit)
    ensures
        final(out)@ == old(out)@ + log_line(rev@, commit@),
{
    let ghost start = out@;
    let n = rev.unicode_len();
    let short = if n > 6 {
        rev.substring_char(0, 6)
    } else {
        rev
    };
    push_str(out, short);
    let dash = bytes_of([32u8, 45, 32]);
    push_bytes(out, dash.as_slice());
    let m = commit.message.as_str().as_bytes();
    let ghost mid = out@;
    if m.len() > 0 {
        let (end, _) = next_line(m, 0);
        assert(m@.subrange(0, m@.len() as int) =~= m@);
        push_bytes(out, &m[0..end]);
    }
    assert(out@ =~= mid + first_line(commit@.message));
    let open_quote = bytes_of([32u8, 45, 32, 34]);
    push_bytes(out, open_quote.as_slice());
    push_str(out, commit.committer.as_str());
    let close_quote = bytes_of([34u8, 10]);
    push_bytes(out, close_quote.as_slice());
    assert(out@ =~= start + log_line(rev@, commit@));
}

} // verus!
