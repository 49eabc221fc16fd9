//! Objects as canonical bytes: the encoding, and decoding with the errors
//! it reports.
use vstd::prelude::*;
use vstd::utf8::*;

use crate::digest::{from_hex, hash, hash_of, hex_chars, is_lower_hex, to_hex, unhex};
use crate::error::GitError;
use crate::object::{
    Blob, Commit, CommitView, File, FileView, Mode, Object, ObjectView, Tree, files_view, mode_bytes,
    mode_of,
};
use crate::text::{
    bytes_eq, bytes_of, decimal, find_byte, index_of, is_ascii_byte, lemma_utf8_split, parse_size,
    parse_size_bytes, push_bytes, push_decimal, push_str, text_from_utf8, text_of,
};

verus! {

broadcast use vstd::seq::group_seq_axioms;

pub open spec fn tag_blob() -> Seq<u8> {
    seq![98u8, 108, 111, 98]
}

pub open spec fn tag_tree() -> Seq<u8> {
    seq![116u8, 114, 101, 101]
}

pub open spec fn tag_commit() -> Seq<u8> {
    seq![99u8, 111, 109, 109, 105, 116]
}

pub open spec fn key_parent() -> Seq<u8> {
    seq![112u8, 97, 114, 101, 110, 116]
}

pub open spec fn key_author() -> Seq<u8> {
    seq![97u8, 117, 116, 104, 111, 114]
}

pub open spec fn key_committer() -> Seq<u8> {
    seq![99u8, 111, 109, 109, 105, 116, 116, 101, 114]
}

pub open spec fn key_encoding() -> Seq<u8> {
    seq![101u8, 110, 99, 111, 100, 105, 110, 103]
}

/// The header of canonical bytes: the type token, the declared length and the
/// position of the null byte that ends the header.
pub open spec fn header_of(s: Seq<u8>) -> Result<(Seq<u8>, usize, int), GitError> {
    let sp = index_of(s, 32) as int;
    let nul = index_of(s, 0) as int;
    if sp >= s.len() || nul >= s.len() || nul < sp {
        Err(GitError::HeaderFormat)
    } else if !valid_utf8(s.subrange(0, sp)) {
        Err(GitError::InvalidUtf8)
    } else {
        match parse_size(s.subrange(sp + 1, nul)) {
            Some(n) => Ok((s.subrange(0, sp), n, nul)),
            None => Err(GitError::SizeParse),
        }
    }
}

/// `fs` followed by the entries of `r`, or the error of `r`.
pub open spec fn prepend(fs: Seq<FileView>, r: Result<Seq<FileView>, GitError>) -> Result<
    Seq<FileView>,
    GitError,
> {
    match r {
        Ok(x) => Ok(fs + x),
        Err(e) => Err(e),
    }
}

/// The entries of tree content: `<mode> <name>\0<20 bytes>` each.
pub open spec fn parse_entries(c: Seq<u8>) -> Result<Seq<FileView>, GitError>
    decreases c.len(),
{
    if c.len() == 0 {
        Ok(seq![])
    } else {
        let sp = index_of(c, 32) as int;
        if sp >= c.len() {
            Err(GitError::ReadMode)
        } else if mode_of(c.subrange(0, sp)) is None {
            Err(GitError::ParseMode)
        } else {
            let nul = index_of(c.subrange(sp + 1, c.len() as int), 0) as int + sp + 1;
            if nul >= c.len() {
                Err(GitError::ReadName)
            } else if !valid_utf8(c.subrange(sp + 1, nul)) {
                Err(GitError::InvalidUtf8)
            } else if c.len() < nul + 21 {
                Err(GitError::ReadHash)
            } else {
                let entry = FileView {
                    mode: mode_of(c.subrange(0, sp))->0,
                    name: c.subrange(sp + 1, nul),
                    hash: hex_chars(c.subrange(nul + 1, nul + 21)),
                };
                prepend(seq![entry], parse_entries(c.subrange(nul + 21, c.len() as int)))
            }
        }
    }
}

/// A line without the carriage return that ended it.
pub open spec fn strip_cr(l: Seq<u8>) -> Seq<u8> {
    if l.len() > 0 && l.last() == 13 {
        l.drop_last()
    } else {
        l
    }
}

/// The lines of text as `str::lines` gives them: split after each line feed,
/// which is dropped together with a carriage return just before it; a final
/// line feed starts no further line.
pub open spec fn split_lines(c: Seq<u8>) -> Seq<Seq<u8>>
    decreases c.len(),
{
    if c.len() == 0 {
        seq![]
    } else {
        let nl = index_of(c, 10) as int;
        if nl >= c.len() {
            seq![c]
        } else {
            seq![strip_cr(c.subrange(0, nl))] + split_lines(c.subrange(nl + 1, c.len() as int))
        }
    }
}

/// Lines joined with line feeds between them.
pub open spec fn join_lines(ls: Seq<Seq<u8>>) -> Seq<u8>
    decreases ls.len(),
{
    if ls.len() == 0 {
        seq![]
    } else if ls.len() == 1 {
        ls[0]
    } else {
        ls[0] + seq![10u8] + join_lines(ls.drop_first())
    }
}

/// `c` with the header `key value` applied; unknown keys change nothing.
pub open spec fn with_field(c: CommitView, key: Seq<u8>, value: Seq<u8>) -> CommitView {
    if key == tag_tree() {
        CommitView { tree: value, ..c }
    } else if key == key_parent() {
        CommitView { parent: value, ..c }
    } else if key == key_author() {
        CommitView { author: value, ..c }
    } else if key == key_committer() {
        CommitView { committer: value, ..c }
    } else if key == key_encoding() {
        CommitView { encoding: value, ..c }
    } else {
        c
    }
}

/// Header lines up to the first empty line, then the message.
pub open spec fn parse_commit_lines(ls: Seq<Seq<u8>>, acc: CommitView) -> Result<
    CommitView,
    GitError,
>
    decreases ls.len(),
{
    if ls.len() == 0 {
        Ok(acc)
    } else if ls[0].len() == 0 {
        Ok(CommitView { message: join_lines(ls.drop_first()), ..acc })
    } else {
        let sp = index_of(ls[0], 32) as int;
        if sp >= ls[0].len() {
            Err(GitError::InvalidLine)
        } else {
            parse_commit_lines(
                ls.drop_first(),
                with_field(acc, ls[0].subrange(0, sp), ls[0].subrange(sp + 1, ls[0].len() as int)),
            )
        }
    }
}

pub open spec fn empty_commit() -> CommitView {
    CommitView {
        tree: seq![],
        parent: seq![],
        author: seq![],
        committer: seq![],
        encoding: seq![],
        message: seq![],
    }
}

/// The commit that content `c` spells.
pub open spec fn decode_commit(c: Seq<u8>) -> Result<CommitView, GitError> {
    if !valid_utf8(c) {
        Err(GitError::InvalidUtf8)
    } else {
        parse_commit_lines(split_lines(c), empty_commit())
    }
}

/// The object that canonical bytes `s` encode.
pub open spec fn decode(s: Seq<u8>) -> Result<ObjectView, GitError> {
    match header_of(s) {
        Err(e) => Err(e),
        Ok((t, n, nul)) => {
            let content = s.subrange(nul + 1, s.len() as int);
            if content.len() != n {
                Err(GitError::HeaderLength)
            } else if t == tag_blob() {
                Ok(ObjectView::Blob(content))
            } else if t == tag_tree() {
                match parse_entries(content) {
                    Ok(fs) => Ok(ObjectView::Tree(fs)),
                    Err(e) => Err(e),
                }
            } else if t == tag_commit() {
                match decode_commit(content) {
                    Ok(c) => Ok(ObjectView::Commit(c)),
                    Err(e) => Err(e),
                }
            } else {
                Err(GitError::UnknownType)
            }
        },
    }
}

/// Canonical bytes of an object of type `tag` with `content`.
pub open spec fn frame(tag: Seq<u8>, content: Seq<u8>) -> Seq<u8> {
    tag + seq![32u8] + decimal(content.len()) + seq![0u8] + content
}

/// Canonical bytes of an object of type `tag` with `content`.
pub fn frame_bytes(tag: &[u8], content: &[u8]) -> (r: Vec<u8>)
    ensures
        r@ == frame(tag@, content@),
{
    let mut r: Vec<u8> = Vec::new();
    push_bytes(&mut r, tag);
    r.push(32);
    push_decimal(&mut r, content.len());
    r.push(0);
    push_bytes(&mut r, content);
    assert(r@ =~= frame(tag@, content@));
    r
}

/// A tree entry as stored: mode, space, name, null byte, raw identifier.
pub open spec fn entry_bytes(f: FileView) -> Seq<u8> {
    mode_bytes(f.mode) + seq![32u8] + f.name + seq![0u8] + unhex(f.hash)
}

pub open spec fn entries_bytes(fs: Seq<FileView>) -> Seq<u8>
    decreases fs.len(),
{
    if fs.len() == 0 {
        seq![]
    } else {
        entry_bytes(fs[0]) + entries_bytes(fs.drop_first())
    }
}

/// A header line `key value`, present only for a non-empty value.
pub open spec fn header_line(key: Seq<u8>, value: Seq<u8>) -> Seq<u8> {
    if value.len() == 0 {
        seq![]
    } else {
        key + seq![32u8] + value + seq![10u8]
    }
}

/// Commit content: the present headers, an empty line, the message.
pub open spec fn commit_bytes(c: CommitView) -> Seq<u8> {
    header_line(tag_tree(), c.tree) + header_line(key_parent(), c.parent) + header_line(
        key_author(),
        c.author,
    ) + header_line(key_committer(), c.committer) + header_line(key_encoding(), c.encoding)
        + seq![10u8] + c.message
}

/// The content of an object, without its header.
pub open spec fn content_of(o: ObjectView) -> Seq<u8> {
    match o {
        ObjectView::Blob(b) => b,
        ObjectView::Tree(fs) => entries_bytes(fs),
        ObjectView::Commit(c) => commit_bytes(c),
    }
}

pub open spec fn tag_of(o: ObjectView) -> Seq<u8> {
    match o {
        ObjectView::Blob(_) => tag_blob(),
        ObjectView::Tree(_) => tag_tree(),
        ObjectView::Commit(_) => tag_commit(),
    }
}

/// The canonical bytes of an object.
pub open spec fn encode(o: ObjectView) -> Seq<u8> {
    frame(tag_of(o), content_of(o))
}

/// Every entry's identifier is hexadecimal text, so that it can be stored raw.
pub open spec fn hashes_are_hex(o: ObjectView) -> bool {
    o matches ObjectView::Tree(fs) ==> forall|i: int|
        0 <= i < fs.len() ==> is_lower_hex(#[trigger] fs[i].hash)
}

/// The values of a decoding result.
pub open spec fn result_view(r: Result<Object, GitError>) -> Result<ObjectView, GitError> {
    match r {
        Ok(o) => Ok(o@),
        Err(e) => Err(e),
    }
}

impl Blob {
    /// The identifier of this blob.
    pub fn hash(&self) -> (r: String)
        ensures
            r@ == hash_of(frame(tag_blob(), self.content@)),
            r@.len() == 40,
    {
        let word = bytes_of([98u8, 108, 111, 98]);
        assert(word@ =~= tag_blob());
        let data = frame_bytes(word.as_slice(), self.content.as_slice());
        hash(data.as_slice())
    }
}

impl Object {
    /// Splits the header of canonical bytes into the type token, the declared
    /// length, and the position of the null byte that ends the header.
    pub fn parse_header(s: &[u8]) -> (r: Result<(String, usize, usize), GitError>)
        ensures
            match header_of(s@) {
                Ok((t, n, nul)) => r matches Ok((rt, rn, rnul)) && encode_utf8(rt@) == t && rn == n
                    && rnul == nul,
                Err(e) => r matches Err(re) && re == e,
            },
            r matches Ok((_, _, nul)) ==> nul < s@.len(),
    {
        assert(s@.subrange(0, s@.len() as int) =~= s@);
        let sp = find_byte(s, 0, s.len(), 32);
        let nul = find_byte(s, 0, s.len(), 0);
        if sp >= s.len() || nul >= s.len() || nul < sp {
            return Err(GitError::HeaderFormat);
        }
        let t = match text_from_utf8(&s[0..sp]) {
            Some(t) => t,
            None => return Err(GitError::InvalidUtf8),
        };
        let n = match parse_size_bytes(&s[sp + 1..nul]) {
            Some(n) => n,
            None => return Err(GitError::SizeParse),
        };
        Ok((t, n, nul))
    }

    /// The canonical bytes of this object.
    pub fn encode(&self) -> (r: Vec<u8>)
        requires
            hashes_are_hex(self@),
        ensures
            r@ == encode(self@),
    {
        match self {
            Object::Blob(b) => {
                let word = bytes_of([98u8, 108, 111, 98]);
                assert(word@ =~= tag_blob());
                frame_bytes(word.as_slice(), b.content.as_slice())
            },
            Object::Tree(t) => {
                let word = bytes_of([116u8, 114, 101, 101]);
                assert(word@ =~= tag_tree());
                assert forall|i: int| 0 <= i < t.files@.len() implies is_lower_hex(
                    #[trigger] t.files@[i]@.hash,
                ) by {
                    assert(files_view(t.files@)[i] == t.files@[i]@);
                }
                let content = tree_content(&t.files);
                frame_bytes(word.as_slice(), content.as_slice())
            },
            Object::Commit(c) => {
                let word = bytes_of([99u8, 111, 109, 109, 105, 116]);
                assert(word@ =~= tag_commit());
                let content = commit_content(c);
                frame_bytes(word.as_slice(), content.as_slice())
            },
        }
    }

    /// Decodes canonical bytes into an object.
    #[verifier::rlimit(40)]
    pub fn from_bytes(s: &[u8]) -> (r: Result<Object, GitError>)
        ensures
            result_view(r) == decode(s@),
    {
        let header = Object::parse_header(s);
        let (t, n, nul) = match header {
            Ok(h) => h,
            Err(e) => return Err(e),
        };
        let len = s.len();
        assert(nul < len);
        let content = &s[nul + 1..len];
        if content.len() != n {
            return Err(GitError::HeaderLength);
        }
        let tb = t.as_str().as_bytes();
        let blob_word = bytes_of([98u8, 108, 111, 98]);
        let tree_word = bytes_of([116u8, 114, 101, 101]);
        let commit_word = bytes_of([99u8, 111, 109, 109, 105, 116]);
        assert(blob_word@ =~= tag_blob());
        assert(tree_word@ =~= tag_tree());
        assert(commit_word@ =~= tag_commit());
        if bytes_eq(tb, blob_word.as_slice()) {
            let mut b: Vec<u8> = Vec::new();
            push_bytes(&mut b, content);
            assert(b@ =~= content@);
            Ok(Object::Blob(Blob::new(b)))
        } else if bytes_eq(tb, tree_word.as_slice()) {
            match parse_tree(content) {
                Ok(files) => Ok(Object::Tree(Tree::new(files))),
                Err(e) => Err(e),
            }
        } else if bytes_eq(tb, commit_word.as_slice()) {
            match parse_commit(content) {
                Ok(c) => Ok(Object::Commit(c)),
                Err(e) => Err(e),
            }
        } else {
            Err(GitError::UnknownType)
        }
    }
}

fn tree_content(files: &Vec<File>) -> (r: Vec<u8>)
    requires
        forall|i: int| 0 <= i < files@.len() ==> is_lower_hex(#[trigger] files@[i]@.hash),
    ensures
        r@ == entries_bytes(files_view(files@)),
{
    let mut out: Vec<u8> = Vec::new();
    let ghost fs = files_view(files@);
    let mut i: usize = 0;
    assert(fs.subrange(0, fs.len() as int) =~= fs);
    while i < files.len()
        invariant
            i <= files@.len(),
            fs == files_view(files@),
            forall|k: int| 0 <= k < files@.len() ==> is_lower_hex(#[trigger] files@[k]@.hash),
            entries_bytes(fs) == out@ + entries_bytes(fs.subrange(i as int, fs.len() as int)),
        decreases files@.len() - i,
    {
        let f = &files[i];
        let ghost rest = fs.subrange(i as int, fs.len() as int);
        assert(rest.drop_first() =~= fs.subrange(i + 1, fs.len() as int));
        assert(rest[0] == f@);
        assert(is_lower_hex(files@[i as int]@.hash));
        let raw = match from_hex(f.hash.as_str()) {
            Some(raw) => raw,
            None => Vec::new(),
        };
        let ghost before = out@;
        push_bytes(&mut out, f.mode.bytes().as_slice());
        out.push(32);
        push_str(&mut out, f.name.as_str());
        out.push(0);
        push_bytes(&mut out, raw.as_slice());
        assert(out@ =~= before + entry_bytes(f@));
        i += 1;
    }
    assert(fs.subrange(fs.len() as int, fs.len() as int) =~= Seq::<FileView>::empty());
    out
}

/// Appends the header line `key value` when `value` is not empty.
fn push_header(out: &mut Vec<u8>, key: &[u8], value: &String)
    ensures
        final(out)@ == old(out)@ + header_line(key@, encode_utf8(value@)),
{
    let ghost start = out@;
    if !value.as_str().is_empty() {
        push_bytes(out, key);
        out.push(32);
        push_str(out, value.as_str());
        out.push(10);
        assert(out@ =~= start + header_line(key@, encode_utf8(value@)));
    } else {
        assert(encode_utf8(value@) =~= Seq::<u8>::empty());
        assert(out@ =~= start + header_line(key@, encode_utf8(value@)));
    }
}

fn commit_content(c: &Commit) -> (r: Vec<u8>)
    ensures
        r@ == commit_bytes(c@),
{
    let tree_word = bytes_of([116u8, 114, 101, 101]);
    let parent_word = bytes_of([112u8, 97, 114, 101, 110, 116]);
    let author_word = bytes_of([97u8, 117, 116, 104, 111, 114]);
    let committer_word = bytes_of([99u8, 111, 109, 109, 105, 116, 116, 101, 114]);
    let encoding_word = bytes_of([101u8, 110, 99, 111, 100, 105, 110, 103]);
    assert(tree_word@ =~= tag_tree());
    assert(parent_word@ =~= key_parent());
    assert(author_word@ =~= key_author());
    assert(committer_word@ =~= key_committer());
    assert(encoding_word@ =~= key_encoding());
    let mut out: Vec<u8> = Vec::new();
    push_header(&mut out, tree_word.as_slice(), &c.tree);
    push_header(&mut out, parent_word.as_slice(), &c.parent);
    push_header(&mut out, author_word.as_slice(), &c.author);
    push_header(&mut out, committer_word.as_slice(), &c.committer);
    push_header(&mut out, encoding_word.as_slice(), &c.encoding);
    out.push(10);
    push_str(&mut out, c.message.as_str());
    assert(out@ =~= commit_bytes(c@));
    out
}

/// The entries of tree content.
#[verifier::rlimit(40)]
fn parse_tree(c: &[u8]) -> (r: Result<Vec<File>, GitError>)
    ensures
        match parse_entries(c@) {
            Ok(fs) => r matches Ok(v) && files_view(v@) == fs,
            Err(e) => r matches Err(re) && re == e,
        },
{
    let mut files: Vec<File> = Vec::new();
    let mut pos: usize = 0;
    assert(c@.subrange(0, c@.len() as int) =~= c@);
    assert(files_view(files@) + Seq::<FileView>::empty() =~= Seq::<FileView>::empty());
    while pos < c.len()
        invariant
            pos <= c@.len(),
            parse_entries(c@) == prepend(
                files_view(files@),
                parse_entries(c@.subrange(pos as int, c@.len() as int)),
            ),
        decreases c@.len() - pos,
    {
        let ghost rest = c@.subrange(pos as int, c@.len() as int);
        let ghost before = files_view(files@);
        let sp = find_byte(c, pos, c.len(), 32);
        if sp >= c.len() {
            return Err(GitError::ReadMode);
        }
        assert(rest.subrange(0, sp - pos) =~= c@.subrange(pos as int, sp as int));
        let mode = match Mode::from_mode_bytes(&c[pos..sp]) {
            Some(m) => m,
            None => return Err(GitError::ParseMode),
        };
        let nul = find_byte(c, sp + 1, c.len(), 0);
        assert(rest.subrange(sp - pos + 1, rest.len() as int) =~= c@.subrange(
            sp + 1,
            c@.len() as int,
        ));
        if nul >= c.len() {
            return Err(GitError::ReadName);
        }
        assert(rest.subrange(sp - pos + 1, nul - pos) =~= c@.subrange(sp + 1, nul as int));
        let name = match text_from_utf8(&c[sp + 1..nul]) {
            Some(n) => n,
            None => return Err(GitError::InvalidUtf8),
        };
        if c.len() - (nul + 1) < 20 {
            return Err(GitError::ReadHash);
        }
        assert(rest.subrange(nul - pos + 1, nul - pos + 21) =~= c@.subrange(
            nul + 1,
            nul + 21,
        ));
        assert(rest.subrange(nul - pos + 21, rest.len() as int) =~= c@.subrange(
            nul + 21,
            c@.len() as int,
        ));
        let hash = to_hex(&c[nul + 1..nul + 21]);
        let f = File { mode, name, hash };
        let ghost entry = f@;
        files.push(f);
        assert(files_view(files@) =~= before + seq![entry]);
        proof {
            let tail = parse_entries(c@.subrange(nul + 21, c@.len() as int));
            match tail {
                Ok(x) => {
                    assert(before + (seq![entry] + x) =~= (before + seq![entry]) + x);
                },
                Err(_) => {},
            }
        }
        pos = nul + 21;
    }
    proof {
        assert(c@.subrange(pos as int, c@.len() as int) =~= Seq::<u8>::empty());
        assert(files_view(files@) + Seq::<FileView>::empty() =~= files_view(files@));
    }
    Ok(files)
}

/// What is left to join after `acc`: nothing more when `ls` is empty, else a
/// line feed (unless nothing was joined yet) and the joined lines.
pub open spec fn join_rest(acc: Seq<u8>, first: bool, ls: Seq<Seq<u8>>) -> Seq<u8> {
    if first {
        join_lines(ls)
    } else if ls.len() == 0 {
        acc
    } else {
        acc + seq![10u8] + join_lines(ls)
    }
}

/// One line of `c` from `pos`: where it ends (before any carriage return
/// that precedes its line feed) and where the next line starts.
#[verifier::rlimit(40)]
pub fn next_line(c: &[u8], pos: usize) -> (r: (usize, usize))
    requires
        pos < c@.len(),
    ensures
        ({
            let rest = c@.subrange(pos as int, c@.len() as int);
            let (end, next) = r;
            &&& pos <= end <= next <= c@.len()
            &&& pos < next
            &&& split_lines(rest).len() > 0
            &&& split_lines(rest)[0] == c@.subrange(pos as int, end as int)
            &&& split_lines(rest).drop_first() == split_lines(c@.subrange(next as int, c@.len() as int))
            &&& (end == c@.len() || is_ascii_byte(c@[end as int]))
            &&& (next == c@.len() || is_ascii_byte(c@[next - 1]))
        }),
{
    let nl = find_byte(c, pos, c.len(), 10);
    let ghost rest = c@.subrange(pos as int, c@.len() as int);
    if nl < c.len() {
        let end = if nl > pos && c[nl - 1] == 13 {
            nl - 1
        } else {
            nl
        };
        assert(rest.subrange(0, nl - pos) =~= c@.subrange(pos as int, nl as int));
        assert(rest.subrange(nl - pos + 1, rest.len() as int) =~= c@.subrange(
            nl + 1,
            c@.len() as int,
        ));
        assert(strip_cr(c@.subrange(pos as int, nl as int)) =~= c@.subrange(pos as int, end as int));
        assert(split_lines(rest).drop_first() =~= split_lines(
            c@.subrange(nl + 1, c@.len() as int),
        ));
        (end, nl + 1)
    } else {
        assert(split_lines(rest).drop_first() =~= Seq::<Seq<u8>>::empty());
        assert(c@.subrange(c@.len() as int, c@.len() as int) =~= Seq::<u8>::empty());
        (c.len(), c.len())
    }
}

/// The lines of `c[from..]` joined with line feeds.
#[verifier::rlimit(40)]
fn joined_lines(c: &[u8], from: usize) -> (r: Vec<u8>)
    requires
        from <= c@.len(),
        valid_utf8(c@.subrange(from as int, c@.len() as int)),
    ensures
        r@ == join_lines(split_lines(c@.subrange(from as int, c@.len() as int))),
        valid_utf8(r@),
{
    let mut out: Vec<u8> = Vec::new();
    let mut pos = from;
    let mut first = true;
    proof {
        reveal_with_fuel(valid_utf8, 2);
    }
    while pos < c.len()
        invariant
            from <= pos <= c@.len(),
            valid_utf8(out@),
            valid_utf8(c@.subrange(pos as int, c@.len() as int)),
            first ==> out@.len() == 0,
            join_lines(split_lines(c@.subrange(from as int, c@.len() as int))) == join_rest(
                out@,
                first,
                split_lines(c@.subrange(pos as int, c@.len() as int)),
            ),
        decreases c@.len() - pos,
    {
        let ghost rest = c@.subrange(pos as int, c@.len() as int);
        let ghost ls = split_lines(rest);
        let ghost old_out = out@;
        let (end, next) = next_line(c, pos);
        let ghost line = c@.subrange(pos as int, end as int);
        proof {
            lemma_utf8_split(rest, end - pos);
            assert(rest.subrange(0, end - pos) =~= line);
            lemma_utf8_split(rest, next - pos);
            assert(rest.subrange(next - pos, rest.len() as int) =~= c@.subrange(
                next as int,
                c@.len() as int,
            ));
            assert(ls =~= seq![line] + ls.drop_first());
        }
        if !first {
            out.push(10);
            proof {
                reveal_with_fuel(valid_utf8, 2);
                assert(valid_utf8(seq![10u8]));
                valid_utf8_concat(old_out, seq![10u8]);
                assert(out@ =~= old_out + seq![10u8]);
            }
        }
        let ghost mid = out@;
        push_bytes(&mut out, &c[pos..end]);
        proof {
            valid_utf8_concat(mid, line);
            let tail = ls.drop_first();
            if first {
                assert(out@ =~= line);
            } else {
                assert(out@ =~= old_out + seq![10u8] + line);
                if tail.len() > 0 {
                    assert(old_out + seq![10u8] + join_lines(ls) =~= out@ + seq![10u8]
                        + join_lines(tail));
                } else {
                    assert(old_out + seq![10u8] + join_lines(ls) =~= out@);
                }
            }
        }
        first = false;
        pos = next;
    }
    proof {
        assert(c@.subrange(pos as int, c@.len() as int) =~= Seq::<u8>::empty());
    }
    out
}

/// `commit` with the header `key value` applied.
fn set_field(commit: &mut Commit, key: &[u8], value: String)
    ensures
        final(commit)@ == with_field(old(commit)@, key@, encode_utf8(value@)),
{
    let tree_word = bytes_of([116u8, 114, 101, 101]);
    let parent_word = bytes_of([112u8, 97, 114, 101, 110, 116]);
    let author_word = bytes_of([97u8, 117, 116, 104, 111, 114]);
    let committer_word = bytes_of([99u8, 111, 109, 109, 105, 116, 116, 101, 114]);
    let encoding_word = bytes_of([101u8, 110, 99, 111, 100, 105, 110, 103]);
    assert(tree_word@ =~= tag_tree());
    assert(parent_word@ =~= key_parent());
    assert(author_word@ =~= key_author());
    assert(committer_word@ =~= key_committer());
    assert(encoding_word@ =~= key_encoding());
    if bytes_eq(key, tree_word.as_slice()) {
        commit.tree = value;
    } else if bytes_eq(key, parent_word.as_slice()) {
        commit.parent = value;
    } else if bytes_eq(key, author_word.as_slice()) {
        commit.author = value;
    } else if bytes_eq(key, committer_word.as_slice()) {
        commit.committer = value;
    } else if bytes_eq(key, encoding_word.as_slice()) {
        commit.encoding = value;
    }
}

/// The commit that content `c` spells.
#[verifier::rlimit(40)]
fn parse_commit(c: &[u8]) -> (r: Result<Commit, GitError>)
    ensures
        match decode_commit(c@) {
            Ok(v) => r matches Ok(rc) && rc@ == v,
            Err(e) => r matches Err(re) && re == e,
        },
{
    if text_from_utf8(c).is_none() {
        return Err(GitError::InvalidUtf8);
    }
    let mut commit = Commit {
        tree: String::new(),
        parent: String::new(),
        author: String::new(),
        committer: String::new(),
        encoding: String::new(),
        message: String::new(),
    };
    assert(commit@ =~= empty_commit()) by {
        assert(encode_utf8(Seq::<char>::empty()) =~= Seq::<u8>::empty());
    }
    let mut pos: usize = 0;
    assert(c@.subrange(0, c@.len() as int) =~= c@);
    while pos < c.len()
        invariant
            pos <= c@.len(),
            valid_utf8(c@.subrange(pos as int, c@.len() as int)),
            decode_commit(c@) == parse_commit_lines(
                split_lines(c@.subrange(pos as int, c@.len() as int)),
                commit@,
            ),
        decreases c@.len() - pos,
    {
        let ghost rest = c@.subrange(pos as int, c@.len() as int);
        let ghost ls = split_lines(rest);
        let (end, next) = next_line(c, pos);
        let ghost line = c@.subrange(pos as int, end as int);
        proof {
            lemma_utf8_split(rest, end - pos);
            assert(rest.subrange(0, end - pos) =~= line);
            lemma_utf8_split(rest, next - pos);
            assert(rest.subrange(next - pos, rest.len() as int) =~= c@.subrange(
                next as int,
                c@.len() as int,
            ));
        }
        if end == pos {
            let msg = joined_lines(c, next);
            commit.message = text_of(msg.as_slice());
            return Ok(commit);
        }
        let sp = find_byte(c, pos, end, 32);
        if sp >= end {
            return Err(GitError::InvalidLine);
        }
        proof {
            assert(line.subrange(0, sp - pos) =~= c@.subrange(pos as int, sp as int));
            assert(line.subrange(sp - pos + 1, line.len() as int) =~= c@.subrange(
                sp + 1,
                end as int,
            ));
            lemma_utf8_split(line, sp - pos + 1);
            assert(c@[sp as int] == 32);
        }
        let value = text_of(&c[sp + 1..end]);
        set_field(&mut commit, &c[pos..sp], value);
        pos = next;
    }
    proof {
        assert(c@.subrange(pos as int, c@.len() as int) =~= Seq::<u8>::empty());
    }
    Ok(commit)
}

} // verus!
