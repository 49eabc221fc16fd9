//! The compressed object store: what is written for an object, how stored
//! bytes read back, and which stored identifier a revision names.
use vstd::prelude::*;
use vstd::utf8::*;

use crate::codec::{decode, result_view};
use crate::error::GitError;
use crate::object::Object;
use crate::text::{is_ascii_byte, is_prefix, lemma_encode_utf8_concat, lemma_utf8_split, starts_with, text_of};

verus! {

broadcast use vstd::seq::group_seq_axioms;

/// The zlib stream that flate2 writes for `data` at the default level.
pub uninterp spec fn zlib_of(data: Seq<u8>) -> Seq<u8>;

/// Relies on flate2's `write::ZlibEncoder` with `Compression::default()`:
/// the zlib stream of the input, the same for the same input.
#[verifier::external_body]
pub(crate) fn deflate(data: &[u8]) -> (r: Vec<u8>)
    ensures
        r@ == zlib_of(data@),
{
    let mut e = flate2::write::ZlibEncoder::new(Vec::new(), flate2::Compression::default());
    let _ = std::io::Write::write_all(&mut e, data);
    e.finish().unwrap_or_default()
}

/// What flate2 reads out of `data` as a zlib stream, or `None` when it
/// fails.
pub uninterp spec fn inflate_of(data: Seq<u8>) -> Option<Seq<u8>>;

/// Relies on flate2's `read::ZlibDecoder`: what it reads depends on the
/// bytes alone, and compression is lossless, so the stream written for some
/// data reads back as that data.
#[verifier::external_body]
fn inflate(data: &[u8]) -> (r: Option<Vec<u8>>)
    ensures
        r is Some <==> inflate_of(data@) is Some,
        r is Some ==> r->0@ == inflate_of(data@)->0,
        forall|x: Seq<u8>| #[trigger] zlib_of(x) == data@ ==> (r is Some && r->0@ == x),
{
    let mut out: Vec<u8> = Vec::new();
    match std::io::Read::read_to_end(&mut flate2::read::ZlibDecoder::new(data), &mut out) {
        Ok(_) => Some(out),
        Err(_) => None,
    }
}

impl Object {
    /// Reads an object from the compressed bytes stored for it: bytes that
    /// do not inflate are `Corrupt`; otherwise the result is what the
    /// inflated bytes decode to, error included.
    pub fn from_compressed(data: &[u8]) -> (r: Result<Object, GitError>)
        ensures
            inflate_of(data@) is None ==> (r matches Err(GitError::Corrupt)),
            inflate_of(data@) matches Some(b) ==> result_view(r) == decode(b),
            forall|x: Seq<u8>| #[trigger] zlib_of(x) == data@ ==> result_view(r) == decode(x),
    {
        match inflate(data) {
            Some(bytes) => Object::from_bytes(bytes.as_slice()),
            None => Err(GitError::Corrupt),
        }
    }
}

/// The names in `names` that start with `suffix`, in order.
pub open spec fn matching(suffix: Seq<u8>, names: Seq<Seq<u8>>) -> Seq<Seq<u8>>
    decreases names.len(),
{
    if names.len() == 0 {
        seq![]
    } else if is_prefix(suffix, names.last()) {
        matching(suffix, names.drop_last()).push(names.last())
    } else {
        matching(suffix, names.drop_last())
    }
}

/// The shard and the rest of a revision that can be looked up: one of at
/// least four bytes whose first two are ASCII.
pub open spec fn shard_of(rev: Seq<u8>) -> Option<(Seq<u8>, Seq<u8>)> {
    if rev.len() >= 4 && is_ascii_byte(rev[0]) && is_ascii_byte(rev[1]) {
        Some((rev.subrange(0, 2), rev.subrange(2, rev.len() as int)))
    } else {
        None
    }
}

/// The stored identifiers that `rev` may mean, given the names stored in
/// its shard.
pub open spec fn candidates(rev: Seq<u8>, names: Seq<Seq<u8>>) -> Seq<Seq<u8>> {
    match shard_of(rev) {
        None => seq![],
        Some((shard, rest)) => matching(rest, names).map_values(|n: Seq<u8>| shard + n),
    }
}

/// The UTF-8 bytes of each string.
pub open spec fn strings_bytes(v: Seq<String>) -> Seq<Seq<u8>> {
    v.map_values(|s: String| encode_utf8(s@))
}

/// The shard directory and the rest of `rev`, when `rev` can be looked up.
pub fn revision_shard(rev: &str) -> (r: Option<(String, String)>)
    ensures
        match shard_of(encode_utf8(rev@)) {
            None => r is None,
            Some((shard, rest)) => r matches Some((a, b)) && encode_utf8(a@) == shard
                && encode_utf8(b@) == rest,
        },
{
    let b = rev.as_bytes();
    if b.len() < 4 || b[0] >= 128 || b[1] >= 128 {
        return None;
    }
    proof {
        encode_utf8_valid_utf8(rev@);
        lemma_utf8_split(b@, 2);
    }
    let shard = text_of(&b[0..2]);
    let rest = text_of(&b[2..b.len()]);
    Some((shard, rest))
}

/// The identifier that `rev` names among the stored `names` of its shard
/// (those that `revision_shard` gives; none when it gives none).
#[verifier::rlimit(40)]
pub fn resolve_revision(rev: &str, names: &Vec<String>) -> (r: Result<String, GitError>)
    ensures
        candidates(encode_utf8(rev@), strings_bytes(names@)).len() == 1 ==> (r matches Ok(id)
            && encode_utf8(id@) == candidates(encode_utf8(rev@), strings_bytes(names@))[0]),
        candidates(encode_utf8(rev@), strings_bytes(names@)).len() == 0 ==> (r matches Err(
            GitError::ObjectNotFound,
        )),
        candidates(encode_utf8(rev@), strings_bytes(names@)).len() >= 2 ==> (r matches Err(
            GitError::Ambiguous(v),
        ) && strings_bytes(v@) == candidates(encode_utf8(rev@), strings_bytes(names@))),
{
    let (shard, rest) = match revision_shard(rev) {
        Some(p) => p,
        None => return Err(GitError::ObjectNotFound),
    };
    let ghost nb = strings_bytes(names@);
    let mut found: Vec<String> = Vec::new();
    let mut i: usize = 0;
    while i < names.len()
        invariant
            i <= names@.len(),
            nb == strings_bytes(names@),
            strings_bytes(found@) == matching(encode_utf8(rest@), nb.subrange(0, i as int)).map_values(
                |n: Seq<u8>| encode_utf8(shard@) + n,
            ),
        decreases names@.len() - i,
    {
        let ghost pre = nb.subrange(0, i as int);
        let ghost next = nb.subrange(0, i + 1);
        assert(next.drop_last() =~= pre);
        assert(next.last() == encode_utf8(names@[i as int]@));
        if starts_with(names[i].as_str().as_bytes(), rest.as_str().as_bytes()) {
            let mut c = shard.clone();
            c.append(names[i].as_str());
            proof {
                lemma_encode_utf8_concat(shard@, names@[i as int]@);
            }
            let ghost before = strings_bytes(found@);
            found.push(c);
            assert(strings_bytes(found@) =~= before.push(encode_utf8(c@)));
            assert(strings_bytes(found@) =~= matching(encode_utf8(rest@), next).map_values(
                |n: Seq<u8>| encode_utf8(shard@) + n,
            ));
        }
        i += 1;
    }
    assert(nb.subrange(0, names@.len() as int) =~= nb);
    if found.len() == 1 {
        Ok(found.pop().unwrap())
    } else if found.len() == 0 {
        Err(GitError::ObjectNotFound)
    } else {
        Err(GitError::Ambiguous(found))
    }
}

} // verus!
