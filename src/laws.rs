//! Laws that relate the operations of the store to one another.
use vstd::prelude::*;
use vstd::utf8::*;

use crate::codec::{
    commit_bytes, content_of, decode, decode_commit, empty_commit, encode, entries_bytes,
    entry_bytes, frame, header_line, header_of, join_lines, key_author, key_committer,
    key_encoding, key_parent, parse_commit_lines, parse_entries, prepend, split_lines, strip_cr,
    tag_blob, tag_commit, tag_of, tag_tree, with_field,
};
use crate::digest::{hash_of, is_lower_hex, lemma_hex_round_trip, lemma_unhex_len, unhex};
use crate::object::{
    CommitView, FileView, Mode, ObjectView, is_ascii_bytes, lemma_ascii_encode, mode_bytes, mode_of,
};
use crate::store::{candidates, matching, shard_of};
use crate::text::{decimal, index_of, is_prefix, lemma_decimal_parses, lemma_index_of, parse_size};

verus! {

broadcast use vstd::seq::group_seq_axioms;

/// ASCII bytes are valid UTF-8.
pub proof fn lemma_ascii_valid(s: Seq<u8>)
    requires
        is_ascii_bytes(s),
    ensures
        valid_utf8(s),
{
    lemma_ascii_encode(s);
    encode_utf8_valid_utf8(crate::object::ascii_chars(s));
}

/// The header of framed bytes reads back as the type, the content length and
/// the end of the header.
pub proof fn lemma_frame_header(tag: Seq<u8>, content: Seq<u8>)
    requires
        tag == tag_blob() || tag == tag_tree() || tag == tag_commit(),
        content.len() <= usize::MAX,
    ensures
        header_of(frame(tag, content)) == Ok::<(Seq<u8>, usize, int), crate::error::GitError>(
            (tag, content.len() as usize, (tag.len() + 1 + decimal(content.len()).len()) as int),
        ),
        frame(tag, content).subrange(
            (tag.len() + 2 + decimal(content.len()).len()) as int,
            frame(tag, content).len() as int,
        ) == content,
{
    let d = decimal(content.len());
    let s = frame(tag, content);
    lemma_decimal_parses(content.len());
    let sp = tag.len() as int;
    let nul = sp + 1 + d.len() as int;
    assert(s[sp] == 32);
    assert(s[nul] == 0);
    assert forall|j: int| 0 <= j < sp implies s[j] != 32u8 && s[j] != 0u8 by {
        assert(s[j] == tag[j]);
    }
    assert forall|j: int| sp < j < nul implies s[j] != 0u8 by {
        assert(s[j] == d[j - sp - 1]);
        assert(crate::text::is_digit(d[j - sp - 1]));
    }
    lemma_index_of(s, 32, sp);
    lemma_index_of(s, 0, nul);
    assert(s.subrange(0, sp) =~= tag);
    assert(is_ascii_bytes(tag));
    lemma_ascii_valid(tag);
    assert(s.subrange(sp + 1, nul) =~= d);
    assert(parse_size(d) == Some(content.len() as usize));
    assert(s.subrange(nul + 1, s.len() as int) =~= content);
}

/// A blob reads back from its canonical bytes as the same content; together
/// with `hash_object` and `Object::from_compressed`, writing a blob (once or
/// twice, with the same identifier and bytes each time) leaves the store
/// readable as that content.
pub proof fn lemma_blob_round_trip(content: Seq<u8>)
    requires
        content.len() <= usize::MAX,
    ensures
        decode(frame(tag_blob(), content)) == Ok::<ObjectView, crate::error::GitError>(
            ObjectView::Blob(content),
        ),
{
    lemma_frame_header(tag_blob(), content);
}

/// A name that starts with `q` is among the names that match `q`.
pub proof fn lemma_matching_contains(q: Seq<u8>, names: Seq<Seq<u8>>, x: Seq<u8>)
    requires
        names.contains(x),
        is_prefix(q, x),
    ensures
        matching(q, names).contains(x),
    decreases names.len(),
{
    let rest = names.drop_last();
    if names.last() == x {
        assert(matching(q, names).last() == x);
    } else {
        let i = choose|i: int| 0 <= i < names.len() && names[i] == x;
        assert(rest[i] == x);
        lemma_matching_contains(q, rest, x);
        let j = choose|j: int| 0 <= j < matching(q, rest).len() && matching(q, rest)[j] == x;
        assert(matching(q, names)[j] == x);
    }
}

/// Matching a longer prefix keeps fewer names; when both match exactly one
/// name, it is the same one.
pub proof fn lemma_matching_narrower(p: Seq<u8>, q: Seq<u8>, names: Seq<Seq<u8>>)
    requires
        is_prefix(p, q),
    ensures
        matching(q, names).len() <= matching(p, names).len(),
        matching(p, names).len() == 1 && matching(q, names).len() == 1 ==> matching(q, names)
            == matching(p, names),
    decreases names.len(),
{
    if names.len() > 0 {
        let n = names.last();
        lemma_matching_narrower(p, q, names.drop_last());
        if is_prefix(q, n) {
            assert(n.subrange(0, p.len() as int) =~= q.subrange(0, p.len() as int));
            assert(is_prefix(p, n));
        }
    }
}

/// A revision shorter than four bytes names no stored object.
pub proof fn lemma_short_revision_not_found(rev: Seq<u8>, names: Seq<Seq<u8>>)
    requires
        rev.len() < 4,
    ensures
        candidates(rev, names).len() == 0,
{
}

/// An unambiguous prefix of four or more bytes of a stored identifier names
/// the same object as the full identifier.
pub proof fn lemma_prefix_resolves_as_full(p: Seq<u8>, id: Seq<u8>, names: Seq<Seq<u8>>)
    requires
        p.len() >= 4,
        is_prefix(p, id),
        names.contains(id.subrange(2, id.len() as int)),
        shard_of(p) matches Some((_, r)) ==> matching(r, names).len() == 1,
    ensures
        candidates(p, names) == candidates(id, names),
        shard_of(p) is Some ==> candidates(id, names) == seq![id],
{
    let x = id.subrange(2, id.len() as int);
    assert(p[0] == id[0] && p[1] == id[1]);
    if shard_of(p) is Some {
        let pr = p.subrange(2, p.len() as int);
        let (sp, _) = shard_of(p)->0;
        let (si, _) = shard_of(id)->0;
        assert(si =~= sp);
        assert(is_prefix(pr, x)) by {
            assert(x.subrange(0, pr.len() as int) =~= pr);
        }
        assert(is_prefix(x, x)) by {
            assert(x.subrange(0, x.len() as int) =~= x);
        }
        lemma_matching_contains(x, names, x);
        lemma_matching_narrower(pr, x, names);
        let m = matching(x, names);
        assert(m =~= seq![x]);
        assert(id.subrange(0, 2) + x =~= id);
        assert(candidates(id, names) =~= seq![id]);
    }
}

/// A revision that two stored names match is ambiguous, and its candidates
/// list both.
pub proof fn lemma_two_matches_ambiguous(
    rev: Seq<u8>,
    names: Seq<Seq<u8>>,
    a: Seq<u8>,
    b: Seq<u8>,
)
    requires
        shard_of(rev) matches Some((_, r)) && is_prefix(r, a) && is_prefix(r, b),
        a != b,
        names.contains(a),
        names.contains(b),
    ensures
        candidates(rev, names).len() >= 2,
        shard_of(rev) matches Some((s, _)) && candidates(rev, names).contains(s + a)
            && candidates(rev, names).contains(s + b),
{
    let (shard, rest) = shard_of(rev)->0;
    lemma_matching_contains(rest, names, a);
    lemma_matching_contains(rest, names, b);
    let m = matching(rest, names);
    let i = choose|i: int| 0 <= i < m.len() && m[i] == a;
    let j = choose|j: int| 0 <= j < m.len() && m[j] == b;
    let c = candidates(rev, names);
    assert(c[i] == shard + a);
    assert(c[j] == shard + b);
}

/// An identifier is a function of canonical bytes alone: objects with the
/// same canonical bytes have the same identifier.
pub proof fn lemma_identifier_of_bytes(a: ObjectView, b: ObjectView)
    requires
        encode(a) == encode(b),
    ensures
        hash_of(encode(a)) == hash_of(encode(b)),
{
}

/// A tree entry that reads back as itself: a name without null bytes, and an
/// identifier of forty lowercase hexadecimal digits.
pub open spec fn entry_round_trips(f: FileView) -> bool {
    &&& valid_utf8(f.name)
    &&& !f.name.contains(0u8)
    &&& is_lower_hex(f.hash)
    &&& f.hash.len() == 40
}

/// A header value that reads back as itself: one line, not ended by a
/// carriage return.
pub open spec fn header_value_round_trips(v: Seq<u8>) -> bool {
    &&& valid_utf8(v)
    &&& !v.contains(10u8)
    &&& (v.len() > 0 ==> v.last() != 13)
}

/// Objects whose canonical bytes read back as themselves. For a message,
/// `lemma_plain_message` gives the condition for one without carriage returns
/// that does not end in a line feed.
pub open spec fn round_trips(o: ObjectView) -> bool {
    match o {
        ObjectView::Blob(_) => true,
        ObjectView::Tree(fs) => forall|i: int| 0 <= i < fs.len() ==> entry_round_trips(#[trigger] fs[i]),
        ObjectView::Commit(c) => {
            &&& header_value_round_trips(c.tree)
            &&& header_value_round_trips(c.parent)
            &&& header_value_round_trips(c.author)
            &&& header_value_round_trips(c.committer)
            &&& header_value_round_trips(c.encoding)
            &&& valid_utf8(c.message)
            &&& join_lines(split_lines(c.message)) == c.message
        },
    }
}

pub proof fn lemma_mode_of(m: Mode)
    ensures
        mode_of(mode_bytes(m)) == Some(m),
        forall|j: int| 0 <= j < mode_bytes(m).len() ==> #[trigger] mode_bytes(m)[j] != 32u8,
        is_ascii_bytes(mode_bytes(m)),
{
    let n = mode_bytes(Mode::NormalFile);
    let e = mode_bytes(Mode::Executable);
    let l = mode_bytes(Mode::SymbolicLink);
    let s = mode_bytes(Mode::Submodule);
    assert(n[3] != e[3]);
    assert(n[1] != l[1]);
    assert(n[1] != s[1]);
    assert(e[1] != l[1]);
    assert(e[1] != s[1]);
    assert(l[1] != s[1]);
}

/// Splitting off a line that holds no line feed.
pub proof fn lemma_split_line(l: Seq<u8>, r: Seq<u8>)
    requires
        !l.contains(10u8),
    ensures
        split_lines(l + seq![10u8] + r) == seq![strip_cr(l)] + split_lines(r),
{
    let c = l + seq![10u8] + r;
    assert forall|j: int| 0 <= j < l.len() implies c[j] != 10u8 by {
        assert(c[j] == l[j]);
    }
    lemma_index_of(c, 10, l.len() as int);
    assert(c.subrange(0, l.len() as int) =~= l);
    assert(c.subrange(l.len() as int + 1, c.len() as int) =~= r);
}

pub open spec fn is_header_key(key: Seq<u8>) -> bool {
    key == tag_tree() || key == key_parent() || key == key_author() || key == key_committer()
        || key == key_encoding()
}

/// One header line is read as its key and value.
#[verifier::rlimit(40)]
pub proof fn lemma_header_step(key: Seq<u8>, v: Seq<u8>, rest: Seq<u8>, acc: CommitView)
    requires
        is_header_key(key),
        header_value_round_trips(v),
    ensures
        parse_commit_lines(split_lines(header_line(key, v) + rest), acc) == parse_commit_lines(
            split_lines(rest),
            if v.len() == 0 {
                acc
            } else {
                with_field(acc, key, v)
            },
        ),
{
    if v.len() == 0 {
        assert(header_line(key, v) + rest =~= rest);
    } else {
        let line = key + seq![32u8] + v;
        assert(header_line(key, v) + rest =~= line + seq![10u8] + rest);
        assert(forall|j: int| 0 <= j < key.len() ==> key[j] != 10u8 && key[j] != 32u8);
        assert(!line.contains(10u8)) by {
            if line.contains(10u8) {
                let j = choose|j: int| 0 <= j < line.len() && line[j] == 10u8;
                if j > key.len() {
                    assert(v[j - key.len() - 1] == 10u8);
                }
            }
        }
        lemma_split_line(line, rest);
        assert(strip_cr(line) == line);
        assert forall|j: int| 0 <= j < key.len() implies line[j] != 32u8 by {
            assert(line[j] == key[j]);
        }
        lemma_index_of(line, 32, key.len() as int);
        assert(line.subrange(0, key.len() as int) =~= key);
        assert(line.subrange(key.len() as int + 1, line.len() as int) =~= v);
        let ls = split_lines(line + seq![10u8] + rest);
        assert(ls.drop_first() =~= split_lines(rest));
    }
}

pub proof fn lemma_header_valid(key: Seq<u8>, v: Seq<u8>)
    requires
        is_header_key(key),
        valid_utf8(v),
    ensures
        valid_utf8(header_line(key, v)),
{
    if v.len() == 0 {
        assert(header_line(key, v) =~= Seq::<u8>::empty());
    } else {
        lemma_ascii_valid(key + seq![32u8]);
        lemma_ascii_valid(seq![10u8]);
        valid_utf8_concat(key + seq![32u8], v);
        valid_utf8_concat(key + seq![32u8] + v, seq![10u8]);
    }
}

/// The empty line ends the headers; the rest is the message.
proof fn lemma_message_step(m: Seq<u8>, acc: CommitView)
    ensures
        parse_commit_lines(split_lines(seq![10u8] + m), acc) == Ok::<
            CommitView,
            crate::error::GitError,
        >(CommitView { message: join_lines(split_lines(m)), ..acc }),
{
    assert(!Seq::<u8>::empty().contains(10u8));
    lemma_split_line(Seq::<u8>::empty(), m);
    assert(Seq::<u8>::empty() + seq![10u8] + m =~= seq![10u8] + m);
    assert(strip_cr(Seq::<u8>::empty()) =~= Seq::<u8>::empty());
    let ls = split_lines(seq![10u8] + m);
    assert(ls.drop_first() =~= split_lines(m));
}

/// Tree entries read back from their stored bytes.
#[verifier::rlimit(40)]
pub proof fn lemma_entries_round_trip(fs: Seq<FileView>)
    requires
        forall|i: int| 0 <= i < fs.len() ==> entry_round_trips(#[trigger] fs[i]),
    ensures
        parse_entries(entries_bytes(fs)) == Ok::<Seq<FileView>, crate::error::GitError>(fs),
    decreases fs.len(),
{
    if fs.len() == 0 {
        assert(entries_bytes(fs) =~= Seq::<u8>::empty());
        assert(fs =~= Seq::<FileView>::empty());
    } else {
        let f = fs[0];
        let tail = fs.drop_first();
        assert forall|i: int| 0 <= i < tail.len() implies entry_round_trips(#[trigger] tail[i]) by {
            assert(tail[i] == fs[i + 1]);
        }
        lemma_entries_round_trip(tail);
        assert(entry_round_trips(f));
        let rest = entries_bytes(tail);
        let m = mode_bytes(f.mode);
        let raw = unhex(f.hash);
        lemma_unhex_len(f.hash);
        lemma_hex_round_trip(f.hash);
        lemma_mode_of(f.mode);
        let c = entry_bytes(f) + rest;
        assert(c =~= m + seq![32u8] + f.name + seq![0u8] + raw + rest);
        let sp = m.len() as int;
        assert forall|j: int| 0 <= j < sp implies c[j] != 32u8 by {
            assert(c[j] == m[j]);
        }
        lemma_index_of(c, 32, sp);
        assert(c.subrange(0, sp) =~= m);
        let after = c.subrange(sp + 1, c.len() as int);
        assert(after =~= f.name + seq![0u8] + raw + rest);
        assert forall|j: int| 0 <= j < f.name.len() implies after[j] != 0u8 by {
            assert(after[j] == f.name[j]);
        }
        lemma_index_of(after, 0, f.name.len() as int);
        let nul = sp + 1 + f.name.len() as int;
        assert(c.subrange(sp + 1, nul) =~= f.name);
        assert(c.subrange(nul + 1, nul + 21) =~= raw);
        assert(c.subrange(nul + 21, c.len() as int) =~= rest);
        assert(index_of(c, 32) == sp);
        assert(mode_of(c.subrange(0, sp)) == Some(f.mode));
        assert(index_of(c.subrange(sp + 1, c.len() as int), 0) as int + sp + 1 == nul);
        assert(raw.len() == 20);
        assert(c.len() >= nul + 21);
        let entry = FileView {
            mode: mode_of(c.subrange(0, sp))->0,
            name: c.subrange(sp + 1, nul),
            hash: crate::digest::hex_chars(c.subrange(nul + 1, nul + 21)),
        };
        assert(entry == f);
        assert(parse_entries(c) == prepend(seq![entry], parse_entries(rest)));
        assert(seq![f] + tail =~= fs);
        assert(entries_bytes(fs) == c);
    }
}

/// A message without carriage returns that does not end in a line feed
/// reads back unchanged from its lines.
pub proof fn lemma_plain_message(m: Seq<u8>)
    requires
        !m.contains(13u8),
        m.len() == 0 || m.last() != 10,
    ensures
        join_lines(split_lines(m)) == m,
    decreases m.len(),
{
    if m.len() > 0 {
        let nl = index_of(m, 10) as int;
        crate::text::lemma_index_of_bounds(m, 10);
        if nl < m.len() {
            let l = m.subrange(0, nl);
            let r = m.subrange(nl + 1, m.len() as int);
            assert(r.len() > 0);
            assert(!r.contains(13u8)) by {
                if r.contains(13u8) {
                    let j = choose|j: int| 0 <= j < r.len() && r[j] == 13u8;
                    assert(m[nl + 1 + j] == 13u8);
                }
            }
            assert(r.last() == m.last());
            lemma_plain_message(r);
            assert(l.len() > 0 ==> l.last() == m[nl - 1]);
            assert(strip_cr(l) == l);
            let ls = split_lines(m);
            assert(ls.drop_first() == split_lines(r));
            assert(split_lines(r).len() > 0);
            assert(m =~= l + seq![10u8] + r);
        }
    }
}

/// The value of the header `key` in `c`.
pub open spec fn field_of(c: CommitView, key: Seq<u8>) -> Seq<u8> {
    if key == tag_tree() {
        c.tree
    } else if key == key_parent() {
        c.parent
    } else if key == key_author() {
        c.author
    } else if key == key_committer() {
        c.committer
    } else if key == key_encoding() {
        c.encoding
    } else {
        seq![]
    }
}

/// The header lines of `c` for `keys`, in that order.
pub open spec fn headers_in_order(c: CommitView, keys: Seq<Seq<u8>>) -> Seq<u8>
    decreases keys.len(),
{
    if keys.len() == 0 {
        seq![]
    } else {
        header_line(keys[0], field_of(c, keys[0])) + headers_in_order(c, keys.drop_first())
    }
}

/// `acc` after reading the header lines of `c` for `keys`.
pub open spec fn apply_headers(c: CommitView, keys: Seq<Seq<u8>>, acc: CommitView) -> CommitView
    decreases keys.len(),
{
    if keys.len() == 0 {
        acc
    } else {
        let v = field_of(c, keys[0]);
        apply_headers(
            c,
            keys.drop_first(),
            if v.len() == 0 {
                acc
            } else {
                with_field(acc, keys[0], v)
            },
        )
    }
}

proof fn lemma_keys_differ()
    ensures
        tag_tree() != key_parent() && tag_tree() != key_author() && tag_tree() != key_committer()
            && tag_tree() != key_encoding(),
        key_parent() != key_author() && key_parent() != key_committer() && key_parent()
            != key_encoding(),
        key_author() != key_committer() && key_author() != key_encoding(),
        key_committer() != key_encoding(),
{
    assert(tag_tree()[0] != key_parent()[0] && tag_tree()[0] != key_author()[0]);
    assert(key_parent()[0] != key_author()[0] && key_parent()[0] != key_committer()[0]);
    assert(key_author()[0] != key_committer()[0] && key_author()[0] != key_encoding()[0]);
    assert(key_committer()[0] != key_encoding()[0] && tag_tree()[0] != key_encoding()[0]);
    assert(tag_tree()[0] != key_committer()[0] && key_parent()[0] != key_encoding()[0]);
}

proof fn lemma_all_headers_round_trip(c: CommitView, key: Seq<u8>)
    requires
        is_header_key(key),
        round_trips(ObjectView::Commit(c)),
    ensures
        header_value_round_trips(field_of(c, key)),
{
}

/// Header lines in any order are read as their keys and values.
pub proof fn lemma_headers_parse(c: CommitView, keys: Seq<Seq<u8>>, rest: Seq<u8>, acc: CommitView)
    requires
        forall|i: int| 0 <= i < keys.len() ==> is_header_key(#[trigger] keys[i]),
        round_trips(ObjectView::Commit(c)),
    ensures
        parse_commit_lines(split_lines(headers_in_order(c, keys) + rest), acc) == parse_commit_lines(
            split_lines(rest),
            apply_headers(c, keys, acc),
        ),
    decreases keys.len(),
{
    if keys.len() == 0 {
        assert(headers_in_order(c, keys) + rest =~= rest);
    } else {
        let k = keys[0];
        let v = field_of(c, k);
        let tail = keys.drop_first();
        assert(is_header_key(k));
        assert forall|i: int| 0 <= i < tail.len() implies is_header_key(#[trigger] tail[i]) by {
            assert(tail[i] == keys[i + 1]);
        }
        lemma_all_headers_round_trip(c, k);
        let r = headers_in_order(c, tail) + rest;
        assert(headers_in_order(c, keys) + rest =~= header_line(k, v) + r);
        lemma_header_step(k, v, r, acc);
        let acc2 = if v.len() == 0 { acc } else { with_field(acc, k, v) };
        lemma_headers_parse(c, tail, rest, acc2);
    }
}

/// After reading header lines, a header holds its value in `c` when its
/// key came with a non-empty value, and its earlier value otherwise.
pub proof fn lemma_apply_headers(c: CommitView, keys: Seq<Seq<u8>>, acc: CommitView, key: Seq<u8>)
    requires
        forall|i: int| 0 <= i < keys.len() ==> is_header_key(#[trigger] keys[i]),
        is_header_key(key),
    ensures
        field_of(apply_headers(c, keys, acc), key) == if keys.contains(key) && field_of(c, key).len()
            > 0 {
            field_of(c, key)
        } else {
            field_of(acc, key)
        },
        apply_headers(c, keys, acc).message == acc.message,
    decreases keys.len(),
{
    lemma_keys_differ();
    if keys.len() > 0 {
        let k = keys[0];
        let v = field_of(c, k);
        let tail = keys.drop_first();
        assert(is_header_key(k));
        assert forall|i: int| 0 <= i < tail.len() implies is_header_key(#[trigger] tail[i]) by {
            assert(tail[i] == keys[i + 1]);
        }
        let acc2 = if v.len() == 0 { acc } else { with_field(acc, k, v) };
        lemma_apply_headers(c, tail, acc2, key);
        assert(keys.contains(key) <==> (k == key || tail.contains(key))) by {
            if keys.contains(key) && k != key {
                let i = choose|i: int| 0 <= i < keys.len() && keys[i] == key;
                assert(tail[i - 1] == key);
            }
            if tail.contains(key) {
                let i = choose|i: int| 0 <= i < tail.len() && tail[i] == key;
                assert(keys[i + 1] == key);
            }
        }
    }
}

proof fn lemma_headers_valid(c: CommitView, keys: Seq<Seq<u8>>)
    requires
        forall|i: int| 0 <= i < keys.len() ==> is_header_key(#[trigger] keys[i]),
        round_trips(ObjectView::Commit(c)),
    ensures
        valid_utf8(headers_in_order(c, keys)),
    decreases keys.len(),
{
    if keys.len() == 0 {
        assert(headers_in_order(c, keys) =~= Seq::<u8>::empty());
        lemma_ascii_valid(Seq::<u8>::empty());
    } else {
        let tail = keys.drop_first();
        assert(is_header_key(keys[0]));
        assert forall|i: int| 0 <= i < tail.len() implies is_header_key(#[trigger] tail[i]) by {
            assert(tail[i] == keys[i + 1]);
        }
        lemma_headers_valid(c, tail);
        lemma_all_headers_round_trip(c, keys[0]);
        lemma_header_valid(keys[0], field_of(c, keys[0]));
        valid_utf8_concat(header_line(keys[0], field_of(c, keys[0])), headers_in_order(c, tail));
    }
}

/// A commit whose header lines come in any order, one for each key with a
/// non-empty value (repeats allowed), then an empty line and the message,
/// reads back as that commit.
pub proof fn lemma_commit_any_order(c: CommitView, keys: Seq<Seq<u8>>)
    requires
        round_trips(ObjectView::Commit(c)),
        forall|i: int| 0 <= i < keys.len() ==> is_header_key(#[trigger] keys[i]),
        forall|k: Seq<u8>| is_header_key(k) && field_of(c, k).len() > 0 ==> keys.contains(k),
        (headers_in_order(c, keys) + seq![10u8] + c.message).len() <= usize::MAX,
    ensures
        decode(frame(tag_commit(), headers_in_order(c, keys) + seq![10u8] + c.message)) == Ok::<
            ObjectView,
            crate::error::GitError,
        >(ObjectView::Commit(c)),
{
    let h = headers_in_order(c, keys);
    let content = h + seq![10u8] + c.message;
    let r = seq![10u8] + c.message;
    assert(content =~= h + r);
    lemma_headers_valid(c, keys);
    lemma_ascii_valid(seq![10u8]);
    valid_utf8_concat(seq![10u8], c.message);
    valid_utf8_concat(h, r);
    lemma_headers_parse(c, keys, r, empty_commit());
    let a = apply_headers(c, keys, empty_commit());
    lemma_message_step(c.message, a);
    lemma_keys_differ();
    lemma_apply_headers(c, keys, empty_commit(), tag_tree());
    lemma_apply_headers(c, keys, empty_commit(), key_parent());
    lemma_apply_headers(c, keys, empty_commit(), key_author());
    lemma_apply_headers(c, keys, empty_commit(), key_committer());
    lemma_apply_headers(c, keys, empty_commit(), key_encoding());
    assert(c.tree.len() == 0 ==> c.tree =~= Seq::<u8>::empty());
    assert(c.parent.len() == 0 ==> c.parent =~= Seq::<u8>::empty());
    assert(c.author.len() == 0 ==> c.author =~= Seq::<u8>::empty());
    assert(c.committer.len() == 0 ==> c.committer =~= Seq::<u8>::empty());
    assert(c.encoding.len() == 0 ==> c.encoding =~= Seq::<u8>::empty());
    assert(is_header_key(tag_tree()) && is_header_key(key_parent()) && is_header_key(key_author())
        && is_header_key(key_committer()) && is_header_key(key_encoding()));
    assert(c.tree.len() > 0 ==> keys.contains(tag_tree()));
    assert(c.parent.len() > 0 ==> keys.contains(key_parent()));
    assert(c.author.len() > 0 ==> keys.contains(key_author()));
    assert(c.committer.len() > 0 ==> keys.contains(key_committer()));
    assert(c.encoding.len() > 0 ==> keys.contains(key_encoding()));
    assert(a.tree == c.tree);
    assert(a.parent == c.parent);
    assert(a.author == c.author);
    assert(a.committer == c.committer);
    assert(a.encoding == c.encoding);
    assert(CommitView { message: c.message, ..a } == c);
    assert(decode_commit(content) == Ok::<CommitView, crate::error::GitError>(c));
    lemma_frame_header(tag_commit(), content);
    assert(tag_blob()[0] != tag_commit()[0] && tag_tree()[0] != tag_commit()[0]);
}

/// Every object reads back from its canonical bytes as itself (for trees and
/// commits, those whose parts survive the trip: see `round_trips`).
#[verifier::rlimit(40)]
pub proof fn lemma_decode_encode(o: ObjectView)
    requires
        round_trips(o),
        content_of(o).len() <= usize::MAX,
    ensures
        decode(encode(o)) == Ok::<ObjectView, crate::error::GitError>(o),
{
    let t = tag_of(o);
    let content = content_of(o);
    lemma_frame_header(t, content);
    let s = encode(o);
    let nul = (t.len() + 1 + decimal(content.len()).len()) as int;
    assert(s.subrange(nul + 1, s.len() as int) == content);
    assert(tag_blob()[0] != tag_tree()[0] && tag_blob()[0] != tag_commit()[0]);
    assert(tag_tree()[0] != tag_commit()[0]);
    match o {
        ObjectView::Blob(_) => {},
        ObjectView::Tree(fs) => {
            lemma_entries_round_trip(fs);
        },
        ObjectView::Commit(c) => {
            let keys = seq![tag_tree(), key_parent(), key_author(), key_committer(), key_encoding()];
            assert(headers_in_order(c, keys) + seq![10u8] + c.message =~= commit_bytes(c)) by {
                reveal_with_fuel(headers_in_order, 6);
            }
            assert forall|i: int| 0 <= i < keys.len() implies is_header_key(#[trigger] keys[i]) by {}
            assert forall|k: Seq<u8>| is_header_key(k) && field_of(c, k).len() > 0 implies keys.contains(
                k,
            ) by {
                if k == tag_tree() {
                    assert(keys[0] == k);
                } else if k == key_parent() {
                    assert(keys[1] == k);
                } else if k == key_author() {
                    assert(keys[2] == k);
                } else if k == key_committer() {
                    assert(keys[3] == k);
                } else {
                    assert(keys[4] == k);
                }
            }
            lemma_commit_any_order(c, keys);
        },
    }
}

} // verus!
