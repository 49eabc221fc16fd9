//! Following references: a reference file holds an identifier, or `ref: `
//! and the path of another reference.
use vstd::prelude::*;
use vstd::utf8::*;

use crate::error::GitError;
use crate::text::{bytes_of, is_prefix, lemma_utf8_split, push_str, starts_with, text_of};

verus! {

broadcast use vstd::seq::group_seq_axioms;

/// The marker `ref: ` that starts an indirect reference.
pub open spec fn marker() -> Seq<u8> {
    seq![114u8, 101, 102, 58, 32]
}

/// `s` without every leading `ref: `.
pub open spec fn strip_markers(s: Seq<u8>) -> Seq<u8>
    decreases s.len(),
{
    if is_prefix(marker(), s) {
        strip_markers(s.subrange(5, s.len() as int))
    } else {
        s
    }
}

/// A character with Unicode's White_Space property, which is what
/// `char::is_whitespace` tests.
pub open spec fn is_white_space(c: char) -> bool {
    ||| '\u{9}' <= c <= '\u{d}'
    ||| c == ' '
    ||| c == '\u{85}'
    ||| c == '\u{a0}'
    ||| c == '\u{1680}'
    ||| '\u{2000}' <= c <= '\u{200a}'
    ||| c == '\u{2028}'
    ||| c == '\u{2029}'
    ||| c == '\u{202f}'
    ||| c == '\u{205f}'
    ||| c == '\u{3000}'
}

/// Text without its trailing white space.
pub open spec fn trim_end_chars(s: Seq<char>) -> Seq<char>
    decreases s.len(),
{
    if s.len() > 0 && is_white_space(s.last()) {
        trim_end_chars(s.drop_last())
    } else {
        s
    }
}

/// Relies on `str::trim_end`: the text without the trailing characters that
/// `char::is_whitespace` accepts.
#[verifier::external_body]
fn trim_end(s: &str) -> (r: String)
    ensures
        r@ == trim_end_chars(s@),
{
    s.trim_end().to_owned()
}

/// What the content of a reference file points to: the path of another
/// reference after the markers, or an identifier.
pub open spec fn ref_target(content: Seq<char>) -> Seq<char> {
    if is_prefix(marker(), encode_utf8(content)) {
        trim_end_chars(decode_utf8(strip_markers(encode_utf8(content))))
    } else {
        trim_end_chars(content)
    }
}

/// Whether the content of a reference file points to another reference.
pub open spec fn is_indirect(content: Seq<char>) -> bool {
    is_prefix(marker(), encode_utf8(content))
}

/// A walk along references, from the one asked for, remembering every
/// reference reached so that a cycle is caught.
pub struct RefWalk {
    visited: Vec<String>,
    current: String,
}

impl RefWalk {
    pub closed spec fn visited(&self) -> Seq<Seq<char>> {
        self.visited@.map_values(|s: String| s@)
    }

    pub closed spec fn current(&self) -> Seq<char> {
        self.current@
    }

    /// A walk that starts at `reference`.
    pub fn new(reference: &str) -> (r: RefWalk)
        ensures
            r.current() == reference@,
            r.visited() == seq![reference@],
    {
        let mut visited: Vec<String> = Vec::new();
        visited.push(reference.to_owned());
        let r = RefWalk { visited, current: reference.to_owned() };
        assert(r.visited() =~= seq![reference@]);
        r
    }

    /// The path of the reference to read next.
    pub fn current_ref(&self) -> (r: &str)
        ensures
            r@ == self.current(),
    {
        self.current.as_str()
    }

    /// One step, given the content of the current reference's file (`None`
    /// when it does not exist). `None` means: read the new current
    /// reference; otherwise the walk is over, with its identifier or error.
    #[verifier::rlimit(40)]
    #[verifier::loop_isolation(false)]
    pub fn step(&mut self, content: Option<&str>) -> (r: Option<Result<String, GitError>>)
        ensures
            content is None ==> (r matches Some(Err(GitError::RefNotFound(name))) && name@
                == old(self).current()),
            content is Some && !is_indirect(content->0@) ==> (r matches Some(Ok(id)) && id@
                == ref_target(content->0@)),
            content is Some && is_indirect(content->0@) && old(self).visited().contains(
                ref_target(content->0@),
            ) ==> (r matches Some(Err(GitError::RefCycle(name))) && name@ == ref_target(
                content->0@,
            )),
            content is Some && is_indirect(content->0@) && !old(self).visited().contains(
                ref_target(content->0@),
            ) ==> (r is None && final(self).current() == ref_target(content->0@)
                && final(self).visited() == old(self).visited().push(ref_target(content->0@))),
    {
        let c = match content {
            None => return Some(Err(GitError::RefNotFound(self.current.clone()))),
            Some(c) => c,
        };
        let marker_word = bytes_of([114u8, 101, 102, 58, 32]);
        assert(marker_word@ =~= marker());
        let b = c.as_bytes();
        if !starts_with(b, marker_word.as_slice()) {
            return Some(Ok(trim_end(c)));
        }
        proof {
            encode_utf8_valid_utf8(c@);
            assert(b@.subrange(0, b@.len() as int) =~= b@);
        }
        let mut pos: usize = 0;
        while b.len() - pos >= 5 && starts_with(&b[pos..b.len()], marker_word.as_slice())
            invariant
                pos <= b@.len(),
                valid_utf8(b@.subrange(pos as int, b@.len() as int)),
                strip_markers(b@) == strip_markers(b@.subrange(pos as int, b@.len() as int)),
                marker_word@ == marker(),
            decreases b@.len() - pos,
        {
            let ghost rest = b@.subrange(pos as int, b@.len() as int);
            proof {
                assert(rest.subrange(0, 5) == marker());
                assert(rest[4] == 32u8);
                lemma_utf8_split(rest, 5);
                assert(rest.subrange(5, rest.len() as int) =~= b@.subrange(
                    pos + 5,
                    b@.len() as int,
                ));
            }
            pos = pos + 5;
        }
        proof {
            let rest = b@.subrange(pos as int, b@.len() as int);
            if pos + 5 > b@.len() {
                assert(!is_prefix(marker(), rest));
            }
        }
        let stripped = text_of(&b[pos..b.len()]);
        proof {
            encode_utf8_decode_utf8(stripped@);
        }
        let target = trim_end(stripped.as_str());
        let mut i: usize = 0;
        while i < self.visited.len()
            invariant
                i <= self.visited@.len(),
                forall|j: int| 0 <= j < i ==> self.visited@[j]@ != target@,
            decreases self.visited@.len() - i,
        {
            if self.visited[i] == target {
                proof {
                    assert(self.visited()[i as int] == target@);
                }
                return Some(Err(GitError::RefCycle(target)));
            }
            i += 1;
        }
        proof {
            assert forall|j: int| 0 <= j < self.visited().len() implies self.visited()[j]
                != target@ by {
                assert(self.visited@[j]@ != target@);
            }
        }
        let ghost before = self.visited();
        self.visited.push(target.clone());
        self.current = target;
        assert(self.visited() =~= before.push(self.current@));
        None
    }
}

/// Byte-wise lexicographic order, as `str`'s `cmp` orders text.
pub open spec fn lex_le(a: Seq<u8>, b: Seq<u8>) -> bool
    decreases a.len(),
{
    if a.len() == 0 {
        true
    } else if b.len() == 0 {
        false
    } else if a[0] != b[0] {
        a[0] < b[0]
    } else {
        lex_le(a.drop_first(), b.drop_first())
    }
}

pub proof fn lemma_lex_total(a: Seq<u8>, b: Seq<u8>)
    ensures
        lex_le(a, b) || lex_le(b, a),
    decreases a.len(),
{
    if a.len() > 0 && b.len() > 0 && a[0] == b[0] {
        lemma_lex_total(a.drop_first(), b.drop_first());
    }
}

pub proof fn lemma_lex_trans(a: Seq<u8>, b: Seq<u8>, c: Seq<u8>)
    requires
        lex_le(a, b),
        lex_le(b, c),
    ensures
        lex_le(a, c),
    decreases a.len(),
{
    if a.len() > 0 && b.len() > 0 && c.len() > 0 && a[0] == b[0] && b[0] == c[0] {
        lemma_lex_trans(a.drop_first(), b.drop_first(), c.drop_first());
    }
}

/// `lex_le` on bytes.
pub fn bytes_le(a: &[u8], b: &[u8]) -> (r: bool)
    ensures
        r == lex_le(a@, b@),
{
    let mut i: usize = 0;
    assert(a@.subrange(0, a@.len() as int) =~= a@);
    assert(b@.subrange(0, b@.len() as int) =~= b@);
    while i < a.len() && i < b.len() && a[i] == b[i]
        invariant
            i <= a@.len(),
            i <= b@.len(),
            lex_le(a@, b@) == lex_le(
                a@.subrange(i as int, a@.len() as int),
                b@.subrange(i as int, b@.len() as int),
            ),
        decreases a@.len() - i,
    {
        let ghost x = a@.subrange(i as int, a@.len() as int);
        let ghost y = b@.subrange(i as int, b@.len() as int);
        assert(x.drop_first() =~= a@.subrange(i + 1, a@.len() as int));
        assert(y.drop_first() =~= b@.subrange(i + 1, b@.len() as int));
        i += 1;
    }
    if i == a.len() {
        true
    } else if i == b.len() {
        false
    } else {
        a[i] < b[i]
    }
}

/// A found reference as values: its name and its identifier.
pub open spec fn pairs_view(v: Seq<(String, String)>) -> Seq<(Seq<char>, Seq<char>)> {
    v.map_values(|p: (String, String)| (p.0@, p.1@))
}

/// Ordered by name.
pub open spec fn sorted_by_name(s: Seq<(Seq<char>, Seq<char>)>) -> bool {
    forall|i: int, j: int|
        0 <= i < j < s.len() ==> lex_le(encode_utf8(#[trigger] s[i].0), encode_utf8(#[trigger] s[j].0))
}

/// The found references ordered by name.
#[verifier::rlimit(40)]
pub fn sort_refs(found: &Vec<(String, String)>) -> (r: Vec<(String, String)>)
    ensures
        sorted_by_name(pairs_view(r@)),
        pairs_view(r@).to_multiset() == pairs_view(found@).to_multiset(),
{
    let mut sorted: Vec<(String, String)> = Vec::new();
    let mut i: usize = 0;
    assert(pairs_view(found@.subrange(0, 0)) =~= Seq::<(Seq<char>, Seq<char>)>::empty());
    assert(pairs_view(sorted@) =~= Seq::<(Seq<char>, Seq<char>)>::empty());
    while i < found.len()
        invariant
            i <= found@.len(),
            sorted_by_name(pairs_view(sorted@)),
            pairs_view(sorted@).to_multiset() == pairs_view(found@.subrange(0, i as int)).to_multiset(),
        decreases found@.len() - i,
    {
        let name = found[i].0.clone();
        let id = found[i].1.clone();
        let ghost xv = (name@, id@);
        let ghost s = pairs_view(sorted@);
        let mut j: usize = 0;
        while j < sorted.len() && bytes_le(sorted[j].0.as_str().as_bytes(), name.as_str().as_bytes())
            invariant
                j <= sorted@.len(),
                s == pairs_view(sorted@),
                forall|k: int| 0 <= k < j ==> lex_le(encode_utf8(s[k].0), encode_utf8(name@)),
            decreases sorted@.len() - j,
        {
            j += 1;
        }
        proof {
            if j < s.len() {
                assert(!lex_le(encode_utf8(s[j as int].0), encode_utf8(name@)));
                lemma_lex_total(encode_utf8(s[j as int].0), encode_utf8(name@));
            }
        }
        sorted.insert(j, (name, id));
        proof {
            let t = pairs_view(sorted@);
            assert(t =~= s.insert(j as int, xv));
            assert forall|a: int, b: int| 0 <= a < b < t.len() implies lex_le(
                encode_utf8(#[trigger] t[a].0),
                encode_utf8(#[trigger] t[b].0),
            ) by {
                if b < j {
                    assert(t[a] == s[a] && t[b] == s[b]);
                } else if b == j {
                    assert(t[a] == s[a]);
                } else if a == j {
                    assert(t[b] == s[b - 1]);
                    if b - 1 > j {
                        lemma_lex_trans(
                            encode_utf8(name@),
                            encode_utf8(s[j as int].0),
                            encode_utf8(s[b - 1].0),
                        );
                    }
                } else if a < j {
                    assert(t[a] == s[a] && t[b] == s[b - 1]);
                } else {
                    assert(t[a] == s[a - 1] && t[b] == s[b - 1]);
                }
            }
            vstd::seq_lib::to_multiset_insert(s, j as int, xv);
            let pre = pairs_view(found@.subrange(0, i as int));
            let next = pairs_view(found@.subrange(0, i + 1));
            assert(next =~= pre.push(xv));
            vstd::seq_lib::to_multiset_build(pre, xv);
        }
        i += 1;
    }
    assert(found@.subrange(0, found@.len() as int) =~= found@);
    sorted
}

/// Lines `<identifier> <name>`, one per reference.
pub open spec fn ref_lines(s: Seq<(Seq<char>, Seq<char>)>) -> Seq<u8>
    decreases s.len(),
{
    if s.len() == 0 {
        seq![]
    } else {
        ref_lines(s.drop_last()) + encode_utf8(s.last().1) + seq![32u8] + encode_utf8(s.last().0)
            + seq![10u8]
    }
}

/// Prints the found references, `(name, identifier)` each, ordered by name.
pub fn show_ref(found: &Vec<(String, String)>, stdout: &mut Vec<u8>)
    ensures
        exists|s: Seq<(Seq<char>, Seq<char>)>|
            {
                &&& sorted_by_name(s)
                &&& s.to_multiset() == pairs_view(found@).to_multiset()
                &&& final(stdout)@ == old(stdout)@ + ref_lines(s)
            },
{
    let sorted = sort_refs(found);
    let ghost start = stdout@;
    let mut i: usize = 0;
    while i < sorted.len()
        invariant
            i <= sorted@.len(),
            stdout@ == start + ref_lines(pairs_view(sorted@.subrange(0, i as int))),
        decreases sorted@.len() - i,
    {
        let ghost pre = pairs_view(sorted@.subrange(0, i as int));
        push_str(stdout, sorted[i].1.as_str());
        stdout.push(32);
        push_str(stdout, sorted[i].0.as_str());
        stdout.push(10);
        proof {
            let next = pairs_view(sorted@.subrange(0, i + 1));
            assert(next.drop_last() =~= pre);
            assert(stdout@ =~= start + ref_lines(next));
        }
        i += 1;
    }
    assert(sorted@.subrange(0, sorted@.len() as int) =~= sorted@);
}

} // verus!
