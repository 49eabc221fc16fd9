//! Object identifiers: the SHA-1 digest of an object's canonical bytes,
//! written as forty lowercase hexadecimal digits.
use vstd::prelude::*;

verus! {

broadcast use vstd::seq::group_seq_axioms;

/// The SHA-1 digest of `data`.
pub uninterp spec fn sha1_of(data: Seq<u8>) -> Seq<u8>;

/// Relies on sha1's `Sha1::digest`: the SHA-1 digest of the input, which
/// the crate returns as an array of twenty bytes.
#[verifier::external_body]
fn sha1_digest(data: &[u8]) -> (r: Vec<u8>)
    ensures
        r@ == sha1_of(data@),
        r@.len() == 20,
{
    <sha1::Sha1 as sha1::Digest>::digest(data).to_vec()
}

/// The sixteen lowercase hexadecimal digits.
pub open spec fn hex_digits() -> Seq<char> {
    seq!['0', '1', '2', '3', '4', '5', '6', '7', '8', '9', 'a', 'b', 'c', 'd', 'e', 'f']
}

/// Two lowercase hexadecimal digits per byte, high nibble first.
pub open spec fn hex_chars(data: Seq<u8>) -> Seq<char>
    decreases data.len(),
{
    if data.len() == 0 {
        seq![]
    } else {
        seq![hex_digits()[(data[0] / 16) as int], hex_digits()[(data[0] % 16) as int]] + hex_chars(data.drop_first())
    }
}

/// Relies on `hex::encode`: two lowercase hexadecimal digits for each byte,
/// high nibble first.
#[verifier::external_body]
fn hex_encode(data: &[u8]) -> (r: String)
    ensures
        r@ == hex_chars(data@),
{
    hex::encode(data)
}

/// The identifier of an object whose canonical bytes are `data`.
pub open spec fn hash_of(data: Seq<u8>) -> Seq<char> {
    hex_chars(sha1_of(data))
}

/// The identifier of the canonical bytes `s`.
pub fn hash(s: &[u8]) -> (r: String)
    ensures
        r@ == hash_of(s@),
        r@.len() == 40,
{
    let digest = sha1_digest(s);
    let r = hex_encode(digest.as_slice());
    proof {
        lemma_hex_chars_len(digest@);
    }
    r
}

/// Hex text written for raw bytes, as a `String`.
pub fn to_hex(data: &[u8]) -> (r: String)
    ensures
        r@ == hex_chars(data@),
        r@.len() == 2 * data@.len(),
{
    let r = hex_encode(data);
    proof {
        lemma_hex_chars_len(data@);
    }
    r
}

pub proof fn lemma_hex_chars_len(data: Seq<u8>)
    ensures
        hex_chars(data).len() == 2 * data.len(),
    decreases data.len(),
{
    if data.len() > 0 {
        lemma_hex_chars_len(data.drop_first());
    }
}

/// The value of a lowercase hexadecimal digit, if `c` is one.
pub open spec fn hex_value(c: char) -> Option<u8> {
    if '0' <= c <= '9' {
        Some((c as u32 - 48) as u8)
    } else if 'a' <= c <= 'f' {
        Some((c as u32 - 87) as u8)
    } else {
        None
    }
}

/// Whether `s` is lowercase hexadecimal text of whole bytes.
pub open spec fn is_lower_hex(s: Seq<char>) -> bool {
    &&& s.len() % 2 == 0
    &&& forall|i: int| 0 <= i < s.len() ==> (#[trigger] hex_value(s[i])) is Some
}

/// The bytes that lowercase hexadecimal text stands for.
pub open spec fn unhex(s: Seq<char>) -> Seq<u8>
    decreases s.len(),
{
    if s.len() < 2 {
        seq![]
    } else {
        seq![(hex_value(s[0])->0 * 16 + hex_value(s[1])->0) as u8] + unhex(s.subrange(2, s.len() as int))
    }
}

pub proof fn lemma_unhex_len(s: Seq<char>)
    requires
        s.len() % 2 == 0,
    ensures
        unhex(s).len() * 2 == s.len(),
    decreases s.len(),
{
    if s.len() >= 2 {
        lemma_unhex_len(s.subrange(2, s.len() as int));
    }
}

/// Writing the bytes of lowercase hex text as hex gives the text back.
pub proof fn lemma_hex_round_trip(s: Seq<char>)
    requires
        is_lower_hex(s),
    ensures
        hex_chars(unhex(s)) == s,
    decreases s.len(),
{
    if s.len() >= 2 {
        let t = s.subrange(2, s.len() as int);
        assert(is_lower_hex(t)) by {
            assert forall|i: int| 0 <= i < t.len() implies (#[trigger] hex_value(t[i])) is Some by {
                assert(t[i] == s[i + 2]);
                assert(hex_value(s[i + 2]) is Some);
            }
        }
        lemma_hex_round_trip(t);
        assert(hex_value(s[0]) is Some);
        assert(hex_value(s[1]) is Some);
        let hi = hex_value(s[0])->0;
        let lo = hex_value(s[1])->0;
        let b = (hi * 16 + lo) as u8;
        assert(b / 16 == hi && b % 16 == lo);
        assert(hex_digits()[hi as int] == s[0]);
        assert(hex_digits()[lo as int] == s[1]);
        let u = unhex(s);
        assert(u.drop_first() =~= unhex(t));
        assert(hex_chars(u) =~= s);
    } else {
        assert(s.len() == 0);
        assert(s =~= Seq::<char>::empty());
    }
}

/// The value of one lowercase hexadecimal digit.
fn hex_digit_value(c: char) -> (r: Option<u8>)
    ensures
        r == hex_value(c),
{
    if '0' <= c && c <= '9' {
        Some((c as u32 - 48) as u8)
    } else if 'a' <= c && c <= 'f' {
        Some((c as u32 - 87) as u8)
    } else {
        None
    }
}

/// The bytes written as `s` in lowercase hexadecimal, or `None` when `s` is
/// not such text.
pub fn from_hex(s: &str) -> (r: Option<Vec<u8>>)
    ensures
        r is Some <==> is_lower_hex(s@),
        r matches Some(b) ==> b@ == unhex(s@),
{
    let n = s.unicode_len();
    if n % 2 != 0 {
        return None;
    }
    let mut out: Vec<u8> = Vec::new();
    let mut i: usize = 0;
    assert(s@.subrange(0, n as int) =~= s@);
    assert(out@ + unhex(s@) =~= unhex(s@));
    while i < n
        invariant
            n == s@.len(),
            n % 2 == 0,
            i <= n,
            i % 2 == 0,
            forall|j: int| 0 <= j < i ==> (#[trigger] hex_value(s@[j])) is Some,
            unhex(s@) == out@ + unhex(s@.subrange(i as int, n as int)),
        decreases n - i,
    {
        let hi = hex_digit_value(s.get_char(i));
        let lo = hex_digit_value(s.get_char(i + 1));
        match (hi, lo) {
            (Some(h), Some(l)) => {
                let ghost rest = s@.subrange(i as int, n as int);
                assert(rest.subrange(2, rest.len() as int) =~= s@.subrange(i + 2, n as int));
                out.push(h * 16 + l);
                i += 2;
                assert forall|j: int| 0 <= j < i implies (#[trigger] hex_value(s@[j])) is Some by {
                    if j == i - 1 {
                        assert(hex_value(s@[j]) == lo);
                    } else if j == i - 2 {
                        assert(hex_value(s@[j]) == hi);
                    }
                }
            },
            _ => {
                proof {
                    if hi is None {
                        assert(hex_value(s@[i as int]) is None);
                    } else {
                        assert(hex_value(s@[i + 1]) is None);
                    }
                }
                return None;
            },
        }
    }
    assert(s@.subrange(n as int, n as int) =~= Seq::<char>::empty());
    Some(out)
}

} // verus!
