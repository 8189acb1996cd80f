//! Reading a noun back from its byte encoding.
//!
//! Only the bytes that `serialize` writes are accepted: an atom's bytes
//! must be canonical, and nothing may follow the noun. So every accepted
//! input is the encoding of exactly one value.

use crate::atom::canonical;
use crate::atom::le_bytes;
use crate::atom::le_value;
use crate::atom::lemma_bytes_canonical;
use crate::atom::lemma_bytes_of_value;
use crate::atom::lemma_value_of_bytes;
use crate::noun::pair;
use crate::noun::Noun;
use crate::noun::Tree;
use crate::serialize::emit;
use crate::serialize::encode;
use crate::serialize::fits;
use crate::serialize::lemma_emit;
use crate::serialize::length_field;
use vstd::prelude::*;
use vstd::slice::slice_subrange;

verus! {

#[derive(Debug, Clone, Copy, PartialEq, Eq, Structural)]
pub enum DeserializationError {
    /// The input ends inside a noun.
    UnexpectedEnd,
    /// A noun starts with a byte that is neither 0 nor 1.
    BadTag,
    /// An atom's most significant byte is zero.
    NonCanonicalAtom,
    /// The input goes on after the noun.
    TrailingBytes,
}

/// The value that starts at position `at` of `s`, with the number of bytes
/// it takes.
pub open spec fn parse(s: Seq<u8>, at: nat) -> Result<(Tree, nat), DeserializationError>
    decreases
            (if at < s.len() {
                s.len() - at
            } else {
                0
            }),
{
    let p = at as int;
    if at >= s.len() {
        Err(DeserializationError::UnexpectedEnd)
    } else if s[p] == 0 {
        if p + 3 > s.len() {
            Err(DeserializationError::UnexpectedEnd)
        } else {
            let len = s[p + 1] as nat + 256 * (s[p + 2] as nat);
            if p + 3 + len > s.len() {
                Err(DeserializationError::UnexpectedEnd)
            } else if len > 0 && s[p + 3 + len - 1] == 0 {
                Err(DeserializationError::NonCanonicalAtom)
            } else {
                Ok((Tree::Atom(le_value(s.subrange(p + 3, p + 3 + len))), 3 + len))
            }
        }
    } else if s[p] == 1 {
        match parse(s, at + 1) {
            Err(e) => Err(e),
            Ok((left, used_left)) => match parse(s, at + 1 + used_left) {
                Err(e) => Err(e),
                Ok((right, used_right)) => Ok((pair(left, right), 1 + used_left + used_right)),
            },
        }
    } else {
        Err(DeserializationError::BadTag)
    }
}

/// The value that `s` encodes, all of `s` and nothing more.
pub open spec fn decoded(s: Seq<u8>) -> Result<Tree, DeserializationError> {
    match parse(s, 0) {
        Err(e) => Err(e),
        Ok((t, used)) => if used == s.len() {
            Ok(t)
        } else {
            Err(DeserializationError::TrailingBytes)
        },
    }
}

/// What was parsed lies within the input, and those bytes are the encoding
/// of the value that came out.
#[verifier::rlimit(50)]
pub proof fn lemma_parse_sound(s: Seq<u8>, at: nat)
    requires
        parse(s, at) is Ok,
    ensures
        ({
            let (t, used) = parse(s, at)->Ok_0;
            &&& at + used <= s.len()
            &&& used >= 3
            &&& fits(t)
            &&& s.subrange(at as int, at as int + used) == encode(t)
        }),
    decreases
            (if at < s.len() {
                s.len() - at
            } else {
                0
            }),
{
    let (t, used) = parse(s, at)->Ok_0;
    let p = at as int;
    if s[p] == 0 {
        let len = s[p + 1] as nat + 256 * (s[p + 2] as nat);
        let body = s.subrange(p + 3, p + 3 + len);
        assert(canonical(body)) by {
            if len > 0 {
                assert(body.last() == s[p + 3 + len - 1]);
            }
        }
        lemma_bytes_of_value(body);
        assert(length_field(len) =~= seq![s[p + 1], s[p + 2]]);
        assert(s.subrange(p, p + used) =~= encode(t));
    } else {
        lemma_parse_sound(s, at + 1);
        let (left, used_left) = parse(s, at + 1)->Ok_0;
        lemma_parse_sound(s, at + 1 + used_left);
        let (right, used_right) = parse(s, at + 1 + used_left)->Ok_0;
        let mid = p + 1 + used_left;
        assert(s.subrange(p, p + used) =~= seq![1u8] + s.subrange(p + 1, mid) + s.subrange(
            mid,
            mid + used_right,
        ));
    }
}

/// Where the encoding of a value stands at position `at`, that value is
/// parsed there, whatever follows.
#[verifier::rlimit(50)]
pub proof fn lemma_parse_complete(s: Seq<u8>, at: nat, t: Tree)
    requires
        fits(t),
        at + encode(t).len() <= s.len(),
        s.subrange(at as int, at as int + encode(t).len()) == encode(t),
    ensures
        parse(s, at) == Ok::<(Tree, nat), DeserializationError>((t, encode(t).len())),
    decreases t,
{
    let e = encode(t);
    let p = at as int;
    let here = s.subrange(p, p + e.len());
    match t {
        Tree::Atom(n) => {
            let digits = le_bytes(n);
            let len = digits.len();
            assert(e.len() == 3 + len);
            assert(s[p] == here[0]);
            assert(s[p + 1] == here[1]);
            assert(s[p + 2] == here[2]);
            assert(s[p + 1] as nat + 256 * (s[p + 2] as nat) == len);
            let body = s.subrange(p + 3, p + 3 + len);
            assert(body =~= digits) by {
                assert forall|i: int| 0 <= i < len implies body[i] == digits[i] by {
                    assert(s[p + 3 + i] == here[3 + i]);
                }
            }
            lemma_bytes_canonical(n);
            lemma_value_of_bytes(n);
            if len > 0 {
                assert(s[p + 3 + len - 1] == body.last());
            }
        },
        Tree::Cell(left, right) => {
            let first = encode(*left);
            let second = encode(*right);
            assert(e =~= seq![1u8] + first + second);
            assert(s[p] == here[0]);
            assert(s.subrange(p + 1, p + 1 + first.len()) =~= first) by {
                assert forall|i: int| 0 <= i < first.len() implies s[p + 1 + i] == first[i] by {
                    assert(s[p + 1 + i] == here[1 + i]);
                }
            }
            lemma_parse_complete(s, at + 1, *left);
            let mid = p + 1 + first.len();
            assert(s.subrange(mid, mid + second.len()) =~= second) by {
                assert forall|i: int| 0 <= i < second.len() implies s[mid + i] == second[i] by {
                    assert(s[mid + i] == here[1 + first.len() + i]);
                }
            }
            lemma_parse_complete(s, at + 1 + first.len(), *right);
        },
    }
}

/// Decoding the encoding of a value gives the value back.
pub proof fn lemma_round_trip(t: Tree)
    requires
        fits(t),
    ensures
        decoded(encode(t)) == Ok::<Tree, DeserializationError>(t),
{
    let e = encode(t);
    assert(e.subrange(0, e.len() as int) =~= e);
    lemma_parse_complete(e, 0, t);
}

/// What was serialized decodes to the value that was serialized, whatever
/// room it was given.
pub proof fn lemma_serialize_round_trip(t: Tree, room: nat)
    requires
        emit(t, room) is Ok,
    ensures
        decoded(emit(t, room)->Ok_0) == Ok::<Tree, DeserializationError>(t),
{
    lemma_emit(t, room);
    lemma_round_trip(t);
}

/// What decodes to a value is the encoding of that value, so no two inputs
/// decode to the same value.
pub proof fn lemma_decoded_is_encoding(s: Seq<u8>)
    requires
        decoded(s) is Ok,
    ensures
        fits(decoded(s)->Ok_0),
        encode(decoded(s)->Ok_0) == s,
{
    lemma_parse_sound(s, 0);
    assert(s.subrange(0, s.len() as int) =~= s);
}

/// No two values that fit have the same encoding.
pub proof fn lemma_encode_injective(a: Tree, b: Tree)
    requires
        fits(a),
        fits(b),
        encode(a) == encode(b),
    ensures
        a == b,
{
    lemma_round_trip(a);
    lemma_round_trip(b);
}

/// The noun that starts at position `at`, and the position after it.
fn parse_at(bytes: &[u8], at: usize) -> (r: Result<(Noun, usize), DeserializationError>)
    requires
        at <= bytes@.len(),
    ensures
        match parse(bytes@, at as nat) {
            Ok((t, used)) => r matches Ok(found) && found.0@ == t && found.1 == at + used
                && found.1 <= bytes@.len(),
            Err(e) => r matches Err(x) && x == e,
        },
    decreases bytes@.len() - at,
{
    let total: usize = bytes.len();
    if at >= total {
        return Err(DeserializationError::UnexpectedEnd);
    }
    let tag: u8 = bytes[at];
    if tag == 0 {
        if total - at < 3 {
            return Err(DeserializationError::UnexpectedEnd);
        }
        let len: usize = bytes[at + 1] as usize + 256 * (bytes[at + 2] as usize);
        if total - at - 3 < len {
            return Err(DeserializationError::UnexpectedEnd);
        }
        if len > 0 && bytes[at + 3 + len - 1] == 0 {
            return Err(DeserializationError::NonCanonicalAtom);
        }
        let body = slice_subrange(bytes, at + 3, at + 3 + len);
        Ok((Noun::from_slice(body), at + 3 + len))
    } else if tag == 1 {
        match parse_at(bytes, at + 1) {
            Err(e) => Err(e),
            Ok((left, mid)) => {
                proof {
                    lemma_parse_sound(bytes@, (at + 1) as nat);
                }
                match parse_at(bytes, mid) {
                    Err(e) => Err(e),
                    Ok((right, end)) => Ok((Noun::new_cell(left, right), end)),
                }
            },
        }
    } else {
        Err(DeserializationError::BadTag)
    }
}

/// The noun that `bytes` encodes.
pub fn deserialize(bytes: &[u8]) -> (r: Result<Noun, DeserializationError>)
    ensures
        match decoded(bytes@) {
            Ok(t) => r matches Ok(noun) && noun@ == t,
            Err(e) => r matches Err(x) && x == e,
        },
        r matches Ok(noun) ==> fits(noun@) && encode(noun@) == bytes@,
        r is Err ==> forall|t: Tree| fits(t) ==> #[trigger] encode(t) != bytes@,
{
    proof {
        if decoded(bytes@) is Ok {
            lemma_decoded_is_encoding(bytes@);
        } else {
            assert forall|t: Tree| fits(t) implies #[trigger] encode(t) != bytes@ by {
                if encode(t) == bytes@ {
                    lemma_round_trip(t);
                }
            }
        }
    }
    match parse_at(bytes, 0) {
        Err(e) => Err(e),
        Ok((noun, end)) => {
            if end == bytes.len() {
                Ok(noun)
            } else {
                Err(DeserializationError::TrailingBytes)
            }
        },
    }
}

} // verus!
