//! The byte encoding of nouns.
//!
//! An atom is the tag 0, the length of its canonical bytes as two bytes,
//! least significant first, and those bytes. A cell is the tag 1, the
//! encoding of its left half and the encoding of its right half. The same
//! value always gives the same bytes, however the noun is held in memory.

use crate::atom::le_bytes;
use crate::atom::lemma_significant;
use crate::atom::significant_len;
use crate::noun::Noun;
use crate::noun::Tree;
use vstd::prelude::*;
use vstd::slice::slice_subrange;

verus! {

#[derive(Debug, Clone, Copy, PartialEq, Eq, Structural)]
pub enum SerializationError {
    /// An atom has more bytes than its length field can count.
    OverlongAtom,
    /// The encoding is longer than the maximum given.
    MaximumLengthExceeded,
}

/// The most bytes that an atom's length field can count.
pub const MAX_ATOM_BYTES: usize = 0xffff;

/// The two bytes of an atom's length field.
pub open spec fn length_field(len: nat) -> Seq<u8> {
    seq![(len % 256) as u8, (len / 256 % 256) as u8]
}

/// The encoding of a value.
pub open spec fn encode(t: Tree) -> Seq<u8>
    decreases t,
{
    match t {
        Tree::Atom(n) => seq![0u8] + length_field(le_bytes(n).len()) + le_bytes(n),
        Tree::Cell(left, right) => seq![1u8] + encode(*left) + encode(*right),
    }
}

/// Whether every atom of a value is short enough for the length field.
pub open spec fn fits(t: Tree) -> bool
    decreases t,
{
    match t {
        Tree::Atom(n) => le_bytes(n).len() <= MAX_ATOM_BYTES,
        Tree::Cell(left, right) => fits(*left) && fits(*right),
    }
}

/// What is left of `room` after `used`; nothing, where more was used.
pub open spec fn spare(room: nat, used: nat) -> nat {
    if used <= room {
        (room - used) as nat
    } else {
        0
    }
}

/// What serializing a value into `room` bytes gives. The value is written
/// left to right, and the first atom that is too long, or the first byte
/// that finds no room, ends it.
pub open spec fn emit(t: Tree, room: nat) -> Result<Seq<u8>, SerializationError>
    decreases t,
{
    match t {
        Tree::Atom(n) => if le_bytes(n).len() > MAX_ATOM_BYTES {
            Err(SerializationError::OverlongAtom)
        } else if 3 + le_bytes(n).len() > room {
            Err(SerializationError::MaximumLengthExceeded)
        } else {
            Ok(encode(t))
        },
        Tree::Cell(left, right) => if room < 1 {
            Err(SerializationError::MaximumLengthExceeded)
        } else {
            match emit(*left, spare(room, 1)) {
                Err(e) => Err(e),
                Ok(first) => match emit(*right, spare(room, 1 + first.len())) {
                    Err(e) => Err(e),
                    Ok(second) => Ok(seq![1u8] + first + second),
                },
            }
        },
    }
}

/// Serializing succeeds exactly when every atom fits its length field and
/// the encoding fits the room, and then it gives the encoding.
pub proof fn lemma_emit(t: Tree, room: nat)
    ensures
        emit(t, room) is Ok <==> fits(t) && encode(t).len() <= room,
        emit(t, room) matches Ok(bytes) ==> bytes == encode(t),
    decreases t,
{
    match t {
        Tree::Atom(n) => {},
        Tree::Cell(left, right) => {
            lemma_emit(*left, spare(room, 1));
            if room >= 1 {
                if let Ok(first) = emit(*left, spare(room, 1)) {
                    lemma_emit(*right, spare(room, 1 + first.len()));
                }
            }
        },
    }
}

/// The bytes depend on the value alone: two nouns that hold one value, in
/// whatever form, serialize alike.
pub proof fn lemma_encoding_by_value(a: Noun, b: Noun, room: nat)
    requires
        a@ == b@,
    ensures
        emit(a@, room) == emit(b@, room),
        encode(a@) == encode(b@),
{
}

/// Writes the encoding of `noun` at the end of `out`, as long as `out`
/// stays within `max_len` bytes.
#[verifier::rlimit(50)]
fn write(noun: &Noun, out: &mut Vec<u8>, max_len: usize) -> (r: Result<(), SerializationError>)
    requires
        old(out)@.len() <= max_len,
    ensures
        match emit(noun@, (max_len - old(out)@.len()) as nat) {
            Ok(bytes) => r is Ok && final(out)@ == old(out)@ + bytes,
            Err(e) => r == Err::<(), SerializationError>(e),
        },
    decreases noun,
{
    let ghost start = out@;
    let ghost room = (max_len - start.len()) as nat;
    match noun {
        Noun::ByteAtom(x) => {
            if *x == 0 {
                proof {
                    assert(le_bytes(0) =~= Seq::<u8>::empty());
                }
                if max_len - out.len() < 3 {
                    return Err(SerializationError::MaximumLengthExceeded);
                }
                out.push(0);
                out.push(0);
                out.push(0);
                assert(out@ =~= start + encode(noun@));
            } else {
                proof {
                    let n = *x as nat;
                    assert(le_bytes(n / 256) =~= Seq::<u8>::empty());
                    assert(le_bytes(n) =~= seq![*x]);
                }
                if max_len - out.len() < 4 {
                    return Err(SerializationError::MaximumLengthExceeded);
                }
                out.push(0);
                out.push(1);
                out.push(0);
                out.push(*x);
                assert(out@ =~= start + encode(noun@));
            }
            Ok(())
        },
        Noun::Atom(bytes) => {
            let k: usize = significant_len(bytes.as_slice());
            proof {
                lemma_significant(bytes@);
            }
            if k > MAX_ATOM_BYTES {
                return Err(SerializationError::OverlongAtom);
            }
            if max_len - out.len() < 3 + k {
                return Err(SerializationError::MaximumLengthExceeded);
            }
            out.push(0);
            out.push((k % 256) as u8);
            out.push((k / 256) as u8);
            out.extend_from_slice(slice_subrange(bytes.as_slice(), 0, k));
            assert(bytes@.subrange(0, k as int) =~= bytes@.take(k as int));
            assert(out@ =~= start + encode(noun@));
            Ok(())
        },
        Noun::Cell(left, right) => {
            if max_len - out.len() < 1 {
                return Err(SerializationError::MaximumLengthExceeded);
            }
            out.push(1);
            proof {
                lemma_emit((**left)@, spare(room, 1));
            }
            match write(&**left, out, max_len) {
                Err(e) => Err(e),
                Ok(()) => {
                    let ghost first = emit((**left)@, spare(room, 1))->Ok_0;
                    proof {
                        lemma_emit((**right)@, spare(room, 1 + first.len()));
                    }
                    match write(&**right, out, max_len) {
                        Err(e) => Err(e),
                        Ok(()) => {
                            let ghost second = emit((**right)@, spare(room, 1 + first.len()))->Ok_0;
                            assert(out@ =~= start + (seq![1u8] + first + second));
                            Ok(())
                        },
                    }
                },
            }
        },
    }
}

/// The encoding of `noun`, where it takes no more than `max_len` bytes.
pub fn serialize(noun: &Noun, max_len: usize) -> (r: Result<Vec<u8>, SerializationError>)
    ensures
        match emit(noun@, max_len as nat) {
            Ok(bytes) => r matches Ok(out) && out@ == bytes,
            Err(e) => r matches Err(x) && x == e,
        },
        r is Ok <==> fits(noun@) && encode(noun@).len() <= max_len,
        r matches Ok(out) ==> out@ == encode(noun@),
{
    let mut out: Vec<u8> = Vec::new();
    proof {
        lemma_emit(noun@, max_len as nat);
    }
    match write(noun, &mut out, max_len) {
        Ok(()) => {
            assert(out@ =~= emit(noun@, max_len as nat)->Ok_0);
            Ok(out)
        },
        Err(e) => Err(e),
    }
}

} // verus!
