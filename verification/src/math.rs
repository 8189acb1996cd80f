//! Arithmetic on atoms.

use crate::atom::le_value;
use crate::atom::lemma_value_of_bytes;
use crate::atom::lemma_value_push;
use crate::atom::pow256;
use crate::eval::EvalError;
use crate::eval::EvalResult;
use crate::noun::Noun;
use crate::noun::Tree;
use vstd::prelude::*;

verus! {

/// The number that the first `i` bytes of a run denote; all of it, where
/// the run is shorter.
pub open spec fn low_part(bytes: Seq<u8>, i: nat) -> nat {
    le_value(
        bytes.take(
            if i <= bytes.len() {
                i as int
            } else {
                bytes.len() as int
            },
        ),
    )
}

proof fn lemma_low_part_step(bytes: Seq<u8>, i: nat)
    ensures
        low_part(bytes, i + 1) == low_part(bytes, i) + (if i < bytes.len() {
            bytes[i as int] as nat
        } else {
            0
        }) * pow256(i),
{
    if i < bytes.len() {
        assert(bytes.take(i as int + 1) =~= bytes.take(i as int).push(bytes[i as int]));
        lemma_value_push(bytes.take(i as int), bytes[i as int]);
    }
}

/// The sum of two numbers, each given and returned as little-endian bytes.
pub fn add_bytes(a: &[u8], b: &[u8]) -> (out: Vec<u8>)
    ensures
        le_value(out@) == le_value(a@) + le_value(b@),
{
    let n: usize = if a.len() >= b.len() {
        a.len()
    } else {
        b.len()
    };
    let mut out: Vec<u8> = Vec::new();
    let mut carry: u16 = 0;
    let mut i: usize = 0;
    proof {
        assert(a@.take(0) =~= Seq::<u8>::empty());
        assert(b@.take(0) =~= Seq::<u8>::empty());
    }
    while i < n
        invariant
            i <= n,
            n >= a@.len(),
            n >= b@.len(),
            out@.len() == i,
            carry <= 1,
            le_value(out@) + carry * pow256(i as nat) == low_part(a@, i as nat) + low_part(
                b@,
                i as nat,
            ),
        decreases n - i,
    {
        let x: u16 = if i < a.len() {
            a[i] as u16
        } else {
            0
        };
        let y: u16 = if i < b.len() {
            b[i] as u16
        } else {
            0
        };
        let sum: u16 = x + y + carry;
        let digit: u8 = (sum % 256) as u8;
        let ghost before = out@;
        let ghost unit = pow256(i as nat);
        let ghost old_carry = carry;
        out.push(digit);
        carry = sum / 256;
        proof {
            lemma_value_push(before, digit);
            lemma_low_part_step(a@, i as nat);
            lemma_low_part_step(b@, i as nat);
            assert(pow256((i + 1) as nat) == 256 * unit);
            assert(digit * unit + carry * (256 * unit) == x * unit + y * unit + old_carry * unit)
                by (nonlinear_arith)
                requires
                    digit + 256 * carry == x + y + old_carry,
            ;
        }
        i = i + 1;
    }
    proof {
        assert(a@.take(a@.len() as int) =~= a@);
        assert(b@.take(b@.len() as int) =~= b@);
    }
    if carry > 0 {
        proof {
            lemma_value_push(out@, carry as u8);
        }
        out.push(carry as u8);
    }
    out
}

/// The sum of two atoms. A cell on either side is a bad argument.
pub fn natural_add(a: &Noun, b: &Noun) -> (r: EvalResult)
    ensures
        match (a@, b@) {
            (Tree::Atom(x), Tree::Atom(y)) => r matches Ok(sum) && sum@ == Tree::Atom(x + y),
            _ => r matches Err(e) && e == EvalError::BadArgument,
        },
{
    match a.atom_bytes() {
        None => Err(EvalError::BadArgument),
        Some(left) => match b.atom_bytes() {
            None => Err(EvalError::BadArgument),
            Some(right) => {
                proof {
                    lemma_value_of_bytes(a@->Atom_0);
                    lemma_value_of_bytes(b@->Atom_0);
                }
                Ok(Noun::from_vec(add_bytes(left.as_slice(), right.as_slice())))
            },
        },
    }
}

} // verus!
