//! Selecting a part of a noun by its tree address.
//!
//! Address 1 is the noun itself. Below a cell at address `n`, its left half
//! is at `2n` and its right half at `2n + 1`.

use crate::atom::le_value;
use crate::atom::lemma_value_single;
use crate::eval::outcome;
use crate::eval::EvalError;
use crate::eval::EvalResult;
use crate::noun::Noun;
use crate::noun::Tree;
use vstd::prelude::*;

verus! {

/// The part of `t` at address `a`, where there is one. There is none at
/// address 0, nor below an atom.
pub open spec fn descend(t: Tree, a: nat) -> Option<Tree>
    decreases a,
{
    if a == 0 {
        None
    } else if a == 1 {
        Some(t)
    } else {
        match descend(t, a / 2) {
            Some(Tree::Cell(left, right)) => Some(
                if a % 2 == 0 {
                    *left
                } else {
                    *right
                },
            ),
            _ => None,
        }
    }
}

/// The part of `t` that the noun `a` addresses.
pub open spec fn select(t: Tree, a: Tree) -> Result<Tree, EvalError> {
    match a {
        Tree::Cell(_, _) => Err(EvalError::CellAsIndex),
        Tree::Atom(n) => match descend(t, n) {
            Some(part) => Ok(part),
            None => Err(EvalError::IndexOutOfRange),
        },
    }
}

/// 2 to the power `e`.
pub open spec fn pow2(e: nat) -> nat
    decreases e,
{
    if e == 0 {
        1
    } else {
        2 * pow2((e - 1) as nat)
    }
}

/// Address 1 selects the whole noun.
pub proof fn lemma_axis_one(t: Tree)
    ensures
        select(t, Tree::Atom(1)) == Ok::<Tree, EvalError>(t),
{
}

/// Where an address selects a cell, twice the address selects its left half
/// and twice the address plus one its right half.
pub proof fn lemma_axis_children(t: Tree, a: nat, left: Tree, right: Tree)
    requires
        descend(t, a) == Some(crate::noun::pair(left, right)),
    ensures
        descend(t, 2 * a) == Some(left),
        descend(t, 2 * a + 1) == Some(right),
{
    assert((2 * a) / 2 == a && (2 * a) % 2 == 0);
    assert((2 * a + 1) / 2 == a && (2 * a + 1) % 2 == 1);
    assert(a >= 1);
}

impl Noun {
    /// The part of this noun that `address` selects.
    pub fn axis(&self, address: &Noun) -> (r: EvalResult)
        ensures
            outcome(r) == select(self@, address@),
    {
        match address {
            Noun::Cell(_, _) => Err(EvalError::CellAsIndex),
            Noun::ByteAtom(x) => {
                let one: Vec<u8> = vec![*x];
                proof {
                    lemma_value_single(*x);
                    assert(one@ =~= seq![*x]);
                }
                self.walk(one.as_slice())
            },
            Noun::Atom(bytes) => self.walk(bytes.as_slice()),
        }
    }

    /// Follows the bits of the address below its leading 1, most significant
    /// first: 0 goes left, 1 goes right.
    #[verifier::rlimit(50)]
    fn walk(&self, path: &[u8]) -> (r: EvalResult)
        ensures
            outcome(r) == match descend(self@, le_value(path@)) {
                Some(part) => Ok::<Tree, EvalError>(part),
                None => Err(EvalError::IndexOutOfRange),
            },
    {
        let mut cur: &Noun = self;
        let mut started = false;
        let mut lost = false;
        let ghost mut p: nat = 0;
        let mut i: usize = path.len();
        proof {
            assert(path@.skip(i as int) =~= Seq::<u8>::empty());
        }
        while i > 0
            invariant
                i <= path@.len(),
                p == le_value(path@.skip(i as int)),
                started <==> p >= 1,
                !started ==> cur@ == self@ && !lost,
                started && !lost ==> descend(self@, p) == Some(cur@),
                started && lost ==> descend(self@, p) is None,
            decreases i,
        {
            i = i - 1;
            let byte: u8 = path[i];
            let w: u16 = byte as u16;
            let ghost above = p;
            let mut j: u16 = 8;
            proof {
                assert(w >> 8u16 == 0u16) by (bit_vector)
                    requires
                        w < 256u16,
                ;
                assert(path@.skip(i as int).skip(1) =~= path@.skip(i + 1));
                assert(pow2(0) == 1);
                assert(above * 1 == above);
            }
            while j > 0
                invariant
                    j <= 8,
                    w == byte as u16,
                    p == above * pow2((8 - j) as nat) + (w >> j) as nat,
                    started <==> p >= 1,
                    !started ==> cur@ == self@ && !lost,
                    started && !lost ==> descend(self@, p) == Some(cur@),
                    started && lost ==> descend(self@, p) is None,
                decreases j,
            {
                let ghost before = p;
                let ghost scale = pow2((8 - j) as nat);
                let ghost high = w >> j;
                j = j - 1;
                let bit: u16 = (w >> j) & 1;
                proof {
                    assert(bit <= 1 && (w >> j) == 2 * (w >> ((j + 1) as u16)) + bit) by (bit_vector)
                        requires
                            j < 8u16,
                            bit == (w >> j) & 1u16,
                    ;
                    assert(pow2((8 - j) as nat) == 2 * scale);
                    assert(2 * (above * scale) == above * (2 * scale)) by (nonlinear_arith);
                    p = 2 * before + bit as nat;
                    assert(p / 2 == before && p % 2 == bit as nat);
                }
                if !started {
                    if bit == 1 {
                        started = true;
                    }
                } else if !lost {
                    match cur {
                        Noun::Cell(l, r) => {
                            if bit == 0 {
                                cur = &**l;
                            } else {
                                cur = &**r;
                            }
                        },
                        _ => {
                            lost = true;
                        },
                    }
                }
            }
            proof {
                assert(pow2(8) == 256) by {
                    reveal_with_fuel(pow2, 9);
                }
                assert(w >> 0u16 == w) by (bit_vector);
                assert(p == above * 256 + byte as nat);
                let tail = path@.skip(i as int);
                assert(tail[0] == byte);
                assert(le_value(tail) == tail[0] as nat + 256 * le_value(tail.skip(1)));
            }
        }
        proof {
            assert(path@.skip(0) =~= path@);
        }
        if !started || lost {
            Err(EvalError::IndexOutOfRange)
        } else {
            Ok(cur.clone())
        }
    }
}

} // verus!
