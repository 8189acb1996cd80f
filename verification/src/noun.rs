//! The noun: an atom or a cell of two nouns.
//!
//! `Tree` is the value of a noun, the thing contracts speak of. `Noun` is
//! how a value is held in memory: subtrees are shared, and an atom may be
//! held as one byte or as a run of bytes with zero bytes at its high end.
//! Two nouns with the same `Tree` are the same noun to every operation here.

use crate::atom::byte_of;
use crate::atom::canonical_bytes;
use crate::atom::le_bytes;
use crate::atom::le_value;
use crate::atom::same_number;
use std::rc::Rc;
use vstd::prelude::*;
use vstd::std_specs::cmp::PartialEqSpecImpl;

verus! {

/// The value of a noun: a natural number, or an ordered pair of values.
pub enum Tree {
    Atom(nat),
    Cell(Box<Tree>, Box<Tree>),
}

/// The cell of two values.
pub open spec fn pair(left: Tree, right: Tree) -> Tree {
    Tree::Cell(Box::new(left), Box::new(right))
}

/// The truth value of the calculus: atom 0 is true, atom 1 is false.
pub open spec fn loobean(b: bool) -> Tree {
    Tree::Atom(
        if b {
            0
        } else {
            1
        },
    )
}

#[derive(Debug)]
pub enum Noun {
    ByteAtom(u8),
    Atom(Rc<Vec<u8>>),
    Cell(Rc<Noun>, Rc<Noun>),
}

/// `Rc::clone`: a second pointer to the same allocation, so the same value.
#[verifier::external_body]
fn share<T>(pointer: &Rc<T>) -> (other: Rc<T>)
    ensures
        other == *pointer,
{
    Rc::clone(pointer)
}

/// `Rc::ptr_eq`: true only when both pointers lead to one allocation, and
/// then they hold one value. False says nothing.
#[verifier::external_body]
fn same_allocation<T>(a: &Rc<T>, b: &Rc<T>) -> (r: bool)
    ensures
        r ==> *a == *b,
{
    Rc::ptr_eq(a, b)
}

impl Noun {
    /// The value that this noun holds.
    pub open spec fn tree(&self) -> Tree
        decreases self,
    {
        match self {
            Noun::ByteAtom(b) => Tree::Atom(*b as nat),
            Noun::Atom(bytes) => Tree::Atom(le_value(bytes@)),
            Noun::Cell(l, r) => pair((**l).tree(), (**r).tree()),
        }
    }
}

impl View for Noun {
    type V = Tree;

    open spec fn view(&self) -> Tree {
        self.tree()
    }
}

impl Clone for Noun {
    /// A copy that shares every subtree with this noun.
    fn clone(&self) -> (res: Self)
        ensures
            res == *self,
    {
        match self {
            Noun::ByteAtom(b) => Noun::ByteAtom(*b),
            Noun::Atom(bytes) => Noun::Atom(share(bytes)),
            Noun::Cell(l, r) => Noun::Cell(share(l), share(r)),
        }
    }
}

impl Noun {
    pub fn new_cell(left: Noun, right: Noun) -> (r: Noun)
        ensures
            r@ == pair(left@, right@),
    {
        Noun::Cell(Rc::new(left), Rc::new(right))
    }

    pub fn from_bool(source: bool) -> (r: Noun)
        ensures
            r@ == loobean(source),
    {
        Noun::ByteAtom(
            if source {
                0
            } else {
                1
            },
        )
    }

    pub fn from_u8(source: u8) -> (r: Noun)
        ensures
            r@ == Tree::Atom(source as nat),
    {
        Noun::ByteAtom(source)
    }

    /// The atom that the little-endian bytes denote, held in canonical form.
    pub fn from_slice(source: &[u8]) -> (r: Noun)
        ensures
            r@ == Tree::Atom(le_value(source@)),
            r matches Noun::Atom(bytes) && bytes@ == le_bytes(le_value(source@)),
    {
        let bytes = canonical_bytes(source);
        proof {
            crate::atom::lemma_value_of_bytes(le_value(source@));
        }
        Noun::Atom(Rc::new(bytes))
    }

    /// As `from_slice`, reusing the vector.
    pub fn from_vec(source: Vec<u8>) -> (r: Noun)
        ensures
            r@ == Tree::Atom(le_value(source@)),
            r matches Noun::Atom(bytes) && bytes@ == le_bytes(le_value(source@)),
    {
        let mut bytes = source;
        let k: usize = crate::atom::significant_len(bytes.as_slice());
        proof {
            crate::atom::lemma_significant(source@);
        }
        bytes.truncate(k);
        assert(bytes@ =~= source@.take(k as int));
        Noun::Atom(Rc::new(bytes))
    }

    pub fn is_cell(&self) -> (r: bool)
        ensures
            r == (self@ is Cell),
    {
        match self {
            Noun::Cell(_, _) => true,
            _ => false,
        }
    }

    /// The atom's value, when it fits in a byte.
    pub fn as_byte(&self) -> (r: Option<u8>)
        ensures
            match r {
                Some(x) => self@ == Tree::Atom(x as nat),
                None => match self@ {
                    Tree::Atom(n) => n >= 256,
                    Tree::Cell(_, _) => true,
                },
            },
    {
        match self {
            Noun::ByteAtom(x) => Some(*x),
            Noun::Atom(bytes) => byte_of(bytes.as_slice()),
            Noun::Cell(_, _) => None,
        }
    }

    /// The atom's canonical little-endian bytes; nothing for a cell.
    pub fn atom_bytes(&self) -> (r: Option<Vec<u8>>)
        ensures
            match self@ {
                Tree::Atom(n) => r matches Some(bytes) && bytes@ == le_bytes(n),
                Tree::Cell(_, _) => r is None,
            },
    {
        match self {
            Noun::ByteAtom(x) => {
                let one: Vec<u8> = vec![*x];
                let bytes = canonical_bytes(one.as_slice());
                proof {
                    crate::atom::lemma_value_single(*x);
                    assert(one@ =~= seq![*x]);
                }
                Some(bytes)
            },
            Noun::Atom(bytes) => Some(canonical_bytes(bytes.as_slice())),
            Noun::Cell(_, _) => None,
        }
    }

    /// Both halves of a cell; nothing for an atom.
    pub fn into_cell(self) -> (r: Option<(Noun, Noun)>)
        ensures
            match self@ {
                Tree::Cell(left, right) => r matches Some(halves) && halves.0@ == *left
                    && halves.1@ == *right,
                Tree::Atom(_) => r is None,
            },
    {
        match self {
            Noun::Cell(l, r) => Some(((*l).clone(), (*r).clone())),
            _ => None,
        }
    }

    /// Both halves of a cell, borrowed; nothing for an atom.
    pub fn as_cell(&self) -> (r: Option<(&Noun, &Noun)>)
        ensures
            match self@ {
                Tree::Cell(left, right) => r matches Some(halves) && halves.0@ == *left
                    && halves.1@ == *right,
                Tree::Atom(_) => r is None,
            },
    {
        match self {
            Noun::Cell(l, r) => Some((&**l, &**r)),
            _ => None,
        }
    }

    /// Whether two nouns hold the same value, however each is held.
    pub fn same(&self, other: &Noun) -> (r: bool)
        ensures
            r == (self@ == other@),
        decreases self,
    {
        match self {
            Noun::Cell(a, b) => match other {
                Noun::Cell(x, y) => {
                    let heads = same_allocation(a, x) || (**a).same(&**x);
                    heads && (same_allocation(b, y) || (**b).same(&**y))
                },
                _ => false,
            },
            Noun::ByteAtom(a) => match other {
                Noun::ByteAtom(x) => *a == *x,
                Noun::Atom(x) => {
                    match byte_of(x.as_slice()) {
                        Some(v) => v == *a,
                        None => false,
                    }
                },
                Noun::Cell(_, _) => false,
            },
            Noun::Atom(a) => match other {
                Noun::ByteAtom(x) => {
                    match byte_of(a.as_slice()) {
                        Some(v) => v == *x,
                        None => false,
                    }
                },
                Noun::Atom(x) => same_number(a.as_slice(), x.as_slice()),
                Noun::Cell(_, _) => false,
            },
        }
    }

    /// The loobean of structural equality.
    pub fn equal(&self, other: &Noun) -> (r: Noun)
        ensures
            r@ == loobean(self@ == other@),
    {
        Noun::from_bool(self.same(other))
    }
}

impl PartialEq for Noun {
    fn eq(&self, other: &Noun) -> (r: bool) {
        self.same(other)
    }
}

impl PartialEqSpecImpl for Noun {
    open spec fn obeys_eq_spec() -> bool {
        true
    }

    open spec fn eq_spec(&self, other: &Noun) -> bool {
        self@ == other@
    }
}

impl Eq for Noun {

}

} // verus!
