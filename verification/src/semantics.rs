//! What reduction means.
//!
//! `reduce` is the reducer as a function: from a subject, a formula, a
//! budget of ticks and the replies of the storage to the result, the ticks
//! spent and the requests made. The storage is outside this library, so its
//! replies are an input here: whatever it answers, `reduce` says what
//! follows.

use crate::atom::le_bytes;
use crate::atom::le_value;
use crate::axis::select;
use crate::deserialize::decoded;
use crate::digest::blake2b_512;
use crate::digest::key_of;
use crate::eval::EvalError;
use crate::noun::loobean;
use crate::noun::pair;
use crate::noun::Tree;
use crate::opcode::AXIS;
use crate::opcode::CALL;
use crate::opcode::COMPOSE;
use crate::opcode::DEFINE;
use crate::opcode::HASH;
use crate::opcode::IF;
use crate::opcode::INCREMENT;
use crate::opcode::IS_CELL;
use crate::opcode::IS_EQUAL;
use crate::opcode::LITERAL;
use crate::opcode::RECURSE;
use crate::opcode::RETRIEVE_BY_HASH;
use crate::opcode::STORE_BY_HASH;
use crate::serialize::emit;
use crate::serialize::spare;
use crate::serialize::SerializationError;
use vstd::prelude::*;

verus! {

/// The most bytes that a noun may serialize to when it is hashed or stored.
pub const MAX_SERIALIZED_BYTES: usize = 1_000_000;

/// The ticks that hashing charges on top of one per byte.
pub const HASH_BASE_TICKS: u64 = 20;

/// What the storage answers to a request. To a load: the stored bytes, or
/// nothing. To a store it has nothing to say, and what stands here for it
/// is not read.
pub type Reply = Option<Seq<u8>>;

/// What the reducer asks of the storage.
pub enum Request {
    Load(Seq<u8>),
    Store(Seq<u8>, Seq<u8>),
}

/// The account of a reduction, or of a part of one.
pub struct Run {
    /// What it came to.
    pub result: Result<Tree, EvalError>,
    /// The ticks it charged.
    pub spent: nat,
    /// The ticks charged when the budget was last tested; 0 where it never
    /// was. What hashing charges comes after its test, so `spent` may be
    /// more.
    pub peak: nat,
    /// The requests it made, in order.
    pub requests: Seq<Request>,
}

/// One step of a reduction: its account, and where it goes on.
pub struct Step {
    pub run: Run,
    /// The subject and formula to go on with; none, where `run.result` is
    /// the result.
    pub tail: Option<(Tree, Tree)>,
}

impl Run {
    /// This account followed by `next`.
    pub open spec fn followed_by(self, next: Run) -> Run {
        Run {
            result: next.result,
            spent: self.spent + next.spent,
            peak: if next.peak == 0 {
                self.peak
            } else {
                self.spent + next.peak
            },
            requests: self.requests + next.requests,
        }
    }
}

impl Run {
    /// Whether this account ends with the budget used up.
    pub open spec fn out_of_ticks(self) -> bool {
        self.result == Err::<Tree, EvalError>(EvalError::TickLimitExceeded)
    }
}

/// The account of nothing done.
pub open spec fn idle() -> Run {
    Run { result: Ok(Tree::Atom(0)), spent: 0, peak: 0, requests: Seq::empty() }
}

/// The account of the tick that every step starts with.
pub open spec fn tick() -> Run {
    Run { result: Ok(Tree::Atom(0)), spent: 1, peak: 1, requests: Seq::empty() }
}

/// The account of a step that found the budget used up.
pub open spec fn exhausted() -> Run {
    Run { result: Err(EvalError::TickLimitExceeded), spent: 1, peak: 1, requests: Seq::empty() }
}

/// A step that ends with `result` and charges nothing more.
pub open spec fn halt(result: Result<Tree, EvalError>) -> Step {
    Step { run: Run { result, spent: 0, peak: 0, requests: Seq::empty() }, tail: None }
}

/// A step that goes on with another subject and formula.
pub open spec fn go(subject: Tree, formula: Tree) -> Step {
    Step { run: idle(), tail: Some((subject, formula)) }
}

/// The reply at position `i`; nothing, past the end.
pub open spec fn reply_at(replies: Seq<Reply>, i: nat) -> Reply {
    if i < replies.len() {
        replies[i as int]
    } else {
        None
    }
}

/// The replies after the first `n`.
pub open spec fn rest(replies: Seq<Reply>, n: nat) -> Seq<Reply> {
    if n <= replies.len() {
        replies.skip(n as int)
    } else {
        Seq::empty()
    }
}

/// The formulas that a formula has evaluated against the subject before
/// anything else is done: none, one or two.
#[verifier::opaque]
pub open spec fn operands(f: Tree) -> (Option<Tree>, Option<Tree>) {
    match f {
        Tree::Atom(_) => (None, None),
        Tree::Cell(head, arg) => match *head {
            Tree::Cell(_, _) => (Some(*head), Some(*arg)),
            Tree::Atom(op) => if op == RECURSE {
                match *arg {
                    Tree::Cell(b, c) => (Some(*b), Some(*c)),
                    Tree::Atom(_) => (None, None),
                }
            } else if op == IS_CELL || op == INCREMENT || op == IS_EQUAL || op == HASH || op
                == STORE_BY_HASH || op == RETRIEVE_BY_HASH {
                (Some(*arg), None)
            } else if op == IF {
                match *arg {
                    Tree::Cell(b, branches) => match *branches {
                        Tree::Cell(_, _) => (Some(*b), None),
                        Tree::Atom(_) => (None, None),
                    },
                    Tree::Atom(_) => (None, None),
                }
            } else if op == COMPOSE || op == DEFINE {
                match *arg {
                    Tree::Cell(b, _) => (Some(*b), None),
                    Tree::Atom(_) => (None, None),
                }
            } else if op == CALL {
                match *arg {
                    Tree::Cell(_, c) => (Some(*c), None),
                    Tree::Atom(_) => (None, None),
                }
            } else {
                (None, None)
            },
        },
    }
}

/// The error of the reducer for an error of the serializer.
pub open spec fn refusal(e: SerializationError) -> EvalError {
    match e {
        SerializationError::OverlongAtom => EvalError::BadArgument,
        SerializationError::MaximumLengthExceeded => EvalError::MemoryExceeded,
    }
}

/// HASH: the digest of the serialized noun, as an atom.
pub open spec fn hashed(x: Tree) -> Step {
    match emit(x, MAX_SERIALIZED_BYTES as nat) {
        Ok(bytes) => Step {
            run: Run {
                result: Ok(Tree::Atom(le_value(blake2b_512(bytes)))),
                spent: HASH_BASE_TICKS as nat + bytes.len(),
                peak: 0,
                requests: Seq::empty(),
            },
            tail: None,
        },
        Err(e) => halt(Err(refusal(e))),
    }
}

/// STORE_BY_HASH: the serialized noun goes to the storage under the key of
/// its digest.
pub open spec fn stored(x: Tree) -> Step {
    match emit(x, MAX_SERIALIZED_BYTES as nat) {
        Ok(bytes) => Step {
            run: Run {
                result: Ok(loobean(true)),
                spent: HASH_BASE_TICKS as nat + bytes.len(),
                peak: 0,
                requests: seq![Request::Store(key_of(blake2b_512(bytes)), bytes)],
            },
            tail: None,
        },
        Err(e) => halt(Err(refusal(e))),
    }
}

/// What RETRIEVE_BY_HASH makes of the storage's reply.
pub open spec fn found(reply: Reply) -> Result<Tree, EvalError> {
    match reply {
        None => Ok(loobean(false)),
        Some(bytes) => match decoded(bytes) {
            Ok(t) => Ok(pair(loobean(true), t)),
            Err(_) => Err(EvalError::StorageCorrupt),
        },
    }
}

/// RETRIEVE_BY_HASH: the storage is asked for the key of an atom's bytes.
pub open spec fn retrieved(x: Tree, reply: Reply) -> Step {
    match x {
        Tree::Atom(n) => Step {
            run: Run {
                result: found(reply),
                spent: 0,
                peak: 0,
                requests: seq![Request::Load(key_of(le_bytes(n)))],
            },
            tail: None,
        },
        Tree::Cell(_, _) => halt(Err(EvalError::BadArgument)),
    }
}

/// IF: true goes on with the first branch, false with the second.
pub open spec fn chosen(subject: Tree, condition: Tree, yes: Tree, no: Tree) -> Step {
    if condition == loobean(true) {
        go(subject, yes)
    } else if condition == loobean(false) {
        go(subject, no)
    } else {
        halt(Err(EvalError::BadIfCondition))
    }
}

/// What a formula does once its operands are evaluated to `x` and `y`.
/// Where it has fewer than two operands, what stands for the missing ones
/// is not read. `reply` is the storage's answer to the request made here,
/// if one is made.
#[verifier::opaque]
pub open spec fn verdict(s: Tree, f: Tree, x: Tree, y: Tree, reply: Reply) -> Step {
    match f {
        Tree::Atom(_) => halt(Err(EvalError::AtomicFormula)),
        Tree::Cell(head, arg) => match *head {
            Tree::Cell(_, _) => halt(Ok(pair(x, y))),
            Tree::Atom(op) => if op > 255 {
                halt(Err(EvalError::NotAnOpcode))
            } else if op == AXIS {
                halt(select(s, *arg))
            } else if op == LITERAL {
                halt(Ok(*arg))
            } else if op == RECURSE {
                match *arg {
                    Tree::Cell(_, _) => go(x, y),
                    Tree::Atom(_) => halt(Err(EvalError::BadRecurseArgument)),
                }
            } else if op == IS_CELL {
                halt(Ok(loobean(x is Cell)))
            } else if op == INCREMENT {
                match x {
                    Tree::Atom(n) => halt(Ok(Tree::Atom(n + 1))),
                    Tree::Cell(_, _) => halt(Err(EvalError::BadArgument)),
                }
            } else if op == IS_EQUAL {
                match x {
                    Tree::Cell(l, r) => halt(Ok(loobean(*l == *r))),
                    Tree::Atom(_) => halt(Err(EvalError::BadEqualsArgument)),
                }
            } else if op == IF {
                match *arg {
                    Tree::Cell(_, branches) => match *branches {
                        Tree::Cell(yes, no) => chosen(s, x, *yes, *no),
                        Tree::Atom(_) => halt(Err(EvalError::BadArgument)),
                    },
                    Tree::Atom(_) => halt(Err(EvalError::BadArgument)),
                }
            } else if op == COMPOSE {
                match *arg {
                    Tree::Cell(_, c) => go(x, *c),
                    Tree::Atom(_) => halt(Err(EvalError::BadArgument)),
                }
            } else if op == DEFINE {
                match *arg {
                    Tree::Cell(_, c) => go(pair(x, s), *c),
                    Tree::Atom(_) => halt(Err(EvalError::BadArgument)),
                }
            } else if op == CALL {
                match *arg {
                    Tree::Cell(b, _) => match select(x, *b) {
                        Ok(inner) => go(x, inner),
                        Err(e) => halt(Err(e)),
                    },
                    Tree::Atom(_) => halt(Err(EvalError::BadArgument)),
                }
            } else if op == HASH {
                hashed(x)
            } else if op == STORE_BY_HASH {
                stored(x)
            } else if op == RETRIEVE_BY_HASH {
                retrieved(x, reply)
            } else {
                halt(Err(EvalError::BadOpcode(op as u8)))
            },
        },
    }
}

/// A step from the accounts `a` and `b` of its operands: the first error
/// ends it, else the formula's verdict on what they came to.
pub open spec fn settle(s: Tree, f: Tree, a: Run, b: Run, replies: Seq<Reply>) -> Step {
    match a.result {
        Err(_) => Step { run: a, tail: None },
        Ok(x) => match b.result {
            Err(_) => Step { run: a.followed_by(b), tail: None },
            Ok(y) => {
                let v = verdict(s, f, x, y, reply_at(replies, a.requests.len() + b.requests.len()));
                Step { run: a.followed_by(b).followed_by(v.run), tail: v.tail }
            },
        },
    }
}

/// The reduction of formula `f` against subject `s` with a budget of `k`
/// ticks, where the storage answers the `i`-th request with `replies[i]`.
///
/// Every step charges one tick, and fails where that uses up the budget.
/// Then the formula's operands are evaluated, each a reduction of its own,
/// and the formula is applied to what they came to. That ends the
/// reduction with a result, or names the subject and formula of the next
/// step.
#[verifier::opaque]
pub open spec fn reduce(s: Tree, f: Tree, k: nat, replies: Seq<Reply>) -> Run
    decreases k, 0nat,
{
    if k <= 1 {
        exhausted()
    } else {
        let st = step_of(s, f, (k - 1) as nat, replies);
        let pre = tick().followed_by(st.run);
        match st.tail {
            None => pre,
            Some((s2, f2)) => pre.followed_by(
                reduce(
                    s2,
                    f2,
                    spare((k - 1) as nat, st.run.spent),
                    rest(replies, st.run.requests.len()),
                ),
            ),
        }
    }
}

/// One step, after its tick, with `j` ticks left.
#[verifier::opaque]
pub open spec fn step_of(s: Tree, f: Tree, j: nat, replies: Seq<Reply>) -> Step
    decreases j, 1nat,
{
    let ops = operands(f);
    let a = match ops.0 {
        Some(g) => reduce(s, g, j, replies),
        None => idle(),
    };
    let b = match ops.1 {
        Some(h) => reduce(s, h, spare(j, a.spent), rest(replies, a.requests.len())),
        None => idle(),
    };
    settle(s, f, a, b, replies)
}

/// The evaluation of an expression: a cell of subject and formula.
pub open spec fn evaluate(expression: Tree, tick_limit: nat, replies: Seq<Reply>) -> Run {
    match expression {
        Tree::Cell(subject, formula) => reduce(*subject, *formula, tick_limit, replies),
        Tree::Atom(_) => Run {
            result: Err(EvalError::Something),
            spent: 0,
            peak: 0,
            requests: Seq::empty(),
        },
    }
}

} // verus!
