//! The reducer.
//!
//! `eval` reduces an expression, a cell of subject and formula, within a
//! limit of ticks. Storage is reached through a `SideEffectEngine` that the
//! caller brings; nothing is assumed of what it answers. `Computation`
//! keeps, beside the ticks, a ledger of what was asked of the engine and
//! what it answered, and the contracts say that the result is what
//! `reduce` gives on those answers.

use crate::deserialize::deserialize;
use crate::digest::blake2b;
use crate::digest::DIGEST_BYTES;
use crate::digest::storage_key;
use crate::laws::first_run;
use crate::laws::lemma_followed_by_assoc;
use crate::laws::lemma_idle_first;
use crate::laws::lemma_link;
use crate::laws::lemma_no_budget;
use crate::laws::lemma_step_parts;
use crate::laws::second_run;
use crate::math::natural_add;
use crate::noun::Noun;
use crate::noun::Tree;
use crate::opcode::AXIS;
use crate::opcode::CALL;
use crate::opcode::COMPOSE;
use crate::opcode::DEFINE;
use crate::opcode::HASH;
use crate::opcode::IF;
use crate::opcode::INCREMENT;
use crate::opcode::IS_CELL;
use crate::opcode::IS_EQUAL;
use crate::opcode::LITERAL;
use crate::opcode::RECURSE;
use crate::opcode::RETRIEVE_BY_HASH;
use crate::opcode::STORE_BY_HASH;
use crate::semantics::evaluate;
use crate::semantics::found;
use crate::semantics::hashed;
use crate::semantics::idle;
use crate::semantics::operands;
use crate::semantics::reduce;
use crate::semantics::refusal;
use crate::semantics::reply_at;
use crate::semantics::retrieved;
use crate::semantics::step_of;
use crate::semantics::stored;
use crate::semantics::tick;
use crate::semantics::verdict;
use crate::semantics::Reply;
use crate::semantics::Request;
use crate::semantics::Run;
use crate::semantics::Step;
use crate::semantics::HASH_BASE_TICKS;
use crate::semantics::MAX_SERIALIZED_BYTES;
use crate::serialize::serialize;
use crate::serialize::spare;
use crate::serialize::SerializationError;
use vstd::prelude::*;

verus! {

#[derive(Debug, Clone, Copy, PartialEq, Eq, Structural)]
pub enum EvalError {
    /// The expression is an atom, not a cell of subject and formula.
    Something,
    /// An address is a cell.
    CellAsIndex,
    /// An address is 0, or leads below an atom.
    IndexOutOfRange,
    /// The head of a formula is an atom too large for an opcode.
    NotAnOpcode,
    /// The head of a formula is a byte that names no operation.
    BadOpcode(u8),
    /// The argument of RECURSE is an atom.
    BadRecurseArgument,
    /// The operand of IS_EQUAL came to an atom.
    BadEqualsArgument,
    /// An argument has the wrong shape for its operation, or holds an atom
    /// too long to serialize.
    BadArgument,
    /// The condition of IF came to neither true nor false.
    BadIfCondition,
    /// The ticks used have reached the cap.
    TickLimitExceeded,
    /// The formula is an atom.
    AtomicFormula,
    /// A noun to hash or store serializes to more than the maximum.
    MemoryExceeded,
    /// What the storage answered is no encoding of a noun.
    StorageCorrupt,
}

pub type EvalResult = Result<Noun, EvalError>;

/// What a result says, with the noun taken by its value.
pub open spec fn outcome(r: EvalResult) -> Result<Tree, EvalError> {
    match r {
        Ok(noun) => Ok(noun@),
        Err(e) => Err(e),
    }
}

/// The value of a noun that may be missing.
pub open spec fn value_of(noun: Option<Noun>) -> Option<Tree> {
    match noun {
        Some(n) => Some(n@),
        None => None,
    }
}

/// What the storage answered, as a reply.
pub open spec fn reply_of(loaded: Option<Vec<u8>>) -> Reply {
    match loaded {
        Some(bytes) => Some(bytes@),
        None => None,
    }
}

/// What the reducer needs from its surroundings. Only `load` and `store`
/// are called; what they do is the implementor's business.
pub trait SideEffectEngine {
    fn nearest_neighbor(&mut self, near: &[u8; 32]) -> [u8; 32];

    fn random(&mut self, dest: &mut [u8]);

    fn load(&mut self, key: &[u8]) -> Option<Vec<u8>>;

    fn store(&mut self, key: &[u8], value: &[u8]);

    fn send(&mut self, destination: &[u8; 32], message: &[u8], local_cost: u64);
}

/// The state of a computation as the contracts see it.
pub struct Ledger {
    /// The tick cap less the ticks used; 0 once the cap is reached.
    pub budget: nat,
    /// Every request made of the engine so far.
    pub asked: Seq<Request>,
    /// What the engine answered to each, in the same order.
    pub told: Seq<Reply>,
}

/// The replies that came in between two states.
pub open spec fn fresh(before: Ledger, after: Ledger) -> Seq<Reply> {
    after.told.skip(before.told.len() as int)
}

/// Whether `run` is the account of what happened between two states: its
/// requests were made, in order, each got its reply, and its ticks were
/// charged.
pub open spec fn accounts(before: Ledger, after: Ledger, run: Run) -> bool {
    &&& after.told == before.told + fresh(before, after)
    &&& after.asked == before.asked + run.requests
    &&& run.requests.len() == fresh(before, after).len()
    &&& after.budget == spare(before.budget, run.spent)
}

/// Whether the storage's replies `replies` lead the evaluation of
/// `expression` to `result`, and are one reply for each request it makes.
pub open spec fn explains(
    expression: Tree,
    tick_limit: nat,
    replies: Seq<Reply>,
    result: Result<Tree, EvalError>,
) -> bool {
    let run = evaluate(expression, tick_limit, replies);
    run.requests.len() == replies.len() && run.result == result
}

pub struct Computation<'a, S: 'a> {
    ticks_used: u64,
    tick_cap: u64,
    side_effector: &'a mut S,
    asked: Ghost<Seq<Request>>,
    told: Ghost<Seq<Reply>>,
}

/// How one step ends.
pub enum Flow {
    Return(EvalResult),
    Continue(Noun, Noun),
}

/// Whether `flow` is how the step `st` ends.
pub open spec fn flows(flow: Flow, st: Step) -> bool {
    match flow {
        Flow::Return(r) => st.tail is None && outcome(r) == st.run.result,
        Flow::Continue(subject, formula) => st.tail == Some((subject@, formula@)),
    }
}

/// Whether the reduction from the start, on the replies so far and `more`,
/// is the account so far and then the reduction from here on `more`.
pub open spec fn resumes(
    s0: Tree,
    f0: Tree,
    k0: nat,
    done: Seq<Reply>,
    acc: Run,
    s: Tree,
    f: Tree,
    k: nat,
    more: Seq<Reply>,
) -> bool {
    reduce(s0, f0, k0, done + more) == acc.followed_by(reduce(s, f, k, more))
}

/// Between a state and itself nothing happened.
pub proof fn lemma_accounts_none(l: Ledger)
    ensures
        accounts(l, l, idle()),
        fresh(l, l) == Seq::<Reply>::empty(),
{
    assert(fresh(l, l) =~= Seq::<Reply>::empty());
    assert(l.told + Seq::<Reply>::empty() =~= l.told);
    assert(l.asked + Seq::<Request>::empty() =~= l.asked);
}

/// Ticks charged, and nothing asked, is the account of those ticks.
pub proof fn lemma_accounts_charge(before: Ledger, after: Ledger, ticks: nat)
    requires
        after == (Ledger { budget: spare(before.budget, ticks), ..before }),
    ensures
        accounts(
            before,
            after,
            Run { result: Ok(Tree::Atom(0)), spent: ticks, peak: ticks, requests: Seq::empty() },
        ),
        fresh(before, after) == Seq::<Reply>::empty(),
{
    assert(fresh(before, after) =~= Seq::<Reply>::empty());
    assert(before.told + Seq::<Reply>::empty() =~= before.told);
    assert(before.asked + Seq::<Request>::empty() =~= before.asked);
}

/// What happened between a first state and a second, and then between the
/// second and a third, is the two accounts joined.
pub proof fn lemma_accounts_join(first: Ledger, second: Ledger, third: Ledger, a: Run, b: Run)
    requires
        accounts(first, second, a),
        accounts(second, third, b),
    ensures
        accounts(first, third, a.followed_by(b)),
        fresh(first, third) == fresh(first, second) + fresh(second, third),
{
    let early = fresh(first, second);
    let late = fresh(second, third);
    assert(third.told =~= first.told + (early + late));
    assert(fresh(first, third) =~= early + late);
    assert(third.asked =~= first.asked + (a.requests + b.requests));
}

/// The three parts of `(a b c)`; nothing for a noun of another shape.
pub fn into_triple(noun: Noun) -> (r: Option<(Noun, Noun, Noun)>)
    ensures
        match noun@ {
            Tree::Cell(a, rest) => match *rest {
                Tree::Cell(b, c) => r matches Some(parts) && parts.0@ == *a && parts.1@ == *b
                    && parts.2@ == *c,
                Tree::Atom(_) => r is None,
            },
            Tree::Atom(_) => r is None,
        },
{
    if let Some((a, bc)) = noun.into_cell() {
        if let Some((b, c)) = bc.into_cell() {
            return Some((a, b, c));
        }
    }
    None
}

/// The formulas that `formula` has evaluated first.
#[verifier::rlimit(50)]
pub fn operands_of(formula: &Noun) -> (r: (Option<Noun>, Option<Noun>))
    ensures
        value_of(r.0) == operands(formula@).0,
        value_of(r.1) == operands(formula@).1,
{
    proof {
        reveal(operands);
    }
    match formula.as_cell() {
        None => (None, None),
        Some((head, arg)) => {
            if head.is_cell() {
                return (Some(head.clone()), Some(arg.clone()));
            }
            match head.as_byte() {
                None => (None, None),
                Some(op) => {
                    if op == RECURSE {
                        match arg.as_cell() {
                            Some((b, c)) => (Some(b.clone()), Some(c.clone())),
                            None => (None, None),
                        }
                    } else if op == IS_CELL || op == INCREMENT || op == IS_EQUAL || op == HASH
                        || op == STORE_BY_HASH || op == RETRIEVE_BY_HASH {
                        (Some(arg.clone()), None)
                    } else if op == IF {
                        match arg.as_cell() {
                            Some((b, branches)) => if branches.is_cell() {
                                (Some(b.clone()), None)
                            } else {
                                (None, None)
                            },
                            None => (None, None),
                        }
                    } else if op == COMPOSE || op == DEFINE {
                        match arg.as_cell() {
                            Some((b, _)) => (Some(b.clone()), None),
                            None => (None, None),
                        }
                    } else if op == CALL {
                        match arg.as_cell() {
                            Some((_, c)) => (Some(c.clone()), None),
                            None => (None, None),
                        }
                    } else {
                        (None, None)
                    }
                },
            }
        },
    }
}

/// What RETRIEVE_BY_HASH returns for what the storage answered: false for
/// nothing, else true and the noun that the bytes encode.
pub fn unpack(loaded: Option<Vec<u8>>) -> (r: EvalResult)
    ensures
        outcome(r) == found(reply_of(loaded)),
{
    match loaded {
        None => Ok(Noun::from_bool(false)),
        Some(bytes) => match deserialize(bytes.as_slice()) {
            Ok(decoded) => Ok(Noun::new_cell(Noun::from_bool(true), decoded)),
            Err(_) => Err(EvalError::StorageCorrupt),
        },
    }
}

impl<'a, S: SideEffectEngine> Computation<'a, S> {
    /// The state of this computation.
    pub closed spec fn ledger(&self) -> Ledger {
        Ledger {
            budget: if self.ticks_used < self.tick_cap {
                (self.tick_cap - self.ticks_used) as nat
            } else {
                0
            },
            asked: self.asked@,
            told: self.told@,
        }
    }

    /// A computation that has used no tick and asked nothing.
    pub fn new(side_effector: &'a mut S, tick_cap: u64) -> (c: Self)
        ensures
            c.ledger() == (Ledger {
                budget: tick_cap as nat,
                asked: Seq::empty(),
                told: Seq::empty(),
            }),
    {
        Computation {
            ticks_used: 0,
            tick_cap,
            side_effector,
            asked: Ghost(Seq::empty()),
            told: Ghost(Seq::empty()),
        }
    }

    /// Whether the ticks used have reached the cap.
    pub fn exhausted(&self) -> (r: bool)
        ensures
            r == (self.ledger().budget == 0),
    {
        self.ticks_used >= self.tick_cap
    }

    /// Counts `ticks` more as used.
    fn charge(&mut self, ticks: u64)
        ensures
            final(self).ledger() == (Ledger {
                budget: spare(old(self).ledger().budget, ticks as nat),
                ..old(self).ledger()
            }),
    {
        if u64::MAX - self.ticks_used < ticks {
            self.ticks_used = u64::MAX;
        } else {
            self.ticks_used = self.ticks_used + ticks;
        }
    }

    /// Reduces `formula` against `subject`.
    ///
    /// The steps that end in another subject and formula are taken in a
    /// loop; only the operands of a formula are reduced by a call.
    #[verifier::rlimit(50)]
    pub fn eval_on(&mut self, subject: Noun, formula: Noun) -> (r: EvalResult)
        ensures
            ({
                let before = old(self).ledger();
                let after = final(self).ledger();
                let run = reduce(subject@, formula@, before.budget, fresh(before, after));
                accounts(before, after, run) && outcome(r) == run.result
            }),
        decreases old(self).ledger().budget, 0nat,
    {
        let ghost l0 = self.ledger();
        let ghost s0 = subject@;
        let ghost f0 = formula@;
        let ghost k0 = l0.budget;
        let mut current = subject;
        let mut pending = formula;
        let ghost mut acc = idle();
        proof {
            lemma_accounts_none(l0);
            assert forall|more: Seq<Reply>| #[trigger]
                resumes(s0, f0, k0, fresh(l0, l0), acc, s0, f0, k0, more) by {
                assert(fresh(l0, l0) + more =~= more);
                lemma_idle_first(reduce(s0, f0, k0, more));
            }
        }
        loop
            invariant
                accounts(l0, self.ledger(), acc),
                k0 == l0.budget,
                l0 == old(self).ledger(),
                s0 == subject@,
                f0 == formula@,
                forall|more: Seq<Reply>| #[trigger]
                    resumes(
                        s0,
                        f0,
                        k0,
                        fresh(l0, self.ledger()),
                        acc,
                        current@,
                        pending@,
                        self.ledger().budget,
                        more,
                    ),
            decreases self.ledger().budget,
        {
            let ghost before = self.ledger();
            let ghost done = fresh(l0, before);
            let ghost k = before.budget;
            let ghost s = current@;
            let ghost f = pending@;
            let ghost none = Seq::<Reply>::empty();
            self.charge(1);
            let ghost l1 = self.ledger();
            proof {
                lemma_accounts_charge(before, l1, 1);
                lemma_accounts_join(l0, before, l1, acc, tick());
            }
            if self.exhausted() {
                proof {
                    lemma_no_budget(s, f, k, none);
                    assert(resumes(s0, f0, k0, done, acc, s, f, k, none));
                    assert(done + none =~= done);
                }
                return Err(EvalError::TickLimitExceeded);
            }
            let flow = self.step(current, pending);
            let ghost l2 = self.ledger();
            let ghost new = fresh(l1, l2);
            let ghost st = step_of(s, f, l1.budget, new);
            let ghost pre = tick().followed_by(st.run);
            proof {
                lemma_accounts_join(l0, l1, l2, acc.followed_by(tick()), st.run);
                lemma_followed_by_assoc(acc, tick(), st.run);
                assert(fresh(l0, l1) =~= done);
            }
            match flow {
                Flow::Return(r) => {
                    proof {
                        assert(resumes(s0, f0, k0, done, acc, s, f, k, new));
                        lemma_link(s, f, k, new, none);
                        assert(new + none =~= new);
                    }
                    return r;
                },
                Flow::Continue(next_subject, next_formula) => {
                    proof {
                        let k2 = spare(l1.budget, st.run.spent);
                        let s2 = next_subject@;
                        let f2 = next_formula@;
                        let acc2 = acc.followed_by(pre);
                        let done2 = done + new;
                        assert forall|more: Seq<Reply>| #[trigger]
                            resumes(s0, f0, k0, done2, acc2, s2, f2, k2, more) by {
                            assert(resumes(s0, f0, k0, done, acc, s, f, k, new + more));
                            assert(done + (new + more) =~= done2 + more);
                            lemma_link(s, f, k, new, more);
                            lemma_followed_by_assoc(acc, pre, reduce(s2, f2, k2, more));
                        }
                        acc = acc2;
                    }
                    current = next_subject;
                    pending = next_formula;
                },
            }
        }
    }

    /// One step, after its tick: evaluates the operands of `formula` and
    /// applies it.
    #[verifier::rlimit(50)]
    fn step(&mut self, subject: Noun, formula: Noun) -> (flow: Flow)
        ensures
            ({
                let before = old(self).ledger();
                let after = final(self).ledger();
                let st = step_of(subject@, formula@, before.budget, fresh(before, after));
                accounts(before, after, st.run) && flows(flow, st)
            }),
        decreases old(self).ledger().budget, 1nat,
    {
        let ghost l0 = self.ledger();
        let ghost j = l0.budget;
        let ghost s = subject@;
        let ghost f = formula@;
        let ghost none = Seq::<Reply>::empty();
        let ops = operands_of(&formula);
        proof {
            lemma_accounts_none(l0);
        }
        let x = match ops.0 {
            None => Noun::from_u8(0),
            Some(g) => match self.eval_on(subject.clone(), g) {
                Ok(x) => x,
                Err(e) => {
                    proof {
                        let first = fresh(l0, self.ledger());
                        lemma_step_parts(s, f, j, first, none, none);
                        assert(first + none + none =~= first);
                    }
                    return Flow::Return(Err(e));
                },
            },
        };
        let ghost l1 = self.ledger();
        let ghost first = fresh(l0, l1);
        let ghost a = first_run(s, f, j, first);
        proof {
            lemma_accounts_none(l1);
            assert(accounts(l0, l1, a));
            assert(a.result == Ok::<Tree, EvalError>(x@));
        }
        let y = match ops.1 {
            None => Noun::from_u8(0),
            Some(h) => match self.eval_on(subject.clone(), h) {
                Ok(y) => y,
                Err(e) => {
                    proof {
                        let l2 = self.ledger();
                        let second = fresh(l1, l2);
                        let b = second_run(s, f, j, a.spent, second);
                        lemma_accounts_join(l0, l1, l2, a, b);
                        lemma_step_parts(s, f, j, first, second, none);
                        assert(first + second + none =~= first + second);
                    }
                    return Flow::Return(Err(e));
                },
            },
        };
        let ghost l2 = self.ledger();
        let ghost second = fresh(l1, l2);
        let ghost b = second_run(s, f, j, a.spent, second);
        proof {
            assert(accounts(l1, l2, b));
            assert(b.result == Ok::<Tree, EvalError>(y@));
            lemma_accounts_join(l0, l1, l2, a, b);
        }
        let flow = self.conclude(&subject, &formula, x, y);
        proof {
            let l3 = self.ledger();
            let last = fresh(l2, l3);
            let v = verdict(s, f, x@, y@, reply_at(last, 0));
            lemma_accounts_join(l0, l2, l3, a.followed_by(b), v.run);
            lemma_step_parts(s, f, j, first, second, last);
        }
        flow
    }

    /// Applies `formula` to `subject`, once its operands came to `x` and
    /// `y`.
    #[verifier::rlimit(50)]
    fn conclude(&mut self, subject: &Noun, formula: &Noun, x: Noun, y: Noun) -> (flow: Flow)
        ensures
            ({
                let before = old(self).ledger();
                let after = final(self).ledger();
                let v = verdict(subject@, formula@, x@, y@, reply_at(fresh(before, after), 0));
                accounts(before, after, v.run) && flows(flow, v)
            }),
    {
        let ghost l0 = self.ledger();
        proof {
            reveal(verdict);
            lemma_accounts_none(l0);
        }
        match formula.as_cell() {
            None => Flow::Return(Err(EvalError::AtomicFormula)),
            Some((head, arg)) => {
                if head.is_cell() {
                    return Flow::Return(Ok(Noun::new_cell(x, y)));
                }
                let opcode = match head.as_byte() {
                    None => {
                        return Flow::Return(Err(EvalError::NotAnOpcode));
                    },
                    Some(op) => op,
                };
                if opcode == AXIS {
                    Flow::Return(subject.axis(arg))
                } else if opcode == LITERAL {
                    Flow::Return(Ok(arg.clone()))
                } else if opcode == RECURSE {
                    if arg.is_cell() {
                        Flow::Continue(x, y)
                    } else {
                        Flow::Return(Err(EvalError::BadRecurseArgument))
                    }
                } else if opcode == IS_CELL {
                    Flow::Return(Ok(Noun::from_bool(x.is_cell())))
                } else if opcode == INCREMENT {
                    Flow::Return(natural_add(&x, &Noun::from_u8(1)))
                } else if opcode == IS_EQUAL {
                    match x.as_cell() {
                        Some((lhs, rhs)) => Flow::Return(Ok(lhs.equal(rhs))),
                        None => Flow::Return(Err(EvalError::BadEqualsArgument)),
                    }
                } else if opcode == IF {
                    match into_triple(arg.clone()) {
                        Some((_, yes, no)) => match x.as_byte() {
                            Some(0) => Flow::Continue(subject.clone(), yes),
                            Some(1) => Flow::Continue(subject.clone(), no),
                            _ => Flow::Return(Err(EvalError::BadIfCondition)),
                        },
                        None => Flow::Return(Err(EvalError::BadArgument)),
                    }
                } else if opcode == COMPOSE {
                    match arg.as_cell() {
                        Some((_, c)) => Flow::Continue(x, c.clone()),
                        None => Flow::Return(Err(EvalError::BadArgument)),
                    }
                } else if opcode == DEFINE {
                    match arg.as_cell() {
                        Some((_, c)) => Flow::Continue(
                            Noun::new_cell(x, subject.clone()),
                            c.clone(),
                        ),
                        None => Flow::Return(Err(EvalError::BadArgument)),
                    }
                } else if opcode == CALL {
                    match arg.as_cell() {
                        Some((b, _)) => match x.axis(b) {
                            Ok(inner) => Flow::Continue(x, inner),
                            Err(e) => Flow::Return(Err(e)),
                        },
                        None => Flow::Return(Err(EvalError::BadArgument)),
                    }
                } else if opcode == HASH {
                    Flow::Return(self.hash_noun(x))
                } else if opcode == STORE_BY_HASH {
                    Flow::Return(self.store_noun(x))
                } else if opcode == RETRIEVE_BY_HASH {
                    Flow::Return(self.retrieve(x))
                } else {
                    Flow::Return(Err(EvalError::BadOpcode(opcode)))
                }
            },
        }
    }

    /// HASH: the digest of the serialized noun, as an atom.
    fn hash_noun(&mut self, target: Noun) -> (r: EvalResult)
        ensures
            accounts(old(self).ledger(), final(self).ledger(), hashed(target@).run),
            fresh(old(self).ledger(), final(self).ledger()).len() == 0,
            outcome(r) == hashed(target@).run.result,
    {
        let ghost l0 = self.ledger();
        proof {
            lemma_accounts_none(l0);
        }
        match self.serialize(target) {
            Err(e) => Err(e),
            Ok(buffer) => {
                self.charge(HASH_BASE_TICKS + buffer.len() as u64);
                let digest = blake2b(buffer.as_slice(), DIGEST_BYTES);
                Ok(Noun::from_slice(digest.as_slice()))
            },
        }
    }

    /// STORE_BY_HASH: hands the serialized noun to the engine, under the
    /// key of its digest.
    fn store_noun(&mut self, target: Noun) -> (r: EvalResult)
        ensures
            accounts(old(self).ledger(), final(self).ledger(), stored(target@).run),
            outcome(r) == stored(target@).run.result,
    {
        let ghost l0 = self.ledger();
        proof {
            lemma_accounts_none(l0);
        }
        match self.serialize(target) {
            Err(e) => Err(e),
            Ok(buffer) => {
                self.charge(HASH_BASE_TICKS + buffer.len() as u64);
                let digest = blake2b(buffer.as_slice(), DIGEST_BYTES);
                let key = storage_key(digest.as_slice());
                self.side_effector.store(key.as_slice(), buffer.as_slice());
                proof {
                    self.asked@ = self.asked@.push(Request::Store(key@, buffer@));
                    self.told@ = self.told@.push(None);
                    let l1 = self.ledger();
                    assert(fresh(l0, l1) =~= seq![None::<Seq<u8>>]);
                    assert(l1.told =~= l0.told + fresh(l0, l1));
                    assert(l1.asked =~= l0.asked + stored(target@).run.requests);
                }
                Ok(Noun::from_bool(true))
            },
        }
    }

    /// RETRIEVE_BY_HASH: asks the engine for the key of the atom's bytes.
    fn retrieve(&mut self, name: Noun) -> (r: EvalResult)
        ensures
            ({
                let before = old(self).ledger();
                let after = final(self).ledger();
                let v = retrieved(name@, reply_at(fresh(before, after), 0));
                accounts(before, after, v.run) && outcome(r) == v.run.result
            }),
    {
        let ghost l0 = self.ledger();
        proof {
            lemma_accounts_none(l0);
        }
        match name.atom_bytes() {
            None => Err(EvalError::BadArgument),
            Some(bytes) => {
                let key = storage_key(bytes.as_slice());
                let loaded = self.side_effector.load(key.as_slice());
                proof {
                    self.asked@ = self.asked@.push(Request::Load(key@));
                    self.told@ = self.told@.push(reply_of(loaded));
                    let l1 = self.ledger();
                    assert(fresh(l0, l1) =~= seq![reply_of(loaded)]);
                    assert(l1.told =~= l0.told + fresh(l0, l1));
                    assert(l1.asked =~= l0.asked + retrieved(name@, reply_of(loaded)).run.requests);
                }
                unpack(loaded)
            },
        }
    }

    /// The bytes that are hashed and stored for `noun`.
    fn serialize(&mut self, noun: Noun) -> (r: Result<Vec<u8>, EvalError>)
        ensures
            final(self).ledger() == old(self).ledger(),
            match crate::serialize::emit(noun@, MAX_SERIALIZED_BYTES as nat) {
                Ok(bytes) => r matches Ok(out) && out@ == bytes && bytes.len()
                    <= MAX_SERIALIZED_BYTES,
                Err(e) => r matches Err(x) && x == refusal(e),
            },
    {
        match serialize(&noun, MAX_SERIALIZED_BYTES) {
            Ok(x) => {
                proof {
                    crate::serialize::lemma_emit(noun@, MAX_SERIALIZED_BYTES as nat);
                }
                Ok(x)
            },
            Err(SerializationError::OverlongAtom) => Err(EvalError::BadArgument),
            Err(SerializationError::MaximumLengthExceeded) => Err(EvalError::MemoryExceeded),
        }
    }
}

/// Evaluates `expression`, a cell of subject and formula.
///
/// An atom is no expression. For a cell the result is what `reduce` gives
/// for its subject and formula with `tick_limit` as budget, on the replies
/// that `side_effector` gave to the requests made.
pub fn eval<S: SideEffectEngine>(expression: Noun, side_effector: &mut S, tick_limit: u64) -> (r:
    EvalResult)
    ensures
        exists|replies: Seq<Reply>| #[trigger]
            explains(expression@, tick_limit as nat, replies, outcome(r)),
        expression@ is Atom ==> (r matches Err(e) && e == EvalError::Something),
{
    if let Some((subject, formula)) = expression.into_cell() {
        let mut computation = Computation::new(side_effector, tick_limit);
        let ghost l0 = computation.ledger();
        let r = computation.eval_on(subject, formula);
        proof {
            let replies = fresh(l0, computation.ledger());
            assert(explains(expression@, tick_limit as nat, replies, outcome(r)));
        }
        r
    } else {
        proof {
            assert(explains(
                expression@,
                tick_limit as nat,
                Seq::empty(),
                Err(EvalError::Something),
            ));
        }
        Err(EvalError::Something)
    }
}

} // verus!
