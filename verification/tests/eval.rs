use blake2::Blake2b512;
use blake2::Digest;
use std::collections::HashMap;
use std::rc::Rc;
use vm::eval::eval;
use vm::eval::Computation;
use vm::eval::EvalError;
use vm::eval::SideEffectEngine;
use vm::noun::Noun;
use vm::opcode::AXIS;
use vm::opcode::HASH;
use vm::opcode::INCREMENT;
use vm::opcode::LITERAL;
use vm::opcode::RECURSE;
use vm::opcode::RETRIEVE_BY_HASH;
use vm::opcode::STORE_BY_HASH;

trait AsNoun {
    fn as_noun(&self) -> Noun;
}

impl AsNoun for Noun {
    fn as_noun(&self) -> Noun {
        self.clone()
    }
}

impl AsNoun for u8 {
    fn as_noun(&self) -> Noun {
        Noun::from_u8(*self)
    }
}

impl AsNoun for i32 {
    fn as_noun(&self) -> Noun {
        assert!(*self >= 0);
        if *self < 256 {
            Noun::from_u8(*self as u8)
        } else {
            Noun::from_slice(&self.to_le_bytes()[..])
        }
    }
}

impl<'a> AsNoun for &'a [u8] {
    fn as_noun(&self) -> Noun {
        Noun::from_slice(self)
    }
}

impl<A: AsNoun, B: AsNoun> AsNoun for (A, B) {
    fn as_noun(&self) -> Noun {
        Noun::new_cell(self.0.as_noun(), self.1.as_noun())
    }
}

impl<A: AsNoun, B: AsNoun, C: AsNoun> AsNoun for (A, B, C) {
    fn as_noun(&self) -> Noun {
        Noun::new_cell(self.0.as_noun(), Noun::new_cell(self.1.as_noun(), self.2.as_noun()))
    }
}

impl<A: AsNoun, B: AsNoun, C: AsNoun, D: AsNoun> AsNoun for (A, B, C, D) {
    fn as_noun(&self) -> Noun {
        Noun::new_cell(
            self.0.as_noun(),
            Noun::new_cell(self.1.as_noun(), Noun::new_cell(self.2.as_noun(), self.3.as_noun())),
        )
    }
}

impl<A: AsNoun, B: AsNoun, C: AsNoun, D: AsNoun, E: AsNoun> AsNoun for (A, B, C, D, E) {
    fn as_noun(&self) -> Noun {
        Noun::new_cell(
            self.0.as_noun(),
            Noun::new_cell(
                self.1.as_noun(),
                Noun::new_cell(
                    self.2.as_noun(),
                    Noun::new_cell(self.3.as_noun(), self.4.as_noun()),
                ),
            ),
        )
    }
}

impl<A: AsNoun, B: AsNoun, C: AsNoun, D: AsNoun, E: AsNoun, F: AsNoun> AsNoun
    for (A, B, C, D, E, F)
{
    fn as_noun(&self) -> Noun {
        Noun::new_cell(
            self.0.as_noun(),
            Noun::new_cell(
                self.1.as_noun(),
                Noun::new_cell(
                    self.2.as_noun(),
                    Noun::new_cell(
                        self.3.as_noun(),
                        Noun::new_cell(self.4.as_noun(), self.5.as_noun()),
                    ),
                ),
            ),
        )
    }
}

struct TestSideEffectEngine {
    storage: HashMap<Vec<u8>, Vec<u8>>,
    loads: usize,
    stores: usize,
}

impl TestSideEffectEngine {
    fn new() -> TestSideEffectEngine {
        TestSideEffectEngine { storage: HashMap::new(), loads: 0, stores: 0 }
    }
}

impl SideEffectEngine for TestSideEffectEngine {
    fn nearest_neighbor(&mut self, _near: &[u8; 32]) -> [u8; 32] {
        [0u8; 32]
    }

    fn random(&mut self, _dest: &mut [u8]) {}

    fn load(&mut self, key: &[u8]) -> Option<Vec<u8>> {
        self.loads += 1;
        self.storage.get(key).cloned()
    }

    fn store(&mut self, key: &[u8], value: &[u8]) {
        self.stores += 1;
        self.storage.insert(key.into(), value.into());
    }

    fn send(&mut self, _destination: &[u8; 32], _message: &[u8], _local_cost: u64) {}
}

fn expect_eval_with<E: AsNoun, R: AsNoun>(
    engine: &mut TestSideEffectEngine,
    expression: E,
    result: R,
) {
    assert_eq!(eval(expression.as_noun(), engine, 1000000), Ok(result.as_noun()));
}

fn expect_eval<E: AsNoun, R: AsNoun>(expression: E, result: R) -> TestSideEffectEngine {
    let mut engine = TestSideEffectEngine::new();
    expect_eval_with(&mut engine, expression, result);
    engine
}

fn expect_error<E: AsNoun>(expression: E, error: EvalError) {
    let mut engine = TestSideEffectEngine::new();
    assert_eq!(eval(expression.as_noun(), &mut engine, 1000000), Err(error));
}

fn run_with_limit<E: AsNoun>(expression: E, limit: u64) -> Result<Noun, EvalError> {
    let mut engine = TestSideEffectEngine::new();
    eval(expression.as_noun(), &mut engine, limit)
}

#[test]
fn literal_op() {
    expect_eval((0, 1, 44), 44);

    expect_eval(((76, 30), 1, (42, 60)), (42, 60));
}

#[test]
fn axis_op() {
    expect_eval((99, 0, 1), 99);
    expect_eval(((98, 99), 0, 2), 98);
    expect_eval(((98, 99), 0, 3), 99);

    expect_eval(((1, 2, 3, 4, (5, 6, 7, (8, 9, 10, 11))), 0, &[0xff, 0x07][..]), 11);
    expect_eval(((((1, 2), 3), 4), 0, 5), 3);
    expect_eval(((((1, 2), 3), 4), 0, 4), (1, 2));
}

#[test]
fn recurse_op() {
    expect_eval(((123, (0, 1)), 2, (0, 2), (0, 3)), 123);
}

#[test]
fn equal_op() {
    expect_eval(((5, 5), 5, (0, 1)), Noun::from_bool(true));
    expect_eval(((5, 8), 5, (0, 1)), Noun::from_bool(false));
}

#[test]
fn cell_op() {
    expect_eval(((99, 33), 3, (0, 1)), Noun::from_bool(true));
    expect_eval((99, 3, (0, 1)), Noun::from_bool(false));
}

#[test]
fn increment_op() {
    expect_eval((22, 4, (0, 1)), Noun::from_u8(23));
    expect_eval((0xff, 4, (0, 1)), Noun::from_vec(vec![0x00, 0x01]));
}

#[test]
fn distribute() {
    expect_eval((22, (4, (0, 1)), (0, 1), (1, 50)), (23, 22, 50).as_noun());
}

#[test]
fn if_true() {
    expect_eval((42, (6, (1, 0), (4, 0, 1), (1, 233))), 43);
}

#[test]
fn if_false() {
    expect_eval((42, (6, (1, 1), (4, 0, 1), (1, 233))), 233);
}

#[test]
fn composition() {
    expect_eval((42, (7, (4, 0, 1), (4, 0, 1))), 44);
}

#[test]
fn push_1() {
    expect_eval((42, (8, (4, 0, 1), (0, 1))), (43, 42));
}

#[test]
fn push_2() {
    expect_eval((42, (8, (4, 0, 1), (4, 0, 3))), 43);
}

#[test]
fn decrement() {
    expect_eval(
        (
            42,
            (
                8,
                (1, 0),
                8,
                (1, 6, (5, (0, 7), 4, 0, 6), (0, 6), (9, 2, (0, 2), (4, 0, 6), 0, 7)),
                (9, 2, 0, 1),
            ),
        ),
        41,
    );
}

#[test]
fn store_and_get() {
    let mut engine = expect_eval(
        (21, RECURSE, ((STORE_BY_HASH, (AXIS, 1)), (INCREMENT, (AXIS, 1))), (LITERAL, AXIS, 3)),
        22,
    );
    let hash = eval((21, HASH, (AXIS, 1)).as_noun(), &mut engine, 1000000).unwrap();
    expect_eval_with(&mut engine, (hash, (RETRIEVE_BY_HASH, (AXIS, 1))), (0, 21));
}

#[test]
fn literal_ignores_the_subject() {
    expect_eval((7, 1, (3, 4)), (3, 4));
    expect_eval((&[1u8, 2, 3, 4, 5][..], 1, 9), 9);
    expect_eval(((1, 2), 1, 0), 0);
}

#[test]
fn an_atom_is_no_expression() {
    expect_error(5, EvalError::Something);
}

#[test]
fn an_atom_is_no_formula() {
    expect_error((0, 5), EvalError::AtomicFormula);
}

#[test]
fn axis_by_a_cell_is_refused() {
    expect_error(((1, 2), 0, (2, 3)), EvalError::CellAsIndex);
}

#[test]
fn axis_off_the_tree_is_refused() {
    expect_error((5, 0, 2), EvalError::IndexOutOfRange);
    expect_error(((1, 2), 0, 0), EvalError::IndexOutOfRange);
    expect_error(((1, 2), 0, 4), EvalError::IndexOutOfRange);
}

#[test]
fn a_wide_opcode_is_refused() {
    expect_error((0, &[0u8, 1][..], 0), EvalError::NotAnOpcode);
}

#[test]
fn an_unassigned_opcode_is_refused() {
    expect_error((0, 13, 0), EvalError::BadOpcode(13));
    expect_error((0, 255, 0), EvalError::BadOpcode(255));
}

#[test]
fn recurse_needs_a_pair() {
    expect_error((0, 2, 5), EvalError::BadRecurseArgument);
}

#[test]
fn is_equal_needs_a_cell() {
    expect_error((5, 5, (0, 1)), EvalError::BadEqualsArgument);
}

#[test]
fn if_needs_a_loobean() {
    expect_error((42, (6, (1, 2), (4, 0, 1), (1, 233))), EvalError::BadIfCondition);
    expect_error((42, (6, (1, (0, 0)), (4, 0, 1), (1, 233))), EvalError::BadIfCondition);
}

#[test]
fn ill_shaped_arguments_are_refused() {
    expect_error((0, 6, 1), EvalError::BadArgument);
    expect_error((0, 6, (1, 0), 5), EvalError::BadArgument);
    expect_error((0, 7, 1), EvalError::BadArgument);
    expect_error((0, 8, 1), EvalError::BadArgument);
    expect_error((0, 9, 1), EvalError::BadArgument);
    expect_error(((1, 2), 4, (0, 1)), EvalError::BadArgument);
    expect_error(((1, 2), RETRIEVE_BY_HASH, (0, 1)), EvalError::BadArgument);
}

#[test]
fn errors_in_operands_come_first() {
    expect_error((0, (0, 2), (1, 1)), EvalError::IndexOutOfRange);
    expect_error((0, (1, 1), (0, 2)), EvalError::IndexOutOfRange);
    expect_error((0, 4, (4, (0, 9))), EvalError::IndexOutOfRange);
}

#[test]
fn call_selects_in_the_core() {
    expect_eval((((4, 0, 3), 41), 9, 2, (0, 1)), 42);
    expect_error((((4, 0, 3), 41), 9, 6, (0, 1)), EvalError::IndexOutOfRange);
    expect_error((((4, 0, 3), 41), 9, 4, (0, 1)), EvalError::AtomicFormula);
    expect_error((((4, 0, 3), 41), 9, (1, 1), (0, 1)), EvalError::CellAsIndex);
}

#[test]
fn is_equal_does_not_see_how_an_atom_is_held() {
    let padded = Noun::Atom(Rc::new(vec![5, 0, 0]));
    expect_eval(((5, padded.clone()), 5, (0, 1)), Noun::from_bool(true));
    expect_eval(((padded.clone(), padded), 5, (0, 1)), Noun::from_bool(true));
    let empty = Noun::Atom(Rc::new(vec![]));
    expect_eval(((0, empty), 5, (0, 1)), Noun::from_bool(true));
    let wide = Noun::Atom(Rc::new(vec![5, 1]));
    expect_eval(((5, wide), 5, (0, 1)), Noun::from_bool(false));
}

#[test]
fn distribute_pairs_what_its_halves_give() {
    let subject = (22, 50);
    let first = (4, (0, 2));
    let second = (0, 3);
    let left = run_with_limit((subject, first), 1000000).unwrap();
    let right = run_with_limit((subject, second), 1000000).unwrap();
    let both = run_with_limit((subject, (first, second)), 1000000).unwrap();
    assert_eq!(both, Noun::new_cell(left, right));
    assert_eq!(both, (23, 50).as_noun());
}

#[test]
fn a_tick_is_charged_for_every_step() {
    let program = (42, (7, (4, 0, 1), (4, 0, 1)));
    assert_eq!(run_with_limit(program, 6), Ok(44.as_noun()));
    assert_eq!(run_with_limit(program, 7), Ok(44.as_noun()));
    assert_eq!(run_with_limit(program, 1000000), Ok(44.as_noun()));
    assert_eq!(run_with_limit(program, u64::MAX), Ok(44.as_noun()));
    assert_eq!(run_with_limit(program, 5), Err(EvalError::TickLimitExceeded));
    assert_eq!(run_with_limit(program, 4), Err(EvalError::TickLimitExceeded));
    assert_eq!(run_with_limit(program, 1), Err(EvalError::TickLimitExceeded));
    assert_eq!(run_with_limit(program, 0), Err(EvalError::TickLimitExceeded));
}

#[test]
fn one_step_needs_a_limit_of_two() {
    assert_eq!(run_with_limit((0, 1, 44), 2), Ok(44.as_noun()));
    assert_eq!(run_with_limit((0, 1, 44), 1), Err(EvalError::TickLimitExceeded));
}

#[test]
fn an_error_of_its_own_needs_its_ticks_too() {
    let program = (5, 4, (4, (0, 2)));
    assert_eq!(run_with_limit(program, 4), Err(EvalError::IndexOutOfRange));
    assert_eq!(run_with_limit(program, 3), Err(EvalError::TickLimitExceeded));
}

#[test]
fn hashing_charges_twenty_ticks_and_one_per_byte() {
    // Three steps, then 20 ticks and 4 for the bytes of atom 21, then one step.
    let program = (21, 7, (HASH, (AXIS, 1)), (LITERAL, 9));
    assert_eq!(run_with_limit(program, 29), Ok(9.as_noun()));
    assert_eq!(run_with_limit(program, 28), Err(EvalError::TickLimitExceeded));
    // The charge for hashing is not tested by itself.
    let last = (21, HASH, (AXIS, 1));
    assert!(run_with_limit(last, 3).is_ok());
    assert_eq!(run_with_limit(last, 2), Err(EvalError::TickLimitExceeded));
}

#[test]
fn endless_recursion_runs_out_of_ticks() {
    let endless = (2, (0, 1), (0, 1));
    assert_eq!(
        run_with_limit((endless, endless), 1000000),
        Err(EvalError::TickLimitExceeded)
    );
    let counting = (2, ((4, 0, 2), (0, 3)), (0, 3));
    assert_eq!(
        run_with_limit(((0, counting), counting), 300000),
        Err(EvalError::TickLimitExceeded)
    );
}

fn doubled(times: usize) -> Noun {
    let mut noun = Noun::from_u8(1);
    for _ in 0..times {
        noun = Noun::new_cell(noun.clone(), noun);
    }
    noun
}

#[test]
fn hashing_a_noun_too_large_is_refused() {
    let large = doubled(20);
    expect_error((large.clone(), HASH, (AXIS, 1)), EvalError::MemoryExceeded);
    expect_error((large, STORE_BY_HASH, (AXIS, 1)), EvalError::MemoryExceeded);
    let fine = doubled(10);
    let mut engine = TestSideEffectEngine::new();
    assert!(eval((fine, HASH, (AXIS, 1)).as_noun(), &mut engine, 1000000).is_ok());
}

#[test]
fn hashing_an_atom_too_long_is_refused() {
    let long = Noun::from_vec(vec![1u8; 70000]);
    expect_error((long.clone(), HASH, (AXIS, 1)), EvalError::BadArgument);
    expect_error((long, STORE_BY_HASH, (AXIS, 1)), EvalError::BadArgument);
}

#[test]
fn hash_is_the_digest_of_the_serialized_noun() {
    let mut engine = TestSideEffectEngine::new();
    let hash = eval((21, HASH, (AXIS, 1)).as_noun(), &mut engine, 1000000).unwrap();
    let bytes = vm::serialize::serialize(&Noun::from_u8(21), 1000000).unwrap();
    assert_eq!(bytes, vec![0, 1, 0, 21]);
    let digest = Blake2b512::digest(&bytes[..]).to_vec();
    assert_eq!(digest.len(), 64);
    assert_eq!(hash, Noun::from_slice(&digest[..]));
    assert_ne!(hash, Noun::from_slice(&bytes[..]));
    let other = eval((22, HASH, (AXIS, 1)).as_noun(), &mut engine, 1000000).unwrap();
    assert_ne!(hash, other);
    let pair = eval(((1, 2), HASH, (AXIS, 1)).as_noun(), &mut engine, 1000000).unwrap();
    let expected = Blake2b512::digest(&[1u8, 0, 1, 0, 1, 0, 1, 0, 2][..]).to_vec();
    assert_eq!(pair, Noun::from_slice(&expected[..]));
    assert_eq!(engine.loads, 0);
    assert_eq!(engine.stores, 0);
}

#[test]
fn store_hands_key_and_bytes_to_the_engine() {
    let engine = expect_eval((21, STORE_BY_HASH, (AXIS, 1)), Noun::from_bool(true));
    let bytes = vm::serialize::serialize(&Noun::from_u8(21), 1000000).unwrap();
    let digest = Blake2b512::digest(&bytes[..]).to_vec();
    let key = vm::digest::storage_key(&digest[..]);
    assert_eq!(key.len(), 65);
    assert_eq!(key[0], 1);
    assert_eq!(engine.stores, 1);
    assert_eq!(engine.loads, 0);
    assert_eq!(engine.storage.len(), 1);
    assert_eq!(engine.storage.get(&key), Some(&bytes));
}

#[test]
fn retrieve_of_an_unknown_key_is_false() {
    let engine = expect_eval((77, RETRIEVE_BY_HASH, (AXIS, 1)), Noun::from_bool(false));
    assert_eq!(engine.loads, 1);
    expect_eval((77, RETRIEVE_BY_HASH, (AXIS, 1)), 1);
}

#[test]
fn retrieve_asks_for_the_tagged_bytes_of_the_atom() {
    let mut engine = TestSideEffectEngine::new();
    let stored = vm::serialize::serialize(&(3, 4).as_noun(), 100).unwrap();
    engine.storage.insert(vec![1, 0x34, 0x12], stored);
    expect_eval_with(&mut engine, (0x1234, RETRIEVE_BY_HASH, (AXIS, 1)), (0, (3, 4)));
    let mut engine = TestSideEffectEngine::new();
    engine.storage.insert(vec![1], vec![0, 0, 0]);
    expect_eval_with(&mut engine, (0, RETRIEVE_BY_HASH, (AXIS, 1)), (0, 0));
}

#[test]
fn retrieve_of_bytes_that_are_no_noun_is_corrupt() {
    let mut engine = TestSideEffectEngine::new();
    engine.storage.insert(vec![1, 9], vec![7, 7, 7]);
    assert_eq!(
        eval((9, RETRIEVE_BY_HASH, (AXIS, 1)).as_noun(), &mut engine, 1000000),
        Err(EvalError::StorageCorrupt)
    );
    engine.storage.insert(vec![1, 9], vec![0, 0, 0, 0]);
    assert_eq!(
        eval((9, RETRIEVE_BY_HASH, (AXIS, 1)).as_noun(), &mut engine, 1000000),
        Err(EvalError::StorageCorrupt)
    );
}

#[test]
fn what_was_stored_before_an_error_stays() {
    let mut engine = TestSideEffectEngine::new();
    let program = (21, 7, (STORE_BY_HASH, (AXIS, 1)), (0, 2));
    assert_eq!(
        eval(program.as_noun(), &mut engine, 1000000),
        Err(EvalError::IndexOutOfRange)
    );
    assert_eq!(engine.stores, 1);
}

#[test]
fn a_computation_counts_its_ticks() {
    let mut engine = TestSideEffectEngine::new();
    let mut computation = Computation::new(&mut engine, 4);
    assert!(!computation.exhausted());
    assert_eq!(computation.eval_on(Noun::from_u8(5), (4, (0, 1)).as_noun()), Ok(6.as_noun()));
    assert!(!computation.exhausted());
    assert_eq!(
        computation.eval_on(Noun::from_u8(5), (4, (0, 1)).as_noun()),
        Err(EvalError::TickLimitExceeded)
    );
    assert!(computation.exhausted());
}

#[test]
fn operands_are_what_is_evaluated_first() {
    let (first, second) = vm::eval::operands_of(&((0, 1), (1, 2)).as_noun());
    assert_eq!(first, Some((0, 1).as_noun()));
    assert_eq!(second, Some((1, 2).as_noun()));
    let (first, second) = vm::eval::operands_of(&(9, 2, (0, 1)).as_noun());
    assert_eq!(first, Some((0, 1).as_noun()));
    assert_eq!(second, None);
    let (first, second) = vm::eval::operands_of(&(1, (0, 1)).as_noun());
    assert_eq!(first, None);
    assert_eq!(second, None);
    assert_eq!(
        vm::eval::into_triple((1, 2, 3).as_noun()),
        Some((1.as_noun(), 2.as_noun(), 3.as_noun()))
    );
    assert_eq!(vm::eval::into_triple((1, 2).as_noun()), None);
}

#[test]
fn unpack_reads_what_the_storage_answered() {
    assert_eq!(vm::eval::unpack(None), Ok(Noun::from_bool(false)));
    assert_eq!(vm::eval::unpack(Some(vec![0, 1, 0, 21])), Ok((0, 21).as_noun()));
    assert_eq!(vm::eval::unpack(Some(vec![])), Err(EvalError::StorageCorrupt));
}
