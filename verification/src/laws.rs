//! What holds of every reduction.

use crate::atom::canonical;
use crate::atom::lemma_bytes_of_value;
use crate::deserialize::lemma_serialize_round_trip;
use crate::digest::blake2b_512;
use crate::digest::key_of;
use crate::eval::EvalError;
use crate::noun::loobean;
use crate::noun::pair;
use crate::noun::Tree;
use crate::opcode::IS_EQUAL;
use crate::opcode::LITERAL;
use crate::semantics::evaluate;
use crate::semantics::hashed;
use crate::semantics::idle;
use crate::semantics::operands;
use crate::semantics::reduce;
use crate::semantics::reply_at;
use crate::semantics::rest;
use crate::semantics::retrieved;
use crate::semantics::settle;
use crate::semantics::step_of;
use crate::semantics::stored;
use crate::semantics::tick;
use crate::semantics::verdict;
use crate::semantics::Reply;
use crate::semantics::Request;
use crate::semantics::Run;
use crate::semantics::MAX_SERIALIZED_BYTES;
use crate::serialize::emit;
use crate::serialize::spare;
use vstd::prelude::*;

verus! {

/// Accounts are joined like sequences: it does not matter which two of
/// three are joined first.
pub proof fn lemma_followed_by_assoc(a: Run, b: Run, c: Run)
    ensures
        a.followed_by(b).followed_by(c) == a.followed_by(b.followed_by(c)),
{
    assert((a.requests + b.requests) + c.requests =~= a.requests + (b.requests + c.requests));
}

/// Nothing done, and then an account, is that account.
pub proof fn lemma_idle_first(r: Run)
    ensures
        idle().followed_by(r) == r,
{
    assert(Seq::<crate::semantics::Request>::empty() + r.requests =~= r.requests);
}

/// A verdict makes at most one request, and where it makes none it does
/// not read the reply.
pub proof fn lemma_verdict_reply(s: Tree, f: Tree, x: Tree, y: Tree, one: Reply, other: Reply)
    ensures
        verdict(s, f, x, y, one).run.requests.len() <= 1,
        verdict(s, f, x, y, one).run.requests.len() == verdict(s, f, x, y, other).run.requests.len(),
        verdict(s, f, x, y, one).run.requests.len() == 0 ==> verdict(s, f, x, y, one) == verdict(
            s,
            f,
            x,
            y,
            other,
        ),
        verdict(s, f, x, y, one).tail is Some ==> verdict(s, f, x, y, one).run == idle(),
        verdict(s, f, x, y, one).run.peak == 0,
{
    reveal(verdict);
}

/// A reduction reads only the replies to its own requests: replies that
/// follow them change nothing.
#[verifier::rlimit(50)]
pub proof fn lemma_frame(s: Tree, f: Tree, k: nat, replies: Seq<Reply>, more: Seq<Reply>)
    requires
        reduce(s, f, k, replies).requests.len() <= replies.len(),
    ensures
        reduce(s, f, k, replies + more) == reduce(s, f, k, replies),
    decreases k, 0nat,
{
    reveal(reduce);
    reveal(step_of);
    if k > 1 {
        let j = (k - 1) as nat;
        let st = step_of(s, f, j, replies);
        let n = st.run.requests.len();
        assert((tick().followed_by(st.run)).requests =~= st.run.requests);
        lemma_frame_step(s, f, j, replies, more);
        match st.tail {
            None => {},
            Some((s2, f2)) => {
                assert(rest(replies + more, n) =~= rest(replies, n) + more);
                lemma_frame(s2, f2, spare(j, st.run.spent), rest(replies, n), more);
            },
        }
    }
}

/// As `lemma_frame`, of one step.
#[verifier::rlimit(50)]
pub proof fn lemma_frame_step(s: Tree, f: Tree, j: nat, replies: Seq<Reply>, more: Seq<Reply>)
    requires
        step_of(s, f, j, replies).run.requests.len() <= replies.len(),
    ensures
        step_of(s, f, j, replies + more) == step_of(s, f, j, replies),
    decreases j, 1nat,
{
    reveal(reduce);
    reveal(step_of);
    let ops = operands(f);
    let a = match ops.0 {
        Some(g) => reduce(s, g, j, replies),
        None => idle(),
    };
    let n = a.requests.len();
    let b = match ops.1 {
        Some(h) => reduce(s, h, spare(j, a.spent), rest(replies, n)),
        None => idle(),
    };
    if let Some(g) = ops.0 {
        lemma_frame(s, g, j, replies, more);
    }
    if let Ok(x) = a.result {
        assert(rest(replies + more, n) =~= rest(replies, n) + more);
        if let Some(h) = ops.1 {
            lemma_frame(s, h, spare(j, a.spent), rest(replies, n), more);
        }
        if let Ok(y) = b.result {
            let at = n + b.requests.len();
            lemma_verdict_reply(s, f, x, y, reply_at(replies, at), reply_at(replies + more, at));
        }
    }
}

/// A step that goes on has charged nothing beyond its operands.
pub proof fn lemma_tail_is_ok(s: Tree, f: Tree, a: Run, b: Run, replies: Seq<Reply>)
    ensures
        settle(s, f, a, b, replies).tail is Some ==> settle(s, f, a, b, replies).run.result is Ok,
{
    if let Ok(x) = a.result {
        if let Ok(y) = b.result {
            lemma_verdict_reply(
                s,
                f,
                x,
                y,
                reply_at(replies, a.requests.len() + b.requests.len()),
                None,
            );
        }
    }
}

/// The budget decides one thing only. A reduction that did not run out of
/// ticks tested its budget last at `peak` ticks: with any budget above
/// `peak` it is the same reduction, with the same result, ticks and
/// requests, and with any budget up to `peak` it runs out of ticks.
#[verifier::rlimit(50)]
pub proof fn lemma_threshold(s: Tree, f: Tree, k: nat, other: nat, replies: Seq<Reply>)
    requires
        !reduce(s, f, k, replies).out_of_ticks(),
    ensures
        1 <= reduce(s, f, k, replies).peak <= reduce(s, f, k, replies).spent,
        reduce(s, f, k, replies).peak < k,
        other > reduce(s, f, k, replies).peak ==> reduce(s, f, other, replies) == reduce(
            s,
            f,
            k,
            replies,
        ),
        other <= reduce(s, f, k, replies).peak ==> reduce(s, f, other, replies).out_of_ticks(),
    decreases k, 0nat,
{
    reveal(reduce);
    reveal(step_of);
    let j = (k - 1) as nat;
    let j2 = if other >= 1 {
        (other - 1) as nat
    } else {
        0
    };
    let st = step_of(s, f, j, replies);
    let ops = operands(f);
    let a = match ops.0 {
        Some(g) => reduce(s, g, j, replies),
        None => idle(),
    };
    let b = match ops.1 {
        Some(h) => reduce(s, h, spare(j, a.spent), rest(replies, a.requests.len())),
        None => idle(),
    };
    lemma_tail_is_ok(s, f, a, b, replies);
    lemma_threshold_step(s, f, j, j2, replies);
    match st.tail {
        None => {},
        Some((s2, f2)) => {
            lemma_threshold(
                s2,
                f2,
                spare(j, st.run.spent),
                spare(j2, st.run.spent),
                rest(replies, st.run.requests.len()),
            );
        },
    }
}

/// As `lemma_threshold`, of one step, which tests no budget itself.
#[verifier::rlimit(50)]
pub proof fn lemma_threshold_step(s: Tree, f: Tree, j: nat, other: nat, replies: Seq<Reply>)
    requires
        !step_of(s, f, j, replies).run.out_of_ticks(),
    ensures
        step_of(s, f, j, replies).run.peak <= step_of(s, f, j, replies).run.spent,
        step_of(s, f, j, replies).run.peak >= 1 ==> step_of(s, f, j, replies).run.peak < j,
        other > step_of(s, f, j, replies).run.peak ==> step_of(s, f, other, replies) == step_of(
            s,
            f,
            j,
            replies,
        ),
        other <= step_of(s, f, j, replies).run.peak && step_of(s, f, j, replies).run.peak >= 1
            ==> step_of(s, f, other, replies).run.out_of_ticks() && step_of(
            s,
            f,
            other,
            replies,
        ).tail is None,
    decreases j, 1nat,
{
    reveal(reduce);
    reveal(step_of);
    reveal(operands);
    let ops = operands(f);
    let a = match ops.0 {
        Some(g) => reduce(s, g, j, replies),
        None => idle(),
    };
    let n = a.requests.len();
    let b = match ops.1 {
        Some(h) => reduce(s, h, spare(j, a.spent), rest(replies, n)),
        None => idle(),
    };
    let st = step_of(s, f, j, replies);
    let st2 = step_of(s, f, other, replies);
    assert(st == settle(s, f, a, b, replies));
    let a2 = match ops.0 {
        Some(g) => reduce(s, g, other, replies),
        None => idle(),
    };
    let b2 = match ops.1 {
        Some(h) => reduce(s, h, spare(other, a2.spent), rest(replies, a2.requests.len())),
        None => idle(),
    };
    assert(st2 == settle(s, f, a2, b2, replies));
    if let Some(g) = ops.0 {
        lemma_threshold(s, g, j, other, replies);
    }
    if let Ok(x) = a.result {
        if let Some(h) = ops.1 {
            lemma_threshold(s, h, spare(j, a.spent), spare(other, a.spent), rest(replies, n));
        }
        if let Ok(y) = b.result {
            lemma_verdict_reply(s, f, x, y, reply_at(replies, n + b.requests.len()), None);
            assert(st.run.peak == a.followed_by(b).peak);
        }
        assert(ops.0 is None ==> ops.1 is None);
        if other <= st.run.peak && st.run.peak >= 1 {
            if other <= a.peak {
                assert(a2.out_of_ticks());
                assert(st2.run.out_of_ticks() && st2.tail is None);
            } else {
                assert(a2 == a);
                assert(b.peak >= 1);
                assert(ops.1 is Some);
                assert(spare(other, a.spent) <= b.peak);
                assert(b2.out_of_ticks());
                assert(st2.run.out_of_ticks() && st2.tail is None);
            }
        }
    } else {
        assert(st.run == a);
        if other <= st.run.peak && st.run.peak >= 1 {
            assert(a2.out_of_ticks());
            assert(st2.run.out_of_ticks() && st2.tail is None);
        }
    }
}

/// Two budgets that both suffice give the same reduction.
pub proof fn lemma_budgets_agree(s: Tree, f: Tree, k: nat, other: nat, replies: Seq<Reply>)
    requires
        !reduce(s, f, k, replies).out_of_ticks(),
        !reduce(s, f, other, replies).out_of_ticks(),
    ensures
        reduce(s, f, k, replies) == reduce(s, f, other, replies),
{
    lemma_threshold(s, f, k, other, replies);
    lemma_threshold(s, f, other, k, replies);
}

/// A reduction that ended after `t` ticks, with a result or an error of its
/// own, ends the same way with every budget above `t`. A budget of `t` or
/// less runs out of ticks, unless the last ticks were charged for hashing:
/// those are charged without a test.
pub proof fn lemma_enough_ticks(s: Tree, f: Tree, k: nat, other: nat, replies: Seq<Reply>)
    requires
        !reduce(s, f, k, replies).out_of_ticks(),
    ensures
        other > reduce(s, f, k, replies).spent ==> reduce(s, f, other, replies) == reduce(
            s,
            f,
            k,
            replies,
        ),
        other <= reduce(s, f, k, replies).spent && reduce(s, f, k, replies).peak == reduce(
            s,
            f,
            k,
            replies,
        ).spent ==> reduce(s, f, other, replies).out_of_ticks(),
{
    lemma_threshold(s, f, k, other, replies);
}

/// A reduction that makes no request comes to the same whatever the
/// storage would have answered.
pub proof fn lemma_storage_untouched(s: Tree, f: Tree, k: nat, replies: Seq<Reply>)
    requires
        reduce(s, f, k, Seq::empty()).requests.len() == 0,
    ensures
        reduce(s, f, k, replies) == reduce(s, f, k, Seq::empty()),
{
    lemma_frame(s, f, k, Seq::empty(), replies);
    assert(Seq::<Reply>::empty() + replies =~= replies);
}

/// The account of a formula's first operand, with `j` ticks to spend.
pub open spec fn first_run(s: Tree, f: Tree, j: nat, replies: Seq<Reply>) -> Run {
    match operands(f).0 {
        Some(g) => reduce(s, g, j, replies),
        None => idle(),
    }
}

/// The account of a formula's second operand, after the first spent
/// `spent` of `j` ticks.
pub open spec fn second_run(s: Tree, f: Tree, j: nat, spent: nat, replies: Seq<Reply>) -> Run {
    match operands(f).1 {
        Some(h) => reduce(s, h, spare(j, spent), replies),
        None => idle(),
    }
}

/// A step is put together from its parts: the first operand on the replies
/// it read, the second on those it read, and the verdict on what is left.
#[verifier::rlimit(50)]
pub proof fn lemma_step_parts(
    s: Tree,
    f: Tree,
    j: nat,
    first: Seq<Reply>,
    second: Seq<Reply>,
    last: Seq<Reply>,
)
    requires
        first_run(s, f, j, first).requests.len() == first.len(),
        first_run(s, f, j, first).result is Ok ==> second_run(
            s,
            f,
            j,
            first_run(s, f, j, first).spent,
            second,
        ).requests.len() == second.len(),
    ensures
        step_of(s, f, j, first + second + last) == settle(
            s,
            f,
            first_run(s, f, j, first),
            second_run(s, f, j, first_run(s, f, j, first).spent, second),
            first + second + last,
        ),
        reply_at(first + second + last, first.len() + second.len()) == reply_at(last, 0),
{
    reveal(reduce);
    reveal(step_of);
    let all = first + second + last;
    let a = first_run(s, f, j, first);
    let b = second_run(s, f, j, a.spent, second);
    assert(all =~= first + (second + last));
    if let Some(g) = operands(f).0 {
        lemma_frame(s, g, j, first, second + last);
    }
    assert(rest(all, first.len()) =~= second + last);
    if a.result is Ok {
        if let Some(h) = operands(f).1 {
            lemma_frame(s, h, spare(j, a.spent), second, last);
        }
    }
}

/// With a budget of one tick or none, every reduction runs out of ticks at
/// its first step.
pub proof fn lemma_no_budget(s: Tree, f: Tree, k: nat, replies: Seq<Reply>)
    requires
        k <= 1,
    ensures
        reduce(s, f, k, replies) == crate::semantics::exhausted(),
{
    reveal(reduce);
    reveal(step_of);
}

/// What joins one step to the reduction that follows it. Where the step
/// read all of `replies`, the reduction on `replies + more` is the step and
/// then, if the step goes on, the reduction of its tail on `more`.
pub proof fn lemma_link(s: Tree, f: Tree, k: nat, replies: Seq<Reply>, more: Seq<Reply>)
    requires
        k > 1,
        step_of(s, f, (k - 1) as nat, replies).run.requests.len() == replies.len(),
    ensures
        reduce(s, f, k, replies + more) == ({
            let st = step_of(s, f, (k - 1) as nat, replies);
            let pre = tick().followed_by(st.run);
            match st.tail {
                None => pre,
                Some((s2, f2)) => pre.followed_by(
                    reduce(s2, f2, spare((k - 1) as nat, st.run.spent), more),
                ),
            }
        }),
{
    reveal(reduce);
    reveal(step_of);
    lemma_frame_step(s, f, (k - 1) as nat, replies, more);
    assert(rest(replies + more, replies.len()) =~= more);
}

/// What STORE_BY_HASH hands to the storage, RETRIEVE_BY_HASH reads back.
/// Given the atom that HASH makes of a noun, it asks for the very key
/// under which the noun was stored, and from the bytes stored there it
/// makes true and the noun. This needs a digest whose last byte is not
/// zero: an atom does not keep zero bytes at its high end, so from another
/// digest a shorter key is made.
pub proof fn lemma_retrieve_reads_what_was_stored(t: Tree)
    requires
        emit(t, MAX_SERIALIZED_BYTES as nat) is Ok,
        canonical(blake2b_512(emit(t, MAX_SERIALIZED_BYTES as nat)->Ok_0)),
    ensures
        ({
            let bytes = emit(t, MAX_SERIALIZED_BYTES as nat)->Ok_0;
            let digest = blake2b_512(bytes);
            let name = hashed(t).run.result->Ok_0;
            &&& hashed(t).run.result is Ok
            &&& stored(t).run.requests == seq![Request::Store(key_of(digest), bytes)]
            &&& retrieved(name, Some(bytes)).run.requests == seq![Request::Load(key_of(digest))]
            &&& retrieved(name, Some(bytes)).run.result == Ok::<Tree, EvalError>(
                pair(loobean(true), t),
            )
        }),
{
    let bytes = emit(t, MAX_SERIALIZED_BYTES as nat)->Ok_0;
    lemma_bytes_of_value(blake2b_512(bytes));
    lemma_serialize_round_trip(t, MAX_SERIALIZED_BYTES as nat);
}

/// LITERAL gives its argument, whatever the subject, for one tick.
pub proof fn lemma_literal(s: Tree, x: Tree, k: nat, replies: Seq<Reply>)
    requires
        k >= 2,
    ensures
        reduce(s, pair(Tree::Atom(LITERAL as nat), x), k, replies).result == Ok::<Tree, EvalError>(
            x,
        ),
        reduce(s, pair(Tree::Atom(LITERAL as nat), x), k, replies).spent == 1,
        evaluate(pair(s, pair(Tree::Atom(LITERAL as nat), x)), k, replies).result == Ok::<
            Tree,
            EvalError,
        >(x),
{
    reveal(reduce);
    reveal(step_of);
    reveal(operands);
    reveal(verdict);
    let f = pair(Tree::Atom(LITERAL as nat), x);
    assert(operands(f).0 is None);
    assert(operands(f).1 is None);
    assert(step_of(s, f, (k - 1) as nat, replies) == settle(s, f, idle(), idle(), replies));
}

/// IS_EQUAL of a formula that comes to a cell is the loobean of whether
/// the two halves are the same value: true for equal halves, however each
/// is held in memory.
pub proof fn lemma_is_equal(s: Tree, g: Tree, k: nat, replies: Seq<Reply>, left: Tree, right: Tree)
    requires
        k >= 2,
        reduce(s, g, (k - 1) as nat, replies).result == Ok::<Tree, EvalError>(pair(left, right)),
    ensures
        reduce(s, pair(Tree::Atom(IS_EQUAL as nat), g), k, replies).result == Ok::<
            Tree,
            EvalError,
        >(loobean(left == right)),
        left == right ==> reduce(s, pair(Tree::Atom(IS_EQUAL as nat), g), k, replies).result == Ok::<
            Tree,
            EvalError,
        >(Tree::Atom(0)),
{
    reveal(reduce);
    reveal(step_of);
    reveal(operands);
    reveal(verdict);
    let f = pair(Tree::Atom(IS_EQUAL as nat), g);
    let a = reduce(s, g, (k - 1) as nat, replies);
    assert(operands(f).0 == Some(g));
    assert(operands(f).1 is None);
    assert(step_of(s, f, (k - 1) as nat, replies) == settle(s, f, a, idle(), replies));
}

/// Only a cell is a formula: the reduction of an atom comes to nothing.
pub proof fn lemma_formula_is_cell(s: Tree, f: Tree, k: nat, replies: Seq<Reply>)
    requires
        reduce(s, f, k, replies).result is Ok,
    ensures
        f is Cell,
{
    reveal(reduce);
    reveal(step_of);
    reveal(operands);
    reveal(verdict);
    if f is Atom && k > 1 {
        assert(operands(f).0 is None);
        assert(operands(f).1 is None);
        assert(step_of(s, f, (k - 1) as nat, replies) == settle(s, f, idle(), idle(), replies));
    }
}

/// A formula whose head is a cell is a pair of formulas, and comes to the
/// pair of what the two come to: the first on the replies, the second on
/// the replies that the first left. This holds whenever all three succeed,
/// whatever budget each was given.
#[verifier::rlimit(50)]
pub proof fn lemma_distribute(
    s: Tree,
    g: Tree,
    h: Tree,
    replies: Seq<Reply>,
    k: nat,
    k_first: nat,
    k_second: nat,
)
    requires
        reduce(s, pair(g, h), k, replies).result is Ok,
        reduce(s, g, k_first, replies).result is Ok,
        reduce(
            s,
            h,
            k_second,
            rest(replies, reduce(s, g, k_first, replies).requests.len()),
        ).result is Ok,
    ensures
        reduce(s, pair(g, h), k, replies).result == Ok::<Tree, EvalError>(
            pair(
                reduce(s, g, k_first, replies).result->Ok_0,
                reduce(
                    s,
                    h,
                    k_second,
                    rest(replies, reduce(s, g, k_first, replies).requests.len()),
                ).result->Ok_0,
            ),
        ),
{
    reveal(reduce);
    reveal(step_of);
    reveal(operands);
    reveal(verdict);
    let f = pair(g, h);
    let j = (k - 1) as nat;
    lemma_formula_is_cell(s, g, k_first, replies);
    assert(operands(f).0 == Some(g));
    assert(operands(f).1 == Some(h));
    let a = reduce(s, g, j, replies);
    let later = rest(replies, a.requests.len());
    let b = reduce(s, h, spare(j, a.spent), later);
    assert(step_of(s, f, j, replies) == settle(s, f, a, b, replies));
    assert(a.result is Ok);
    assert(b.result is Ok);
    lemma_budgets_agree(s, g, j, k_first, replies);
    lemma_budgets_agree(s, h, spare(j, a.spent), k_second, later);
}

/// With budget enough for both halves and one tick more, a pair of
/// formulas comes to the pair of what the halves come to.
#[verifier::rlimit(50)]
pub proof fn lemma_distribute_succeeds(
    s: Tree,
    g: Tree,
    h: Tree,
    replies: Seq<Reply>,
    k: nat,
    k_first: nat,
    k_second: nat,
)
    requires
        reduce(s, g, k_first, replies).result is Ok,
        reduce(
            s,
            h,
            k_second,
            rest(replies, reduce(s, g, k_first, replies).requests.len()),
        ).result is Ok,
        k > 1 + reduce(s, g, k_first, replies).spent + reduce(
            s,
            h,
            k_second,
            rest(replies, reduce(s, g, k_first, replies).requests.len()),
        ).spent,
    ensures
        reduce(s, pair(g, h), k, replies).result == Ok::<Tree, EvalError>(
            pair(
                reduce(s, g, k_first, replies).result->Ok_0,
                reduce(
                    s,
                    h,
                    k_second,
                    rest(replies, reduce(s, g, k_first, replies).requests.len()),
                ).result->Ok_0,
            ),
        ),
{
    reveal(reduce);
    reveal(step_of);
    reveal(operands);
    reveal(verdict);
    let f = pair(g, h);
    let j = (k - 1) as nat;
    lemma_formula_is_cell(s, g, k_first, replies);
    assert(operands(f).0 == Some(g));
    assert(operands(f).1 == Some(h));
    let a = reduce(s, g, k_first, replies);
    let later = rest(replies, a.requests.len());
    let b = reduce(s, h, k_second, later);
    lemma_threshold(s, g, k_first, j, replies);
    lemma_threshold(s, h, k_second, spare(j, a.spent), later);
    assert(step_of(s, f, j, replies) == settle(s, f, a, b, replies));
}

} // verus!
