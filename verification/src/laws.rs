//! General laws of the evaluator, stated and proved once and for all.

use vstd::prelude::*;
use crate::parser::ExprV;
use crate::query::{eval, eval_flat, QueryError};
use crate::value::ValueV;

verus! {

broadcast use vstd::seq::group_seq_axioms;

/// The pipe of two expressions.
pub open spec fn pipe_of(l: ExprV, r: ExprV) -> ExprV {
    ExprV::Pipe(Box::new(l), Box::new(r))
}

/// The identity law: on any value, `.` yields exactly that value, once.
pub proof fn lemma_identity(v: ValueV)
    ensures
        eval(ExprV::Identity, v) == Result::Ok::<Seq<ValueV>, QueryError>(seq![v]),
{
}

/// Flat evaluation splits over a concatenation: the outputs of the first part
/// come first, and the first fault of the first part wins.
proof fn lemma_eval_flat_concat(e: ExprV, u: Seq<ValueV>, t: Seq<ValueV>)
    ensures
        eval_flat(e, u.add(t)) == match eval_flat(e, u) {
            Result::Ok(x) => match eval_flat(e, t) {
                Result::Ok(y) => Result::Ok::<Seq<ValueV>, QueryError>(x.add(y)),
                Result::Err(er) => Result::Err::<Seq<ValueV>, QueryError>(er),
            },
            Result::Err(er) => Result::Err::<Seq<ValueV>, QueryError>(er),
        },
    decreases u,
{
    if u.len() == 0 {
        assert(u.add(t) =~= t);
        match eval_flat(e, t) {
            Result::Ok(y) => {
                assert(Seq::<ValueV>::empty().add(y) =~= y);
            },
            Result::Err(_) => {},
        }
    } else {
        assert(u.add(t).len() > 0);
        assert(u.add(t).first() == u.first());
        assert(u.add(t).drop_first() =~= u.drop_first().add(t));
        lemma_eval_flat_concat(e, u.drop_first(), t);
        match eval(e, u.first()) {
            Result::Ok(h) => {
                match eval_flat(e, u.drop_first()) {
                    Result::Ok(x2) => {
                        match eval_flat(e, t) {
                            Result::Ok(y) => {
                                assert(h.add(x2.add(y)) =~= (h.add(x2)).add(y));
                            },
                            Result::Err(_) => {},
                        }
                    },
                    Result::Err(_) => {},
                }
            },
            Result::Err(_) => {},
        }
    }
}

/// Feeding a sequence through `b | c` agrees with feeding it through `b` and
/// then through `c`, as soon as either way of running it succeeds.
proof fn lemma_eval_flat_pipe(b: ExprV, c: ExprV, s: Seq<ValueV>)
    ensures
        ({
            let fp = eval_flat(pipe_of(b, c), s);
            let bc = match eval_flat(b, s) {
                Result::Ok(t) => eval_flat(c, t),
                Result::Err(er) => Result::Err::<Seq<ValueV>, QueryError>(er),
            };
            (fp is Ok || bc is Ok) ==> fp == bc
        }),
    decreases s,
{
    let fp = eval_flat(pipe_of(b, c), s);
    let bc = match eval_flat(b, s) {
        Result::Ok(t) => eval_flat(c, t),
        Result::Err(er) => Result::Err::<Seq<ValueV>, QueryError>(er),
    };
    if s.len() == 0 {
        assert(eval_flat(c, Seq::<ValueV>::empty()) == Result::Ok::<Seq<ValueV>, QueryError>(
            Seq::empty(),
        ));
    } else {
        let s0 = s.first();
        let rest = s.drop_first();
        lemma_eval_flat_pipe(b, c, rest);
        let fpr = eval_flat(pipe_of(b, c), rest);
        let bcr = match eval_flat(b, rest) {
            Result::Ok(t) => eval_flat(c, t),
            Result::Err(er) => Result::Err::<Seq<ValueV>, QueryError>(er),
        };
        match eval(b, s0) {
            Result::Err(er) => {
                assert(eval(pipe_of(b, c), s0) == Result::Err::<Seq<ValueV>, QueryError>(er));
                assert(fp == Result::Err::<Seq<ValueV>, QueryError>(er));
                assert(eval_flat(b, s) == Result::Err::<Seq<ValueV>, QueryError>(er));
                assert(bc == Result::Err::<Seq<ValueV>, QueryError>(er));
            },
            Result::Ok(u) => {
                assert(eval(pipe_of(b, c), s0) == eval_flat(c, u));
                match eval_flat(b, rest) {
                    Result::Err(_) => {
                        assert(bc is Err);
                        if fp is Ok {
                            assert(eval_flat(c, u) is Ok);
                            assert(fpr is Ok);
                            assert(fpr == bcr);
                            assert(false);
                        }
                    },
                    Result::Ok(t2) => {
                        assert(eval_flat(b, s) == Result::Ok::<Seq<ValueV>, QueryError>(
                            u.add(t2),
                        ));
                        lemma_eval_flat_concat(c, u, t2);
                        match eval_flat(c, u) {
                            Result::Err(er) => {
                                assert(fp == Result::Err::<Seq<ValueV>, QueryError>(er));
                                assert(bc == Result::Err::<Seq<ValueV>, QueryError>(er));
                            },
                            Result::Ok(x) => {
                                assert(bc == match eval_flat(c, t2) {
                                    Result::Ok(y) => Result::Ok::<Seq<ValueV>, QueryError>(
                                        x.add(y),
                                    ),
                                    Result::Err(er) => Result::Err::<Seq<ValueV>, QueryError>(
                                        er,
                                    ),
                                });
                                assert(bcr == eval_flat(c, t2));
                                assert(fp == match fpr {
                                    Result::Ok(t3) => Result::Ok::<Seq<ValueV>, QueryError>(
                                        x.add(t3),
                                    ),
                                    Result::Err(er) => Result::Err::<Seq<ValueV>, QueryError>(
                                        er,
                                    ),
                                });
                                if fp is Ok || bc is Ok {
                                    assert(fpr is Ok || bcr is Ok);
                                    assert(fpr == bcr);
                                    assert(fp == bc);
                                }
                            },
                        }
                    },
                }
            },
        }
    }
}

/// The associativity law for pipes: `(a | b) | c` and `a | (b | c)` yield the
/// same outputs in the same order whenever either grouping succeeds.  (When
/// both fault, the two groupings can meet their faults in different orders,
/// so only the success side is stated.)
pub proof fn lemma_pipe_associative(a: ExprV, b: ExprV, c: ExprV, v: ValueV)
    ensures
        eval(pipe_of(pipe_of(a, b), c), v) is Ok || eval(pipe_of(a, pipe_of(b, c)), v) is Ok
            ==> eval(pipe_of(pipe_of(a, b), c), v) == eval(pipe_of(a, pipe_of(b, c)), v),
{
    let lhs = eval(pipe_of(pipe_of(a, b), c), v);
    let rhs = eval(pipe_of(a, pipe_of(b, c)), v);
    match eval(a, v) {
        Result::Err(er) => {
            assert(eval(pipe_of(a, b), v) == Result::Err::<Seq<ValueV>, QueryError>(er));
            assert(lhs == Result::Err::<Seq<ValueV>, QueryError>(er));
            assert(rhs == Result::Err::<Seq<ValueV>, QueryError>(er));
        },
        Result::Ok(s) => {
            assert(eval(pipe_of(a, b), v) == eval_flat(b, s));
            assert(lhs == match eval_flat(b, s) {
                Result::Ok(t) => eval_flat(c, t),
                Result::Err(er) => Result::Err::<Seq<ValueV>, QueryError>(er),
            });
            assert(rhs == eval_flat(pipe_of(b, c), s));
            lemma_eval_flat_pipe(b, c, s);
        },
    }
}

} // verus!
