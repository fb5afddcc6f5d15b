//! The small-step evaluator: one primitive rewrite of a stack and a
//! continuation, as a relation on terms and as the code that performs it.

use crate::store::Context;
use crate::term::{
    data, done, lemma_compose_view, terms, Datum, EvalError, Expr, Intrinsic, Symbol, Term,
    Value, ValueStack,
};
use vstd::prelude::*;

verus! {

/// The elements of a term read as a sequence: those of a composition, or the
/// term itself.
pub open spec fn elems(t: Term) -> Seq<Term> {
    match t {
        Term::Compose(l) => l,
        _ => seq![t],
    }
}

/// A sequence of terms as one term: a single element stands for itself.
pub open spec fn pack(l: Seq<Term>) -> Term {
    if l.len() == 1 {
        l[0]
    } else {
        Term::Compose(l)
    }
}

/// The flattened concatenation of two terms.
pub open spec fn join(a: Term, b: Term) -> Term {
    pack(elems(a) + elems(b))
}

/// The expression a value stands for: a literal stands for its body, a name
/// for the body of the quotation it is defined as.
pub open spec fn resolve(defs: Map<Symbol, Term>, d: Datum) -> Result<Term, EvalError> {
    match d {
        Datum::Quote(t) => Ok(t),
        Datum::Call(sym) => if !defs.contains_key(sym) {
            Err(EvalError::UndefinedFn(sym))
        } else {
            match defs[sym] {
                Term::Quote(t) => Ok(*t),
                _ => Err(EvalError::BadCallTarget(sym)),
            }
        },
    }
}

/// A value as the expression that `quote` wraps.
pub open spec fn as_term(d: Datum) -> Term {
    match d {
        Datum::Call(sym) => Term::Call(sym),
        Datum::Quote(t) => Term::Quote(Box::new(t)),
    }
}

/// The error of an intrinsic that finds `stack` too short.
pub open spec fn too_few(stack: Seq<Datum>, expected: usize) -> EvalError {
    EvalError::TooFewValues { available: stack.len() as usize, expected }
}

/// The number of values an intrinsic takes from the stack.
pub open spec fn arity(op: Intrinsic) -> usize {
    match op {
        Intrinsic::Swap => 2,
        Intrinsic::Clone => 1,
        Intrinsic::Drop => 1,
        Intrinsic::Quote => 1,
        Intrinsic::Compose => 2,
        Intrinsic::Apply => 1,
    }
}

/// One step of an intrinsic.
pub open spec fn step_intrinsic(defs: Map<Symbol, Term>, stack: Seq<Datum>, op: Intrinsic) -> Result<
    (Seq<Datum>, Term),
    EvalError,
> {
    let n = stack.len() as int;
    if n < arity(op) {
        Err(too_few(stack, arity(op)))
    } else {
        match op {
            Intrinsic::Swap => Ok((stack.take(n - 2).push(stack[n - 1]).push(stack[n - 2]), done())),
            Intrinsic::Clone => Ok((stack.push(stack[n - 1]), done())),
            Intrinsic::Drop => Ok((stack.take(n - 1), done())),
            Intrinsic::Quote => Ok(
                (stack.take(n - 1).push(Datum::Quote(as_term(stack[n - 1]))), done()),
            ),
            Intrinsic::Compose => match resolve(defs, stack[n - 1]) {
                Err(err) => Err(err),
                Ok(second) => match resolve(defs, stack[n - 2]) {
                    Err(err) => Err(err),
                    Ok(first) => Ok(
                        (stack.take(n - 2).push(Datum::Quote(join(first, second))), done()),
                    ),
                },
            },
            Intrinsic::Apply => match resolve(defs, stack[n - 1]) {
                Err(err) => Err(err),
                Ok(body) => Ok((stack.take(n - 1), body)),
            },
        }
    }
}

/// One step of a call.
pub open spec fn step_call(defs: Map<Symbol, Term>, stack: Seq<Datum>, sym: Symbol) -> Result<
    (Seq<Datum>, Term),
    EvalError,
> {
    if !defs.contains_key(sym) {
        Err(EvalError::UndefinedFn(sym))
    } else if defs[sym] is Quote {
        Ok((stack.push(Datum::Call(sym)), done()))
    } else {
        Ok((stack, defs[sym]))
    }
}

/// What is left of a composition once its first element has stepped to
/// `first`: a composition is spliced in, anything else stays in front.
pub open spec fn splice(first: Term, rest: Seq<Term>) -> Term {
    match first {
        Term::Compose(l) => pack(l + rest),
        _ => Term::Compose(seq![first] + rest),
    }
}

/// One primitive rewrite of `stack` and the continuation `e` under the
/// definitions `defs`: the new stack and continuation, or the error, in which
/// case nothing has changed.
pub open spec fn step(defs: Map<Symbol, Term>, stack: Seq<Datum>, e: Term) -> Result<
    (Seq<Datum>, Term),
    EvalError,
>
    decreases e,
{
    match e {
        Term::Intrinsic(op) => step_intrinsic(defs, stack, op),
        Term::Call(sym) => step_call(defs, stack, sym),
        Term::Quote(q) => Ok((stack.push(Datum::Quote(*q)), done())),
        Term::Compose(l) => if l.len() == 0 {
            Ok((stack, e))
        } else {
            match step(defs, stack, l[0]) {
                Err(err) => Err(err),
                Ok((s, first)) => Ok((s, splice(first, l.drop_first()))),
            }
        },
    }
}

/// Pushing a value pushes its view.
pub proof fn lemma_data_push(vs: Seq<Value>, v: Value)
    ensures
        data(vs.push(v)) == data(vs).push(v@),
{
    assert(data(vs.push(v)) =~= data(vs).push(v@));
}

/// Dropping the last value drops its view.
pub proof fn lemma_data_drop_last(vs: Seq<Value>)
    requires
        vs.len() > 0,
    ensures
        data(vs.drop_last()) == data(vs).take(vs.len() - 1),
        data(vs)[vs.len() - 1] == vs[vs.len() - 1]@,
{
    assert(data(vs.drop_last()) =~= data(vs).take(vs.len() - 1));
}

/// The terms of a concatenation are the concatenation of the terms.
pub proof fn lemma_terms_add(a: Seq<Expr>, b: Seq<Expr>)
    ensures
        terms(a + b) == terms(a) + terms(b),
{
    assert(terms(a + b) =~= terms(a) + terms(b));
}

/// The elements of an expression, as a vector.
fn into_elems(e: Expr) -> (r: Vec<Expr>)
    ensures
        terms(r@) == elems(e@),
{
    match e {
        Expr::Compose(es) => {
            proof {
                lemma_compose_view(es);
            }
            es
        },
        other => {
            let mut es: Vec<Expr> = Vec::new();
            es.push(other);
            proof {
                assert(terms(es@) =~= seq![other@]);
            }
            es
        },
    }
}

/// A vector of expressions as one expression.
fn pack_exprs(es: Vec<Expr>) -> (r: Expr)
    ensures
        r@ == pack(terms(es@)),
{
    let mut es = es;
    if es.len() == 1 {
        match es.pop() {
            Some(only) => only,
            None => Expr::Compose(es),
        }
    } else {
        proof {
            lemma_compose_view(es);
        }
        Expr::Compose(es)
    }
}

/// The flattened concatenation of two expressions.
pub fn join_exprs(first: Expr, second: Expr) -> (r: Expr)
    ensures
        r@ == join(first@, second@),
{
    let mut es = into_elems(first);
    let mut tail = into_elems(second);
    proof {
        lemma_terms_add(es@, tail@);
    }
    es.append(&mut tail);
    pack_exprs(es)
}

impl Context {
    /// Whether `v` stands for an expression under the current definitions.
    fn resolvable(&self, v: &Value) -> (r: Result<(), EvalError>)
        ensures
            match resolve(self@.defs, v@) {
                Ok(_) => r is Ok,
                Err(err) => r == Err::<(), EvalError>(err),
            },
    {
        match v {
            Value::Call(sym) => match self.lookup(*sym) {
                Some(body) => match body {
                    Expr::Quote(_) => Ok(()),
                    _ => Err(EvalError::BadCallTarget(*sym)),
                },
                None => Err(EvalError::UndefinedFn(*sym)),
            },
            Value::Quote(_) => Ok(()),
        }
    }

    /// The expression `v` stands for: the body of a literal, or a copy of the
    /// body of the quotation that a name is defined as.
    pub fn unquote_value(&self, v: Value) -> (r: Result<Expr, EvalError>)
        ensures
            match resolve(self@.defs, v@) {
                Ok(t) => r is Ok && r->Ok_0@ == t,
                Err(err) => r == Err::<Expr, EvalError>(err),
            },
    {
        match v {
            Value::Call(sym) => match self.lookup(sym) {
                Some(body) => match body {
                    Expr::Quote(inner) => Ok((**inner).clone()),
                    _ => Err(EvalError::BadCallTarget(sym)),
                },
                None => Err(EvalError::UndefinedFn(sym)),
            },
            Value::Quote(e) => Ok(*e),
        }
    }

    /// Performs one primitive rewrite of the stack `vs` and the continuation
    /// `e`. On an error nothing has changed.
    pub fn small_step(&mut self, vs: &mut ValueStack, e: &mut Expr) -> (r: Result<(), EvalError>)
        ensures
            final(self)@ == old(self)@,
            match step(old(self)@.defs, old(vs)@, old(e)@) {
                Ok((s, t)) => r is Ok && final(vs)@ == s && final(e)@ == t,
                Err(err) => r == Err::<(), EvalError>(err) && final(vs)@ == old(vs)@ && final(e)@
                    == old(e)@,
            },
        decreases old(e)@,
    {
        let mut taken = Expr::default();
        core::mem::swap(e, &mut taken);
        match taken {
            Expr::Intrinsic(op) => {
                *e = Expr::Intrinsic(op);
                self.step_op(vs, e, op)
            },
            Expr::Call(sym) => {
                match self.lookup(sym) {
                    Some(body) => match body {
                        Expr::Quote(_) => {
                            proof {
                                lemma_data_push(vs.0@, Value::Call(sym));
                            }
                            vs.0.push(Value::Call(sym));
                            Ok(())
                        },
                        _ => {
                            *e = body.clone();
                            Ok(())
                        },
                    },
                    None => {
                        *e = Expr::Call(sym);
                        Err(EvalError::UndefinedFn(sym))
                    },
                }
            },
            Expr::Quote(inner) => {
                proof {
                    lemma_data_push(vs.0@, Value::Quote(inner));
                }
                vs.0.push(Value::Quote(inner));
                Ok(())
            },
            Expr::Compose(es) => {
                let mut es = es;
                proof {
                    lemma_compose_view(es);
                }
                if es.len() == 0 {
                    *e = Expr::Compose(es);
                    return Ok(());
                }
                let ghost list = terms(es@);
                let mut first = es.remove(0);
                proof {
                    assert(terms(es@) =~= list.drop_first());
                    assert(first@ == list[0]);
                }
                match self.small_step(vs, &mut first) {
                    Err(err) => {
                        es.insert(0, first);
                        proof {
                            lemma_compose_view(es);
                            assert(terms(es@) =~= list);
                        }
                        *e = Expr::Compose(es);
                        Err(err)
                    },
                    Ok(()) => {
                        match first {
                            Expr::Compose(head) => {
                                let mut head = head;
                                proof {
                                    lemma_compose_view(head);
                                    lemma_terms_add(head@, es@);
                                }
                                head.append(&mut es);
                                *e = pack_exprs(head);
                            },
                            other => {
                                let ghost rest = es@;
                                es.insert(0, other);
                                proof {
                                    lemma_compose_view(es);
                                    assert(terms(es@) =~= seq![other@] + terms(rest));
                                }
                                *e = Expr::Compose(es);
                            },
                        }
                        Ok(())
                    },
                }
            },
        }
    }

    /// One step of the intrinsic `op`, which is the whole of `e`.
    fn step_op(&self, vs: &mut ValueStack, e: &mut Expr, op: Intrinsic) -> (r: Result<(), EvalError>)
        requires
            old(e)@ == Term::Intrinsic(op),
        ensures
            match step_intrinsic(self@.defs, old(vs)@, op) {
                Ok((s, t)) => r is Ok && final(vs)@ == s && final(e)@ == t,
                Err(err) => r == Err::<(), EvalError>(err) && final(vs)@ == old(vs)@ && final(e)@
                    == old(e)@,
            },
    {
        let n = vs.0.len();
        let expected: usize = match op {
            Intrinsic::Swap => 2,
            Intrinsic::Clone => 1,
            Intrinsic::Drop => 1,
            Intrinsic::Quote => 1,
            Intrinsic::Compose => 2,
            Intrinsic::Apply => 1,
        };
        if n < expected {
            return Err(EvalError::TooFewValues { available: n, expected });
        }
        match op {
            Intrinsic::Swap => {
                let top = vs.0.pop();
                let below = vs.0.pop();
                match (top, below) {
                    (Some(top), Some(below)) => {
                        proof {
                            lemma_data_drop_last(old(vs).0@);
                            lemma_data_drop_last(old(vs).0@.drop_last());
                            lemma_data_push(vs.0@, top);
                            lemma_data_push(vs.0@.push(top), below);
                            assert(data(old(vs).0@).take(n - 1).take(n - 2) =~= data(
                                old(vs).0@,
                            ).take(n - 2));
                        }
                        vs.0.push(top);
                        vs.0.push(below);
                    },
                    _ => {},
                }
                *e = Expr::default();
                Ok(())
            },
            Intrinsic::Clone => {
                let top = vs.0[n - 1].clone();
                proof {
                    lemma_data_push(vs.0@, top);
                }
                vs.0.push(top);
                *e = Expr::default();
                Ok(())
            },
            Intrinsic::Drop => {
                proof {
                    lemma_data_drop_last(vs.0@);
                }
                vs.0.pop();
                *e = Expr::default();
                Ok(())
            },
            Intrinsic::Quote => {
                match vs.0.pop() {
                    Some(v) => {
                        let quoted = match v {
                            Value::Call(sym) => Expr::Call(sym),
                            Value::Quote(inner) => Expr::Quote(inner),
                        };
                        proof {
                            lemma_data_drop_last(old(vs).0@);
                            lemma_data_push(vs.0@, Value::Quote(Box::new(quoted)));
                        }
                        vs.0.push(Value::Quote(Box::new(quoted)));
                    },
                    None => {},
                }
                *e = Expr::default();
                Ok(())
            },
            Intrinsic::Compose => {
                match self.resolvable(&vs.0[n - 1]) {
                    Err(err) => {
                        return Err(err);
                    },
                    Ok(()) => {},
                }
                match self.resolvable(&vs.0[n - 2]) {
                    Err(err) => {
                        return Err(err);
                    },
                    Ok(()) => {},
                }
                let top = vs.0.pop();
                let below = vs.0.pop();
                match (top, below) {
                    (Some(top), Some(below)) => {
                        proof {
                            lemma_data_drop_last(old(vs).0@);
                            lemma_data_drop_last(old(vs).0@.drop_last());
                            assert(data(old(vs).0@).take(n - 1).take(n - 2) =~= data(
                                old(vs).0@,
                            ).take(n - 2));
                        }
                        match (self.unquote_value(below), self.unquote_value(top)) {
                            (Ok(first), Ok(second)) => {
                                let joined = Value::Quote(Box::new(join_exprs(first, second)));
                                proof {
                                    lemma_data_push(vs.0@, joined);
                                }
                                vs.0.push(joined);
                            },
                            _ => {},
                        }
                    },
                    _ => {},
                }
                *e = Expr::default();
                Ok(())
            },
            Intrinsic::Apply => {
                match self.resolvable(&vs.0[n - 1]) {
                    Err(err) => {
                        return Err(err);
                    },
                    Ok(()) => {},
                }
                match vs.0.pop() {
                    Some(top) => {
                        proof {
                            lemma_data_drop_last(old(vs).0@);
                        }
                        match self.unquote_value(top) {
                            Ok(body) => {
                                *e = body;
                            },
                            Err(_) => {},
                        }
                    },
                    None => {},
                }
                Ok(())
            },
        }
    }
}

} // verus!
