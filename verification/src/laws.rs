//! What holds of the evaluator and the canonicalizer on every input.

use crate::canon::{compress_datum, compress_stack, literal};
use crate::display::{known, known_datum, known_error, known_stack, lemma_known_elements};
use crate::eval::{arity, elems, join, pack, resolve, splice, step};
use crate::store::{define, Store};
use crate::term::{done, Datum, EvalError, Intrinsic, Symbol, Term};
use vstd::prelude::*;

verus! {

/// Flattened normal form: no composition holds a composition as an element,
/// at any depth.
pub open spec fn flat(t: Term) -> bool
    decreases t,
{
    match t {
        Term::Quote(q) => flat(*q),
        Term::Compose(l) => forall|i: int|
            0 <= i < l.len() ==> !(#[trigger] l[i] is Compose) && flat(l[i]),
        _ => true,
    }
}

/// A stack whose literals are all in flattened normal form.
pub open spec fn flat_stack(stack: Seq<Datum>) -> bool {
    forall|i: int| 0 <= i < stack.len() ==> (#[trigger] stack[i] matches Datum::Quote(t) ==> flat(t))
}

/// Definitions whose bodies are all in flattened normal form.
pub open spec fn flat_defs(defs: Map<Symbol, Term>) -> bool {
    forall|sym: Symbol| defs.contains_key(sym) ==> flat(#[trigger] defs[sym])
}

/// `n` steps from `stack` and `e`, stopping at the first error.
pub open spec fn run(defs: Map<Symbol, Term>, stack: Seq<Datum>, e: Term, n: nat) -> Result<
    (Seq<Datum>, Term),
    EvalError,
>
    decreases n,
{
    if n == 0 {
        Ok((stack, e))
    } else {
        match step(defs, stack, e) {
            Err(err) => Err(err),
            Ok((s, t)) => run(defs, s, t, (n - 1) as nat),
        }
    }
}

/// The program that pushes `e` as a literal and then applies it.
pub open spec fn quote_apply(e: Term) -> Term {
    Term::Compose(seq![Term::Quote(Box::new(e)), Term::Intrinsic(Intrinsic::Apply)])
}

/// An intrinsic that finds fewer values on the stack than it takes fails with
/// `TooFewValues`, which reports the depth found and the depth needed.
pub proof fn lemma_too_few_values(defs: Map<Symbol, Term>, stack: Seq<Datum>, op: Intrinsic)
    requires
        stack.len() < arity(op),
    ensures
        step(defs, stack, Term::Intrinsic(op)) == Err::<(Seq<Datum>, Term), EvalError>(
            EvalError::TooFewValues { available: stack.len() as usize, expected: arity(op) },
        ),
{
}

/// An intrinsic that finds the values it takes does not fail for want of
/// values.
pub proof fn lemma_enough_values(defs: Map<Symbol, Term>, stack: Seq<Datum>, op: Intrinsic)
    requires
        stack.len() >= arity(op),
    ensures
        !(step(defs, stack, Term::Intrinsic(op)) matches Err(err) && err is TooFewValues),
{
}

/// Reading the packed form of a flat sequence gives the sequence back.
pub proof fn lemma_elems_pack(l: Seq<Term>)
    requires
        forall|i: int| 0 <= i < l.len() ==> !(#[trigger] l[i] is Compose),
    ensures
        elems(pack(l)) == l,
{
    if l.len() == 1 {
        assert(!(l[0] is Compose));
        assert(elems(l[0]) =~= l);
    }
}

/// The elements of a flat term are not compositions.
pub proof fn lemma_elems_flat(t: Term)
    requires
        flat(t),
    ensures
        forall|i: int| 0 <= i < elems(t).len() ==> !(#[trigger] elems(t)[i] is Compose) && flat(
            elems(t)[i],
        ),
{
}

/// Flattening is associative: joining three terms in flattened normal form
/// gives the same term in either grouping.
pub proof fn lemma_join_associative(a: Term, b: Term, c: Term)
    requires
        flat(a),
        flat(b),
        flat(c),
    ensures
        join(join(a, b), c) == join(a, join(b, c)),
{
    lemma_elems_flat(a);
    lemma_elems_flat(b);
    lemma_elems_flat(c);
    lemma_elems_pack(elems(a) + elems(b));
    lemma_elems_pack(elems(b) + elems(c));
    assert((elems(a) + elems(b)) + elems(c) =~= elems(a) + (elems(b) + elems(c)));
}

/// Joining keeps flattened normal form.
pub proof fn lemma_join_flat(a: Term, b: Term)
    requires
        flat(a),
        flat(b),
    ensures
        flat(join(a, b)),
{
    lemma_elems_flat(a);
    lemma_elems_flat(b);
    let l = elems(a) + elems(b);
    assert forall|i: int| 0 <= i < l.len() implies !(#[trigger] l[i] is Compose) && flat(l[i]) by {
        if i < elems(a).len() {
            assert(l[i] == elems(a)[i]);
        } else {
            assert(l[i] == elems(b)[i - elems(a).len()]);
        }
    }
}

/// A value that resolves under flat definitions resolves to a flat term.
pub proof fn lemma_resolve_flat(defs: Map<Symbol, Term>, d: Datum)
    requires
        flat_defs(defs),
        d matches Datum::Quote(t) ==> flat(t),
    ensures
        resolve(defs, d) matches Ok(t) ==> flat(t),
{
}

/// A step keeps flattened normal form: from flat definitions, a flat stack
/// and a flat continuation it leads to a flat stack and a flat continuation.
pub proof fn lemma_step_flat(defs: Map<Symbol, Term>, stack: Seq<Datum>, e: Term)
    requires
        flat_defs(defs),
        flat_stack(stack),
        flat(e),
    ensures
        step(defs, stack, e) matches Ok((s, t)) ==> flat_stack(s) && flat(t),
    decreases e,
{
    let n = stack.len() as int;
    match e {
        Term::Intrinsic(op) => {
            if n >= arity(op) {
                match op {
                    Intrinsic::Compose => {
                        lemma_resolve_flat(defs, stack[n - 1]);
                        lemma_resolve_flat(defs, stack[n - 2]);
                        if let Ok(second) = resolve(defs, stack[n - 1]) {
                            if let Ok(first) = resolve(defs, stack[n - 2]) {
                                lemma_join_flat(first, second);
                            }
                        }
                    },
                    Intrinsic::Apply => {
                        lemma_resolve_flat(defs, stack[n - 1]);
                    },
                    _ => {},
                }
            }
        },
        Term::Call(sym) => {},
        Term::Quote(q) => {},
        Term::Compose(l) => {
            if l.len() > 0 {
                lemma_step_flat(defs, stack, l[0]);
                if let Ok((s, first)) = step(defs, stack, l[0]) {
                    let rest = l.drop_first();
                    match first {
                        Term::Compose(head) => {
                            let all = head + rest;
                            assert forall|i: int| 0 <= i < all.len() implies !(
                            #[trigger] all[i] is Compose) && flat(all[i]) by {
                                if i < head.len() {
                                    assert(all[i] == head[i]);
                                } else {
                                    assert(all[i] == l[i - head.len() + 1]);
                                }
                            }
                        },
                        _ => {
                            let all = seq![first] + rest;
                            assert forall|i: int| 0 <= i < all.len() implies !(
                            #[trigger] all[i] is Compose) && flat(all[i]) by {
                                if i > 0 {
                                    assert(all[i] == l[i]);
                                }
                            }
                        },
                    }
                }
            }
        },
    }
}

/// Defining a name as a body in flattened normal form keeps the
/// definitions in flattened normal form.
pub proof fn lemma_define_flat(store: Store, sym: Symbol, body: Term)
    requires
        flat_defs(store.defs),
        flat(body),
    ensures
        flat_defs(define(store, sym, body).defs),
{
    let after = define(store, sym, body).defs;
    assert forall|s: Symbol| after.contains_key(s) implies flat(#[trigger] after[s]) by {
        if s != sym {
            assert(store.defs.contains_key(s));
        }
    }
}

/// Canonicalizing keeps a flat stack flat.
pub proof fn lemma_compress_flat(index: Map<Term, Symbol>, stack: Seq<Datum>)
    requires
        flat_stack(stack),
    ensures
        flat_stack(compress_stack(index, stack)),
{
    let after = compress_stack(index, stack);
    assert forall|i: int| 0 <= i < after.len() implies (#[trigger] after[i] matches Datum::Quote(t)
        ==> flat(t)) by {
        assert(after[i] == compress_datum(index, stack[i]));
    }
}

/// Quoting an expression and applying it at once leads, in two steps, to the
/// state from which the expression itself is reduced: from there on the two
/// runs take the same steps.
pub proof fn lemma_quote_apply_round_trip(defs: Map<Symbol, Term>, stack: Seq<Datum>, e: Term, n: nat)
    ensures
        run(defs, stack, quote_apply(e), 2) == Ok::<(Seq<Datum>, Term), EvalError>((stack, e)),
        run(defs, stack, quote_apply(e), n + 2) == run(defs, stack, e, n),
{
    let program = quote_apply(e);
    let l = program->Compose_0;
    let pushed = stack.push(Datum::Quote(e));
    let apply = Term::Intrinsic(Intrinsic::Apply);
    assert(step(defs, stack, l[0]) == Ok::<(Seq<Datum>, Term), EvalError>((pushed, done())));
    assert(done()->Compose_0 + l.drop_first() =~= seq![apply]);
    assert(splice(done(), l.drop_first()) == apply);
    assert(step(defs, stack, program) == Ok::<(Seq<Datum>, Term), EvalError>((pushed, apply)));
    assert(pushed.take(pushed.len() - 1) =~= stack);
    assert(step(defs, pushed, apply) == Ok::<(Seq<Datum>, Term), EvalError>((stack, e)));
    reveal_with_fuel(run, 3);
    assert(run(defs, stack, program, n + 2) == run(defs, pushed, apply, (n + 1) as nat));
    assert(run(defs, pushed, apply, (n + 1) as nat) == run(defs, stack, e, n));
}

/// Names are bound late: a literal that was canonicalized into the name
/// `sym` is applied as whatever quotation `sym` is defined as when it is
/// applied, not as the literal it was.
pub proof fn lemma_late_binding(
    store: Store,
    stack: Seq<Datum>,
    lit: Term,
    sym: Symbol,
    body: Term,
)
    requires
        store.index.contains_key(literal(lit)),
        store.index[literal(lit)] == sym,
    ensures
        compress_stack(store.index, stack.push(Datum::Quote(lit))) == compress_stack(
            store.index,
            stack,
        ).push(Datum::Call(sym)),
        step(
            define(store, sym, literal(body)).defs,
            compress_stack(store.index, stack.push(Datum::Quote(lit))),
            Term::Intrinsic(Intrinsic::Apply),
        ) == Ok::<(Seq<Datum>, Term), EvalError>((compress_stack(store.index, stack), body)),
{
    let folded = compress_stack(store.index, stack);
    let top = compress_stack(store.index, stack.push(Datum::Quote(lit)));
    assert(top =~= folded.push(Datum::Call(sym)));
    assert(top.take(top.len() - 1) =~= folded);
}

/// Definitions whose names and bodies hold only symbols that have a name.
pub open spec fn known_defs(names: Seq<Seq<char>>, defs: Map<Symbol, Term>) -> bool {
    forall|sym: Symbol| #[trigger]
        defs.contains_key(sym) ==> sym.0 < names.len() && known(names, defs[sym])
}

/// A reverse index that leads only to symbols that have a name.
pub open spec fn known_index(names: Seq<Seq<char>>, index: Map<Term, Symbol>) -> bool {
    forall|t: Term| #[trigger] index.contains_key(t) ==> index[t].0 < names.len()
}

/// A store that holds only symbols it has a name for.
pub open spec fn known_store(store: Store) -> bool {
    known_defs(store.names, store.defs) && known_index(store.names, store.index)
}

/// A term whose symbols all have a name still has when names are added.
pub proof fn lemma_known_grows(names: Seq<Seq<char>>, more: Seq<Seq<char>>, t: Term)
    requires
        known(names, t),
        names.len() <= more.len(),
    ensures
        known(more, t),
    decreases t,
{
    match t {
        Term::Quote(q) => {
            lemma_known_grows(names, more, *q);
        },
        Term::Compose(l) => {
            lemma_known_elements(names, l);
            assert forall|i: int| 0 <= i < l.len() implies known(more, #[trigger] l[i]) by {
                lemma_known_grows(names, more, l[i]);
            }
        },
        _ => {},
    }
}

/// The elements of a known term are known.
pub proof fn lemma_elems_known(names: Seq<Seq<char>>, t: Term)
    requires
        known(names, t),
    ensures
        forall|i: int| 0 <= i < elems(t).len() ==> known(names, #[trigger] elems(t)[i]),
{
    if let Term::Compose(l) = t {
        lemma_known_elements(names, l);
    }
}

/// A sequence of known terms packs into a known term.
pub proof fn lemma_pack_known(names: Seq<Seq<char>>, l: Seq<Term>)
    requires
        forall|i: int| 0 <= i < l.len() ==> known(names, #[trigger] l[i]),
    ensures
        known(names, pack(l)),
        known(names, Term::Compose(l)),
{
}

/// Joining known terms gives a known term.
pub proof fn lemma_join_known(names: Seq<Seq<char>>, a: Term, b: Term)
    requires
        known(names, a),
        known(names, b),
    ensures
        known(names, join(a, b)),
{
    lemma_elems_known(names, a);
    lemma_elems_known(names, b);
    let l = elems(a) + elems(b);
    assert forall|i: int| 0 <= i < l.len() implies known(names, #[trigger] l[i]) by {
        if i < elems(a).len() {
            assert(l[i] == elems(a)[i]);
        } else {
            assert(l[i] == elems(b)[i - elems(a).len()]);
        }
    }
    lemma_pack_known(names, l);
}

/// A known value resolves, under known definitions, to a known term or to
/// an error about a known symbol.
pub proof fn lemma_resolve_known(names: Seq<Seq<char>>, defs: Map<Symbol, Term>, d: Datum)
    requires
        known_defs(names, defs),
        known_datum(names, d),
    ensures
        match resolve(defs, d) {
            Ok(t) => known(names, t),
            Err(err) => known_error(names, err),
        },
{
    if let Datum::Call(sym) = d {
        if defs.contains_key(sym) {
            assert(known(names, defs[sym]));
        }
    }
}

/// A step brings in no symbol without a name: from known definitions, a
/// known stack and a known continuation it leads to a known stack and a
/// known continuation, or to an error about a known symbol.
pub proof fn lemma_step_known(
    names: Seq<Seq<char>>,
    defs: Map<Symbol, Term>,
    stack: Seq<Datum>,
    e: Term,
)
    requires
        known_defs(names, defs),
        known_stack(names, stack),
        known(names, e),
    ensures
        match step(defs, stack, e) {
            Ok((s, t)) => known_stack(names, s) && known(names, t),
            Err(err) => known_error(names, err),
        },
    decreases e,
{
    let n = stack.len() as int;
    match e {
        Term::Intrinsic(op) => {
            if n >= arity(op) {
                assert(known_datum(names, stack[n - 1]));
                match op {
                    Intrinsic::Swap => {
                        assert(known_datum(names, stack[n - 2]));
                    },
                    Intrinsic::Compose => {
                        assert(known_datum(names, stack[n - 2]));
                        lemma_resolve_known(names, defs, stack[n - 1]);
                        lemma_resolve_known(names, defs, stack[n - 2]);
                        if let Ok(second) = resolve(defs, stack[n - 1]) {
                            if let Ok(first) = resolve(defs, stack[n - 2]) {
                                lemma_join_known(names, first, second);
                            }
                        }
                    },
                    Intrinsic::Apply => {
                        lemma_resolve_known(names, defs, stack[n - 1]);
                    },
                    _ => {},
                }
            }
        },
        Term::Call(sym) => {
            if defs.contains_key(sym) {
                assert(known(names, defs[sym]));
            }
        },
        Term::Quote(q) => {},
        Term::Compose(l) => {
            if l.len() > 0 {
                lemma_known_elements(names, l);
                lemma_step_known(names, defs, stack, l[0]);
                if let Ok((s, first)) = step(defs, stack, l[0]) {
                    let rest = l.drop_first();
                    match first {
                        Term::Compose(head) => {
                            lemma_known_elements(names, head);
                            let all = head + rest;
                            assert forall|i: int| 0 <= i < all.len() implies known(
                                names,
                                #[trigger] all[i],
                            ) by {
                                if i < head.len() {
                                    assert(all[i] == head[i]);
                                } else {
                                    assert(all[i] == l[i - head.len() + 1]);
                                }
                            }
                            lemma_pack_known(names, all);
                        },
                        _ => {
                            let all = seq![first] + rest;
                            assert forall|i: int| 0 <= i < all.len() implies known(
                                names,
                                #[trigger] all[i],
                            ) by {
                                if i > 0 {
                                    assert(all[i] == l[i]);
                                }
                            }
                            lemma_pack_known(names, all);
                        },
                    }
                }
            }
        },
    }
}

/// Canonicalizing brings in no symbol without a name.
pub proof fn lemma_compress_known(
    names: Seq<Seq<char>>,
    index: Map<Term, Symbol>,
    stack: Seq<Datum>,
)
    requires
        known_index(names, index),
        known_stack(names, stack),
    ensures
        known_stack(names, compress_stack(index, stack)),
{
    let after = compress_stack(index, stack);
    assert forall|i: int| 0 <= i < after.len() implies known_datum(names, #[trigger] after[i]) by {
        assert(after[i] == compress_datum(index, stack[i]));
        assert(known_datum(names, stack[i]));
        if let Datum::Quote(t) = stack[i] {
            if index.contains_key(literal(t)) {
                assert(index[literal(t)].0 < names.len());
            }
        }
    }
}

/// Defining a known name as a known body keeps the store known.
pub proof fn lemma_define_known(store: Store, sym: Symbol, body: Term)
    requires
        known_store(store),
        sym.0 < store.names.len(),
        known(store.names, body),
    ensures
        known_store(define(store, sym, body)),
{
    let after = define(store, sym, body);
    assert forall|s: Symbol| #[trigger] after.defs.contains_key(s) implies s.0 < after.names.len()
        && known(after.names, after.defs[s]) by {
        if s != sym {
            assert(store.defs.contains_key(s));
        }
    }
    assert forall|t: Term| #[trigger] after.index.contains_key(t) implies after.index[t].0
        < after.names.len() by {
        if !(body is Quote && t == body) {
            assert(store.index.contains_key(t));
        }
    }
}

} // verus!
