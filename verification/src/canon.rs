//! The canonicalizer: literal values on the stack that are the body of a
//! known definition are folded back into the definition's name.

use crate::store::Context;
use crate::term::{Datum, Expr, Symbol, Term, Value, ValueStack};
use vstd::prelude::*;

verus! {

/// The key under which the reverse index holds the literal `t`.
pub open spec fn literal(t: Term) -> Term {
    Term::Quote(Box::new(t))
}

/// Whether the canonicalizer rewrites `d`: a literal that the index knows.
pub open spec fn folds(index: Map<Term, Symbol>, d: Datum) -> bool {
    d matches Datum::Quote(t) && index.contains_key(literal(t))
}

/// One value, canonicalized. A name is left as it is; a literal becomes the
/// name that the index has for it, if it has one. The body of a literal is
/// not looked into.
pub open spec fn compress_datum(index: Map<Term, Symbol>, d: Datum) -> Datum {
    match d {
        Datum::Call(_) => d,
        Datum::Quote(t) => if index.contains_key(literal(t)) {
            Datum::Call(index[literal(t)])
        } else {
            d
        },
    }
}

/// A stack, canonicalized value by value.
pub open spec fn compress_stack(index: Map<Term, Symbol>, stack: Seq<Datum>) -> Seq<Datum> {
    stack.map_values(|d: Datum| compress_datum(index, d))
}

/// Whether canonicalizing `stack` rewrites any of its values.
pub open spec fn compresses(index: Map<Term, Symbol>, stack: Seq<Datum>) -> bool {
    exists|i: int| 0 <= i < stack.len() && folds(index, #[trigger] stack[i])
}

/// Canonicalizing changes a stack exactly when it rewrites one of its values.
pub proof fn lemma_compress_changes(index: Map<Term, Symbol>, stack: Seq<Datum>)
    ensures
        compresses(index, stack) <==> compress_stack(index, stack) != stack,
{
    let after = compress_stack(index, stack);
    if compresses(index, stack) {
        let i = choose|i: int| 0 <= i < stack.len() && folds(index, #[trigger] stack[i]);
        assert(after[i] != stack[i]);
    } else {
        assert(after =~= stack);
    }
}

/// Canonicalizing a second time, with nothing done in between, changes
/// nothing more.
pub proof fn lemma_compress_idempotent(index: Map<Term, Symbol>, stack: Seq<Datum>)
    ensures
        compress_stack(index, compress_stack(index, stack)) == compress_stack(index, stack),
        !compresses(index, compress_stack(index, stack)),
{
    let once = compress_stack(index, stack);
    assert(compress_stack(index, once) =~= once);
    lemma_compress_changes(index, once);
}

impl Context {
    /// Canonicalizes every value of `vs` and says whether anything changed.
    pub fn compress(&mut self, vs: &mut ValueStack) -> (changed: bool)
        ensures
            final(self)@ == old(self)@,
            final(vs)@ == compress_stack(old(self)@.index, old(vs)@),
            changed == compresses(old(self)@.index, old(vs)@),
            changed == (final(vs)@ != old(vs)@),
    {
        let ghost index = self@.index;
        let ghost before = vs@;
        let n = vs.0.len();
        let mut changed = false;
        let mut i: usize = 0;
        while i < n
            invariant
                i <= n,
                vs.0@.len() == n,
                before.len() == n,
                self@.index == index,
                forall|j: int| 0 <= j < i ==> (#[trigger] vs.0@[j])@ == compress_datum(index, before[j]),
                forall|j: int| i <= j < n ==> (#[trigger] vs.0@[j])@ == before[j],
                changed == (exists|j: int| 0 <= j < i && folds(index, #[trigger] before[j])),
            decreases n - i,
        {
            let mut slot = Value::Call(Symbol(0));
            vs.0.set_and_swap(i, &mut slot);
            let ghost was = changed;
            match slot {
                Value::Call(sym) => {
                    vs.0.set(i, Value::Call(sym));
                },
                Value::Quote(inner) => {
                    let key = Expr::Quote(inner);
                    match self.name_of(&key) {
                        Some(sym) => {
                            vs.0.set(i, Value::Call(sym));
                            changed = true;
                        },
                        None => {
                            match key {
                                Expr::Quote(inner) => {
                                    vs.0.set(i, Value::Quote(inner));
                                },
                                _ => {},
                            }
                        },
                    }
                },
            }
            proof {
                assert(vs.0@[i as int]@ == compress_datum(index, before[i as int]));
                if changed {
                    if was {
                        let j = choose|j: int| 0 <= j < i && folds(index, #[trigger] before[j]);
                        assert(0 <= j < i + 1 && folds(index, before[j]));
                    } else {
                        assert(folds(index, before[i as int]));
                    }
                } else {
                    assert forall|j: int| 0 <= j < i + 1 implies !folds(index, #[trigger] before[j]) by {
                        if j < i {
                        } else {
                            assert(!folds(index, before[i as int]));
                        }
                    }
                }
            }
            i += 1;
        }
        proof {
            assert(vs@ =~= compress_stack(index, before));
            lemma_compress_changes(index, before);
        }
        changed
    }
}

} // verus!
