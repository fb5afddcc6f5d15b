//! The term model: symbols, intrinsics, expressions, runtime values and the
//! value stack, together with the mathematical views the contracts speak of.

use vstd::prelude::*;

verus! {

/// An interned identifier. Two symbols are the same name exactly when their
/// handles are equal.
#[derive(Debug, Clone, Copy, PartialEq, Eq, Hash, Structural)]
pub struct Symbol(pub usize);

/// The six primitive operations of the calculus.
#[derive(Debug, Clone, Copy, PartialEq, Eq, Hash, Structural)]
pub enum Intrinsic {
    Swap,
    Clone,
    Drop,
    Quote,
    Compose,
    Apply,
}

/// A program, and at the same time the continuation of a running program.
#[derive(Debug, Eq, Hash)]
pub enum Expr {
    Intrinsic(Intrinsic),
    Call(Symbol),
    Quote(Box<Expr>),
    Compose(Vec<Expr>),
}

/// The mathematical value of an [`Expr`].
pub enum Term {
    Intrinsic(Intrinsic),
    Call(Symbol),
    Quote(Box<Term>),
    Compose(Seq<Term>),
}

impl Expr {
    /// The term this expression stands for.
    pub open spec fn term(self) -> Term
        decreases self,
    {
        match self {
            Expr::Intrinsic(i) => Term::Intrinsic(i),
            Expr::Call(s) => Term::Call(s),
            Expr::Quote(e) => Term::Quote(Box::new((*e).term())),
            Expr::Compose(es) => Term::Compose(
                Seq::new(
                    es@.len(),
                    |i: int|
                        if 0 <= i < es@.len() {
                            es@[i].term()
                        } else {
                            Term::Compose(Seq::empty())
                        },
                ),
            ),
        }
    }
}

impl View for Expr {
    type V = Term;

    open spec fn view(&self) -> Term {
        self.term()
    }
}

/// The views of a sequence of expressions, element by element.
pub open spec fn terms(es: Seq<Expr>) -> Seq<Term> {
    es.map_values(|e: Expr| e@)
}

/// The view of a composition is the composition of the views.
pub proof fn lemma_compose_view(es: Vec<Expr>)
    ensures
        Expr::Compose(es)@ == Term::Compose(terms(es@)),
{
    assert(Expr::Compose(es)@->Compose_0 =~= terms(es@));
}

/// The continuation with nothing left to do.
pub open spec fn done() -> Term {
    Term::Compose(Seq::empty())
}

impl Expr {
    /// Whether this continuation has nothing left to do.
    pub fn is_done(&self) -> (r: bool)
        ensures
            r == (self@ == done()),
    {
        match self {
            Expr::Compose(es) => {
                proof {
                    lemma_compose_view(*es);
                    if es@.len() == 0 {
                        assert(terms(es@) =~= Seq::<Term>::empty());
                    } else {
                        assert(terms(es@).len() != done()->Compose_0.len());
                    }
                }
                es.len() == 0
            },
            _ => false,
        }
    }

    /// Whether `self` and `other` are the same expression.
    pub fn same(&self, other: &Expr) -> (r: bool)
        ensures
            r == (self@ == other@),
        decreases self,
    {
        match (self, other) {
            (Expr::Intrinsic(a), Expr::Intrinsic(b)) => *a == *b,
            (Expr::Call(a), Expr::Call(b)) => *a == *b,
            (Expr::Quote(a), Expr::Quote(b)) => (**a).same(&**b),
            (Expr::Compose(xs), Expr::Compose(ys)) => {
                proof {
                    lemma_compose_view(*xs);
                    lemma_compose_view(*ys);
                }
                if xs.len() != ys.len() {
                    proof {
                        assert(terms(xs@).len() != terms(ys@).len());
                    }
                    return false;
                }
                let mut i: usize = 0;
                while i < xs.len()
                    invariant
                        i <= xs.len(),
                        xs.len() == ys.len(),
                        *self == Expr::Compose(*xs),
                        self@ == Term::Compose(terms(xs@)),
                        other@ == Term::Compose(terms(ys@)),
                        forall|j: int| 0 <= j < i ==> xs@[j]@ == ys@[j]@,
                    decreases xs.len() - i,
                {
                    proof {
                        assert(self->Compose_0 == *xs);
                        assert(decreases_to!(*self => self->Compose_0));
                        assert(decreases_to!(*xs => xs@[i as int]));
                    }
                    if !xs[i].same(&ys[i]) {
                        proof {
                            assert(terms(xs@)[i as int] != terms(ys@)[i as int]);
                        }
                        return false;
                    }
                    i += 1;
                }
                proof {
                    assert(terms(xs@) =~= terms(ys@));
                }
                true
            },
            _ => false,
        }
    }
}

impl PartialEq for Expr {
    /// Structural equality.
    fn eq(&self, other: &Self) -> (r: bool) {
        self.same(other)
    }
}

impl vstd::std_specs::cmp::PartialEqSpecImpl for Expr {
    open spec fn obeys_eq_spec() -> bool {
        true
    }

    open spec fn eq_spec(&self, other: &Self) -> bool {
        self@ == other@
    }
}

impl Default for Expr {
    /// The empty composition.
    fn default() -> (r: Self)
        ensures
            r@ == done(),
    {
        let es: Vec<Expr> = Vec::new();
        proof {
            lemma_compose_view(es);
            assert(terms(es@) =~= Seq::<Term>::empty());
        }
        Expr::Compose(es)
    }
}

impl Clone for Expr {
    /// A structural copy.
    fn clone(&self) -> (r: Self)
        ensures
            r@ == self@,
        decreases self,
    {
        match self {
            Expr::Intrinsic(i) => Expr::Intrinsic(*i),
            Expr::Call(s) => Expr::Call(*s),
            Expr::Quote(e) => Expr::Quote(Box::new((**e).clone())),
            Expr::Compose(es) => {
                let mut out: Vec<Expr> = Vec::new();
                let mut i: usize = 0;
                while i < es.len()
                    invariant
                        i <= es.len(),
                        out@.len() == i,
                        forall|j: int| 0 <= j < i ==> (#[trigger] out@[j])@ == es@[j]@,
                        self == Expr::Compose(*es),
                    decreases es.len() - i,
                {
                    proof {
                        assert(self->Compose_0 == *es);
                        assert(decreases_to!(*self => self->Compose_0));
                        assert(decreases_to!(*es => es@[i as int]));
                    }
                    out.push(es[i].clone());
                    i += 1;
                }
                proof {
                    lemma_compose_view(*es);
                    lemma_compose_view(out);
                    assert(terms(out@) =~= terms(es@));
                }
                Expr::Compose(out)
            },
        }
    }
}

/// What lives on the evaluation stack.
#[derive(Debug, PartialEq, Eq)]
pub enum Value {
    /// A late-bound reference to a named, quoted definition.
    Call(Symbol),
    /// A literal expression carried as data.
    Quote(Box<Expr>),
}

/// The mathematical value of a [`Value`].
pub enum Datum {
    Call(Symbol),
    Quote(Term),
}

impl View for Value {
    type V = Datum;

    open spec fn view(&self) -> Datum {
        match self {
            Value::Call(s) => Datum::Call(*s),
            Value::Quote(e) => Datum::Quote((**e)@),
        }
    }
}

impl Clone for Value {
    /// A structural copy.
    fn clone(&self) -> (r: Self)
        ensures
            r@ == self@,
    {
        match self {
            Value::Call(s) => Value::Call(*s),
            Value::Quote(e) => Value::Quote(Box::new((**e).clone())),
        }
    }
}

/// The evaluation stack. The last element is the top.
#[derive(Debug, PartialEq, Eq)]
pub struct ValueStack(pub Vec<Value>);

/// The views of a sequence of values, element by element.
pub open spec fn data(vs: Seq<Value>) -> Seq<Datum> {
    vs.map_values(|v: Value| v@)
}

impl View for ValueStack {
    type V = Seq<Datum>;

    open spec fn view(&self) -> Seq<Datum> {
        data(self.0@)
    }
}

impl Clone for ValueStack {
    /// A structural copy.
    fn clone(&self) -> (r: Self)
        ensures
            r@ == self@,
    {
        let mut out: Vec<Value> = Vec::new();
        let mut i: usize = 0;
        while i < self.0.len()
            invariant
                i <= self.0.len(),
                out@.len() == i,
                forall|j: int| 0 <= j < i ==> (#[trigger] out@[j])@ == self.0@[j]@,
            decreases self.0.len() - i,
        {
            out.push(self.0[i].clone());
            i += 1;
        }
        let r = ValueStack(out);
        assert(r@ =~= self@);
        r
    }
}

impl Default for ValueStack {
    /// The empty stack.
    fn default() -> (r: Self)
        ensures
            r@ == Seq::<Datum>::empty(),
    {
        let r = ValueStack(Vec::new());
        assert(r@ =~= Seq::<Datum>::empty());
        r
    }
}

/// Why a step could not be taken.
#[derive(Debug, Clone, Copy, PartialEq, Eq, Structural)]
pub enum EvalError {
    /// An intrinsic needed more values than the stack holds.
    TooFewValues { available: usize, expected: usize },
    /// A name without a definition was called or resolved.
    UndefinedFn(Symbol),
    /// A value names a definition that is not a quotation.
    BadCallTarget(Symbol),
}

} // verus!
