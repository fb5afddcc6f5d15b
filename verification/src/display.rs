//! Terms with their names written out, and their text.

use crate::store::Context;
use crate::term::{
    lemma_compose_view, terms, Datum, EvalError, Expr, Intrinsic, Symbol, Term, Value,
    ValueStack,
};
use vstd::prelude::*;
use vstd::string::StringExecFns;

verus! {

/// The name of a symbol, written out.
pub type ResolvedSymbol = String;

/// An expression whose symbols are written out as names.
#[derive(Debug, PartialEq, Eq)]
pub enum ResolvedExpr {
    Empty,
    Intrinsic(Intrinsic),
    Call(ResolvedSymbol),
    Quote(Box<ResolvedExpr>),
    Compose(Vec<ResolvedExpr>),
}

/// The mathematical value of a [`ResolvedExpr`].
pub enum Named {
    Empty,
    Intrinsic(Intrinsic),
    Call(Seq<char>),
    Quote(Box<Named>),
    Compose(Seq<Named>),
}

impl ResolvedExpr {
    /// The named term this expression stands for.
    pub open spec fn named(self) -> Named
        decreases self,
    {
        match self {
            ResolvedExpr::Empty => Named::Empty,
            ResolvedExpr::Intrinsic(i) => Named::Intrinsic(i),
            ResolvedExpr::Call(name) => Named::Call(name@),
            ResolvedExpr::Quote(e) => Named::Quote(Box::new((*e).named())),
            ResolvedExpr::Compose(es) => Named::Compose(
                Seq::new(
                    es@.len(),
                    |i: int|
                        if 0 <= i < es@.len() {
                            es@[i].named()
                        } else {
                            Named::Empty
                        },
                ),
            ),
        }
    }
}

impl View for ResolvedExpr {
    type V = Named;

    open spec fn view(&self) -> Named {
        self.named()
    }
}

/// The views of a sequence of resolved expressions, element by element.
pub open spec fn all_named(es: Seq<ResolvedExpr>) -> Seq<Named> {
    es.map_values(|e: ResolvedExpr| e@)
}

/// The view of a composition is the composition of the views.
pub proof fn lemma_named_compose(es: Vec<ResolvedExpr>)
    ensures
        ResolvedExpr::Compose(es)@ == Named::Compose(all_named(es@)),
{
    assert(ResolvedExpr::Compose(es)@->Compose_0 =~= all_named(es@));
}

impl Clone for ResolvedExpr {
    /// A structural copy.
    fn clone(&self) -> (r: Self)
        ensures
            r@ == self@,
        decreases self,
    {
        match self {
            ResolvedExpr::Empty => ResolvedExpr::Empty,
            ResolvedExpr::Intrinsic(i) => ResolvedExpr::Intrinsic(*i),
            ResolvedExpr::Call(name) => ResolvedExpr::Call(name.clone()),
            ResolvedExpr::Quote(e) => ResolvedExpr::Quote(Box::new((**e).clone())),
            ResolvedExpr::Compose(es) => {
                let mut out: Vec<ResolvedExpr> = Vec::new();
                let mut i: usize = 0;
                while i < es.len()
                    invariant
                        i <= es.len(),
                        out@.len() == i,
                        forall|j: int| 0 <= j < i ==> (#[trigger] out@[j])@ == es@[j]@,
                        *self == ResolvedExpr::Compose(*es),
                    decreases es.len() - i,
                {
                    proof {
                        assert(self->Compose_0 == *es);
                        assert(decreases_to!(*self => self->Compose_0));
                        assert(decreases_to!(*es => es@[i as int]));
                    }
                    let c = es[i].clone();
                    out.push(c);
                    i += 1;
                }
                proof {
                    lemma_named_compose(*es);
                    lemma_named_compose(out);
                    assert(all_named(out@) =~= all_named(es@));
                }
                ResolvedExpr::Compose(out)
            },
        }
    }
}

/// A value whose symbols are written out as names.
#[derive(Debug, PartialEq, Eq)]
pub enum ResolvedValue {
    Call(ResolvedSymbol),
    Quote(Box<ResolvedExpr>),
}

/// The mathematical value of a [`ResolvedValue`].
pub enum NamedValue {
    Call(Seq<char>),
    Quote(Named),
}

impl View for ResolvedValue {
    type V = NamedValue;

    open spec fn view(&self) -> NamedValue {
        match self {
            ResolvedValue::Call(name) => NamedValue::Call(name@),
            ResolvedValue::Quote(e) => NamedValue::Quote((**e)@),
        }
    }
}

impl Clone for ResolvedValue {
    /// A structural copy.
    fn clone(&self) -> (r: Self)
        ensures
            r@ == self@,
    {
        match self {
            ResolvedValue::Call(name) => ResolvedValue::Call(name.clone()),
            ResolvedValue::Quote(e) => ResolvedValue::Quote(Box::new((**e).clone())),
        }
    }
}

/// A value stack whose symbols are written out as names.
#[derive(Debug, PartialEq, Eq)]
pub struct ResolvedValueStack(pub Vec<ResolvedValue>);

/// The views of a sequence of resolved values, element by element.
pub open spec fn all_named_values(vs: Seq<ResolvedValue>) -> Seq<NamedValue> {
    vs.map_values(|v: ResolvedValue| v@)
}

impl View for ResolvedValueStack {
    type V = Seq<NamedValue>;

    open spec fn view(&self) -> Seq<NamedValue> {
        all_named_values(self.0@)
    }
}

/// The words of `parts` with one space between neighbours.
pub open spec fn join_words(parts: Seq<Seq<char>>) -> Seq<char>
    decreases parts.len(),
{
    if parts.len() == 0 {
        Seq::empty()
    } else if parts.len() == 1 {
        parts[0]
    } else {
        join_words(parts.drop_last()) + " "@ + parts.last()
    }
}

/// The keyword of an intrinsic.
pub open spec fn intrinsic_text(i: Intrinsic) -> Seq<char> {
    match i {
        Intrinsic::Swap => "swap"@,
        Intrinsic::Clone => "clone"@,
        Intrinsic::Drop => "drop"@,
        Intrinsic::Quote => "quote"@,
        Intrinsic::Compose => "compose"@,
        Intrinsic::Apply => "apply"@,
    }
}

/// The text of a named term. A quotation is written in square brackets; the
/// elements of a composition are separated by one space, and an element that
/// is itself a composition is written in round brackets.
pub open spec fn expr_text(e: Named) -> Seq<char>
    decreases e,
{
    match e {
        Named::Empty => Seq::empty(),
        Named::Intrinsic(i) => intrinsic_text(i),
        Named::Call(name) => name,
        Named::Quote(q) => "["@ + expr_text(*q) + "]"@,
        Named::Compose(l) => join_words(element_texts(l)),
    }
}

/// The texts of the elements of a composition.
pub open spec fn element_texts(l: Seq<Named>) -> Seq<Seq<char>>
    decreases l,
{
    Seq::new(
        l.len(),
        |i: int|
            if 0 <= i < l.len() {
                if l[i] is Compose {
                    "("@ + expr_text(l[i]) + ")"@
                } else {
                    expr_text(l[i])
                }
            } else {
                Seq::empty()
            },
    )
}

/// The text of an element of a composition.
pub open spec fn element_text(e: Named) -> Seq<char> {
    if e is Compose {
        "("@ + expr_text(e) + ")"@
    } else {
        expr_text(e)
    }
}

/// The texts of the elements, one by one.
pub proof fn lemma_element_texts(l: Seq<Named>)
    ensures
        element_texts(l).len() == l.len(),
        forall|i: int| 0 <= i < l.len() ==> #[trigger] element_texts(l)[i] == element_text(l[i]),
{
}

/// The text of a named value: a name as it is, a literal in square brackets.
pub open spec fn value_text(v: NamedValue) -> Seq<char> {
    match v {
        NamedValue::Call(name) => name,
        NamedValue::Quote(e) => "["@ + expr_text(e) + "]"@,
    }
}

/// The text of a stack: its values, joined, between angle brackets.
pub open spec fn stack_text(vs: Seq<NamedValue>) -> Seq<char> {
    "⟨"@ + join_words(vs.map_values(|v: NamedValue| value_text(v))) + "⟩"@
}

/// Appends `word` to `out` as the word at position `i` of a joined list.
fn push_word(out: &mut String, i: usize, word: &str, Ghost(parts): Ghost<Seq<Seq<char>>>)
    requires
        i < parts.len(),
        parts[i as int] == word@,
        old(out)@ == join_words(parts.take(i as int)),
    ensures
        final(out)@ == join_words(parts.take(i + 1)),
{
    let ghost next = parts.take(i + 1);
    proof {
        assert(next.drop_last() =~= parts.take(i as int));
        assert(next.last() == word@);
    }
    if i > 0 {
        out.append(" ");
        out.append(word);
        proof {
            assert(out@ =~= join_words(next.drop_last()) + " "@ + next.last());
        }
    } else {
        out.append(word);
        proof {
            assert(parts.take(0) =~= Seq::<Seq<char>>::empty());
            assert(out@ =~= next[0]);
        }
    }
}

impl Intrinsic {
    /// The keyword of this intrinsic.
    pub fn to_string(&self) -> (r: String)
        ensures
            r@ == intrinsic_text(*self),
    {
        match self {
            Intrinsic::Swap => String::from_str("swap"),
            Intrinsic::Clone => String::from_str("clone"),
            Intrinsic::Drop => String::from_str("drop"),
            Intrinsic::Quote => String::from_str("quote"),
            Intrinsic::Compose => String::from_str("compose"),
            Intrinsic::Apply => String::from_str("apply"),
        }
    }
}

impl ResolvedExpr {
    /// Whether this expression is a composition.
    pub fn is_compose(&self) -> (r: bool)
        ensures
            r == (self@ is Compose),
    {
        match self {
            ResolvedExpr::Compose(..) => true,
            _ => false,
        }
    }

    /// The text of this expression.
    pub fn to_string(&self) -> (r: String)
        ensures
            r@ == expr_text(self@),
        decreases self,
    {
        match self {
            ResolvedExpr::Empty => String::new(),
            ResolvedExpr::Intrinsic(i) => i.to_string(),
            ResolvedExpr::Call(name) => name.clone(),
            ResolvedExpr::Quote(e) => {
                let mut out = String::from_str("[");
                let inner = (**e).to_string();
                out.append(inner.as_str());
                out.append("]");
                out
            },
            ResolvedExpr::Compose(es) => {
                let ghost parts = element_texts(all_named(es@));
                let mut out = String::new();
                let mut i: usize = 0;
                proof {
                    lemma_named_compose(*es);
                    lemma_element_texts(all_named(es@));
                    assert(parts.take(0) =~= Seq::<Seq<char>>::empty());
                }
                while i < es.len()
                    invariant
                        i <= es.len(),
                        *self == ResolvedExpr::Compose(*es),
                        parts == element_texts(all_named(es@)),
                        out@ == join_words(parts.take(i as int)),
                    decreases es.len() - i,
                {
                    proof {
                        assert(self->Compose_0 == *es);
                        assert(decreases_to!(*self => self->Compose_0));
                        assert(decreases_to!(*es => es@[i as int]));
                    }
                    proof {
                        lemma_element_texts(all_named(es@));
                    }
                    let inner = es[i].to_string();
                    let word = if es[i].is_compose() {
                        let mut w = String::from_str("(");
                        w.append(inner.as_str());
                        w.append(")");
                        w
                    } else {
                        inner
                    };
                    push_word(&mut out, i, word.as_str(), Ghost(parts));
                    i += 1;
                }
                proof {
                    assert(parts.take(es.len() as int) =~= parts);
                }
                out
            },
        }
    }
}

impl ResolvedValue {
    /// The text of this value.
    pub fn to_string(&self) -> (r: String)
        ensures
            r@ == value_text(self@),
    {
        match self {
            ResolvedValue::Call(name) => name.clone(),
            ResolvedValue::Quote(e) => {
                let mut out = String::from_str("[");
                let inner = (**e).to_string();
                out.append(inner.as_str());
                out.append("]");
                out
            },
        }
    }
}

impl ResolvedValueStack {
    /// The text of this stack.
    pub fn to_string(&self) -> (r: String)
        ensures
            r@ == stack_text(self@),
    {
        let ghost parts = self@.map_values(|v: NamedValue| value_text(v));
        let mut words = String::new();
        let mut i: usize = 0;
        proof {
            assert(parts.take(0) =~= Seq::<Seq<char>>::empty());
        }
        while i < self.0.len()
            invariant
                i <= self.0.len(),
                parts == self@.map_values(|v: NamedValue| value_text(v)),
                words@ == join_words(parts.take(i as int)),
            decreases self.0.len() - i,
        {
            let word = self.0[i].to_string();
            push_word(&mut words, i, word.as_str(), Ghost(parts));
            i += 1;
        }
        proof {
            assert(parts.take(self.0.len() as int) =~= parts);
        }
        let mut out = String::from_str("⟨");
        out.append(words.as_str());
        out.append("⟩");
        out
    }
}

/// Whether every symbol of `t` has a name in `names`.
pub open spec fn known(names: Seq<Seq<char>>, t: Term) -> bool
    decreases t,
{
    match t {
        Term::Intrinsic(_) => true,
        Term::Call(sym) => sym.0 < names.len(),
        Term::Quote(q) => known(names, *q),
        Term::Compose(l) => forall|i: int| 0 <= i < l.len() ==> known(names, #[trigger] l[i]),
    }
}

/// Whether every symbol of `d` has a name in `names`.
pub open spec fn known_datum(names: Seq<Seq<char>>, d: Datum) -> bool {
    match d {
        Datum::Call(sym) => sym.0 < names.len(),
        Datum::Quote(t) => known(names, t),
    }
}

/// Whether every symbol on `stack` has a name in `names`.
pub open spec fn known_stack(names: Seq<Seq<char>>, stack: Seq<Datum>) -> bool {
    forall|i: int| 0 <= i < stack.len() ==> known_datum(names, #[trigger] stack[i])
}

/// The term `t` with each symbol replaced by its name.
pub open spec fn named_term(names: Seq<Seq<char>>, t: Term) -> Named
    decreases t,
{
    match t {
        Term::Intrinsic(i) => Named::Intrinsic(i),
        Term::Call(sym) => Named::Call(names[sym.0 as int]),
        Term::Quote(q) => Named::Quote(Box::new(named_term(names, *q))),
        Term::Compose(l) => Named::Compose(named_terms(names, l)),
    }
}

/// The terms of `l`, each with its symbols replaced by their names.
pub open spec fn named_terms(names: Seq<Seq<char>>, l: Seq<Term>) -> Seq<Named>
    decreases l,
{
    Seq::new(
        l.len(),
        |i: int|
            if 0 <= i < l.len() {
                named_term(names, l[i])
            } else {
                Named::Empty
            },
    )
}

/// The value `d` with each symbol replaced by its name.
pub open spec fn named_datum(names: Seq<Seq<char>>, d: Datum) -> NamedValue {
    match d {
        Datum::Call(sym) => NamedValue::Call(names[sym.0 as int]),
        Datum::Quote(t) => NamedValue::Quote(named_term(names, t)),
    }
}

/// The stack with each symbol replaced by its name.
pub open spec fn named_stack(names: Seq<Seq<char>>, stack: Seq<Datum>) -> Seq<NamedValue> {
    stack.map_values(|d: Datum| named_datum(names, d))
}

/// Every element of a known composition is known.
pub proof fn lemma_known_elements(names: Seq<Seq<char>>, l: Seq<Term>)
    requires
        known(names, Term::Compose(l)),
    ensures
        forall|i: int| 0 <= i < l.len() ==> known(names, #[trigger] l[i]),
{
    assert forall|i: int| 0 <= i < l.len() implies known(names, #[trigger] l[i]) by {
        let t = Term::Compose(l);
        assert(t->Compose_0 == l);
        assert(known(names, t));
    }
}

impl Symbol {
    /// The name of this symbol.
    pub fn resolve(&self, ctx: &Context) -> (r: ResolvedSymbol)
        requires
            self.0 < ctx@.names.len(),
        ensures
            r@ == ctx@.names[self.0 as int],
    {
        match ctx.resolve(*self) {
            Some(name) => name,
            None => String::new(),
        }
    }
}

impl Expr {
    /// This expression with its symbols written out.
    pub fn resolve(&self, ctx: &Context) -> (r: ResolvedExpr)
        requires
            known(ctx@.names, self@),
        ensures
            r@ == named_term(ctx@.names, self@),
        decreases self,
    {
        match self {
            Expr::Intrinsic(i) => ResolvedExpr::Intrinsic(*i),
            Expr::Call(sym) => ResolvedExpr::Call(sym.resolve(ctx)),
            Expr::Quote(e) => ResolvedExpr::Quote(Box::new((**e).resolve(ctx))),
            Expr::Compose(es) => {
                let mut out: Vec<ResolvedExpr> = Vec::new();
                let mut i: usize = 0;
                proof {
                    lemma_compose_view(*es);
                }
                while i < es.len()
                    invariant
                        i <= es.len(),
                        out@.len() == i,
                        *self == Expr::Compose(*es),
                        self@ == Term::Compose(terms(es@)),
                        known(ctx@.names, self@),
                        forall|j: int|
                            0 <= j < i ==> (#[trigger] out@[j])@ == named_term(ctx@.names, es@[j]@),
                    decreases es.len() - i,
                {
                    proof {
                        assert(self->Compose_0 == *es);
                        assert(decreases_to!(*self => self->Compose_0));
                        assert(decreases_to!(*es => es@[i as int]));
                        lemma_known_elements(ctx@.names, terms(es@));
                        assert(known(ctx@.names, terms(es@)[i as int]));
                    }
                    let r = es[i].resolve(ctx);
                    out.push(r);
                    i += 1;
                }
                proof {
                    lemma_named_compose(out);
                    assert(all_named(out@) =~= named_terms(ctx@.names, terms(es@)));
                }
                ResolvedExpr::Compose(out)
            },
        }
    }
}

impl Value {
    /// This value with its symbols written out.
    pub fn resolve(&self, ctx: &Context) -> (r: ResolvedValue)
        requires
            known_datum(ctx@.names, self@),
        ensures
            r@ == named_datum(ctx@.names, self@),
    {
        match self {
            Value::Call(sym) => ResolvedValue::Call(sym.resolve(ctx)),
            Value::Quote(e) => ResolvedValue::Quote(Box::new((**e).resolve(ctx))),
        }
    }
}

impl ValueStack {
    /// This stack with its symbols written out.
    pub fn resolve(&self, ctx: &Context) -> (r: ResolvedValueStack)
        requires
            known_stack(ctx@.names, self@),
        ensures
            r@ == named_stack(ctx@.names, self@),
    {
        let mut out: Vec<ResolvedValue> = Vec::new();
        let mut i: usize = 0;
        while i < self.0.len()
            invariant
                i <= self.0.len(),
                out@.len() == i,
                known_stack(ctx@.names, self@),
                forall|j: int|
                    0 <= j < i ==> (#[trigger] out@[j])@ == named_datum(ctx@.names, self.0@[j]@),
            decreases self.0.len() - i,
        {
            proof {
                assert(known_datum(ctx@.names, self@[i as int]));
            }
            let r = self.0[i].resolve(ctx);
            out.push(r);
            i += 1;
        }
        let r = ResolvedValueStack(out);
        proof {
            assert(r@ =~= named_stack(ctx@.names, self@));
        }
        r
    }
}

/// The decimal digit `d`.
pub open spec fn digit_text(d: nat) -> Seq<char> {
    if d == 0 {
        "0"@
    } else if d == 1 {
        "1"@
    } else if d == 2 {
        "2"@
    } else if d == 3 {
        "3"@
    } else if d == 4 {
        "4"@
    } else if d == 5 {
        "5"@
    } else if d == 6 {
        "6"@
    } else if d == 7 {
        "7"@
    } else if d == 8 {
        "8"@
    } else {
        "9"@
    }
}

/// The number `n` in decimal, without leading zeros.
pub open spec fn decimal_text(n: nat) -> Seq<char>
    decreases n,
{
    if n < 10 {
        digit_text(n)
    } else {
        decimal_text(n / 10) + digit_text(n % 10)
    }
}

/// The decimal digit `d`, as text.
fn digit(d: usize) -> (r: &'static str)
    requires
        d < 10,
    ensures
        r@ == digit_text(d as nat),
{
    if d == 0 {
        "0"
    } else if d == 1 {
        "1"
    } else if d == 2 {
        "2"
    } else if d == 3 {
        "3"
    } else if d == 4 {
        "4"
    } else if d == 5 {
        "5"
    } else if d == 6 {
        "6"
    } else if d == 7 {
        "7"
    } else if d == 8 {
        "8"
    } else {
        "9"
    }
}

/// The number `n` in decimal.
pub fn decimal(n: usize) -> (r: String)
    ensures
        r@ == decimal_text(n as nat),
    decreases n,
{
    if n < 10 {
        String::from_str(digit(n))
    } else {
        let mut out = decimal(n / 10);
        out.append(digit(n % 10));
        out
    }
}

/// The text of an error, with the name of the symbol it speaks of.
pub open spec fn error_text(names: Seq<Seq<char>>, err: EvalError) -> Seq<char> {
    match err {
        EvalError::TooFewValues { available, expected } => "TooFewValues { available: "@
            + decimal_text(available as nat) + ", expected: "@ + decimal_text(expected as nat)
            + " }"@,
        EvalError::UndefinedFn(sym) => "UndefinedFn(\""@ + names[sym.0 as int] + "\")"@,
        EvalError::BadCallTarget(sym) => "BadCallTarget(\""@ + names[sym.0 as int] + "\")"@,
    }
}

/// Whether the symbol that `err` speaks of, if any, has a name in `names`.
pub open spec fn known_error(names: Seq<Seq<char>>, err: EvalError) -> bool {
    match err {
        EvalError::TooFewValues { .. } => true,
        EvalError::UndefinedFn(sym) => sym.0 < names.len(),
        EvalError::BadCallTarget(sym) => sym.0 < names.len(),
    }
}

impl EvalError {
    /// The text of this error.
    pub fn describe(&self, ctx: &Context) -> (r: String)
        requires
            known_error(ctx@.names, *self),
        ensures
            r@ == error_text(ctx@.names, *self),
    {
        match self {
            EvalError::TooFewValues { available, expected } => {
                let mut out = String::from_str("TooFewValues { available: ");
                out.append(decimal(*available).as_str());
                out.append(", expected: ");
                out.append(decimal(*expected).as_str());
                out.append(" }");
                out
            },
            EvalError::UndefinedFn(sym) => {
                let mut out = String::from_str("UndefinedFn(\"");
                out.append(sym.resolve(ctx).as_str());
                out.append("\")");
                out
            },
            EvalError::BadCallTarget(sym) => {
                let mut out = String::from_str("BadCallTarget(\"");
                out.append(sym.resolve(ctx).as_str());
                out.append("\")");
                out
            },
        }
    }
}

} // verus!
