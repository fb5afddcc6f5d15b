//! From names to symbols: expressions, definitions and commands as they are
//! read become expressions, definitions and commands of a store.

use crate::command::{
    flat_command, flat_item, items, known_command, known_item, Command, InterpCommand, InterpItem,
    Item,
};
use crate::display::{
    all_named, known, known_datum, lemma_known_elements, lemma_named_compose, named_term,
    named_terms, Named, NamedValue, ResolvedExpr, ResolvedValue, ResolvedValueStack,
};
use crate::laws::flat;
use crate::parse::{
    flat_named, flat_named_command, flat_named_item, lemma_lex_len, lemma_parse_elems_bounds,
    lex_spec, named_items, pack_named, parse_elems_spec, parse_fn_def_at, read_assertion,
    read_assertion_spec, read_command, read_command_spec, read_expr, read_expr_spec, read_fn_def,
    read_fn_def_spec, read_items, read_items_spec, read_stack, read_stack_spec, NamedCommand,
    NamedDef, NamedItem, NamedState, ParseError, ParsedCommand, ParsedFnDef, ParsedItem,
    ParsedState, Tok, word_named,
};
use crate::store::{has_room, max_names, Context, FnDef};
use crate::term::{done, lemma_compose_view, terms, Datum, Expr, Symbol, Term, Value, ValueStack};
use vstd::prelude::*;

verus! {

/// The names after `w` has been interned: a new name is appended.
pub open spec fn add_name(names: Seq<Seq<char>>, w: Seq<char>) -> Seq<Seq<char>> {
    if names.contains(w) {
        names
    } else {
        names.push(w)
    }
}

/// The names after the words `ws` have been interned, one after the other.
pub open spec fn add_names(names: Seq<Seq<char>>, ws: Seq<Seq<char>>) -> Seq<Seq<char>>
    decreases ws.len(),
{
    if ws.len() == 0 {
        names
    } else {
        add_name(add_names(names, ws.drop_last()), ws.last())
    }
}

/// The words of the first `n` of `parts`, one part after the other.
pub open spec fn concat_first(parts: Seq<Seq<Seq<char>>>, n: nat) -> Seq<Seq<char>>
    decreases n,
{
    if n == 0 || n > parts.len() {
        Seq::empty()
    } else {
        concat_first(parts, (n - 1) as nat) + parts[n - 1]
    }
}

/// The words of `parts` from position `n` on, one part after the other.
pub open spec fn concat_after(parts: Seq<Seq<Seq<char>>>, n: nat) -> Seq<Seq<char>>
    decreases parts.len() - n,
{
    if n >= parts.len() {
        Seq::empty()
    } else {
        parts[n as int] + concat_after(parts, n + 1)
    }
}

/// The words of all of `parts`, one part after the other.
pub open spec fn concat(parts: Seq<Seq<Seq<char>>>) -> Seq<Seq<char>> {
    concat_first(parts, parts.len())
}

/// The names that `e` calls, in the order in which they stand.
pub open spec fn words_of(e: Named) -> Seq<Seq<char>>
    decreases e,
{
    match e {
        Named::Call(w) => seq![w],
        Named::Quote(q) => words_of(*q),
        Named::Compose(l) => concat(word_parts(l)),
        _ => Seq::empty(),
    }
}

/// The names that each expression of `l` calls.
pub open spec fn word_parts(l: Seq<Named>) -> Seq<Seq<Seq<char>>>
    decreases l,
{
    Seq::new(
        l.len(),
        |i: int|
            if 0 <= i < l.len() {
                words_of(l[i])
            } else {
                Seq::empty()
            },
    )
}

/// Whether the term `t` is the expression `e` with each name replaced by a
/// symbol that `names` holds for it.
pub open spec fn spells(names: Seq<Seq<char>>, t: Term, e: Named) -> bool
    decreases e,
{
    match e {
        Named::Empty => t == done(),
        Named::Intrinsic(i) => t == Term::Intrinsic(i),
        Named::Call(w) => t matches Term::Call(sym) && sym.0 < names.len() && names[sym.0 as int]
            == w,
        Named::Quote(q) => t matches Term::Quote(inner) && spells(names, *inner, *q),
        Named::Compose(l) => t matches Term::Compose(ts) && ts.len() == l.len() && forall|i: int|
            0 <= i < l.len() ==> spells(names, ts[i], #[trigger] l[i]),
    }
}

/// Whether `a` is the beginning of `b`.
pub open spec fn extends(b: Seq<Seq<char>>, a: Seq<Seq<char>>) -> bool {
    a.len() <= b.len() && b.take(a.len() as int) == a
}

/// Interning one name keeps the names that were there.
pub proof fn lemma_add_name_extends(names: Seq<Seq<char>>, w: Seq<char>)
    ensures
        extends(add_name(names, w), names),
{
    assert(add_name(names, w).take(names.len() as int) =~= names);
}

/// Extending is transitive.
pub proof fn lemma_extends_trans(c: Seq<Seq<char>>, b: Seq<Seq<char>>, a: Seq<Seq<char>>)
    requires
        extends(c, b),
        extends(b, a),
    ensures
        extends(c, a),
{
    assert(c.take(a.len() as int) =~= b.take(a.len() as int));
}

/// Interning names keeps the names that were there.
pub proof fn lemma_add_names_extends(names: Seq<Seq<char>>, ws: Seq<Seq<char>>)
    ensures
        extends(add_names(names, ws), names),
    decreases ws.len(),
{
    if ws.len() == 0 {
        assert(names.take(names.len() as int) =~= names);
    } else {
        let mid = add_names(names, ws.drop_last());
        lemma_add_names_extends(names, ws.drop_last());
        lemma_add_name_extends(mid, ws.last());
        lemma_extends_trans(add_names(names, ws), mid, names);
    }
}

/// Interning two runs of names is interning the first and then the second.
pub proof fn lemma_add_names_concat(names: Seq<Seq<char>>, a: Seq<Seq<char>>, b: Seq<Seq<char>>)
    ensures
        add_names(names, a + b) == add_names(add_names(names, a), b),
    decreases b.len(),
{
    if b.len() == 0 {
        assert(a + b =~= a);
    } else {
        lemma_add_names_concat(names, a, b.drop_last());
        assert((a + b).drop_last() =~= a + b.drop_last());
        assert((a + b).last() == b.last());
    }
}

/// Where interning two runs of names adds nothing, interning the first adds
/// nothing.
pub proof fn lemma_add_names_none(names: Seq<Seq<char>>, a: Seq<Seq<char>>, b: Seq<Seq<char>>)
    requires
        add_names(names, a + b) == names,
    ensures
        add_names(names, a) == names,
        add_names(names, b) == names,
{
    lemma_add_names_concat(names, a, b);
    lemma_add_names_extends(names, a);
    lemma_add_names_extends(add_names(names, a), b);
    assert(add_names(names, a) =~= names);
}

/// All parts are the first `n` parts and then the rest.
pub proof fn lemma_concat_split(parts: Seq<Seq<Seq<char>>>, n: nat)
    requires
        n <= parts.len(),
    ensures
        concat(parts) == concat_first(parts, n) + concat_after(parts, n),
    decreases parts.len() - n,
{
    if n == parts.len() {
        assert(concat_first(parts, n) + Seq::<Seq<char>>::empty() =~= concat_first(parts, n));
    } else {
        lemma_concat_split(parts, n + 1);
        assert(concat_first(parts, n + 1) + concat_after(parts, n + 1) =~= concat_first(parts, n)
            + (parts[n as int] + concat_after(parts, n + 1)));
    }
}

/// Whether a table that holds `names` and was made with the memory limit
/// `limit` takes the words `ws`, interned one after the other: either they
/// are all held already, or there is no memory limit and the names do not
/// come to be more than there are handles.
pub open spec fn fits(names: Seq<Seq<char>>, limit: usize, ws: Seq<Seq<char>>) -> bool {
    add_names(names, ws) == names || (limit == usize::MAX && add_names(names, ws).len()
        <= max_names())
}

/// One word is taken exactly where it is held already or there is room for
/// one more name.
pub proof fn lemma_fits_one(names: Seq<Seq<char>>, limit: usize, w: Seq<char>)
    ensures
        add_names(names, seq![w]) == add_name(names, w),
        fits(names, limit, seq![w]) <==> names.contains(w) || has_room(names, limit),
{
    assert(seq![w].drop_last() =~= Seq::<Seq<char>>::empty());
    assert(add_names(names, Seq::empty()) == names);
    assert(add_names(names, seq![w]) == add_name(names, w));
}

/// Two runs of words are taken exactly where the first is taken and then the
/// second.
pub proof fn lemma_fits_concat(
    names: Seq<Seq<char>>,
    limit: usize,
    a: Seq<Seq<char>>,
    b: Seq<Seq<char>>,
)
    ensures
        add_names(names, a + b) == add_names(add_names(names, a), b),
        fits(names, limit, a + b) <==> fits(names, limit, a) && fits(
            add_names(names, a),
            limit,
            b,
        ),
{
    lemma_add_names_concat(names, a, b);
    lemma_add_names_extends(names, a);
    lemma_add_names_extends(add_names(names, a), b);
    if add_names(names, a + b) == names {
        lemma_add_names_none(names, a, b);
    }
}

/// The names after the words `ws` have been interned one after the other
/// for as long as the table takes them: at the first word that is new and
/// finds no room, interning stops.
pub open spec fn taken(names: Seq<Seq<char>>, limit: usize, ws: Seq<Seq<char>>) -> Seq<Seq<char>>
    decreases ws.len(),
{
    if ws.len() == 0 {
        names
    } else if names.contains(ws[0]) || has_room(names, limit) {
        taken(add_name(names, ws[0]), limit, ws.drop_first())
    } else {
        names
    }
}

/// One word is interned where it is taken.
pub proof fn lemma_taken_one(names: Seq<Seq<char>>, limit: usize, w: Seq<char>)
    ensures
        taken(names, limit, seq![w]) == (if names.contains(w) || has_room(names, limit) {
            add_name(names, w)
        } else {
            names
        }),
{
    let ws = seq![w];
    assert(ws.drop_first() =~= Seq::<Seq<char>>::empty());
    if names.contains(w) || has_room(names, limit) {
        assert(taken(add_name(names, w), limit, Seq::empty()) == add_name(names, w));
    }
}

/// Of two runs of words the second is interned where the first was taken
/// whole.
pub proof fn lemma_taken_concat(
    names: Seq<Seq<char>>,
    limit: usize,
    a: Seq<Seq<char>>,
    b: Seq<Seq<char>>,
)
    ensures
        taken(names, limit, a + b) == (if fits(names, limit, a) {
            taken(add_names(names, a), limit, b)
        } else {
            taken(names, limit, a)
        }),
    decreases a.len(),
{
    if a.len() == 0 {
        assert(a + b =~= b);
    } else {
        let rest = a.drop_first();
        assert(a =~= seq![a[0]] + rest);
        assert((a + b).drop_first() =~= rest + b);
        lemma_fits_one(names, limit, a[0]);
        lemma_fits_concat(names, limit, seq![a[0]], rest);
        if names.contains(a[0]) || has_room(names, limit) {
            lemma_taken_concat(add_name(names, a[0]), limit, rest, b);
        }
    }
}

/// Words that are taken are all interned.
pub proof fn lemma_taken_fits(names: Seq<Seq<char>>, limit: usize, ws: Seq<Seq<char>>)
    requires
        fits(names, limit, ws),
    ensures
        taken(names, limit, ws) == add_names(names, ws),
    decreases ws.len(),
{
    if ws.len() > 0 {
        let rest = ws.drop_first();
        assert(ws =~= seq![ws[0]] + rest);
        lemma_fits_one(names, limit, ws[0]);
        lemma_fits_concat(names, limit, seq![ws[0]], rest);
        lemma_taken_fits(add_name(names, ws[0]), limit, rest);
    }
}

/// Where the first `i` parts are taken and part `i` is not, interning all
/// parts stops within part `i`.
pub proof fn lemma_taken_step(
    names: Seq<Seq<char>>,
    limit: usize,
    parts: Seq<Seq<Seq<char>>>,
    i: nat,
)
    requires
        i < parts.len(),
        fits(names, limit, concat_first(parts, i)),
        !fits(add_names(names, concat_first(parts, i)), limit, parts[i as int]),
    ensures
        taken(names, limit, concat(parts)) == taken(
            add_names(names, concat_first(parts, i)),
            limit,
            parts[i as int],
        ),
{
    lemma_fits_step(names, limit, parts, i);
    lemma_concat_split(parts, i + 1);
    lemma_taken_concat(names, limit, concat_first(parts, i + 1), concat_after(parts, i + 1));
    lemma_taken_concat(names, limit, concat_first(parts, i), parts[i as int]);
}

/// Interning the first `i + 1` parts is interning the first `i` and then
/// part `i`; they are taken exactly where the first `i` are taken and then
/// part `i`. Where all parts are taken, the first `i + 1` are.
pub proof fn lemma_fits_step(
    names: Seq<Seq<char>>,
    limit: usize,
    parts: Seq<Seq<Seq<char>>>,
    i: nat,
)
    requires
        i < parts.len(),
    ensures
        add_names(names, concat_first(parts, i + 1)) == add_names(
            add_names(names, concat_first(parts, i)),
            parts[i as int],
        ),
        fits(names, limit, concat_first(parts, i + 1)) <==> fits(
            names,
            limit,
            concat_first(parts, i),
        ) && fits(add_names(names, concat_first(parts, i)), limit, parts[i as int]),
        fits(names, limit, concat(parts)) ==> fits(names, limit, concat_first(parts, i + 1)),
{
    lemma_fits_concat(names, limit, concat_first(parts, i), parts[i as int]);
    lemma_concat_split(parts, i + 1);
    lemma_fits_concat(names, limit, concat_first(parts, i + 1), concat_after(parts, i + 1));
}

/// Interning words adds no more names than there are words.
pub proof fn lemma_add_names_len(names: Seq<Seq<char>>, ws: Seq<Seq<char>>)
    ensures
        add_names(names, ws).len() <= names.len() + ws.len(),
    decreases ws.len(),
{
    if ws.len() > 0 {
        lemma_add_names_len(names, ws.drop_last());
    }
}

/// The words of the first `k` parts depend on these parts alone.
pub proof fn lemma_concat_first_agree(x: Seq<Seq<Seq<char>>>, y: Seq<Seq<Seq<char>>>, k: nat)
    requires
        k <= x.len(),
        k <= y.len(),
        forall|i: int| 0 <= i < k ==> x[i] == y[i],
    ensures
        concat_first(x, k) == concat_first(y, k),
    decreases k,
{
    if k > 0 {
        lemma_concat_first_agree(x, y, (k - 1) as nat);
    }
}

/// The words of two runs of parts are the words of the first and then the
/// words of the second.
pub proof fn lemma_concat_add(p: Seq<Seq<Seq<char>>>, q: Seq<Seq<Seq<char>>>)
    ensures
        concat(p + q) == concat(p) + concat(q),
    decreases q.len(),
{
    if q.len() == 0 {
        assert(p + q =~= p);
        assert(concat(p) + concat(q) =~= concat(p));
    } else {
        let n = (p.len() + q.len()) as nat;
        lemma_concat_add(p, q.drop_last());
        lemma_concat_first_agree(p + q, p + q.drop_last(), (n - 1) as nat);
        lemma_concat_first_agree(q, q.drop_last(), (q.len() - 1) as nat);
        assert((p + q)[n - 1] == q.last());
        assert(concat(p + q) =~= concat(p) + concat(q));
    }
}

/// The names that the expressions of `l` call, in order.
pub open spec fn words_of_all(l: Seq<Named>) -> Seq<Seq<char>> {
    concat(word_parts(l))
}

/// The names of two runs of expressions are the names of the first and then
/// the names of the second.
pub proof fn lemma_words_add(a: Seq<Named>, b: Seq<Named>)
    ensures
        words_of_all(a + b) == words_of_all(a) + words_of_all(b),
{
    assert(word_parts(a + b) =~= word_parts(a) + word_parts(b));
    lemma_concat_add(word_parts(a), word_parts(b));
}

/// The names of one expression and of what it packs to.
pub proof fn lemma_words_pack(l: Seq<Named>)
    ensures
        words_of(pack_named(l)) == words_of_all(l),
        l.len() == 1 ==> words_of_all(l) == words_of(l[0]),
{
    if l.len() == 1 {
        let parts = word_parts(l);
        assert(concat_first(parts, 0) == Seq::<Seq<char>>::empty());
        assert(concat_first(parts, 1) =~= parts[0]);
    }
}

/// An expression that is read calls no more names than it has tokens.
pub proof fn lemma_parse_elems_words(ts: Seq<Tok>, i: int)
    requires
        0 <= i <= ts.len(),
    ensures
        parse_elems_spec(ts, i) matches Some((l, j)) ==> i <= j <= ts.len() && words_of_all(l).len()
            <= j - i,
    decreases ts.len() - i,
{
    lemma_parse_elems_bounds(ts, i);
    if i < ts.len() {
        match ts[i] {
            Tok::Word(w) => {
                if w != "fn"@ {
                    lemma_parse_elems_words(ts, i + 1);
                    if let Some((rest, j)) = parse_elems_spec(ts, i + 1) {
                        let first = seq![word_named(w)];
                        lemma_words_add(first, rest);
                        lemma_words_pack(first);
                    }
                }
            },
            Tok::LBracket => {
                lemma_parse_elems_words(ts, i + 1);
                if let Some((inner, j)) = parse_elems_spec(ts, i + 1) {
                    if i < j < ts.len() && ts[j] is RBracket {
                        lemma_parse_elems_words(ts, j + 1);
                        if let Some((rest, k)) = parse_elems_spec(ts, j + 1) {
                            let first = seq![Named::Quote(Box::new(pack_named(inner)))];
                            lemma_words_add(first, rest);
                            lemma_words_pack(first);
                            lemma_words_pack(inner);
                        }
                    }
                }
            },
            Tok::LParen => {
                lemma_parse_elems_words(ts, i + 1);
                if let Some((inner, j)) = parse_elems_spec(ts, i + 1) {
                    if i < j < ts.len() && ts[j] is RParen {
                        lemma_parse_elems_words(ts, j + 1);
                        if let Some((rest, k)) = parse_elems_spec(ts, j + 1) {
                            lemma_words_add(inner, rest);
                        }
                    }
                }
            },
            _ => {
                assert(words_of_all(Seq::<Named>::empty()) =~= Seq::<Seq<char>>::empty());
            },
        }
    } else {
        assert(words_of_all(Seq::<Named>::empty()) =~= Seq::<Seq<char>>::empty());
    }
}

/// A definition that is read holds no more names than its text has
/// characters.
pub proof fn lemma_read_fn_def_words(s: Seq<char>)
    ensures
        read_fn_def_spec(s) matches Ok(d) ==> words_of_def(d).len() <= s.len(),
{
    if let Some(ts) = lex_spec(s) {
        lemma_lex_len(s, 0);
        if let Some((d, j)) = parse_fn_def_at(ts, 0) {
            lemma_parse_elems_words(ts, 4);
            lemma_words_pack(parse_elems_spec(ts, 4)->Some_0.0);
        }
    }
}

/// A term that spells an expression still spells it when names are added.
pub proof fn lemma_spells_grows(more: Seq<Seq<char>>, names: Seq<Seq<char>>, t: Term, e: Named)
    requires
        spells(names, t, e),
        extends(more, names),
    ensures
        spells(more, t, e),
    decreases e,
{
    match e {
        Named::Call(w) => {
            let sym = t->Call_0;
            assert(more.take(names.len() as int)[sym.0 as int] == more[sym.0 as int]);
        },
        Named::Quote(q) => {
            lemma_spells_grows(more, names, *t->Quote_0, *q);
        },
        Named::Compose(l) => {
            let ts = t->Compose_0;
            assert forall|i: int| 0 <= i < l.len() implies spells(more, ts[i], #[trigger] l[i]) by {
                lemma_spells_grows(more, names, ts[i], l[i]);
            }
        },
        _ => {},
    }
}

/// A term that spells an expression holds only symbols that have a name.
pub proof fn lemma_spells_known(names: Seq<Seq<char>>, t: Term, e: Named)
    requires
        spells(names, t, e),
    ensures
        known(names, t),
    decreases e,
{
    match e {
        Named::Quote(q) => {
            lemma_spells_known(names, *t->Quote_0, *q);
        },
        Named::Compose(l) => {
            let ts = t->Compose_0;
            assert forall|i: int| 0 <= i < ts.len() implies known(names, #[trigger] ts[i]) by {
                assert(spells(names, ts[i], l[i]));
                lemma_spells_known(names, ts[i], l[i]);
            }
        },
        _ => {},
    }
}

impl Context {
    /// The expression `e` with each name replaced by its symbol, interning
    /// the names that are new. `None` exactly where the store does not take
    /// the names of `e` (see [`fits`]); the names that were held are still
    /// held then.
    pub fn intern_expr(&mut self, e: &ResolvedExpr) -> (r: Option<Expr>)
        ensures
            final(self)@.defs == old(self)@.defs,
            final(self)@.index == old(self)@.index,
            extends(final(self)@.names, old(self)@.names),
            final(self)@.limit == old(self)@.limit,
            old(self)@.sound() ==> final(self)@.sound(),
            r matches Some(x) ==> final(self)@.names == add_names(old(self)@.names, words_of(e@))
                && spells(final(self)@.names, x@, e@),
            r is Some <==> fits(old(self)@.names, old(self)@.limit, words_of(e@)),
            final(self)@.names == taken(old(self)@.names, old(self)@.limit, words_of(e@)),
        decreases e,
    {
        let ghost names0 = self@.names;
        proof {
            assert(names0.take(names0.len() as int) =~= names0);
        }
        match e {
            ResolvedExpr::Empty => Some(Expr::default()),
            ResolvedExpr::Intrinsic(i) => Some(Expr::Intrinsic(*i)),
            ResolvedExpr::Call(name) => {
                proof {
                    lemma_fits_one(names0, self@.limit, name@);
                    lemma_taken_one(names0, self@.limit, name@);
                    lemma_add_name_extends(names0, name@);
                }
                match self.intern(name.as_str()) {
                    Some(sym) => Some(Expr::Call(sym)),
                    None => None,
                }
            },
            ResolvedExpr::Quote(q) => {
                match self.intern_expr(&**q) {
                    Some(inner) => Some(Expr::Quote(Box::new(inner))),
                    None => None,
                }
            },
            ResolvedExpr::Compose(es) => {
                let ghost l = all_named(es@);
                let mut out: Vec<Expr> = Vec::new();
                let mut i: usize = 0;
                proof {
                    lemma_named_compose(*es);
                }
                while i < es.len()
                    invariant
                        i <= es.len(),
                        out@.len() == i,
                        *e == ResolvedExpr::Compose(*es),
                        l == all_named(es@),
                        e@ == Named::Compose(l),
                        self@.defs == old(self)@.defs,
                        self@.index == old(self)@.index,
                        names0 == old(self)@.names,
                        extends(self@.names, names0),
                        self@.limit == old(self)@.limit,
                        old(self)@.sound() ==> self@.sound(),
                        fits(names0, self@.limit, concat_first(word_parts(l), i as nat)),
                        self@.names == add_names(names0, concat_first(word_parts(l), i as nat)),
                        forall|j: int|
                            0 <= j < i ==> spells(self@.names, (#[trigger] out@[j])@, l[j]),
                    decreases es.len() - i,
                {
                    let ghost names1 = self@.names;
                    proof {
                        assert(e->Compose_0 == *es);
                        assert(decreases_to!(*e => e->Compose_0));
                        assert(decreases_to!(*es => es@[i as int]));
                        assert(l[i as int] == es@[i as int]@);
                        assert(word_parts(l)[i as int] == words_of(l[i as int]));
                        lemma_fits_step(names0, self@.limit, word_parts(l), i as nat);
                    }
                    match self.intern_expr(&es[i]) {
                        None => {
                            proof {
                                lemma_extends_trans(self@.names, names1, names0);
                                lemma_taken_step(names0, self@.limit, word_parts(l), i as nat);
                            }
                            return None;
                        },
                        Some(x) => {
                            proof {
                                lemma_extends_trans(self@.names, names1, names0);
                                assert forall|j: int| 0 <= j < i implies spells(
                                    self@.names,
                                    (#[trigger] out@[j])@,
                                    l[j],
                                ) by {
                                    lemma_spells_grows(self@.names, names1, out@[j]@, l[j]);
                                }
                            }
                            out.push(x);
                            i += 1;
                        },
                    }
                }
                proof {
                    lemma_taken_fits(names0, self@.limit, concat(word_parts(l)));
                    lemma_compose_view(out);
                    let ts = terms(out@);
                    assert forall|j: int| 0 <= j < l.len() implies spells(
                        self@.names,
                        ts[j],
                        #[trigger] l[j],
                    ) by {
                        assert(ts[j] == out@[j]@);
                    }
                }
                Some(Expr::Compose(out))
            },
        }
    }
}

/// The names that the value `v` holds.
pub open spec fn words_of_value(v: NamedValue) -> Seq<Seq<char>> {
    match v {
        NamedValue::Call(w) => seq![w],
        NamedValue::Quote(e) => words_of(e),
    }
}

/// The names that each value of a stack holds.
pub open spec fn value_parts(vs: Seq<NamedValue>) -> Seq<Seq<Seq<char>>> {
    vs.map_values(|v: NamedValue| words_of_value(v))
}

/// The names that a stack holds, value by value.
pub open spec fn words_of_stack(vs: Seq<NamedValue>) -> Seq<Seq<char>> {
    concat(value_parts(vs))
}

/// Whether the value `d` is `v` with each name replaced by a symbol that
/// `names` holds for it.
pub open spec fn spells_value(names: Seq<Seq<char>>, d: Datum, v: NamedValue) -> bool {
    match v {
        NamedValue::Call(w) => d matches Datum::Call(sym) && sym.0 < names.len() && names[sym.0 as int]
            == w,
        NamedValue::Quote(e) => d matches Datum::Quote(t) && spells(names, t, e),
    }
}

/// Whether the stack `s` is `vs` with each name replaced by a symbol that
/// `names` holds for it.
pub open spec fn spells_stack(names: Seq<Seq<char>>, s: Seq<Datum>, vs: Seq<NamedValue>) -> bool {
    s.len() == vs.len() && forall|i: int|
        0 <= i < vs.len() ==> spells_value(names, s[i], #[trigger] vs[i])
}

/// The names that a definition holds: the name it defines, then those of
/// its body.
pub open spec fn words_of_def(d: NamedDef) -> Seq<Seq<char>> {
    seq![d.name] + words_of(d.body)
}

/// The names that an item holds.
pub open spec fn words_of_item(item: NamedItem) -> Seq<Seq<char>> {
    match item {
        NamedItem::FnDef(d) => words_of_def(d),
        NamedItem::Expr(e) => words_of(e),
    }
}

/// Whether the item `item` is `n` with each name replaced by a symbol that
/// `names` holds for it.
pub open spec fn spells_item(names: Seq<Seq<char>>, item: Item, n: NamedItem) -> bool {
    match n {
        NamedItem::FnDef(d) => item matches Item::FnDef(sym, body) && sym.0 < names.len()
            && names[sym.0 as int] == d.name && spells(names, body, d.body),
        NamedItem::Expr(e) => item matches Item::Expr(t) && spells(names, t, e),
    }
}

/// The names that each item of an evaluation holds.
pub open spec fn item_parts(is: Seq<NamedItem>) -> Seq<Seq<Seq<char>>> {
    is.map_values(|i: NamedItem| words_of_item(i))
}

/// The names that a command holds, in the order in which they stand.
pub open spec fn words_of_command(c: NamedCommand) -> Seq<Seq<char>> {
    match c {
        NamedCommand::Eval(is) => concat(item_parts(is)),
        NamedCommand::Trace(e) => words_of(e),
        NamedCommand::Show(w) => seq![w],
        _ => Seq::empty(),
    }
}

/// Whether the command `c` is `n` with each name replaced by a symbol that
/// `names` holds for it.
pub open spec fn spells_command(names: Seq<Seq<char>>, c: Command, n: NamedCommand) -> bool {
    match n {
        NamedCommand::Eval(nis) => c matches Command::Eval(is) && is.len() == nis.len()
            && forall|i: int| 0 <= i < nis.len() ==> spells_item(names, is[i], #[trigger] nis[i]),
        NamedCommand::Trace(e) => c matches Command::Trace(t) && spells(names, t, e),
        NamedCommand::Show(w) => c matches Command::Show(sym) && sym.0 < names.len()
            && names[sym.0 as int] == w,
        NamedCommand::List => c is List,
        NamedCommand::Drop => c is Drop,
        NamedCommand::Clear => c is Clear,
        NamedCommand::Reset => c is Reset,
        NamedCommand::Help => c is Help,
    }
}

/// A value that spells a named value still spells it when names are added,
/// and holds only symbols that have a name.
pub proof fn lemma_spells_value(more: Seq<Seq<char>>, names: Seq<Seq<char>>, d: Datum, v: NamedValue)
    requires
        spells_value(names, d, v),
        extends(more, names),
    ensures
        spells_value(more, d, v),
        known_datum(more, d),
{
    match v {
        NamedValue::Call(w) => {
            let sym = d->Call_0;
            assert(more.take(names.len() as int)[sym.0 as int] == more[sym.0 as int]);
        },
        NamedValue::Quote(e) => {
            lemma_spells_grows(more, names, d->Quote_0, e);
            lemma_spells_known(more, d->Quote_0, e);
        },
    }
}

/// An item that spells a named item still spells it when names are added,
/// and holds only symbols that have a name.
pub proof fn lemma_spells_item(more: Seq<Seq<char>>, names: Seq<Seq<char>>, item: Item, n: NamedItem)
    requires
        spells_item(names, item, n),
        extends(more, names),
    ensures
        spells_item(more, item, n),
        known_item(more, item),
{
    match n {
        NamedItem::FnDef(d) => {
            let sym = item->FnDef_0;
            assert(more.take(names.len() as int)[sym.0 as int] == more[sym.0 as int]);
            lemma_spells_grows(more, names, item->FnDef_1, d.body);
            lemma_spells_known(more, item->FnDef_1, d.body);
        },
        NamedItem::Expr(e) => {
            lemma_spells_grows(more, names, item->Expr_0, e);
            lemma_spells_known(more, item->Expr_0, e);
        },
    }
}

/// A command that spells a named command holds only symbols that have a
/// name.
pub proof fn lemma_spells_command_known(names: Seq<Seq<char>>, c: Command, n: NamedCommand)
    requires
        spells_command(names, c, n),
    ensures
        known_command(names, c),
{
    assert(names.take(names.len() as int) =~= names);
    match n {
        NamedCommand::Eval(nis) => {
            let is = c->Eval_0;
            assert forall|i: int| 0 <= i < is.len() implies known_item(names, #[trigger] is[i]) by {
                assert(spells_item(names, is[i], nis[i]));
                lemma_spells_item(names, names, is[i], nis[i]);
            }
        },
        NamedCommand::Trace(e) => {
            lemma_spells_known(names, c->Trace_0, e);
        },
        _ => {},
    }
}

impl Context {
    /// The value `v` with each name replaced by its symbol. `None` exactly where
    /// the store does not take its names (see [`fits`]).
    pub fn intern_value(&mut self, v: &ResolvedValue) -> (r: Option<Value>)
        ensures
            final(self)@.defs == old(self)@.defs,
            final(self)@.index == old(self)@.index,
            extends(final(self)@.names, old(self)@.names),
            final(self)@.limit == old(self)@.limit,
            old(self)@.sound() ==> final(self)@.sound(),
            r matches Some(x) ==> final(self)@.names == add_names(
                old(self)@.names,
                words_of_value(v@),
            ) && spells_value(final(self)@.names, x@, v@),
            r is Some <==> fits(old(self)@.names, old(self)@.limit, words_of_value(v@)),
            final(self)@.names == taken(old(self)@.names, old(self)@.limit, words_of_value(v@)),
    {
        let ghost names0 = self@.names;
        proof {
            assert(names0.take(names0.len() as int) =~= names0);
        }
        match v {
            ResolvedValue::Call(name) => {
                proof {
                    lemma_fits_one(names0, self@.limit, name@);
                    lemma_taken_one(names0, self@.limit, name@);
                    lemma_add_name_extends(names0, name@);
                }
                match self.intern(name.as_str()) {
                    Some(sym) => Some(Value::Call(sym)),
                    None => None,
                }
            },
            ResolvedValue::Quote(e) => match self.intern_expr(&**e) {
                Some(x) => Some(Value::Quote(Box::new(x))),
                None => None,
            },
        }
    }

    /// The stack `vs` with each name replaced by its symbol. `None` exactly where
    /// the store does not take its names (see [`fits`]).
    pub fn intern_stack(&mut self, vs: &ResolvedValueStack) -> (r: Option<ValueStack>)
        ensures
            final(self)@.defs == old(self)@.defs,
            final(self)@.index == old(self)@.index,
            extends(final(self)@.names, old(self)@.names),
            final(self)@.limit == old(self)@.limit,
            old(self)@.sound() ==> final(self)@.sound(),
            r matches Some(x) ==> final(self)@.names == add_names(
                old(self)@.names,
                words_of_stack(vs@),
            ) && spells_stack(final(self)@.names, x@, vs@),
            r is Some <==> fits(old(self)@.names, old(self)@.limit, words_of_stack(vs@)),
            final(self)@.names == taken(old(self)@.names, old(self)@.limit, words_of_stack(vs@)),
    {
        let ghost names0 = self@.names;
        let ghost l = vs@;
        let ghost parts = value_parts(l);
        let mut out: Vec<Value> = Vec::new();
        let mut i: usize = 0;
        proof {
            assert(names0.take(names0.len() as int) =~= names0);
        }
        while i < vs.0.len()
            invariant
                i <= vs.0.len(),
                out@.len() == i,
                l == vs@,
                parts == value_parts(l),
                self@.defs == old(self)@.defs,
                self@.index == old(self)@.index,
                names0 == old(self)@.names,
                extends(self@.names, names0),
                self@.limit == old(self)@.limit,
                old(self)@.sound() ==> self@.sound(),
                fits(names0, self@.limit, concat_first(parts, i as nat)),
                self@.names == add_names(names0, concat_first(parts, i as nat)),
                forall|j: int| 0 <= j < i ==> spells_value(self@.names, (#[trigger] out@[j])@, l[j]),
            decreases vs.0.len() - i,
        {
            let ghost names1 = self@.names;
            proof {
                assert(l[i as int] == vs.0@[i as int]@);
                assert(parts[i as int] == words_of_value(l[i as int]));
                lemma_fits_step(names0, self@.limit, parts, i as nat);
            }
            match self.intern_value(&vs.0[i]) {
                None => {
                    proof {
                        lemma_extends_trans(self@.names, names1, names0);
                        lemma_taken_step(names0, self@.limit, parts, i as nat);
                    }
                    return None;
                },
                Some(x) => {
                    proof {
                        lemma_extends_trans(self@.names, names1, names0);
                        assert forall|j: int| 0 <= j < i implies spells_value(
                            self@.names,
                            (#[trigger] out@[j])@,
                            l[j],
                        ) by {
                            lemma_spells_value(self@.names, names1, out@[j]@, l[j]);
                        }
                    }
                    out.push(x);
                    i += 1;
                },
            }
        }
        let r = ValueStack(out);
        proof {
            lemma_taken_fits(names0, self@.limit, concat(parts));
            assert forall|j: int| 0 <= j < l.len() implies spells_value(
                self@.names,
                r@[j],
                #[trigger] l[j],
            ) by {
                assert(r@[j] == out@[j]@);
            }
        }
        Some(r)
    }

    /// The definition `d` with each name replaced by its symbol. `None` exactly where
    /// the store does not take its names (see [`fits`]).
    pub fn intern_fn_def(&mut self, d: &ParsedFnDef) -> (r: Option<FnDef>)
        ensures
            final(self)@.defs == old(self)@.defs,
            final(self)@.index == old(self)@.index,
            extends(final(self)@.names, old(self)@.names),
            final(self)@.limit == old(self)@.limit,
            old(self)@.sound() ==> final(self)@.sound(),
            r matches Some(x) ==> final(self)@.names == add_names(old(self)@.names, words_of_def(d@))
                && spells_item(
                final(self)@.names,
                Item::FnDef(x.0, x.1@),
                NamedItem::FnDef(d@),
            ),
            r is Some <==> fits(old(self)@.names, old(self)@.limit, words_of_def(d@)),
            final(self)@.names == taken(old(self)@.names, old(self)@.limit, words_of_def(d@)),
    {
        let ghost names0 = self@.names;
        let ghost name = d.0@;
        proof {
            assert(names0.take(names0.len() as int) =~= names0);
            lemma_fits_one(names0, self@.limit, name);
            lemma_taken_one(names0, self@.limit, name);
            lemma_add_name_extends(names0, name);
            lemma_fits_concat(names0, self@.limit, seq![name], words_of(d.1@));
            lemma_taken_concat(names0, self@.limit, seq![name], words_of(d.1@));
        }
        match self.intern(d.0.as_str()) {
            None => None,
            Some(sym) => {
                let ghost names1 = self@.names;
                match self.intern_expr(&d.1) {
                    None => {
                        proof {
                            lemma_extends_trans(self@.names, names1, names0);
                        }
                        None
                    },
                    Some(body) => {
                        proof {
                            lemma_extends_trans(self@.names, names1, names0);
                            assert(self@.names.take(names1.len() as int)[sym.0 as int]
                                == self@.names[sym.0 as int]);
                        }
                        Some(FnDef(sym, body))
                    },
                }
            },
        }
    }

    /// The item `item` with each name replaced by its symbol. `None` exactly where
    /// the store does not take its names (see [`fits`]).
    pub fn intern_item(&mut self, item: &ParsedItem) -> (r: Option<InterpItem>)
        ensures
            final(self)@.defs == old(self)@.defs,
            final(self)@.index == old(self)@.index,
            extends(final(self)@.names, old(self)@.names),
            final(self)@.limit == old(self)@.limit,
            old(self)@.sound() ==> final(self)@.sound(),
            r matches Some(x) ==> final(self)@.names == add_names(
                old(self)@.names,
                words_of_item(item@),
            ) && spells_item(final(self)@.names, x@, item@),
            r is Some <==> fits(old(self)@.names, old(self)@.limit, words_of_item(item@)),
            final(self)@.names == taken(old(self)@.names, old(self)@.limit, words_of_item(item@)),
    {
        match item {
            ParsedItem::FnDef(d) => match self.intern_fn_def(d) {
                Some(x) => Some(InterpItem::FnDef(x)),
                None => None,
            },
            ParsedItem::Expr(e) => match self.intern_expr(e) {
                Some(x) => Some(InterpItem::Expr(x)),
                None => None,
            },
        }
    }

    /// The command `c` with each name replaced by its symbol. `None` exactly where
    /// the store does not take its names (see [`fits`]).
    pub fn intern_command(&mut self, c: &ParsedCommand) -> (r: Option<InterpCommand>)
        ensures
            final(self)@.defs == old(self)@.defs,
            final(self)@.index == old(self)@.index,
            extends(final(self)@.names, old(self)@.names),
            final(self)@.limit == old(self)@.limit,
            old(self)@.sound() ==> final(self)@.sound(),
            r matches Some(x) ==> final(self)@.names == add_names(
                old(self)@.names,
                words_of_command(c@),
            ) && spells_command(final(self)@.names, x@, c@),
            r is Some <==> fits(old(self)@.names, old(self)@.limit, words_of_command(c@)),
            final(self)@.names == taken(old(self)@.names, old(self)@.limit, words_of_command(c@)),
    {
        let ghost names0 = self@.names;
        proof {
            assert(names0.take(names0.len() as int) =~= names0);
        }
        match c {
            ParsedCommand::Eval(is) => {
                let ghost l = named_items(is@);
                let ghost parts = item_parts(l);
                let mut out: Vec<InterpItem> = Vec::new();
                let mut i: usize = 0;
                while i < is.len()
                    invariant
                        i <= is.len(),
                        out@.len() == i,
                        l == named_items(is@),
                        c@ == NamedCommand::Eval(l),
                        parts == item_parts(l),
                        self@.defs == old(self)@.defs,
                        self@.index == old(self)@.index,
                        names0 == old(self)@.names,
                        extends(self@.names, names0),
                        self@.limit == old(self)@.limit,
                        old(self)@.sound() ==> self@.sound(),
                        fits(names0, self@.limit, concat_first(parts, i as nat)),
                        self@.names == add_names(names0, concat_first(parts, i as nat)),
                        forall|j: int|
                            0 <= j < i ==> spells_item(self@.names, (#[trigger] out@[j])@, l[j]),
                    decreases is.len() - i,
                {
                    let ghost names1 = self@.names;
                    proof {
                        assert(l[i as int] == is@[i as int]@);
                        assert(parts[i as int] == words_of_item(l[i as int]));
                        lemma_fits_step(names0, self@.limit, parts, i as nat);
                    }
                    match self.intern_item(&is[i]) {
                        None => {
                            proof {
                                lemma_extends_trans(self@.names, names1, names0);
                                lemma_taken_step(names0, self@.limit, parts, i as nat);
                            }
                            return None;
                        },
                        Some(x) => {
                            proof {
                                lemma_extends_trans(self@.names, names1, names0);
                                assert forall|j: int| 0 <= j < i implies spells_item(
                                    self@.names,
                                    (#[trigger] out@[j])@,
                                    l[j],
                                ) by {
                                    lemma_spells_item(self@.names, names1, out@[j]@, l[j]);
                                }
                            }
                            out.push(x);
                            i += 1;
                        },
                    }
                }
                let r = InterpCommand::Eval(out);
                proof {
                    lemma_taken_fits(names0, self@.limit, concat(parts));
                    let got = items(out@);
                    assert forall|j: int| 0 <= j < l.len() implies spells_item(
                        self@.names,
                        got[j],
                        #[trigger] l[j],
                    ) by {
                        assert(got[j] == out@[j]@);
                    }
                }
                Some(r)
            },
            ParsedCommand::Trace(e) => match self.intern_expr(e) {
                Some(x) => Some(InterpCommand::Trace(x)),
                None => None,
            },
            ParsedCommand::Show(name) => {
                proof {
                    lemma_fits_one(names0, self@.limit, name@);
                    lemma_taken_one(names0, self@.limit, name@);
                    lemma_add_name_extends(names0, name@);
                }
                match self.intern(name.as_str()) {
                    Some(sym) => Some(InterpCommand::Show(sym)),
                    None => None,
                }
            },
            ParsedCommand::List => Some(InterpCommand::List),
            ParsedCommand::Drop => Some(InterpCommand::Drop),
            ParsedCommand::Clear => Some(InterpCommand::Clear),
            ParsedCommand::Reset => Some(InterpCommand::Reset),
            ParsedCommand::Help => Some(InterpCommand::Help),
        }
    }
}

/// A stack that spells a named stack still spells it when names are added.
pub proof fn lemma_spells_stack_grows(
    more: Seq<Seq<char>>,
    names: Seq<Seq<char>>,
    s: Seq<Datum>,
    vs: Seq<NamedValue>,
)
    requires
        spells_stack(names, s, vs),
        extends(more, names),
    ensures
        spells_stack(more, s, vs),
{
    assert forall|i: int| 0 <= i < vs.len() implies spells_value(more, s[i], #[trigger] vs[i]) by {
        lemma_spells_value(more, names, s[i], vs[i]);
    }
}

/// The names that a state holds: those of its stack, then those of its
/// continuation.
pub open spec fn words_of_state(st: NamedState) -> Seq<Seq<char>> {
    words_of_stack(st.stack) + words_of(st.expr)
}

/// Whether the stack `s` and the term `t` are the state `st` with each name
/// replaced by a symbol that `names` holds for it.
pub open spec fn spells_state(names: Seq<Seq<char>>, s: Seq<Datum>, t: Term, st: NamedState) -> bool {
    spells_stack(names, s, st.stack) && spells(names, t, st.expr)
}

impl Context {
    /// The state `st` with each name replaced by its symbol. `None` exactly where
    /// the store does not take its names (see [`fits`]).
    pub fn intern_state(&mut self, st: &ParsedState) -> (r: Option<(ValueStack, Expr)>)
        ensures
            final(self)@.defs == old(self)@.defs,
            final(self)@.index == old(self)@.index,
            extends(final(self)@.names, old(self)@.names),
            final(self)@.limit == old(self)@.limit,
            old(self)@.sound() ==> final(self)@.sound(),
            r matches Some(x) ==> final(self)@.names == add_names(
                old(self)@.names,
                words_of_state(st@),
            ) && spells_state(final(self)@.names, x.0@, x.1@, st@),
            r is Some <==> fits(old(self)@.names, old(self)@.limit, words_of_state(st@)),
            final(self)@.names == taken(old(self)@.names, old(self)@.limit, words_of_state(st@)),
    {
        let ghost names0 = self@.names;
        proof {
            lemma_fits_concat(names0, self@.limit, words_of_stack(st@.stack), words_of(st@.expr));
            lemma_taken_concat(names0, self@.limit, words_of_stack(st@.stack), words_of(st@.expr));
        }
        match self.intern_stack(&st.0) {
            None => None,
            Some(vs) => {
                let ghost names1 = self@.names;
                match self.intern_expr(&st.1) {
                    None => {
                        proof {
                            lemma_extends_trans(self@.names, names1, names0);
                        }
                        None
                    },
                    Some(e) => {
                        proof {
                            lemma_extends_trans(self@.names, names1, names0);
                            lemma_spells_stack_grows(self@.names, names1, vs@, st@.stack);
                        }
                        Some((vs, e))
                    },
                }
            },
        }
    }

    /// Reads `input` as an expression of this store.
    pub fn parse_expr(&mut self, input: &str) -> (r: Result<Expr, ParseError>)
        ensures
            final(self)@.defs == old(self)@.defs,
            final(self)@.index == old(self)@.index,
            extends(final(self)@.names, old(self)@.names),
            final(self)@.limit == old(self)@.limit,
            old(self)@.sound() ==> final(self)@.sound(),
            match read_expr_spec(input@) {
                Err(e) => r == Err::<Expr, ParseError>(e)
                    && final(self)@.names == old(self)@.names,
                Ok(n) => match r {
                    Ok(x) => fits(old(self)@.names, old(self)@.limit, words_of(n))
                        && final(self)@.names == add_names(old(self)@.names, words_of(n))
                        && spells(final(self)@.names, x@, n),
                    Err(e) => e == ParseError::Names && !fits(
                        old(self)@.names,
                        old(self)@.limit,
                        words_of(n),
                    ) && final(self)@.names == taken(
                        old(self)@.names,
                        old(self)@.limit,
                        words_of(n),
                    ),
                },
            },
    {
        proof {
            assert(self@.names.take(self@.names.len() as int) =~= self@.names);
        }
        match read_expr(input) {
            Err(e) => Err(e),
            Ok(parsed) => match self.intern_expr(&parsed) {
                Some(x) => Ok(x),
                None => Err(ParseError::Names),
            },
        }
    }

    /// Reads `input` as a definition of this store.
    pub fn parse_fn_def(&mut self, input: &str) -> (r: Result<FnDef, ParseError>)
        ensures
            final(self)@.defs == old(self)@.defs,
            final(self)@.index == old(self)@.index,
            extends(final(self)@.names, old(self)@.names),
            final(self)@.limit == old(self)@.limit,
            old(self)@.sound() ==> final(self)@.sound(),
            match read_fn_def_spec(input@) {
                Err(e) => r == Err::<FnDef, ParseError>(e)
                    && final(self)@.names == old(self)@.names,
                Ok(n) => match r {
                    Ok(x) => fits(old(self)@.names, old(self)@.limit, words_of_def(n))
                        && final(self)@.names == add_names(old(self)@.names, words_of_def(n))
                        && spells_item(
                        final(self)@.names,
                        Item::FnDef(x.0, x.1@),
                        NamedItem::FnDef(n),
                    ),
                    Err(e) => e == ParseError::Names && !fits(
                        old(self)@.names,
                        old(self)@.limit,
                        words_of_def(n),
                    ) && final(self)@.names == taken(
                        old(self)@.names,
                        old(self)@.limit,
                        words_of_def(n),
                    ),
                },
            },
    {
        proof {
            assert(self@.names.take(self@.names.len() as int) =~= self@.names);
        }
        match read_fn_def(input) {
            Err(e) => Err(e),
            Ok(parsed) => match self.intern_fn_def(&parsed) {
                Some(x) => Ok(x),
                None => Err(ParseError::Names),
            },
        }
    }

    /// Reads `input` as a command of this store.
    pub fn parse_command(&mut self, input: &str) -> (r: Result<InterpCommand, ParseError>)
        ensures
            final(self)@.defs == old(self)@.defs,
            final(self)@.index == old(self)@.index,
            extends(final(self)@.names, old(self)@.names),
            final(self)@.limit == old(self)@.limit,
            old(self)@.sound() ==> final(self)@.sound(),
            match read_command_spec(input@) {
                Err(e) => r == Err::<InterpCommand, ParseError>(e)
                    && final(self)@.names == old(self)@.names,
                Ok(n) => match r {
                    Ok(x) => fits(old(self)@.names, old(self)@.limit, words_of_command(n))
                        && final(self)@.names == add_names(
                        old(self)@.names,
                        words_of_command(n),
                    ) && spells_command(final(self)@.names, x@, n),
                    Err(e) => e == ParseError::Names && !fits(
                        old(self)@.names,
                        old(self)@.limit,
                        words_of_command(n),
                    ) && final(self)@.names == taken(
                        old(self)@.names,
                        old(self)@.limit,
                        words_of_command(n),
                    ),
                },
            },
    {
        proof {
            assert(self@.names.take(self@.names.len() as int) =~= self@.names);
        }
        match read_command(input) {
            Err(e) => Err(e),
            Ok(parsed) => match self.intern_command(&parsed) {
                Some(x) => Ok(x),
                None => Err(ParseError::Names),
            },
        }
    }

    /// Reads `input` as the items of an evaluation of this store.
    pub fn parse_items(&mut self, input: &str) -> (r: Result<Vec<InterpItem>, ParseError>)
        ensures
            final(self)@.defs == old(self)@.defs,
            final(self)@.index == old(self)@.index,
            extends(final(self)@.names, old(self)@.names),
            final(self)@.limit == old(self)@.limit,
            old(self)@.sound() ==> final(self)@.sound(),
            match read_items_spec(input@) {
                Err(e) => r == Err::<Vec<InterpItem>, ParseError>(e)
                    && final(self)@.names == old(self)@.names,
                Ok(n) => match r {
                    Ok(x) => fits(
                        old(self)@.names,
                        old(self)@.limit,
                        words_of_command(NamedCommand::Eval(n)),
                    ) && final(self)@.names == add_names(
                        old(self)@.names,
                        words_of_command(NamedCommand::Eval(n)),
                    ) && spells_command(
                        final(self)@.names,
                        Command::Eval(items(x@)),
                        NamedCommand::Eval(n),
                    ),
                    Err(e) => e == ParseError::Names && !fits(
                        old(self)@.names,
                        old(self)@.limit,
                        words_of_command(NamedCommand::Eval(n)),
                    ) && final(self)@.names == taken(
                        old(self)@.names,
                        old(self)@.limit,
                        words_of_command(NamedCommand::Eval(n)),
                    ),
                },
            },
    {
        proof {
            assert(self@.names.take(self@.names.len() as int) =~= self@.names);
        }
        match read_items(input) {
            Err(e) => Err(e),
            Ok(parsed) => match self.intern_command(&ParsedCommand::Eval(parsed)) {
                Some(InterpCommand::Eval(is)) => Ok(is),
                _ => Err(ParseError::Names),
            },
        }
    }

    /// Reads `input` as a value stack of this store.
    pub fn parse_value_stack(&mut self, input: &str) -> (r: Result<ValueStack, ParseError>)
        ensures
            final(self)@.defs == old(self)@.defs,
            final(self)@.index == old(self)@.index,
            extends(final(self)@.names, old(self)@.names),
            final(self)@.limit == old(self)@.limit,
            old(self)@.sound() ==> final(self)@.sound(),
            match read_stack_spec(input@) {
                Err(e) => r == Err::<ValueStack, ParseError>(e)
                    && final(self)@.names == old(self)@.names,
                Ok(n) => match r {
                    Ok(x) => fits(old(self)@.names, old(self)@.limit, words_of_stack(n))
                        && final(self)@.names == add_names(old(self)@.names, words_of_stack(n))
                        && spells_stack(final(self)@.names, x@, n),
                    Err(e) => e == ParseError::Names && !fits(
                        old(self)@.names,
                        old(self)@.limit,
                        words_of_stack(n),
                    ) && final(self)@.names == taken(
                        old(self)@.names,
                        old(self)@.limit,
                        words_of_stack(n),
                    ),
                },
            },
    {
        proof {
            assert(self@.names.take(self@.names.len() as int) =~= self@.names);
        }
        match read_stack(input) {
            Err(e) => Err(e),
            Ok(parsed) => match self.intern_stack(&parsed) {
                Some(x) => Ok(x),
                None => Err(ParseError::Names),
            },
        }
    }

    /// Reads `input` as an assertion of this store, about one step (`big` is
    /// false) or about a whole reduction (`big` is true): the stack and the
    /// continuation before, and the stack and the continuation after.
    pub fn parse_assertion(&mut self, input: &str, big: bool) -> (r: Result<
        (ValueStack, Expr, ValueStack, Expr),
        ParseError,
    >)
        ensures
            final(self)@.defs == old(self)@.defs,
            final(self)@.index == old(self)@.index,
            extends(final(self)@.names, old(self)@.names),
            final(self)@.limit == old(self)@.limit,
            old(self)@.sound() ==> final(self)@.sound(),
            match read_assertion_spec(input@, if big { Tok::BigStep } else { Tok::Step }) {
                Err(e) => r == Err::<(ValueStack, Expr, ValueStack, Expr), ParseError>(e)
                    && final(self)@.names == old(self)@.names,
                Ok(n) => match r {
                    Ok(x) => fits(
                        old(self)@.names,
                        old(self)@.limit,
                        words_of_state(n.0) + words_of_state(n.1),
                    ) && final(self)@.names == add_names(
                        old(self)@.names,
                        words_of_state(n.0) + words_of_state(n.1),
                    ) && spells_state(final(self)@.names, x.0@, x.1@, n.0) && spells_state(
                        final(self)@.names,
                        x.2@,
                        x.3@,
                        n.1,
                    ),
                    Err(e) => e == ParseError::Names && !fits(
                        old(self)@.names,
                        old(self)@.limit,
                        words_of_state(n.0) + words_of_state(n.1),
                    ) && final(self)@.names == taken(
                        old(self)@.names,
                        old(self)@.limit,
                        words_of_state(n.0) + words_of_state(n.1),
                    ),
                },
            },
    {
        let ghost names0 = self@.names;
        proof {
            assert(names0.take(names0.len() as int) =~= names0);
        }
        match read_assertion(input, big) {
            Err(e) => Err(e),
            Ok((before, after)) => {
                proof {
                    lemma_fits_concat(
                        names0,
                        self@.limit,
                        words_of_state(before@),
                        words_of_state(after@),
                    );
                    lemma_taken_concat(
                        names0,
                        self@.limit,
                        words_of_state(before@),
                        words_of_state(after@),
                    );
                }
                match self.intern_state(&before) {
                    None => Err(ParseError::Names),
                    Some((vs1, e1)) => {
                        let ghost names1 = self@.names;
                        match self.intern_state(&after) {
                            None => {
                                proof {
                                    lemma_extends_trans(self@.names, names1, names0);
                                }
                                Err(ParseError::Names)
                            },
                            Some((vs2, e2)) => {
                                proof {
                                    lemma_extends_trans(self@.names, names1, names0);
                                    lemma_spells_stack_grows(
                                        self@.names,
                                        names1,
                                        vs1@,
                                        before@.stack,
                                    );
                                    lemma_spells_grows(self@.names, names1, e1@, before@.expr);
                                }
                                Ok((vs1, e1, vs2, e2))
                            },
                        }
                    },
                }
            },
        }
    }
}

/// The symbol that `names` holds for the word `w`.
pub open spec fn symbol_of(names: Seq<Seq<char>>, w: Seq<char>) -> Symbol {
    Symbol(names.index_of(w) as usize)
}

/// The expression `e` with each name replaced by the symbol that `names`
/// holds for it.
pub open spec fn lower(names: Seq<Seq<char>>, e: Named) -> Term
    decreases e,
{
    match e {
        Named::Empty => done(),
        Named::Intrinsic(i) => Term::Intrinsic(i),
        Named::Call(w) => Term::Call(symbol_of(names, w)),
        Named::Quote(q) => Term::Quote(Box::new(lower(names, *q))),
        Named::Compose(l) => Term::Compose(lower_all(names, l)),
    }
}

/// The expressions of `l`, each with its names replaced by symbols.
pub open spec fn lower_all(names: Seq<Seq<char>>, l: Seq<Named>) -> Seq<Term>
    decreases l,
{
    Seq::new(
        l.len(),
        |i: int|
            if 0 <= i < l.len() {
                lower(names, l[i])
            } else {
                done()
            },
    )
}

/// The item `n` with each name replaced by the symbol that `names` holds
/// for it.
pub open spec fn lower_item(names: Seq<Seq<char>>, n: NamedItem) -> Item {
    match n {
        NamedItem::FnDef(d) => Item::FnDef(symbol_of(names, d.name), lower(names, d.body)),
        NamedItem::Expr(e) => Item::Expr(lower(names, e)),
    }
}

/// The command `n` with each name replaced by the symbol that `names` holds
/// for it.
pub open spec fn lower_command(names: Seq<Seq<char>>, n: NamedCommand) -> Command {
    match n {
        NamedCommand::Eval(is) => Command::Eval(is.map_values(|i: NamedItem| lower_item(names, i))),
        NamedCommand::Trace(e) => Command::Trace(lower(names, e)),
        NamedCommand::Show(w) => Command::Show(symbol_of(names, w)),
        NamedCommand::List => Command::List,
        NamedCommand::Drop => Command::Drop,
        NamedCommand::Clear => Command::Clear,
        NamedCommand::Reset => Command::Reset,
        NamedCommand::Help => Command::Help,
    }
}

/// Where no name is held twice, the symbol of a held name is its position.
pub proof fn lemma_symbol_of(names: Seq<Seq<char>>, sym: Symbol)
    requires
        names.no_duplicates(),
        sym.0 < names.len(),
    ensures
        symbol_of(names, names[sym.0 as int]) == sym,
{
    let w = names[sym.0 as int];
    let i = names.index_of(w);
    assert(names.contains(w));
    assert(0 <= i < names.len() && names[i] == w);
}

/// Where no name is held twice, the term that spells an expression is
/// the one term that `lower` gives.
pub proof fn lemma_spells_lower(names: Seq<Seq<char>>, t: Term, e: Named)
    requires
        names.no_duplicates(),
        spells(names, t, e),
    ensures
        t == lower(names, e),
    decreases e,
{
    match e {
        Named::Call(w) => {
            lemma_symbol_of(names, t->Call_0);
        },
        Named::Quote(q) => {
            lemma_spells_lower(names, *t->Quote_0, *q);
        },
        Named::Compose(l) => {
            let ts = t->Compose_0;
            assert forall|i: int| 0 <= i < l.len() implies ts[i] == lower_all(names, l)[i] by {
                assert(spells(names, ts[i], l[i]));
                lemma_spells_lower(names, ts[i], l[i]);
            }
            assert(ts =~= lower_all(names, l));
        },
        _ => {},
    }
}

/// Where no name is held twice, the command that spells a named command is
/// the one command that `lower_command` gives.
pub proof fn lemma_spells_lower_command(names: Seq<Seq<char>>, c: Command, n: NamedCommand)
    requires
        names.no_duplicates(),
        spells_command(names, c, n),
    ensures
        c == lower_command(names, n),
{
    match n {
        NamedCommand::Eval(nis) => {
            let is = c->Eval_0;
            let want = nis.map_values(|i: NamedItem| lower_item(names, i));
            assert forall|i: int| 0 <= i < nis.len() implies is[i] == want[i] by {
                assert(spells_item(names, is[i], nis[i]));
                match nis[i] {
                    NamedItem::FnDef(d) => {
                        lemma_symbol_of(names, is[i]->FnDef_0);
                        lemma_spells_lower(names, is[i]->FnDef_1, d.body);
                    },
                    NamedItem::Expr(e) => {
                        lemma_spells_lower(names, is[i]->Expr_0, e);
                    },
                }
            }
            assert(is =~= want);
        },
        NamedCommand::Trace(e) => {
            lemma_spells_lower(names, c->Trace_0, e);
        },
        NamedCommand::Show(w) => {
            lemma_symbol_of(names, c->Show_0);
        },
        _ => {},
    }
}

/// Writing the names of a term out and reading them back gives the term: a
/// term whose symbols all have a name spells its own written form.
pub proof fn lemma_named_spells(names: Seq<Seq<char>>, t: Term)
    requires
        known(names, t),
    ensures
        spells(names, t, named_term(names, t)),
    decreases t,
{
    match t {
        Term::Quote(q) => {
            lemma_named_spells(names, *q);
        },
        Term::Compose(l) => {
            lemma_known_elements(names, l);
            let written = named_terms(names, l);
            assert forall|i: int| 0 <= i < written.len() implies spells(
                names,
                l[i],
                #[trigger] written[i],
            ) by {
                lemma_named_spells(names, l[i]);
            }
        },
        _ => {},
    }
}

/// A term that spells an expression in flattened normal form is in
/// flattened normal form.
pub proof fn lemma_spells_flat(names: Seq<Seq<char>>, t: Term, e: Named)
    requires
        spells(names, t, e),
        flat_named(e),
    ensures
        flat(t),
        e is Compose <==> t is Compose,
    decreases e,
{
    match e {
        Named::Quote(q) => {
            lemma_spells_flat(names, *t->Quote_0, *q);
        },
        Named::Compose(l) => {
            let ts = t->Compose_0;
            assert forall|i: int| 0 <= i < ts.len() implies !(#[trigger] ts[i] is Compose) && flat(
                ts[i],
            ) by {
                assert(spells(names, ts[i], l[i]));
                assert(!(l[i] is Compose) && flat_named(l[i]));
                lemma_spells_flat(names, ts[i], l[i]);
            }
        },
        _ => {},
    }
}

/// A command that spells a command in flattened normal form is in
/// flattened normal form.
pub proof fn lemma_spells_command_flat(names: Seq<Seq<char>>, c: Command, n: NamedCommand)
    requires
        spells_command(names, c, n),
        flat_named_command(n),
    ensures
        flat_command(c),
{
    match n {
        NamedCommand::Eval(nis) => {
            let is = c->Eval_0;
            assert forall|i: int| 0 <= i < is.len() implies flat_item(#[trigger] is[i]) by {
                assert(spells_item(names, is[i], nis[i]));
                assert(flat_named_item(nis[i]));
                match nis[i] {
                    NamedItem::FnDef(d) => {
                        lemma_spells_flat(names, is[i]->FnDef_1, d.body);
                    },
                    NamedItem::Expr(e) => {
                        lemma_spells_flat(names, is[i]->Expr_0, e);
                    },
                }
            }
        },
        NamedCommand::Trace(e) => {
            lemma_spells_flat(names, c->Trace_0, e);
        },
        _ => {},
    }
}

/// Interning a name keeps the names free of duplicates.
pub proof fn lemma_add_name_no_duplicates(names: Seq<Seq<char>>, w: Seq<char>)
    requires
        names.no_duplicates(),
    ensures
        add_name(names, w).no_duplicates(),
{
    if !names.contains(w) {
        let more = names.push(w);
        assert forall|i: int, j: int| 0 <= i < more.len() && 0 <= j < more.len() && i != j implies more[i]
            != more[j] by {
            if i < names.len() && j < names.len() {
            } else if i < names.len() {
                assert(names.contains(names[i]));
            } else {
                assert(names.contains(names[j]));
            }
        }
    }
}

/// Interning names keeps the names free of duplicates.
pub proof fn lemma_add_names_no_duplicates(names: Seq<Seq<char>>, ws: Seq<Seq<char>>)
    requires
        names.no_duplicates(),
    ensures
        add_names(names, ws).no_duplicates(),
    decreases ws.len(),
{
    if ws.len() > 0 {
        lemma_add_names_no_duplicates(names, ws.drop_last());
        lemma_add_name_no_duplicates(add_names(names, ws.drop_last()), ws.last());
    }
}

} // verus!
