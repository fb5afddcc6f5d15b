//! The definition store: the table of named definitions, the reverse index
//! from quoted literals to names, and the table of interned names.

use crate::term::{Expr, Symbol, Term};
use fxhash::FxHashMap;
use lasso::Key;
use vstd::prelude::*;

verus! {

/// `lasso::Rodeo`, the interner. Nothing is known of what is inside it but
/// through [`interned`].
#[verifier::external_type_specification]
#[verifier::external_body]
#[verifier::reject_recursive_types(K)]
#[verifier::reject_recursive_types(S)]
pub struct ExRodeo<K, S>(lasso::Rodeo<K, S>);

/// `lasso::Spur`, the key of the interner. It never leaves the functions
/// that call the interner: a symbol holds the index the key stands for.
#[verifier::external_type_specification]
#[verifier::external_body]
pub struct ExSpur(lasso::Spur);

/// `core::hash::BuildHasherDefault`, which builds the hashers of the two
/// tables.
#[verifier::external_type_specification]
#[verifier::external_body]
#[verifier::reject_recursive_types(H)]
pub struct ExBuildHasherDefault<H>(core::hash::BuildHasherDefault<H>);

/// `fxhash::FxHasher`, the hasher of the two tables.
#[verifier::external_type_specification]
#[verifier::external_body]
pub struct ExFxHasher(fxhash::FxHasher);

/// The names an interner holds, each at the index that is its key.
pub uninterp spec fn interned(r: lasso::Rodeo) -> Seq<Seq<char>>;

/// The most bytes of names an interner was made to hold: its memory limit.
pub uninterp spec fn name_limit(r: lasso::Rodeo) -> usize;

/// The definitions a table holds, by the handle of the defined name.
pub uninterp spec fn definitions(m: FxHashMap<usize, Expr>) -> Map<usize, Term>;

/// The entries of a reverse index, by the term of the key.
pub uninterp spec fn literals(m: FxHashMap<Expr, Symbol>) -> Map<Term, Symbol>;

/// `Rodeo::default`: a fresh interner holds no name and has no memory limit
/// (`MemoryLimits::default` is `usize::MAX`).
#[verifier::external_body]
fn interner_new() -> (r: lasso::Rodeo)
    ensures
        interned(r) == Seq::<Seq<char>>::empty(),
        name_limit(r) == usize::MAX,
{
    lasso::Rodeo::default()
}

/// `Rodeo::len`: how many names are held.
#[verifier::external_body]
fn interner_len(r: &lasso::Rodeo) -> (n: usize)
    ensures
        n == interned(*r).len(),
{
    r.len()
}

/// `Rodeo::max_memory_usage`: the memory limit the interner was made with.
#[verifier::external_body]
fn interner_limit(r: &lasso::Rodeo) -> (n: usize)
    ensures
        n == name_limit(*r),
{
    r.max_memory_usage()
}

/// `Rodeo::get`, with the key given as its index (`Key::into_usize`): the
/// index at which `name` is held, if it is held.
#[verifier::external_body]
fn interner_find(r: &lasso::Rodeo, name: &str) -> (k: Option<usize>)
    ensures
        match k {
            Some(k) => k < interned(*r).len() && interned(*r)[k as int] == name@,
            None => !interned(*r).contains(name@),
        },
{
    match r.get(name) {
        Some(key) => Some(key.into_usize()),
        None => None,
    }
}

/// `Rodeo::get_or_intern` of a name that is not held yet, with the key given
/// as its index (`Key::into_usize`): the name is appended and gets the next
/// index. The call panics where the key type can take no further name, which
/// for `Spur` is at `u32::MAX` names, or where the memory limit is reached:
/// both are left out. The memory limit stays as it was.
#[verifier::external_body]
fn interner_add(r: &mut lasso::Rodeo, name: &str) -> (k: usize)
    requires
        !interned(*old(r)).contains(name@),
        interned(*old(r)).len() < 0xFFFF_FFFF,
        name_limit(*old(r)) == usize::MAX,
    ensures
        k == interned(*old(r)).len(),
        interned(*final(r)) == interned(*old(r)).push(name@),
        name_limit(*final(r)) == name_limit(*old(r)),
{
    r.get_or_intern(name).into_usize()
}

/// `Key::try_from_usize` followed by `Rodeo::try_resolve`: the name held at
/// index `k`, if there is one.
#[verifier::external_body]
fn interner_resolve(r: &lasso::Rodeo, k: usize) -> (name: Option<String>)
    ensures
        match name {
            Some(s) => k < interned(*r).len() && s@ == interned(*r)[k as int],
            None => k >= interned(*r).len(),
        },
{
    match lasso::Spur::try_from_usize(k) {
        Some(key) => match r.try_resolve(&key) {
            Some(s) => Some(s.to_owned()),
            None => None,
        },
        None => None,
    }
}

/// `FxHashMap::default`: a fresh table holds no definition.
#[verifier::external_body]
fn definitions_new() -> (m: FxHashMap<usize, Expr>)
    ensures
        definitions(m).dom() == Set::<usize>::empty(),
{
    FxHashMap::default()
}

/// `HashMap::get` on the table of definitions.
#[verifier::external_body]
fn definitions_get(m: &FxHashMap<usize, Expr>, k: usize) -> (r: Option<&Expr>)
    ensures
        match r {
            Some(e) => definitions(*m).contains_key(k) && definitions(*m)[k] == e@,
            None => !definitions(*m).contains_key(k),
        },
{
    m.get(&k)
}

/// `HashMap::insert` on the table of definitions: the entry is set and the
/// value it replaces, if any, is handed back.
#[verifier::external_body]
fn definitions_insert(m: &mut FxHashMap<usize, Expr>, k: usize, v: Expr) -> (r: Option<Expr>)
    ensures
        definitions(*final(m)) == definitions(*old(m)).insert(k, v@),
        match r {
            Some(e) => definitions(*old(m)).contains_key(k) && definitions(*old(m))[k] == e@,
            None => !definitions(*old(m)).contains_key(k),
        },
{
    m.insert(k, v)
}

/// `HashMap::clear` on the table of definitions.
#[verifier::external_body]
fn definitions_clear(m: &mut FxHashMap<usize, Expr>)
    ensures
        definitions(*final(m)).dom() == Set::<usize>::empty(),
{
    m.clear()
}

/// `HashMap::keys` on the table of definitions, each key copied out: every
/// key once, in the order in which the table is walked, of which nothing is
/// said.
#[verifier::external_body]
fn definitions_keys(m: &FxHashMap<usize, Expr>) -> (r: Vec<usize>)
    ensures
        r@.no_duplicates(),
        r@.to_set() == definitions(*m).dom(),
{
    m.keys().copied().collect()
}

/// `FxHashMap::default`: a fresh reverse index holds no entry.
#[verifier::external_body]
fn literals_new() -> (m: FxHashMap<Expr, Symbol>)
    ensures
        literals(m).dom() == Set::<Term>::empty(),
{
    FxHashMap::default()
}

/// `HashMap::get` on the reverse index. Keys are compared by the `==` of
/// `Expr`, which is proved to be equality of terms, and hashed by the derived,
/// structural `Hash` of `Expr`: two keys are the same entry exactly when their
/// terms are equal.
#[verifier::external_body]
fn literals_get(m: &FxHashMap<Expr, Symbol>, k: &Expr) -> (r: Option<Symbol>)
    ensures
        r == (if literals(*m).contains_key(k@) {
            Some(literals(*m)[k@])
        } else {
            None
        }),
{
    m.get(k).copied()
}

/// `HashMap::insert` on the reverse index.
#[verifier::external_body]
fn literals_insert(m: &mut FxHashMap<Expr, Symbol>, k: Expr, v: Symbol)
    ensures
        literals(*final(m)) == literals(*old(m)).insert(k@, v),
{
    m.insert(k, v);
}

/// The mathematical value of a [`Context`].
pub struct Store {
    /// Every definition, by name.
    pub defs: Map<Symbol, Term>,
    /// The reverse index, from a definition's body to its name.
    pub index: Map<Term, Symbol>,
    /// The interned names; a symbol's handle is its index here.
    pub names: Seq<Seq<char>>,
    /// The memory limit the table of names was made with. Every store that
    /// `Context::default` makes has none: the limit is `usize::MAX`.
    pub limit: usize,
}

/// How many names a store can hold at most: a handle is made from 32 bits,
/// and one of their values is kept free.
pub open spec fn max_names() -> nat {
    0xFFFF_FFFF
}

/// Whether a table that holds `names` and was made with the memory limit
/// `limit` takes one more name.
pub open spec fn has_room(names: Seq<Seq<char>>, limit: usize) -> bool {
    names.len() < max_names() && limit == usize::MAX
}

impl Store {
    /// What holds of the names of every store that is made by
    /// `Context::default` and changed by the operations of a store alone: no
    /// name is held twice, there are no more names than handles, and there is
    /// no memory limit.
    pub open spec fn sound(self) -> bool {
        &&& self.names.no_duplicates()
        &&& self.names.len() <= max_names()
        &&& self.limit == usize::MAX
    }
}

/// The definition store of one session.
pub struct Context {
    interner: lasso::Rodeo,
    fns: FxHashMap<usize, Expr>,
    exprs: FxHashMap<Expr, Symbol>,
}

impl View for Context {
    type V = Store;

    closed spec fn view(&self) -> Store {
        Store {
            defs: Map::new(
                |s: Symbol| definitions(self.fns).contains_key(s.0),
                |s: Symbol| definitions(self.fns)[s.0],
            ),
            index: literals(self.exprs),
            names: interned(self.interner),
            limit: name_limit(self.interner),
        }
    }
}

/// A named definition: the name and its body.
#[derive(Debug, PartialEq, Eq)]
pub struct FnDef(pub Symbol, pub Expr);

impl View for FnDef {
    type V = (Symbol, Term);

    open spec fn view(&self) -> (Symbol, Term) {
        (self.0, self.1@)
    }
}

impl Clone for FnDef {
    /// A structural copy.
    fn clone(&self) -> (r: Self)
        ensures
            r@ == self@,
    {
        FnDef(self.0, self.1.clone())
    }
}

/// The reverse index after `body` has been defined as `sym`: only a quoted
/// literal is entered.
pub open spec fn index_after(index: Map<Term, Symbol>, sym: Symbol, body: Term) -> Map<Term, Symbol> {
    if body is Quote {
        index.insert(body, sym)
    } else {
        index
    }
}

/// The store after `body` has been defined as `sym`. An earlier definition of
/// `sym` is replaced; entries of the reverse index are never taken out.
pub open spec fn define(store: Store, sym: Symbol, body: Term) -> Store {
    Store {
        defs: store.defs.insert(sym, body),
        index: index_after(store.index, sym, body),
        ..store
    }
}

impl Context {
    /// The definition of `sym`, if it has one.
    pub fn lookup(&self, sym: Symbol) -> (r: Option<&Expr>)
        ensures
            match r {
                Some(e) => self@.defs.contains_key(sym) && self@.defs[sym] == e@,
                None => !self@.defs.contains_key(sym),
            },
    {
        definitions_get(&self.fns, sym.0)
    }

    /// The name under which the reverse index knows `e`, if it knows it.
    pub fn name_of(&self, e: &Expr) -> (r: Option<Symbol>)
        ensures
            r == (if self@.index.contains_key(e@) {
                Some(self@.index[e@])
            } else {
                None
            }),
    {
        literals_get(&self.exprs, e)
    }

    /// Defines `fn_def.0` as `fn_def.1` and returns the definition this
    /// replaces, if there was one.
    pub fn define_fn(&mut self, fn_def: FnDef) -> (r: Option<FnDef>)
        ensures
            final(self)@ == define(old(self)@, fn_def.0, fn_def.1@),
            match r {
                Some(prev) => old(self)@.defs.contains_key(fn_def.0) && prev@ == (
                    fn_def.0,
                    old(self)@.defs[fn_def.0],
                ),
                None => !old(self)@.defs.contains_key(fn_def.0),
            },
    {
        let FnDef(sym, body) = fn_def;
        let quoted = match &body {
            Expr::Quote(_) => true,
            _ => false,
        };
        if quoted {
            literals_insert(&mut self.exprs, body.clone(), sym);
        }
        let prev = definitions_insert(&mut self.fns, sym.0, body);
        proof {
            assert(final(self)@.defs =~= old(self)@.defs.insert(sym, body@));
        }
        match prev {
            Some(e) => Some(FnDef(sym, e)),
            None => None,
        }
    }

    /// The defined names, each once, in no particular order.
    pub fn symbols(&self) -> (r: Vec<Symbol>)
        ensures
            r@.no_duplicates(),
            forall|sym: Symbol| r@.contains(sym) <==> self@.defs.contains_key(sym),
    {
        let keys = definitions_keys(&self.fns);
        let mut out: Vec<Symbol> = Vec::new();
        let mut i: usize = 0;
        while i < keys.len()
            invariant
                i <= keys.len(),
                out@.len() == i,
                forall|j: int| 0 <= j < i ==> (#[trigger] out@[j]).0 == keys@[j],
            decreases keys.len() - i,
        {
            out.push(Symbol(keys[i]));
            i += 1;
        }
        proof {
            assert forall|sym: Symbol| out@.contains(sym) <==> self@.defs.contains_key(sym) by {
                if out@.contains(sym) {
                    let j = choose|j: int| 0 <= j < out@.len() && out@[j] == sym;
                    assert(keys@.contains(keys@[j]));
                    assert(keys@.to_set().contains(sym.0));
                }
                if self@.defs.contains_key(sym) {
                    assert(keys@.to_set().contains(sym.0));
                    assert(keys@.contains(sym.0));
                    let j = choose|j: int| 0 <= j < keys@.len() && keys@[j] == sym.0;
                    assert(out@[j] == sym);
                }
            }
        }
        out
    }

    /// Forgets every definition. The reverse index and the names stay.
    pub fn clear(&mut self)
        ensures
            final(self)@.defs == Map::<Symbol, Term>::empty(),
            final(self)@.index == old(self)@.index,
            final(self)@.names == old(self)@.names,
            final(self)@.limit == old(self)@.limit,
    {
        definitions_clear(&mut self.fns);
        proof {
            assert(final(self)@.defs =~= Map::<Symbol, Term>::empty());
        }
    }

    /// The symbol for `name`, interning the name if it is new. `None` exactly
    /// where the name is new and the table of names takes no more: it holds
    /// as many names as there are handles, or it was made with a memory
    /// limit. Nothing has changed then.
    pub fn intern(&mut self, name: &str) -> (r: Option<Symbol>)
        ensures
            final(self)@.defs == old(self)@.defs,
            final(self)@.index == old(self)@.index,
            final(self)@.limit == old(self)@.limit,
            old(self)@.sound() ==> final(self)@.sound(),
            r is None <==> !old(self)@.names.contains(name@) && !has_room(
                old(self)@.names,
                old(self)@.limit,
            ),
            match r {
                Some(sym) => {
                    &&& sym.0 < final(self)@.names.len()
                    &&& final(self)@.names[sym.0 as int] == name@
                    &&& if old(self)@.names.contains(name@) {
                        final(self)@.names == old(self)@.names
                    } else {
                        &&& sym.0 == old(self)@.names.len()
                        &&& final(self)@.names == old(self)@.names.push(name@)
                    }
                },
                None => final(self)@.names == old(self)@.names,
            },
    {
        match interner_find(&self.interner, name) {
            Some(k) => Some(Symbol(k)),
            None => {
                if interner_len(&self.interner) < 0xFFFF_FFFF && interner_limit(&self.interner)
                    == usize::MAX {
                    let ghost before = self@.names;
                    let k = interner_add(&mut self.interner, name);
                    proof {
                        let more = before.push(name@);
                        if before.no_duplicates() {
                            assert forall|i: int, j: int|
                                0 <= i < more.len() && 0 <= j < more.len() && i != j implies more[i]
                                != more[j] by {
                                if i < before.len() && j < before.len() {
                                } else if i < before.len() {
                                    assert(before.contains(before[i]));
                                } else {
                                    assert(before.contains(before[j]));
                                }
                            }
                        }
                    }
                    Some(Symbol(k))
                } else {
                    None
                }
            },
        }
    }

    /// The name of `sym`, if `sym` is a symbol of this store.
    pub fn resolve(&self, sym: Symbol) -> (r: Option<String>)
        ensures
            match r {
                Some(s) => sym.0 < self@.names.len() && s@ == self@.names[sym.0 as int],
                None => sym.0 >= self@.names.len(),
            },
    {
        interner_resolve(&self.interner, sym.0)
    }
}

impl Default for Context {
    /// A store without definitions and without names.
    fn default() -> (r: Self)
        ensures
            r@.defs == Map::<Symbol, Term>::empty(),
            r@.index == Map::<Term, Symbol>::empty(),
            r@.names == Seq::<Seq<char>>::empty(),
            r@.limit == usize::MAX,
    {
        let r = Context {
            interner: interner_new(),
            fns: definitions_new(),
            exprs: literals_new(),
        };
        assert(r@.defs =~= Map::<Symbol, Term>::empty());
        assert(r@.index =~= Map::<Term, Symbol>::empty());
        r
    }
}

} // verus!
