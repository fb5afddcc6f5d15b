//! The definitions that every session starts with.

use crate::intern::{
    add_names, extends, fits, lemma_add_names_len, lemma_read_fn_def_words, lemma_spells_flat,
    lemma_spells_known, lemma_spells_lower, lemma_symbol_of, lower, symbol_of, taken,
    words_of_def,
};
use crate::laws::{flat_defs, known_store, lemma_define_flat, lemma_define_known};
use crate::parse::{lemma_read_fn_def_flat, read_fn_def_spec, ParseError};
use crate::store::{define, max_names, Context, Store};
use crate::term::Symbol;
use vstd::prelude::*;

verus! {

/// How many definitions a session starts with.
pub const FN_DEF_COUNT: usize = 23;

/// The text of the definition at position `i` of those a session starts
/// with: truth values, stack shuffling, composition of several literals and
/// Peano numerals with their arithmetic.
pub fn fn_def_src(i: usize) -> (r: &'static str)
    ensures
        r@ == fn_def_text(i as nat),
{
    if i == 0 {
        "{fn v1 = []}"
    } else if i == 1 {
        "{fn v2 = []}"
    } else if i == 2 {
        "{fn v3 = []}"
    } else if i == 3 {
        "{fn v4 = []}"
    } else if i == 4 {
        "{fn false = [drop]}"
    } else if i == 5 {
        "{fn true = [swap drop]}"
    } else if i == 6 {
        "{fn or = clone apply}"
    } else if i == 7 {
        "{fn quote2 = quote swap quote swap compose}"
    } else if i == 8 {
        "{fn quote3 = quote2 swap quote swap compose}"
    } else if i == 9 {
        "{fn rotate3 = quote2 swap quote compose apply}"
    } else if i == 10 {
        "{fn rotate4 = quote3 swap quote compose apply}"
    } else if i == 11 {
        "{fn compose2 = compose}"
    } else if i == 12 {
        "{fn compose3 = compose compose2}"
    } else if i == 13 {
        "{fn compose4 = compose compose3}"
    } else if i == 14 {
        "{fn compose5 = compose compose4}"
    } else if i == 15 {
        "{fn n0 = [drop]}"
    } else if i == 16 {
        "{fn n1 = [[clone] n0 apply [compose] n0 apply apply]}"
    } else if i == 17 {
        "{fn n2 = [[clone] n1 apply [compose] n1 apply apply]}"
    } else if i == 18 {
        "{fn n3 = [[clone] n2 apply [compose] n2 apply apply]}"
    } else if i == 19 {
        "{fn n4 = [[clone] n3 apply [compose] n3 apply apply]}"
    } else if i == 20 {
        "{fn succ = quote [apply] compose [[clone]] swap clone [[compose]] swap [apply] compose5}"
    } else if i == 21 {
        "{fn add = [succ] swap apply}"
    } else if i == 22 {
        "{fn mul = n0 rotate3 quote [add] compose rotate3 apply}"
    } else {
        ""
    }
}

/// The text of the definition at position `i`.
pub open spec fn fn_def_text(i: nat) -> Seq<char> {
    if i == 0 {
        "{fn v1 = []}"@
    } else if i == 1 {
        "{fn v2 = []}"@
    } else if i == 2 {
        "{fn v3 = []}"@
    } else if i == 3 {
        "{fn v4 = []}"@
    } else if i == 4 {
        "{fn false = [drop]}"@
    } else if i == 5 {
        "{fn true = [swap drop]}"@
    } else if i == 6 {
        "{fn or = clone apply}"@
    } else if i == 7 {
        "{fn quote2 = quote swap quote swap compose}"@
    } else if i == 8 {
        "{fn quote3 = quote2 swap quote swap compose}"@
    } else if i == 9 {
        "{fn rotate3 = quote2 swap quote compose apply}"@
    } else if i == 10 {
        "{fn rotate4 = quote3 swap quote compose apply}"@
    } else if i == 11 {
        "{fn compose2 = compose}"@
    } else if i == 12 {
        "{fn compose3 = compose compose2}"@
    } else if i == 13 {
        "{fn compose4 = compose compose3}"@
    } else if i == 14 {
        "{fn compose5 = compose compose4}"@
    } else if i == 15 {
        "{fn n0 = [drop]}"@
    } else if i == 16 {
        "{fn n1 = [[clone] n0 apply [compose] n0 apply apply]}"@
    } else if i == 17 {
        "{fn n2 = [[clone] n1 apply [compose] n1 apply apply]}"@
    } else if i == 18 {
        "{fn n3 = [[clone] n2 apply [compose] n2 apply apply]}"@
    } else if i == 19 {
        "{fn n4 = [[clone] n3 apply [compose] n3 apply apply]}"@
    } else if i == 20 {
        "{fn succ = quote [apply] compose [[clone]] swap clone [[compose]] swap [apply] compose5}"@
    } else if i == 21 {
        "{fn add = [succ] swap apply}"@
    } else if i == 22 {
        "{fn mul = n0 rotate3 quote [add] compose rotate3 apply}"@
    } else {
        ""@
    }
}

/// The store without definitions and without names.
pub open spec fn empty_store() -> Store {
    Store { defs: Map::empty(), index: Map::empty(), names: Seq::empty(), limit: usize::MAX }
}

/// The store after the definition that the text `src` is has been
/// installed. A text that is no definition installs nothing.
pub open spec fn install(store: Store, src: Seq<char>) -> Store {
    match read_fn_def_spec(src) {
        Ok(d) => {
            let names = add_names(store.names, words_of_def(d));
            define(
                Store { names, ..store },
                symbol_of(names, d.name),
                lower(names, d.body),
            )
        },
        Err(_) => store,
    }
}

/// Whether `store` takes the names of the definition that the text `src`
/// is. A text that is no definition brings no name.
pub open spec fn takes(store: Store, src: Seq<char>) -> bool {
    read_fn_def_spec(src) matches Ok(d) ==> fits(store.names, store.limit, words_of_def(d))
}

/// The longest of the texts of the definitions a session starts with has
/// fewer characters than this.
pub open spec fn max_fn_def_len() -> nat {
    100
}

/// The store after the first `n` definitions have been installed, in
/// order, in a store that held nothing.
pub open spec fn bootstrap_first(n: nat) -> Store
    decreases n,
{
    if n == 0 {
        empty_store()
    } else {
        install(bootstrap_first((n - 1) as nat), fn_def_text((n - 1) as nat))
    }
}

/// The store that a session starts with.
pub open spec fn bootstrap() -> Store {
    bootstrap_first(FN_DEF_COUNT as nat)
}

/// None of the texts is longer than `max_fn_def_len`.
pub proof fn lemma_fn_def_text_len(i: nat)
    ensures
        fn_def_text(i).len() <= max_fn_def_len(),
{
    reveal_strlit("{fn v1 = []}");
    reveal_strlit("{fn v2 = []}");
    reveal_strlit("{fn v3 = []}");
    reveal_strlit("{fn v4 = []}");
    reveal_strlit("{fn false = [drop]}");
    reveal_strlit("{fn true = [swap drop]}");
    reveal_strlit("{fn or = clone apply}");
    reveal_strlit("{fn quote2 = quote swap quote swap compose}");
    reveal_strlit("{fn quote3 = quote2 swap quote swap compose}");
    reveal_strlit("{fn rotate3 = quote2 swap quote compose apply}");
    reveal_strlit("{fn rotate4 = quote3 swap quote compose apply}");
    reveal_strlit("{fn compose2 = compose}");
    reveal_strlit("{fn compose3 = compose compose2}");
    reveal_strlit("{fn compose4 = compose compose3}");
    reveal_strlit("{fn compose5 = compose compose4}");
    reveal_strlit("{fn n0 = [drop]}");
    reveal_strlit("{fn n1 = [[clone] n0 apply [compose] n0 apply apply]}");
    reveal_strlit("{fn n2 = [[clone] n1 apply [compose] n1 apply apply]}");
    reveal_strlit("{fn n3 = [[clone] n2 apply [compose] n2 apply apply]}");
    reveal_strlit("{fn n4 = [[clone] n3 apply [compose] n3 apply apply]}");
    reveal_strlit(
        "{fn succ = quote [apply] compose [[clone]] swap clone [[compose]] swap [apply] compose5}",
    );
    reveal_strlit("{fn add = [succ] swap apply}");
    reveal_strlit("{fn mul = n0 rotate3 quote [add] compose rotate3 apply}");
    reveal_strlit("");
}

/// Installing a definition adds no more names than its text has characters.
pub proof fn lemma_install_names(store: Store, src: Seq<char>)
    ensures
        install(store, src).names.len() <= store.names.len() + src.len(),
        install(store, src).limit == store.limit,
{
    if let Ok(d) = read_fn_def_spec(src) {
        lemma_read_fn_def_words(src);
        lemma_add_names_len(store.names, words_of_def(d));
    }
}

/// The store after the first `n` definitions holds few names: each of them
/// is taken.
pub proof fn lemma_bootstrap_names(n: nat)
    ensures
        bootstrap_first(n).names.len() <= n * max_fn_def_len(),
        bootstrap_first(n).limit == usize::MAX,
        n < FN_DEF_COUNT ==> takes(bootstrap_first(n), fn_def_text(n)),
    decreases n,
{
    if n > 0 {
        let m = (n - 1) as nat;
        lemma_bootstrap_names(m);
        lemma_install_names(bootstrap_first(m), fn_def_text(m));
        lemma_fn_def_text_len(m);
        assert(m * max_fn_def_len() + max_fn_def_len() == n * max_fn_def_len()) by (nonlinear_arith)
            requires
                n == m + 1,
        ;
    }
    if n < FN_DEF_COUNT {
        lemma_fn_def_text_len(n);
        lemma_install_names(bootstrap_first(n), fn_def_text(n));
        assert(n * max_fn_def_len() + max_fn_def_len() <= max_names()) by (nonlinear_arith)
            requires
                n < 23,
                max_fn_def_len() == 100,
                max_names() == 0xFFFF_FFFF,
        ;
    }
}

impl Context {
    /// Installs the definition that the text `src` is; a text that is no
    /// definition installs nothing. `Err`, always `ParseError::Names`, comes
    /// exactly where the store does not take the names of the definition:
    /// nothing is defined then, and the names that were held are still held.
    pub fn install_fn_def(&mut self, src: &str) -> (r: Result<(), ParseError>)
        requires
            old(self)@.sound(),
            known_store(old(self)@),
            flat_defs(old(self)@.defs),
        ensures
            r is Ok <==> takes(old(self)@, src@),
            r is Ok ==> final(self)@ == install(old(self)@, src@),
            final(self)@.sound(),
            r is Ok ==> known_store(final(self)@) && flat_defs(final(self)@.defs),
            r matches Err(e) ==> {
                &&& e == ParseError::Names
                &&& final(self)@.defs == old(self)@.defs
                &&& final(self)@.index == old(self)@.index
                &&& final(self)@.limit == old(self)@.limit
                &&& extends(final(self)@.names, old(self)@.names)
                &&& read_fn_def_spec(src@) matches Ok(d) && final(self)@.names == taken(
                    old(self)@.names,
                    old(self)@.limit,
                    words_of_def(d),
                )
            },
    {
        let ghost before = self@;
        match self.parse_fn_def(src) {
            Ok(fn_def) => {
                proof {
                    let d = read_fn_def_spec(src@)->Ok_0;
                    lemma_spells_lower(self@.names, fn_def.1@, d.body);
                    lemma_symbol_of(self@.names, fn_def.0);
                    lemma_spells_known(self@.names, fn_def.1@, d.body);
                    lemma_known_store_grows(before, self@.names);
                    lemma_define_known(self@, fn_def.0, fn_def.1@);
                    lemma_read_fn_def_flat(src@);
                    lemma_spells_flat(self@.names, fn_def.1@, d.body);
                    lemma_define_flat(self@, fn_def.0, fn_def.1@);
                }
                self.define_fn(fn_def);
                Ok(())
            },
            Err(ParseError::Names) => Err(ParseError::Names),
            Err(_) => Ok(()),
        }
    }

    /// The store that a session starts with: every one of the definitions is
    /// installed, in order, in a store that held nothing.
    pub fn with_builtins() -> (ctx: Context)
        ensures
            ctx@ == bootstrap(),
            ctx@.sound(),
            known_store(ctx@),
            flat_defs(ctx@.defs),
    {
        let mut ctx = Context::default();
        let mut i: usize = 0;
        proof {
            assert(ctx@ == empty_store());
        }
        while i < FN_DEF_COUNT
            invariant
                i <= FN_DEF_COUNT,
                ctx@ == bootstrap_first(i as nat),
                ctx@.sound(),
                known_store(ctx@),
                flat_defs(ctx@.defs),
            decreases FN_DEF_COUNT - i,
        {
            proof {
                lemma_bootstrap_names(i as nat);
            }
            let installed = ctx.install_fn_def(fn_def_src(i));
            assert(installed is Ok);
            i += 1;
        }
        ctx
    }
}

/// A store that holds only symbols it has a name for still does when names
/// are added.
pub proof fn lemma_known_store_grows(store: Store, more: Seq<Seq<char>>)
    requires
        known_store(store),
        store.names.len() <= more.len(),
    ensures
        known_store(Store { names: more, ..store }),
{
    assert forall|sym: Symbol| #[trigger] store.defs.contains_key(sym) implies sym.0 < more.len()
        && crate::display::known(more, store.defs[sym]) by {
        crate::laws::lemma_known_grows(store.names, more, store.defs[sym]);
    }
}

} // verus!
