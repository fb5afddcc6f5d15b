//! The list of defined names, in order.

use crate::display::join_words;
use crate::laws::known_store;
use crate::parse::chars_of;
use crate::store::{Context, Store};
use crate::term::Symbol;
use vstd::prelude::*;
use vstd::string::StringExecFns;

verus! {

/// Whether the text `a` stands before or at the text `b` where texts are
/// ordered character by character, by code point, a beginning before what
/// it begins.
pub open spec fn text_le(a: Seq<char>, b: Seq<char>) -> bool
    decreases a.len(),
{
    if a.len() == 0 {
        true
    } else if b.len() == 0 {
        false
    } else if a[0] == b[0] {
        text_le(a.drop_first(), b.drop_first())
    } else {
        (a[0] as u32) < (b[0] as u32)
    }
}

/// Two characters with the same code point are the same character.
pub proof fn lemma_code_point(a: char, b: char)
    ensures
        (a as u32 == b as u32) ==> a == b,
{
    assert(a as u32 as char == a);
    assert(b as u32 as char == b);
}

/// Of two texts one stands before or at the other.
pub proof fn lemma_text_le_total(a: Seq<char>, b: Seq<char>)
    ensures
        text_le(a, b) || text_le(b, a),
    decreases a.len(),
{
    if a.len() > 0 && b.len() > 0 {
        lemma_code_point(a[0], b[0]);
        if a[0] == b[0] {
            lemma_text_le_total(a.drop_first(), b.drop_first());
        }
    }
}

/// The order of texts is transitive.
pub proof fn lemma_text_le_trans(a: Seq<char>, b: Seq<char>, c: Seq<char>)
    requires
        text_le(a, b),
        text_le(b, c),
    ensures
        text_le(a, c),
    decreases a.len(),
{
    if a.len() > 0 && b.len() > 0 && c.len() > 0 {
        lemma_code_point(a[0], c[0]);
        if a[0] == b[0] && b[0] == c[0] {
            lemma_text_le_trans(a.drop_first(), b.drop_first(), c.drop_first());
        }
    }
}

/// Whether the words stand in order.
pub open spec fn sorted(words: Seq<Seq<char>>) -> bool {
    forall|i: int, j: int| 0 <= i < j < words.len() ==> text_le(words[i], words[j])
}

/// Whether `w` is the name of a symbol that `store` defines.
pub open spec fn defined_name(store: Store, w: Seq<char>) -> bool {
    exists|sym: Symbol| #[trigger]
        store.defs.contains_key(sym) && sym.0 < store.names.len() && store.names[sym.0 as int] == w
}

/// Whether `words` is the list of the names that `store` defines: each
/// once, in order.
pub open spec fn listing(store: Store, words: Seq<Seq<char>>) -> bool {
    &&& sorted(words)
    &&& words.no_duplicates()
    &&& forall|w: Seq<char>| words.contains(w) <==> defined_name(store, w)
}

/// The views of a sequence of strings, element by element.
pub open spec fn texts(ws: Seq<String>) -> Seq<Seq<char>> {
    ws.map_values(|w: String| w@)
}

/// Whether `a` stands before or at `b`.
pub fn name_le(a: &str, b: &str) -> (r: bool)
    ensures
        r == text_le(a@, b@),
{
    let x = chars_of(a);
    let y = chars_of(b);
    let mut i: usize = 0;
    proof {
        assert(x@.skip(0) =~= x@);
        assert(y@.skip(0) =~= y@);
    }
    while i < x.len()
        invariant
            i <= x@.len(),
            i <= y@.len(),
            x@ == a@,
            y@ == b@,
            text_le(a@, b@) == text_le(x@.skip(i as int), y@.skip(i as int)),
        decreases x@.len() - i,
    {
        if i >= y.len() {
            return false;
        }
        proof {
            assert(x@.skip(i as int)[0] == x@[i as int]);
            assert(y@.skip(i as int)[0] == y@[i as int]);
            assert(x@.skip(i as int).drop_first() =~= x@.skip(i + 1));
            assert(y@.skip(i as int).drop_first() =~= y@.skip(i + 1));
        }
        if x[i] != y[i] {
            return (x[i] as u32) < (y[i] as u32);
        }
        i += 1;
    }
    true
}

/// The words of `ws`, joined by one space.
pub fn join_names(ws: &Vec<String>) -> (r: String)
    ensures
        r@ == join_words(texts(ws@)),
{
    let ghost parts = texts(ws@);
    let mut out = String::new();
    let mut i: usize = 0;
    proof {
        assert(parts.take(0) =~= Seq::<Seq<char>>::empty());
    }
    while i < ws.len()
        invariant
            i <= ws.len(),
            parts == texts(ws@),
            out@ == join_words(parts.take(i as int)),
        decreases ws.len() - i,
    {
        let ghost next = parts.take(i + 1);
        proof {
            assert(next.drop_last() =~= parts.take(i as int));
            assert(next.last() == ws@[i as int]@);
        }
        if i > 0 {
            out.append(" ");
        }
        out.append(ws[i].as_str());
        proof {
            if i == 0 {
                assert(out@ =~= next[0]);
            } else {
                assert(out@ =~= join_words(next.drop_last()) + " "@ + next.last());
            }
        }
        i += 1;
    }
    proof {
        assert(parts.take(ws.len() as int) =~= parts);
    }
    out
}

impl Context {
    /// The names that this store defines, each once, in order.
    pub fn list_names(&self) -> (r: Vec<String>)
        requires
            known_store(self@),
            self@.names.no_duplicates(),
        ensures
            listing(self@, texts(r@)),
    {
        let syms = self.symbols();
        let ghost store = self@;
        let mut out: Vec<String> = Vec::new();
        let mut i: usize = 0;
        while i < syms.len()
            invariant
                i <= syms.len(),
                store == self@,
                known_store(store),
                store.names.no_duplicates(),
                syms@.no_duplicates(),
                forall|sym: Symbol| syms@.contains(sym) <==> store.defs.contains_key(sym),
                sorted(texts(out@)),
                texts(out@).no_duplicates(),
                forall|w: Seq<char>|
                    texts(out@).contains(w) <==> exists|j: int|
                        0 <= j < i && store.names[(#[trigger] syms@[j]).0 as int] == w,
            decreases syms.len() - i,
        {
            let sym = syms[i];
            proof {
                assert(syms@.contains(sym));
                assert(store.defs.contains_key(sym));
            }
            let name = sym.resolve(self);
            let ghost w = name@;
            let ghost before = texts(out@);
            proof {
                // The new name is not in the list yet: it belongs to another symbol.
                if before.contains(w) {
                    let j = choose|j: int| 0 <= j < i && store.names[(#[trigger] syms@[j]).0 as int]
                        == w;
                    assert(syms@.contains(syms@[j]));
                    assert(store.defs.contains_key(syms@[j]));
                    assert(syms@[j].0 == sym.0);
                    assert(syms@[j] == syms@[i as int]);
                }
            }
            let mut p: usize = 0;
            while p < out.len() && name_le(out[p].as_str(), name.as_str())
                invariant
                    p <= out@.len(),
                    before == texts(out@),
                    w == name@,
                    forall|k: int| 0 <= k < p ==> text_le(before[k], w),
                decreases out@.len() - p,
            {
                proof {
                    assert(before[p as int] == out@[p as int]@);
                }
                p += 1;
            }
            proof {
                if p < out@.len() {
                    assert(before[p as int] == out@[p as int]@);
                    lemma_text_le_total(before[p as int], w);
                    assert forall|k: int| p <= k < before.len() implies text_le(w, before[k]) by {
                        if k > p {
                            assert(text_le(before[p as int], before[k]));
                            lemma_text_le_trans(w, before[p as int], before[k]);
                        }
                    }
                }
            }
            out.insert(p, name);
            proof {
                let after = texts(out@);
                assert(after =~= before.insert(p as int, w));
                assert forall|a: int, b: int| 0 <= a < b < after.len() implies text_le(
                    after[a],
                    after[b],
                ) by {
                    let a0 = if a < p { a } else { a - 1 };
                    let b0 = if b < p { b } else { b - 1 };
                    if a == p {
                        assert(after[b] == before[b0]);
                    } else if b == p {
                        assert(after[a] == before[a0]);
                    } else {
                        assert(after[a] == before[a0]);
                        assert(after[b] == before[b0]);
                    }
                }
                assert forall|a: int, b: int|
                    0 <= a < after.len() && 0 <= b < after.len() && a != b implies after[a]
                    != after[b] by {
                    let a0 = if a < p { a } else { a - 1 };
                    let b0 = if b < p { b } else { b - 1 };
                    if a == p {
                        assert(after[b] == before[b0]);
                        assert(before.contains(before[b0]));
                    } else if b == p {
                        assert(after[a] == before[a0]);
                        assert(before.contains(before[a0]));
                    } else {
                        assert(after[a] == before[a0]);
                        assert(after[b] == before[b0]);
                    }
                }
                assert forall|v: Seq<char>| after.contains(v) <==> exists|j: int|
                    0 <= j < i + 1 && store.names[(#[trigger] syms@[j]).0 as int] == v by {
                    if after.contains(v) {
                        let a = choose|a: int| 0 <= a < after.len() && after[a] == v;
                        if a == p {
                            assert(store.names[syms@[i as int].0 as int] == v);
                        } else {
                            let a0 = if a < p { a } else { a - 1 };
                            assert(after[a] == before[a0]);
                            assert(before.contains(v));
                            let j = choose|j: int|
                                0 <= j < i && store.names[(#[trigger] syms@[j]).0 as int] == v;
                            assert(0 <= j < i + 1);
                        }
                    }
                    if exists|j: int|
                        0 <= j < i + 1 && store.names[(#[trigger] syms@[j]).0 as int] == v {
                        let j = choose|j: int|
                            0 <= j < i + 1 && store.names[(#[trigger] syms@[j]).0 as int] == v;
                        if j == i {
                            assert(after[p as int] == v);
                        } else {
                            assert(before.contains(v));
                            let a0 = choose|a0: int| 0 <= a0 < before.len() && before[a0] == v;
                            let a = if a0 < p { a0 } else { a0 + 1 };
                            assert(after[a] == v);
                        }
                    }
                }
            }
            i += 1;
        }
        proof {
            let words = texts(out@);
            assert forall|w: Seq<char>| words.contains(w) <==> defined_name(store, w) by {
                if words.contains(w) {
                    let j = choose|j: int|
                        0 <= j < syms@.len() && store.names[(#[trigger] syms@[j]).0 as int] == w;
                    assert(syms@.contains(syms@[j]));
                    assert(store.defs.contains_key(syms@[j]));
                }
                if defined_name(store, w) {
                    let sym = choose|sym: Symbol| #[trigger]
                        store.defs.contains_key(sym) && sym.0 < store.names.len()
                            && store.names[sym.0 as int] == w;
                    assert(syms@.contains(sym));
                    let j = choose|j: int| 0 <= j < syms@.len() && syms@[j] == sym;
                    assert(store.names[syms@[j].0 as int] == w);
                }
            }
        }
        out
    }
}

} // verus!
