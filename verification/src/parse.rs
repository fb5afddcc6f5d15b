//! The text of commands: from characters to tokens, and from tokens to
//! expressions, definitions and commands whose symbols are still names.

use crate::display::{
    all_named, all_named_values, lemma_named_compose, Named, NamedValue, ResolvedExpr,
    ResolvedValue, ResolvedValueStack,
};
use crate::term::Intrinsic;
use vstd::prelude::*;
use vstd::string::StringExecFns;

verus! {

/// The characters of `s`.
pub fn chars_of(s: &str) -> (r: Vec<char>)
    ensures
        r@ == s@,
{
    let mut out: Vec<char> = Vec::new();
    for c in it: s.chars()
        invariant
            it.seq() == s@,
            out@ == it.seq().take(it.index() as int),
    {
        proof {
            assert(it.seq().take(it.index() + 1) =~= it.seq().take(it.index() as int).push(c));
        }
        out.push(c);
    }
    proof {
        assert(s@.take(s@.len() as int) =~= s@);
    }
    out
}

/// `String::push`: the character is appended.
#[verifier::external_body]
fn push_char(s: &mut String, c: char)
    ensures
        final(s)@ == old(s)@.push(c),
{
    s.push(c)
}

/// A token of the text of a command.
#[derive(Debug, PartialEq, Eq)]
pub enum Token {
    /// `[`
    LBracket,
    /// `]`
    RBracket,
    /// `(`
    LParen,
    /// `)`
    RParen,
    /// `{`
    LBrace,
    /// `}`
    RBrace,
    /// `=`
    Equals,
    /// `⟨`
    LAngle,
    /// `⟩`
    RAngle,
    /// `⟶`
    Step,
    /// `⇓`
    BigStep,
    /// A colon and the word that follows it at once.
    Directive(String),
    /// A run of letters, digits and underscores.
    Word(String),
}

/// The mathematical value of a [`Token`].
pub enum Tok {
    LBracket,
    RBracket,
    LParen,
    RParen,
    LBrace,
    RBrace,
    Equals,
    LAngle,
    RAngle,
    Step,
    BigStep,
    Directive(Seq<char>),
    Word(Seq<char>),
}

impl View for Token {
    type V = Tok;

    open spec fn view(&self) -> Tok {
        match self {
            Token::LBracket => Tok::LBracket,
            Token::RBracket => Tok::RBracket,
            Token::LParen => Tok::LParen,
            Token::RParen => Tok::RParen,
            Token::LBrace => Tok::LBrace,
            Token::RBrace => Tok::RBrace,
            Token::Equals => Tok::Equals,
            Token::LAngle => Tok::LAngle,
            Token::RAngle => Tok::RAngle,
            Token::Step => Tok::Step,
            Token::BigStep => Tok::BigStep,
            Token::Directive(w) => Tok::Directive(w@),
            Token::Word(w) => Tok::Word(w@),
        }
    }
}

/// The views of a sequence of tokens, element by element.
pub open spec fn toks(ts: Seq<Token>) -> Seq<Tok> {
    ts.map_values(|t: Token| t@)
}

/// Whether `c` separates tokens without being one.
pub open spec fn is_space(c: char) -> bool {
    c == ' ' || c == '\t' || c == '\n' || c == '\r'
}

/// Whether `c` may stand in a word: an ASCII letter, a digit or an
/// underscore.
pub open spec fn is_word_char(c: char) -> bool {
    let n = c as u32;
    (0x61 <= n <= 0x7a) || (0x41 <= n <= 0x5a) || (0x30 <= n <= 0x39) || c == '_'
}

/// The token that the single character `c` is, if it is one.
pub open spec fn punct(c: char) -> Option<Tok> {
    if c == '[' {
        Some(Tok::LBracket)
    } else if c == ']' {
        Some(Tok::RBracket)
    } else if c == '(' {
        Some(Tok::LParen)
    } else if c == ')' {
        Some(Tok::RParen)
    } else if c == '{' {
        Some(Tok::LBrace)
    } else if c == '}' {
        Some(Tok::RBrace)
    } else if c == '=' {
        Some(Tok::Equals)
    } else if c == '⟨' {
        Some(Tok::LAngle)
    } else if c == '⟩' {
        Some(Tok::RAngle)
    } else if c == '⟶' {
        Some(Tok::Step)
    } else if c == '⇓' {
        Some(Tok::BigStep)
    } else {
        None
    }
}

/// Where the run of word characters that starts at `i` ends.
pub open spec fn word_end(s: Seq<char>, i: int) -> int
    decreases s.len() - i,
{
    if 0 <= i < s.len() && is_word_char(s[i]) {
        word_end(s, i + 1)
    } else {
        i
    }
}

/// The tokens of `s` from position `i` on, or `None` where a character
/// belongs to no token.
pub open spec fn lex_from(s: Seq<char>, i: int) -> Option<Seq<Tok>>
    decreases s.len() - i,
{
    if !(0 <= i < s.len()) {
        Some(Seq::empty())
    } else if is_space(s[i]) {
        lex_from(s, i + 1)
    } else if punct(s[i]) is Some {
        match lex_from(s, i + 1) {
            Some(rest) => Some(seq![punct(s[i])->Some_0] + rest),
            None => None,
        }
    } else if s[i] == ':' {
        let j = word_end(s, i + 1);
        if j <= i || j > s.len() {
            None
        } else {
            match lex_from(s, j) {
                Some(rest) => Some(seq![Tok::Directive(s.subrange(i + 1, j))] + rest),
                None => None,
            }
        }
    } else if is_word_char(s[i]) {
        let j = word_end(s, i);
        if j <= i || j > s.len() {
            None
        } else {
            match lex_from(s, j) {
                Some(rest) => Some(seq![Tok::Word(s.subrange(i, j))] + rest),
                None => None,
            }
        }
    } else {
        None
    }
}

/// The tokens of `s`.
pub open spec fn lex_spec(s: Seq<char>) -> Option<Seq<Tok>> {
    lex_from(s, 0)
}

/// A run of word characters ends at or after its start and within the text.
pub proof fn lemma_word_end(s: Seq<char>, i: int)
    requires
        0 <= i <= s.len(),
    ensures
        i <= word_end(s, i) <= s.len(),
        i < s.len() && is_word_char(s[i]) ==> i < word_end(s, i),
    decreases s.len() - i,
{
    if i < s.len() && is_word_char(s[i]) {
        lemma_word_end(s, i + 1);
    }
}

/// There are no more tokens than characters.
pub proof fn lemma_lex_len(s: Seq<char>, i: int)
    requires
        0 <= i <= s.len(),
    ensures
        lex_from(s, i) matches Some(ts) ==> ts.len() <= s.len() - i,
    decreases s.len() - i,
{
    if i < s.len() {
        if is_space(s[i]) {
            lemma_lex_len(s, i + 1);
        } else if punct(s[i]) is Some {
            lemma_lex_len(s, i + 1);
        } else if s[i] == ':' {
            let j = word_end(s, i + 1);
            if i < j <= s.len() {
                lemma_lex_len(s, j);
            }
        } else if is_word_char(s[i]) {
            let j = word_end(s, i);
            if i < j <= s.len() {
                lemma_lex_len(s, j);
            }
        }
    }
}

/// Whether `c` separates tokens.
fn space(c: char) -> (r: bool)
    ensures
        r == is_space(c),
{
    c == ' ' || c == '\t' || c == '\n' || c == '\r'
}

/// Whether `c` may stand in a word.
fn word_char(c: char) -> (r: bool)
    ensures
        r == is_word_char(c),
{
    let n = c as u32;
    (0x61 <= n && n <= 0x7a) || (0x41 <= n && n <= 0x5a) || (0x30 <= n && n <= 0x39) || c == '_'
}

/// The token that the single character `c` is.
fn punct_token(c: char) -> (r: Option<Token>)
    ensures
        match r {
            Some(t) => punct(c) == Some(t@),
            None => punct(c) is None,
        },
{
    if c == '[' {
        Some(Token::LBracket)
    } else if c == ']' {
        Some(Token::RBracket)
    } else if c == '(' {
        Some(Token::LParen)
    } else if c == ')' {
        Some(Token::RParen)
    } else if c == '{' {
        Some(Token::LBrace)
    } else if c == '}' {
        Some(Token::RBrace)
    } else if c == '=' {
        Some(Token::Equals)
    } else if c == '⟨' {
        Some(Token::LAngle)
    } else if c == '⟩' {
        Some(Token::RAngle)
    } else if c == '⟶' {
        Some(Token::Step)
    } else if c == '⇓' {
        Some(Token::BigStep)
    } else {
        None
    }
}

/// The word that starts at `i`, and where it ends.
fn read_word(chars: &Vec<char>, i: usize) -> (r: (String, usize))
    requires
        i <= chars@.len(),
    ensures
        r.1 == word_end(chars@, i as int),
        r.0@ == chars@.subrange(i as int, r.1 as int),
        i <= r.1 <= chars@.len(),
{
    let mut word = String::new();
    let mut j = i;
    proof {
        lemma_word_end(chars@, i as int);
    }
    while j < chars.len() && word_char(chars[j])
        invariant
            i <= j <= chars@.len(),
            word@ == chars@.subrange(i as int, j as int),
            word_end(chars@, i as int) == word_end(chars@, j as int),
        decreases chars@.len() - j,
    {
        push_char(&mut word, chars[j]);
        proof {
            assert(chars@.subrange(i as int, j + 1) =~= chars@.subrange(i as int, j as int).push(
                chars@[j as int],
            ));
        }
        j += 1;
    }
    (word, j)
}

/// Splits `input` into tokens. `None` where a character belongs to no
/// token.
pub fn lex(input: &str) -> (r: Option<Vec<Token>>)
    ensures
        match r {
            Some(ts) => lex_spec(input@) == Some(toks(ts@)),
            None => lex_spec(input@) is None,
        },
{
    let chars = chars_of(input);
    let ghost s = chars@;
    let mut out: Vec<Token> = Vec::new();
    let mut i: usize = 0;
    while i < chars.len()
        invariant
            i <= chars@.len(),
            chars@ == s,
            s == input@,
            lex_from(s, 0) == match lex_from(s, i as int) {
                Some(rest) => Some(toks(out@) + rest),
                None => None,
            },
        decreases chars@.len() - i,
    {
        let c = chars[i];
        let ghost before = toks(out@);
        if space(c) {
            i += 1;
        } else {
            match punct_token(c) {
                Some(t) => {
                    out.push(t);
                    proof {
                        assert(toks(out@) =~= before.push(t@));
                        if let Some(rest) = lex_from(s, i + 1) {
                            assert(before + (seq![t@] + rest) =~= toks(out@) + rest);
                        }
                    }
                    i += 1;
                },
                None => {
                    if c == ':' {
                        let (word, j) = read_word(&chars, i + 1);
                        if j <= i || j > chars.len() {
                            return None;
                        }
                        let t = Token::Directive(word);
                        out.push(t);
                        proof {
                            assert(toks(out@) =~= before.push(t@));
                            if let Some(rest) = lex_from(s, j as int) {
                                assert(before + (seq![t@] + rest) =~= toks(out@) + rest);
                            }
                        }
                        i = j;
                    } else if word_char(c) {
                        let (word, j) = read_word(&chars, i);
                        if j <= i || j > chars.len() {
                            return None;
                        }
                        let t = Token::Word(word);
                        out.push(t);
                        proof {
                            assert(toks(out@) =~= before.push(t@));
                            if let Some(rest) = lex_from(s, j as int) {
                                assert(before + (seq![t@] + rest) =~= toks(out@) + rest);
                            }
                        }
                        i = j;
                    } else {
                        return None;
                    }
                },
            }
        }
    }
    proof {
        assert(toks(out@) + Seq::<Tok>::empty() =~= toks(out@));
    }
    Some(out)
}

/// The intrinsic that the word `w` is the keyword of, if it is one.
pub open spec fn keyword(w: Seq<char>) -> Option<Intrinsic> {
    if w == "swap"@ {
        Some(Intrinsic::Swap)
    } else if w == "clone"@ {
        Some(Intrinsic::Clone)
    } else if w == "drop"@ {
        Some(Intrinsic::Drop)
    } else if w == "quote"@ {
        Some(Intrinsic::Quote)
    } else if w == "compose"@ {
        Some(Intrinsic::Compose)
    } else if w == "apply"@ {
        Some(Intrinsic::Apply)
    } else {
        None
    }
}

/// Whether the word `w` cannot be a name.
pub open spec fn reserved(w: Seq<char>) -> bool {
    w == "fn"@ || keyword(w) is Some
}

/// The expression that the word `w` is: an intrinsic or the call of a name.
pub open spec fn word_named(w: Seq<char>) -> Named {
    match keyword(w) {
        Some(i) => Named::Intrinsic(i),
        None => Named::Call(w),
    }
}

/// A sequence of expressions as one expression: a single element stands for
/// itself.
pub open spec fn pack_named(l: Seq<Named>) -> Named {
    if l.len() == 1 {
        l[0]
    } else {
        Named::Compose(l)
    }
}

/// The elements of the expression that starts at token `i`, and the position
/// of the first token that is not part of it. A word is an element; an
/// expression in square brackets is one element, a quotation; the elements
/// of an expression in round brackets are elements of the expression around
/// it. `None` where a bracket is not closed by its partner.
pub open spec fn parse_elems_spec(ts: Seq<Tok>, i: int) -> Option<(Seq<Named>, int)>
    decreases ts.len() - i,
{
    if !(0 <= i < ts.len()) {
        Some((Seq::empty(), i))
    } else {
        match ts[i] {
            Tok::Word(w) => if w == "fn"@ {
                Some((Seq::empty(), i))
            } else {
                match parse_elems_spec(ts, i + 1) {
                    Some((rest, j)) => Some((seq![word_named(w)] + rest, j)),
                    None => None,
                }
            },
            Tok::LBracket => match parse_elems_spec(ts, i + 1) {
                Some((inner, j)) => if i < j < ts.len() && ts[j] is RBracket {
                    match parse_elems_spec(ts, j + 1) {
                        Some((rest, k)) => Some(
                            (seq![Named::Quote(Box::new(pack_named(inner)))] + rest, k),
                        ),
                        None => None,
                    }
                } else {
                    None
                },
                None => None,
            },
            Tok::LParen => match parse_elems_spec(ts, i + 1) {
                Some((inner, j)) => if i < j < ts.len() && ts[j] is RParen {
                    match parse_elems_spec(ts, j + 1) {
                        Some((rest, k)) => Some((inner + rest, k)),
                        None => None,
                    }
                } else {
                    None
                },
                None => None,
            },
            _ => Some((Seq::empty(), i)),
        }
    }
}

/// The expression that the tokens from `i` to the end are.
pub open spec fn parse_expr_from(ts: Seq<Tok>, i: int) -> Option<Named> {
    match parse_elems_spec(ts, i) {
        Some((l, j)) => if j == ts.len() {
            Some(pack_named(l))
        } else {
            None
        },
        None => None,
    }
}

/// The expression that the tokens `ts` are.
pub open spec fn parse_expr_spec(ts: Seq<Tok>) -> Option<Named> {
    parse_expr_from(ts, 0)
}

/// A definition whose symbol is still a name.
pub struct NamedDef {
    pub name: Seq<char>,
    pub body: Named,
}

/// The definition that starts at token `i`, and the position after it:
/// `{fn`, a name, `=`, an expression, `}`.
pub open spec fn parse_fn_def_at(ts: Seq<Tok>, i: int) -> Option<(NamedDef, int)> {
    if 0 <= i && i + 3 < ts.len() && ts[i] is LBrace && ts[i + 1] == Tok::Word("fn"@) && ts[i
        + 2] is Word && !reserved(ts[i + 2]->Word_0) && ts[i + 3] is Equals {
        match parse_elems_spec(ts, i + 4) {
            Some((l, j)) => if 0 <= j < ts.len() && ts[j] is RBrace {
                Some((NamedDef { name: ts[i + 2]->Word_0, body: pack_named(l) }, j + 1))
            } else {
                None
            },
            None => None,
        }
    } else {
        None
    }
}

/// The definition that the tokens `ts` are.
pub open spec fn parse_fn_def_spec(ts: Seq<Tok>) -> Option<NamedDef> {
    match parse_fn_def_at(ts, 0) {
        Some((d, j)) => if j == ts.len() {
            Some(d)
        } else {
            None
        },
        None => None,
    }
}

/// An item of an evaluation whose symbols are still names.
pub enum NamedItem {
    FnDef(NamedDef),
    Expr(Named),
}

/// The items from token `i` to the end: definitions, and between them the
/// expressions that are not empty.
pub open spec fn parse_items_from(ts: Seq<Tok>, i: int) -> Option<Seq<NamedItem>>
    decreases ts.len() - i,
{
    if !(0 <= i < ts.len()) {
        Some(Seq::empty())
    } else if ts[i] is LBrace {
        match parse_fn_def_at(ts, i) {
            Some((d, j)) => if i < j <= ts.len() {
                match parse_items_from(ts, j) {
                    Some(rest) => Some(seq![NamedItem::FnDef(d)] + rest),
                    None => None,
                }
            } else {
                None
            },
            None => None,
        }
    } else {
        match parse_elems_spec(ts, i) {
            Some((l, j)) => if i < j <= ts.len() {
                match parse_items_from(ts, j) {
                    Some(rest) => if l.len() == 0 {
                        Some(rest)
                    } else {
                        Some(seq![NamedItem::Expr(pack_named(l))] + rest)
                    },
                    None => None,
                }
            } else {
                None
            },
            None => None,
        }
    }
}

/// The items that the tokens `ts` are.
pub open spec fn parse_items_spec(ts: Seq<Tok>) -> Option<Seq<NamedItem>> {
    parse_items_from(ts, 0)
}

/// A command whose symbols are still names.
pub enum NamedCommand {
    Eval(Seq<NamedItem>),
    Trace(Named),
    Show(Seq<char>),
    List,
    Drop,
    Clear,
    Reset,
    Help,
}

/// The command that the tokens `ts` are: a directive with what it takes, or
/// else the items of an evaluation.
pub open spec fn parse_command_spec(ts: Seq<Tok>) -> Option<NamedCommand> {
    if ts.len() > 0 && ts[0] is Directive {
        let d = ts[0]->Directive_0;
        if d == "trace"@ {
            match parse_expr_from(ts, 1) {
                Some(e) => Some(NamedCommand::Trace(e)),
                None => None,
            }
        } else if d == "show"@ {
            if ts.len() == 2 && ts[1] is Word && !reserved(ts[1]->Word_0) {
                Some(NamedCommand::Show(ts[1]->Word_0))
            } else {
                None
            }
        } else if ts.len() != 1 {
            None
        } else if d == "list"@ {
            Some(NamedCommand::List)
        } else if d == "drop"@ {
            Some(NamedCommand::Drop)
        } else if d == "clear"@ {
            Some(NamedCommand::Clear)
        } else if d == "reset"@ {
            Some(NamedCommand::Reset)
        } else if d == "help"@ {
            Some(NamedCommand::Help)
        } else {
            None
        }
    } else {
        match parse_items_spec(ts) {
            Some(is) => Some(NamedCommand::Eval(is)),
            None => None,
        }
    }
}

/// The values from token `i` on, and the position of the first token that
/// is no value. A name is a value; an expression in square brackets is a
/// value, a literal.
pub open spec fn parse_values_spec(ts: Seq<Tok>, i: int) -> Option<(Seq<NamedValue>, int)>
    decreases ts.len() - i,
{
    if !(0 <= i < ts.len()) {
        Some((Seq::empty(), i))
    } else {
        match ts[i] {
            Tok::Word(w) => if reserved(w) {
                None
            } else {
                match parse_values_spec(ts, i + 1) {
                    Some((rest, j)) => Some((seq![NamedValue::Call(w)] + rest, j)),
                    None => None,
                }
            },
            Tok::LBracket => match parse_elems_spec(ts, i + 1) {
                Some((inner, j)) => if i < j < ts.len() && ts[j] is RBracket {
                    match parse_values_spec(ts, j + 1) {
                        Some((rest, k)) => Some(
                            (seq![NamedValue::Quote(pack_named(inner))] + rest, k),
                        ),
                        None => None,
                    }
                } else {
                    None
                },
                None => None,
            },
            _ => Some((Seq::empty(), i)),
        }
    }
}

/// The stack that starts at token `i`, and the position after it: values
/// between angle brackets.
pub open spec fn parse_stack_at(ts: Seq<Tok>, i: int) -> Option<(Seq<NamedValue>, int)> {
    if 0 <= i < ts.len() && ts[i] is LAngle {
        match parse_values_spec(ts, i + 1) {
            Some((vs, j)) => if 0 <= j < ts.len() && ts[j] is RAngle {
                Some((vs, j + 1))
            } else {
                None
            },
            None => None,
        }
    } else {
        None
    }
}

/// The stack that the tokens `ts` are.
pub open spec fn parse_stack_spec(ts: Seq<Tok>) -> Option<Seq<NamedValue>> {
    match parse_stack_at(ts, 0) {
        Some((vs, j)) => if j == ts.len() {
            Some(vs)
        } else {
            None
        },
        None => None,
    }
}

/// A stack and a continuation whose symbols are still names.
pub struct NamedState {
    pub stack: Seq<NamedValue>,
    pub expr: Named,
}

/// The state that starts at token `i`, and the position after it: a stack
/// and the expression that follows it.
pub open spec fn parse_state_at(ts: Seq<Tok>, i: int) -> Option<(NamedState, int)> {
    match parse_stack_at(ts, i) {
        Some((vs, j)) => match parse_elems_spec(ts, j) {
            Some((l, k)) => Some((NamedState { stack: vs, expr: pack_named(l) }, k)),
            None => None,
        },
        None => None,
    }
}

/// The two states of an assertion: a state, the token `arrow`, and a
/// state.
pub open spec fn parse_assertion_spec(ts: Seq<Tok>, arrow: Tok) -> Option<(NamedState, NamedState)> {
    match parse_state_at(ts, 0) {
        Some((before, j)) => if 0 <= j < ts.len() && ts[j] == arrow {
            match parse_state_at(ts, j + 1) {
                Some((after, k)) => if k == ts.len() {
                    Some((before, after))
                } else {
                    None
                },
                None => None,
            }
        } else {
            None
        },
        None => None,
    }
}

/// An expression ends at or after its start and within the tokens.
pub proof fn lemma_parse_elems_bounds(ts: Seq<Tok>, i: int)
    requires
        0 <= i <= ts.len(),
    ensures
        parse_elems_spec(ts, i) matches Some((_, j)) ==> i <= j <= ts.len(),
    decreases ts.len() - i,
{
    if i < ts.len() {
        match ts[i] {
            Tok::Word(w) => {
                if w != "fn"@ {
                    lemma_parse_elems_bounds(ts, i + 1);
                }
            },
            Tok::LBracket => {
                lemma_parse_elems_bounds(ts, i + 1);
                if let Some((inner, j)) = parse_elems_spec(ts, i + 1) {
                    if i < j < ts.len() {
                        lemma_parse_elems_bounds(ts, j + 1);
                    }
                }
            },
            Tok::LParen => {
                lemma_parse_elems_bounds(ts, i + 1);
                if let Some((inner, j)) = parse_elems_spec(ts, i + 1) {
                    if i < j < ts.len() {
                        lemma_parse_elems_bounds(ts, j + 1);
                    }
                }
            },
            _ => {},
        }
    }
}

/// Flattened normal form of an expression that is read: no composition holds
/// a composition as an element, at any depth, and nothing is left out.
pub open spec fn flat_named(e: Named) -> bool
    decreases e,
{
    match e {
        Named::Empty => false,
        Named::Quote(q) => flat_named(*q),
        Named::Compose(l) => forall|i: int|
            0 <= i < l.len() ==> !(#[trigger] l[i] is Compose) && flat_named(l[i]),
        _ => true,
    }
}

/// Elements that can stand in a composition in flattened normal form.
pub open spec fn flat_elems(l: Seq<Named>) -> bool {
    forall|i: int| 0 <= i < l.len() ==> !(#[trigger] l[i] is Compose) && flat_named(l[i])
}

/// Whether the expressions of an item are in flattened normal form.
pub open spec fn flat_named_item(item: NamedItem) -> bool {
    match item {
        NamedItem::FnDef(d) => flat_named(d.body),
        NamedItem::Expr(e) => flat_named(e),
    }
}

/// Whether the expressions of the items are in flattened normal form.
pub open spec fn flat_named_items(is: Seq<NamedItem>) -> bool {
    forall|i: int| 0 <= i < is.len() ==> flat_named_item(#[trigger] is[i])
}

/// Whether the expressions of a command are in flattened normal form.
pub open spec fn flat_named_command(c: NamedCommand) -> bool {
    match c {
        NamedCommand::Eval(is) => flat_named_items(is),
        NamedCommand::Trace(e) => flat_named(e),
        _ => true,
    }
}

/// Flat elements pack into an expression in flattened normal form.
pub proof fn lemma_pack_flat(l: Seq<Named>)
    requires
        flat_elems(l),
    ensures
        flat_named(pack_named(l)),
{
    if l.len() == 1 {
        assert(flat_named(l[0]));
    }
}

/// The elements that are read are flat: what is read is in flattened normal
/// form.
pub proof fn lemma_parse_elems_flat(ts: Seq<Tok>, i: int)
    requires
        0 <= i <= ts.len(),
    ensures
        parse_elems_spec(ts, i) matches Some((l, _)) ==> flat_elems(l),
    decreases ts.len() - i,
{
    if i < ts.len() {
        match ts[i] {
            Tok::Word(w) => {
                if w != "fn"@ {
                    lemma_parse_elems_flat(ts, i + 1);
                    if let Some((rest, j)) = parse_elems_spec(ts, i + 1) {
                        let l = seq![word_named(w)] + rest;
                        assert forall|k: int| 0 <= k < l.len() implies !(#[trigger] l[k] is Compose)
                            && flat_named(l[k]) by {
                            if k > 0 {
                                assert(l[k] == rest[k - 1]);
                            }
                        }
                    }
                }
            },
            Tok::LBracket => {
                lemma_parse_elems_flat(ts, i + 1);
                if let Some((inner, j)) = parse_elems_spec(ts, i + 1) {
                    if i < j < ts.len() && ts[j] is RBracket {
                        lemma_parse_elems_flat(ts, j + 1);
                        lemma_pack_flat(inner);
                        if let Some((rest, k)) = parse_elems_spec(ts, j + 1) {
                            let l = seq![Named::Quote(Box::new(pack_named(inner)))] + rest;
                            assert forall|k: int| 0 <= k < l.len() implies !(
                            #[trigger] l[k] is Compose) && flat_named(l[k]) by {
                                if k > 0 {
                                    assert(l[k] == rest[k - 1]);
                                }
                            }
                        }
                    }
                }
            },
            Tok::LParen => {
                lemma_parse_elems_flat(ts, i + 1);
                if let Some((inner, j)) = parse_elems_spec(ts, i + 1) {
                    if i < j < ts.len() && ts[j] is RParen {
                        lemma_parse_elems_flat(ts, j + 1);
                        if let Some((rest, k)) = parse_elems_spec(ts, j + 1) {
                            let l = inner + rest;
                            assert forall|k: int| 0 <= k < l.len() implies !(
                            #[trigger] l[k] is Compose) && flat_named(l[k]) by {
                                if k < inner.len() {
                                    assert(l[k] == inner[k]);
                                } else {
                                    assert(l[k] == rest[k - inner.len()]);
                                }
                            }
                        }
                    }
                }
            },
            _ => {},
        }
    }
}

/// The definition that is read has a body in flattened normal form.
pub proof fn lemma_parse_fn_def_flat(ts: Seq<Tok>, i: int)
    ensures
        parse_fn_def_at(ts, i) matches Some((d, _)) ==> flat_named(d.body),
{
    if parse_fn_def_at(ts, i) is Some {
        lemma_parse_elems_flat(ts, i + 4);
        lemma_pack_flat(parse_elems_spec(ts, i + 4)->Some_0.0);
    }
}

/// The items that are read are in flattened normal form.
pub proof fn lemma_parse_items_flat(ts: Seq<Tok>, i: int)
    requires
        0 <= i <= ts.len(),
    ensures
        parse_items_from(ts, i) matches Some(is) ==> flat_named_items(is),
    decreases ts.len() - i,
{
    if i < ts.len() {
        if ts[i] is LBrace {
            lemma_parse_fn_def_flat(ts, i);
            if let Some((d, j)) = parse_fn_def_at(ts, i) {
                if i < j <= ts.len() {
                    lemma_parse_items_flat(ts, j);
                    if let Some(rest) = parse_items_from(ts, j) {
                        let is = seq![NamedItem::FnDef(d)] + rest;
                        assert forall|k: int| 0 <= k < is.len() implies flat_named_item(
                            #[trigger] is[k],
                        ) by {
                            if k > 0 {
                                assert(is[k] == rest[k - 1]);
                            }
                        }
                    }
                }
            }
        } else {
            lemma_parse_elems_flat(ts, i);
            if let Some((l, j)) = parse_elems_spec(ts, i) {
                if i < j <= ts.len() {
                    lemma_parse_items_flat(ts, j);
                    lemma_pack_flat(l);
                    if let Some(rest) = parse_items_from(ts, j) {
                        let is = seq![NamedItem::Expr(pack_named(l))] + rest;
                        assert forall|k: int| 0 <= k < is.len() implies flat_named_item(
                            #[trigger] is[k],
                        ) by {
                            if k > 0 {
                                assert(is[k] == rest[k - 1]);
                            }
                        }
                    }
                }
            }
        }
    }
}

/// The command that is read is in flattened normal form.
pub proof fn lemma_read_command_flat(s: Seq<char>)
    ensures
        read_command_spec(s) matches Ok(c) ==> flat_named_command(c),
{
    if let Some(ts) = lex_spec(s) {
        if ts.len() > 0 && ts[0] is Directive {
            lemma_parse_elems_flat(ts, 1);
            if let Some((l, j)) = parse_elems_spec(ts, 1) {
                lemma_pack_flat(l);
            }
        } else {
            lemma_parse_items_flat(ts, 0);
        }
    }
}

/// The definition that is read has a body in flattened normal form.
pub proof fn lemma_read_fn_def_flat(s: Seq<char>)
    ensures
        read_fn_def_spec(s) matches Ok(d) ==> flat_named(d.body),
{
    if let Some(ts) = lex_spec(s) {
        lemma_parse_fn_def_flat(ts, 0);
    }
}

/// Whether `w` is the word `lit`.
fn is_word(w: &String, lit: &str) -> (r: bool)
    ensures
        r == (w@ == lit@),
{
    let other = String::from_str(lit);
    *w == other
}

/// The intrinsic that `w` is the keyword of.
fn keyword_of(w: &String) -> (r: Option<Intrinsic>)
    ensures
        r == keyword(w@),
{
    if is_word(w, "swap") {
        Some(Intrinsic::Swap)
    } else if is_word(w, "clone") {
        Some(Intrinsic::Clone)
    } else if is_word(w, "drop") {
        Some(Intrinsic::Drop)
    } else if is_word(w, "quote") {
        Some(Intrinsic::Quote)
    } else if is_word(w, "compose") {
        Some(Intrinsic::Compose)
    } else if is_word(w, "apply") {
        Some(Intrinsic::Apply)
    } else {
        None
    }
}

/// Whether `w` cannot be a name.
fn is_reserved(w: &String) -> (r: bool)
    ensures
        r == reserved(w@),
{
    is_word(w, "fn") || keyword_of(w).is_some()
}

/// A vector of expressions as one expression.
fn pack_resolved(es: Vec<ResolvedExpr>) -> (r: ResolvedExpr)
    ensures
        r@ == pack_named(all_named(es@)),
{
    let mut es = es;
    if es.len() == 1 {
        match es.pop() {
            Some(only) => only,
            None => ResolvedExpr::Compose(es),
        }
    } else {
        proof {
            lemma_named_compose(es);
        }
        ResolvedExpr::Compose(es)
    }
}

/// Reads the elements of the expression that starts at token `start`.
fn parse_elems(ts: &Vec<Token>, start: usize) -> (r: Option<(Vec<ResolvedExpr>, usize)>)
    requires
        start <= ts@.len(),
    ensures
        match r {
            Some((es, j)) => parse_elems_spec(toks(ts@), start as int) == Some(
                (all_named(es@), j as int),
            ) && start <= j <= ts@.len(),
            None => parse_elems_spec(toks(ts@), start as int) is None,
        },
    decreases ts@.len() - start,
{
    let ghost t = toks(ts@);
    let mut out: Vec<ResolvedExpr> = Vec::new();
    let mut i = start;
    loop
        invariant
            start <= i <= ts@.len(),
            t == toks(ts@),
            parse_elems_spec(t, start as int) == match parse_elems_spec(t, i as int) {
                Some((rest, j)) => Some((all_named(out@) + rest, j)),
                None => None,
            },
        decreases ts@.len() - i,
    {
        let ghost before = all_named(out@);
        if i >= ts.len() {
            proof {
                assert(before + Seq::<Named>::empty() =~= before);
            }
            return Some((out, i));
        }
        proof {
            assert(t[i as int] == ts@[i as int]@);
            lemma_parse_elems_bounds(t, i + 1);
        }
        match &ts[i] {
            Token::Word(w) => {
                if is_word(w, "fn") {
                    proof {
                        assert(before + Seq::<Named>::empty() =~= before);
                    }
                    return Some((out, i));
                }
                let e = match keyword_of(w) {
                    Some(op) => ResolvedExpr::Intrinsic(op),
                    None => ResolvedExpr::Call(w.clone()),
                };
                out.push(e);
                proof {
                    assert(all_named(out@) =~= before.push(e@));
                    if let Some((rest, j)) = parse_elems_spec(t, i + 1) {
                        assert(before + (seq![e@] + rest) =~= all_named(out@) + rest);
                    }
                }
                i += 1;
            },
            Token::LBracket => {
                match parse_elems(ts, i + 1) {
                    None => {
                        return None;
                    },
                    Some((inner, j)) => {
                        if j >= ts.len() {
                            return None;
                        }
                        proof {
                            assert(t[j as int] == ts@[j as int]@);
                            lemma_parse_elems_bounds(t, j + 1);
                        }
                        match &ts[j] {
                            Token::RBracket => {},
                            _ => {
                                return None;
                            },
                        }
                        let e = ResolvedExpr::Quote(Box::new(pack_resolved(inner)));
                        out.push(e);
                        proof {
                            assert(all_named(out@) =~= before.push(e@));
                            if let Some((rest, k)) = parse_elems_spec(t, j + 1) {
                                assert(before + (seq![e@] + rest) =~= all_named(out@) + rest);
                            }
                        }
                        i = j + 1;
                    },
                }
            },
            Token::LParen => {
                match parse_elems(ts, i + 1) {
                    None => {
                        return None;
                    },
                    Some((inner, j)) => {
                        if j >= ts.len() {
                            return None;
                        }
                        proof {
                            assert(t[j as int] == ts@[j as int]@);
                            lemma_parse_elems_bounds(t, j + 1);
                        }
                        match &ts[j] {
                            Token::RParen => {},
                            _ => {
                                return None;
                            },
                        }
                        let mut inner = inner;
                        let ghost spliced = all_named(inner@);
                        proof {
                            assert(all_named(out@ + inner@) =~= before + spliced);
                            if let Some((rest, k)) = parse_elems_spec(t, j + 1) {
                                assert(before + (spliced + rest) =~= (before + spliced) + rest);
                            }
                        }
                        out.append(&mut inner);
                        i = j + 1;
                    },
                }
            },
            _ => {
                proof {
                    assert(before + Seq::<Named>::empty() =~= before);
                }
                return Some((out, i));
            },
        }
    }
}

/// Reads the tokens from `i` to the end as an expression.
fn parse_expr_tokens(ts: &Vec<Token>, i: usize) -> (r: Option<ResolvedExpr>)
    requires
        i <= ts@.len(),
    ensures
        match r {
            Some(e) => parse_expr_from(toks(ts@), i as int) == Some(e@),
            None => parse_expr_from(toks(ts@), i as int) is None,
        },
{
    match parse_elems(ts, i) {
        None => None,
        Some((es, j)) => if j == ts.len() {
            Some(pack_resolved(es))
        } else {
            None
        },
    }
}

/// A definition whose symbol is still a name.
#[derive(Debug, PartialEq, Eq)]
pub struct ParsedFnDef(pub String, pub ResolvedExpr);

impl View for ParsedFnDef {
    type V = NamedDef;

    open spec fn view(&self) -> NamedDef {
        NamedDef { name: self.0@, body: self.1@ }
    }
}

/// An item of an evaluation whose symbols are still names.
#[derive(Debug, PartialEq, Eq)]
pub enum ParsedItem {
    FnDef(ParsedFnDef),
    Expr(ResolvedExpr),
}

impl View for ParsedItem {
    type V = NamedItem;

    open spec fn view(&self) -> NamedItem {
        match self {
            ParsedItem::FnDef(d) => NamedItem::FnDef(d@),
            ParsedItem::Expr(e) => NamedItem::Expr(e@),
        }
    }
}

/// The views of a sequence of parsed items, element by element.
pub open spec fn named_items(is: Seq<ParsedItem>) -> Seq<NamedItem> {
    is.map_values(|i: ParsedItem| i@)
}

/// A command whose symbols are still names.
#[derive(Debug, PartialEq, Eq)]
pub enum ParsedCommand {
    Eval(Vec<ParsedItem>),
    Trace(ResolvedExpr),
    Show(String),
    List,
    Drop,
    Clear,
    Reset,
    Help,
}

impl View for ParsedCommand {
    type V = NamedCommand;

    open spec fn view(&self) -> NamedCommand {
        match self {
            ParsedCommand::Eval(is) => NamedCommand::Eval(named_items(is@)),
            ParsedCommand::Trace(e) => NamedCommand::Trace(e@),
            ParsedCommand::Show(w) => NamedCommand::Show(w@),
            ParsedCommand::List => NamedCommand::List,
            ParsedCommand::Drop => NamedCommand::Drop,
            ParsedCommand::Clear => NamedCommand::Clear,
            ParsedCommand::Reset => NamedCommand::Reset,
            ParsedCommand::Help => NamedCommand::Help,
        }
    }
}

/// A stack and a continuation whose symbols are still names.
#[derive(Debug, PartialEq, Eq)]
pub struct ParsedState(pub ResolvedValueStack, pub ResolvedExpr);

impl View for ParsedState {
    type V = NamedState;

    open spec fn view(&self) -> NamedState {
        NamedState { stack: self.0@, expr: self.1@ }
    }
}

/// Reads the definition that starts at token `i`.
fn parse_fn_def_tokens(ts: &Vec<Token>, i: usize) -> (r: Option<(ParsedFnDef, usize)>)
    requires
        i <= ts@.len(),
    ensures
        match r {
            Some((d, j)) => parse_fn_def_at(toks(ts@), i as int) == Some((d@, j as int)) && i < j
                <= ts@.len(),
            None => parse_fn_def_at(toks(ts@), i as int) is None,
        },
{
    let ghost t = toks(ts@);
    if ts.len() < 4 || i >= ts.len() - 3 {
        return None;
    }
    proof {
        assert(t[i as int] == ts@[i as int]@);
        assert(t[i + 1] == ts@[i + 1]@);
        assert(t[i + 2] == ts@[i + 2]@);
        assert(t[i + 3] == ts@[i + 3]@);
    }
    match &ts[i] {
        Token::LBrace => {},
        _ => {
            return None;
        },
    }
    match &ts[i + 1] {
        Token::Word(w) => {
            if !is_word(w, "fn") {
                return None;
            }
        },
        _ => {
            return None;
        },
    }
    match &ts[i + 3] {
        Token::Equals => {},
        _ => {
            return None;
        },
    }
    match &ts[i + 2] {
        Token::Word(name) => {
            if is_reserved(name) {
                return None;
            }
            match parse_elems(ts, i + 4) {
                None => None,
                Some((es, j)) => {
                    if j >= ts.len() {
                        return None;
                    }
                    proof {
                        assert(t[j as int] == ts@[j as int]@);
                    }
                    match &ts[j] {
                        Token::RBrace => Some((ParsedFnDef(name.clone(), pack_resolved(es)), j + 1)),
                        _ => None,
                    }
                },
            }
        },
        _ => None,
    }
}

/// Reads the tokens from `start` to the end as the items of an evaluation.
fn parse_items_tokens(ts: &Vec<Token>, start: usize) -> (r: Option<Vec<ParsedItem>>)
    requires
        start <= ts@.len(),
    ensures
        match r {
            Some(is) => parse_items_from(toks(ts@), start as int) == Some(named_items(is@)),
            None => parse_items_from(toks(ts@), start as int) is None,
        },
{
    let ghost t = toks(ts@);
    let mut out: Vec<ParsedItem> = Vec::new();
    let mut i = start;
    while i < ts.len()
        invariant
            start <= i <= ts@.len(),
            t == toks(ts@),
            parse_items_from(t, start as int) == match parse_items_from(t, i as int) {
                Some(rest) => Some(named_items(out@) + rest),
                None => None,
            },
        decreases ts@.len() - i,
    {
        let ghost before = named_items(out@);
        proof {
            assert(t[i as int] == ts@[i as int]@);
        }
        let brace = match &ts[i] {
            Token::LBrace => true,
            _ => false,
        };
        if brace {
            match parse_fn_def_tokens(ts, i) {
                None => {
                    return None;
                },
                Some((d, j)) => {
                    let item = ParsedItem::FnDef(d);
                    out.push(item);
                    proof {
                        assert(named_items(out@) =~= before.push(item@));
                        if let Some(rest) = parse_items_from(t, j as int) {
                            assert(before + (seq![item@] + rest) =~= named_items(out@) + rest);
                        }
                    }
                    i = j;
                },
            }
        } else {
            match parse_elems(ts, i) {
                None => {
                    return None;
                },
                Some((es, j)) => {
                    if j <= i {
                        return None;
                    }
                    if es.len() > 0 {
                        let item = ParsedItem::Expr(pack_resolved(es));
                        out.push(item);
                        proof {
                            assert(named_items(out@) =~= before.push(item@));
                            if let Some(rest) = parse_items_from(t, j as int) {
                                assert(before + (seq![item@] + rest) =~= named_items(out@) + rest);
                            }
                        }
                    }
                    i = j;
                },
            }
        }
    }
    proof {
        assert(named_items(out@) + Seq::<NamedItem>::empty() =~= named_items(out@));
    }
    Some(out)
}

/// Reads the tokens `ts` as a command.
fn parse_command_tokens(ts: &Vec<Token>) -> (r: Option<ParsedCommand>)
    ensures
        match r {
            Some(c) => parse_command_spec(toks(ts@)) == Some(c@),
            None => parse_command_spec(toks(ts@)) is None,
        },
{
    let ghost t = toks(ts@);
    if ts.len() > 0 {
        proof {
            assert(t[0] == ts@[0]@);
        }
        match &ts[0] {
            Token::Directive(d) => {
                if is_word(d, "trace") {
                    return match parse_expr_tokens(ts, 1) {
                        Some(e) => Some(ParsedCommand::Trace(e)),
                        None => None,
                    };
                }
                if is_word(d, "show") {
                    if ts.len() != 2 {
                        return None;
                    }
                    proof {
                        assert(t[1] == ts@[1]@);
                    }
                    return match &ts[1] {
                        Token::Word(w) => if is_reserved(w) {
                            None
                        } else {
                            Some(ParsedCommand::Show(w.clone()))
                        },
                        _ => None,
                    };
                }
                if ts.len() != 1 {
                    return None;
                }
                return if is_word(d, "list") {
                    Some(ParsedCommand::List)
                } else if is_word(d, "drop") {
                    Some(ParsedCommand::Drop)
                } else if is_word(d, "clear") {
                    Some(ParsedCommand::Clear)
                } else if is_word(d, "reset") {
                    Some(ParsedCommand::Reset)
                } else if is_word(d, "help") {
                    Some(ParsedCommand::Help)
                } else {
                    None
                };
            },
            _ => {},
        }
    }
    match parse_items_tokens(ts, 0) {
        Some(is) => Some(ParsedCommand::Eval(is)),
        None => None,
    }
}

/// Reads the values from token `start` on.
fn parse_values(ts: &Vec<Token>, start: usize) -> (r: Option<(Vec<ResolvedValue>, usize)>)
    requires
        start <= ts@.len(),
    ensures
        match r {
            Some((vs, j)) => parse_values_spec(toks(ts@), start as int) == Some(
                (all_named_values(vs@), j as int),
            ) && start <= j <= ts@.len(),
            None => parse_values_spec(toks(ts@), start as int) is None,
        },
{
    let ghost t = toks(ts@);
    let mut out: Vec<ResolvedValue> = Vec::new();
    let mut i = start;
    loop
        invariant
            start <= i <= ts@.len(),
            t == toks(ts@),
            parse_values_spec(t, start as int) == match parse_values_spec(t, i as int) {
                Some((rest, j)) => Some((all_named_values(out@) + rest, j)),
                None => None,
            },
        decreases ts@.len() - i,
    {
        let ghost before = all_named_values(out@);
        if i >= ts.len() {
            proof {
                assert(before + Seq::<NamedValue>::empty() =~= before);
            }
            return Some((out, i));
        }
        proof {
            assert(t[i as int] == ts@[i as int]@);
        }
        match &ts[i] {
            Token::Word(w) => {
                if is_reserved(w) {
                    return None;
                }
                let v = ResolvedValue::Call(w.clone());
                out.push(v);
                proof {
                    assert(all_named_values(out@) =~= before.push(v@));
                    if let Some((rest, j)) = parse_values_spec(t, i + 1) {
                        assert(before + (seq![v@] + rest) =~= all_named_values(out@) + rest);
                    }
                }
                i += 1;
            },
            Token::LBracket => {
                match parse_elems(ts, i + 1) {
                    None => {
                        return None;
                    },
                    Some((inner, j)) => {
                        if j >= ts.len() {
                            return None;
                        }
                        proof {
                            assert(t[j as int] == ts@[j as int]@);
                        }
                        match &ts[j] {
                            Token::RBracket => {},
                            _ => {
                                return None;
                            },
                        }
                        let v = ResolvedValue::Quote(Box::new(pack_resolved(inner)));
                        out.push(v);
                        proof {
                            assert(all_named_values(out@) =~= before.push(v@));
                            if let Some((rest, k)) = parse_values_spec(t, j + 1) {
                                assert(before + (seq![v@] + rest) =~= all_named_values(out@) + rest);
                            }
                        }
                        i = j + 1;
                    },
                }
            },
            _ => {
                proof {
                    assert(before + Seq::<NamedValue>::empty() =~= before);
                }
                return Some((out, i));
            },
        }
    }
}

/// Reads the stack that starts at token `i`.
fn parse_stack_tokens(ts: &Vec<Token>, i: usize) -> (r: Option<(ResolvedValueStack, usize)>)
    requires
        i <= ts@.len(),
    ensures
        match r {
            Some((vs, j)) => parse_stack_at(toks(ts@), i as int) == Some((vs@, j as int)) && i < j
                <= ts@.len(),
            None => parse_stack_at(toks(ts@), i as int) is None,
        },
{
    let ghost t = toks(ts@);
    if i >= ts.len() {
        return None;
    }
    proof {
        assert(t[i as int] == ts@[i as int]@);
    }
    match &ts[i] {
        Token::LAngle => {},
        _ => {
            return None;
        },
    }
    match parse_values(ts, i + 1) {
        None => None,
        Some((vs, j)) => {
            if j >= ts.len() {
                return None;
            }
            proof {
                assert(t[j as int] == ts@[j as int]@);
            }
            match &ts[j] {
                Token::RAngle => Some((ResolvedValueStack(vs), j + 1)),
                _ => None,
            }
        },
    }
}

/// Reads the state that starts at token `i`.
fn parse_state_tokens(ts: &Vec<Token>, i: usize) -> (r: Option<(ParsedState, usize)>)
    requires
        i <= ts@.len(),
    ensures
        match r {
            Some((st, j)) => parse_state_at(toks(ts@), i as int) == Some((st@, j as int)) && i < j
                <= ts@.len(),
            None => parse_state_at(toks(ts@), i as int) is None,
        },
{
    match parse_stack_tokens(ts, i) {
        None => None,
        Some((vs, j)) => match parse_elems(ts, j) {
            None => None,
            Some((es, k)) => Some((ParsedState(vs, pack_resolved(es)), k)),
        },
    }
}

/// Reads the tokens `ts` as an assertion whose arrow is `arrow`.
fn parse_assertion_tokens(ts: &Vec<Token>, arrow: &Token) -> (r: Option<(ParsedState, ParsedState)>)
    requires
        arrow@ is Step || arrow@ is BigStep,
    ensures
        match r {
            Some((a, b)) => parse_assertion_spec(toks(ts@), arrow@) == Some((a@, b@)),
            None => parse_assertion_spec(toks(ts@), arrow@) is None,
        },
{
    let ghost t = toks(ts@);
    match parse_state_tokens(ts, 0) {
        None => None,
        Some((before, j)) => {
            if j >= ts.len() {
                return None;
            }
            proof {
                assert(t[j as int] == ts@[j as int]@);
            }
            let found = match (&ts[j], arrow) {
                (Token::Step, Token::Step) => true,
                (Token::BigStep, Token::BigStep) => true,
                _ => false,
            };
            if !found {
                return None;
            }
            match parse_state_tokens(ts, j + 1) {
                None => None,
                Some((after, k)) => if k == ts.len() {
                    Some((before, after))
                } else {
                    None
                },
            }
        },
    }
}

/// Why a text could not be read.
#[derive(Debug, Clone, Copy, PartialEq, Eq, Structural)]
pub enum ParseError {
    /// A character belongs to no token.
    Lex,
    /// The tokens do not make up what was to be read.
    Syntax,
    /// The store cannot hold another name.
    Names,
}

/// What `parse` makes of the tokens of `s`.
pub open spec fn read_with<T>(s: Seq<char>, parse: spec_fn(Seq<Tok>) -> Option<T>) -> Result<
    T,
    ParseError,
> {
    match lex_spec(s) {
        None => Err(ParseError::Lex),
        Some(ts) => match parse(ts) {
            None => Err(ParseError::Syntax),
            Some(x) => Ok(x),
        },
    }
}

/// The expression that the text `s` is.
pub open spec fn read_expr_spec(s: Seq<char>) -> Result<Named, ParseError> {
    read_with(s, |ts: Seq<Tok>| parse_expr_spec(ts))
}

/// The definition that the text `s` is.
pub open spec fn read_fn_def_spec(s: Seq<char>) -> Result<NamedDef, ParseError> {
    read_with(s, |ts: Seq<Tok>| parse_fn_def_spec(ts))
}

/// The items that the text `s` is.
pub open spec fn read_items_spec(s: Seq<char>) -> Result<Seq<NamedItem>, ParseError> {
    read_with(s, |ts: Seq<Tok>| parse_items_spec(ts))
}

/// The command that the text `s` is.
pub open spec fn read_command_spec(s: Seq<char>) -> Result<NamedCommand, ParseError> {
    read_with(s, |ts: Seq<Tok>| parse_command_spec(ts))
}

/// The stack that the text `s` is.
pub open spec fn read_stack_spec(s: Seq<char>) -> Result<Seq<NamedValue>, ParseError> {
    read_with(s, |ts: Seq<Tok>| parse_stack_spec(ts))
}

/// The assertion that the text `s` is, with `arrow` between its states.
pub open spec fn read_assertion_spec(s: Seq<char>, arrow: Tok) -> Result<
    (NamedState, NamedState),
    ParseError,
> {
    read_with(s, |ts: Seq<Tok>| parse_assertion_spec(ts, arrow))
}

/// Reads `input` as an expression.
pub fn read_expr(input: &str) -> (r: Result<ResolvedExpr, ParseError>)
    ensures
        match read_expr_spec(input@) {
            Ok(n) => r is Ok && r->Ok_0@ == n,
            Err(e) => r == Err::<ResolvedExpr, ParseError>(e),
        },
{
    match lex(input) {
        None => Err(ParseError::Lex),
        Some(ts) => match parse_expr_tokens(&ts, 0) {
            Some(e) => Ok(e),
            None => Err(ParseError::Syntax),
        },
    }
}

/// Reads `input` as a definition.
pub fn read_fn_def(input: &str) -> (r: Result<ParsedFnDef, ParseError>)
    ensures
        match read_fn_def_spec(input@) {
            Ok(n) => r is Ok && r->Ok_0@ == n,
            Err(e) => r == Err::<ParsedFnDef, ParseError>(e),
        },
{
    match lex(input) {
        None => Err(ParseError::Lex),
        Some(ts) => match parse_fn_def_tokens(&ts, 0) {
            Some((d, j)) => if j == ts.len() {
                Ok(d)
            } else {
                Err(ParseError::Syntax)
            },
            None => Err(ParseError::Syntax),
        },
    }
}

/// Reads `input` as the items of an evaluation.
pub fn read_items(input: &str) -> (r: Result<Vec<ParsedItem>, ParseError>)
    ensures
        match read_items_spec(input@) {
            Ok(n) => r is Ok && named_items(r->Ok_0@) == n,
            Err(e) => r == Err::<Vec<ParsedItem>, ParseError>(e),
        },
{
    match lex(input) {
        None => Err(ParseError::Lex),
        Some(ts) => match parse_items_tokens(&ts, 0) {
            Some(is) => Ok(is),
            None => Err(ParseError::Syntax),
        },
    }
}

/// Reads `input` as a command.
pub fn read_command(input: &str) -> (r: Result<ParsedCommand, ParseError>)
    ensures
        match read_command_spec(input@) {
            Ok(n) => r is Ok && r->Ok_0@ == n,
            Err(e) => r == Err::<ParsedCommand, ParseError>(e),
        },
{
    match lex(input) {
        None => Err(ParseError::Lex),
        Some(ts) => match parse_command_tokens(&ts) {
            Some(c) => Ok(c),
            None => Err(ParseError::Syntax),
        },
    }
}

/// Reads `input` as a stack.
pub fn read_stack(input: &str) -> (r: Result<ResolvedValueStack, ParseError>)
    ensures
        match read_stack_spec(input@) {
            Ok(n) => r is Ok && r->Ok_0@ == n,
            Err(e) => r == Err::<ResolvedValueStack, ParseError>(e),
        },
{
    match lex(input) {
        None => Err(ParseError::Lex),
        Some(ts) => match parse_stack_tokens(&ts, 0) {
            Some((vs, j)) => if j == ts.len() {
                Ok(vs)
            } else {
                Err(ParseError::Syntax)
            },
            None => Err(ParseError::Syntax),
        },
    }
}

/// Reads `input` as an assertion about one step (`big` is false: the arrow
/// is `⟶`) or about a whole reduction (`big` is true: the arrow is `⇓`).
pub fn read_assertion(input: &str, big: bool) -> (r: Result<(ParsedState, ParsedState), ParseError>)
    ensures
        match read_assertion_spec(input@, if big { Tok::BigStep } else { Tok::Step }) {
            Ok(n) => r is Ok && r->Ok_0.0@ == n.0 && r->Ok_0.1@ == n.1,
            Err(e) => r == Err::<(ParsedState, ParsedState), ParseError>(e),
        },
{
    let arrow = if big {
        Token::BigStep
    } else {
        Token::Step
    };
    match lex(input) {
        None => Err(ParseError::Lex),
        Some(ts) => match parse_assertion_tokens(&ts, &arrow) {
            Some(pair) => Ok(pair),
            None => Err(ParseError::Syntax),
        },
    }
}

} // verus!
