//! Commands of a session, the lines a session puts out, and their text.

use crate::display::{
    error_text, expr_text, known, known_stack, named_stack, named_term, stack_text,
};
use crate::laws::flat;
use crate::parse::ParseError;
use crate::store::{Context, FnDef};
use crate::term::{Datum, EvalError, Expr, Symbol, Term, ValueStack};
use vstd::prelude::*;
use vstd::string::StringExecFns;

verus! {

/// One item of an evaluation: a definition to install or an expression to
/// reduce.
#[derive(Debug, PartialEq, Eq)]
pub enum InterpItem {
    FnDef(FnDef),
    Expr(Expr),
}

/// The mathematical value of an [`InterpItem`].
pub enum Item {
    FnDef(Symbol, Term),
    Expr(Term),
}

impl View for InterpItem {
    type V = Item;

    open spec fn view(&self) -> Item {
        match self {
            InterpItem::FnDef(d) => Item::FnDef(d.0, d.1@),
            InterpItem::Expr(e) => Item::Expr(e@),
        }
    }
}

impl Clone for InterpItem {
    /// A structural copy.
    fn clone(&self) -> (r: Self)
        ensures
            r@ == self@,
    {
        match self {
            InterpItem::FnDef(d) => InterpItem::FnDef(d.clone()),
            InterpItem::Expr(e) => InterpItem::Expr(e.clone()),
        }
    }
}

/// The views of a sequence of items, element by element.
pub open spec fn items(is: Seq<InterpItem>) -> Seq<Item> {
    is.map_values(|i: InterpItem| i@)
}

/// A command of a session.
#[derive(Debug, PartialEq, Eq)]
pub enum InterpCommand {
    Eval(Vec<InterpItem>),
    Trace(Expr),
    Show(Symbol),
    List,
    Drop,
    Clear,
    Reset,
    Help,
}

/// The mathematical value of an [`InterpCommand`].
pub enum Command {
    Eval(Seq<Item>),
    Trace(Term),
    Show(Symbol),
    List,
    Drop,
    Clear,
    Reset,
    Help,
}

impl View for InterpCommand {
    type V = Command;

    open spec fn view(&self) -> Command {
        match self {
            InterpCommand::Eval(is) => Command::Eval(items(is@)),
            InterpCommand::Trace(e) => Command::Trace(e@),
            InterpCommand::Show(sym) => Command::Show(*sym),
            InterpCommand::List => Command::List,
            InterpCommand::Drop => Command::Drop,
            InterpCommand::Clear => Command::Clear,
            InterpCommand::Reset => Command::Reset,
            InterpCommand::Help => Command::Help,
        }
    }
}

impl Clone for InterpCommand {
    /// A structural copy.
    fn clone(&self) -> (r: Self)
        ensures
            r@ == self@,
    {
        match self {
            InterpCommand::Eval(is) => {
                let mut out: Vec<InterpItem> = Vec::new();
                let mut i: usize = 0;
                while i < is.len()
                    invariant
                        i <= is.len(),
                        out@.len() == i,
                        forall|j: int| 0 <= j < i ==> (#[trigger] out@[j])@ == is@[j]@,
                    decreases is.len() - i,
                {
                    out.push(is[i].clone());
                    i += 1;
                }
                assert(items(out@) =~= items(is@));
                InterpCommand::Eval(out)
            },
            InterpCommand::Trace(e) => InterpCommand::Trace(e.clone()),
            InterpCommand::Show(sym) => InterpCommand::Show(*sym),
            InterpCommand::List => InterpCommand::List,
            InterpCommand::Drop => InterpCommand::Drop,
            InterpCommand::Clear => InterpCommand::Clear,
            InterpCommand::Reset => InterpCommand::Reset,
            InterpCommand::Help => InterpCommand::Help,
        }
    }
}

/// Whether every symbol of `item` has a name in `names`.
pub open spec fn known_item(names: Seq<Seq<char>>, item: Item) -> bool {
    match item {
        Item::FnDef(sym, body) => sym.0 < names.len() && known(names, body),
        Item::Expr(e) => known(names, e),
    }
}

/// Whether every symbol of `command` has a name in `names`.
pub open spec fn known_command(names: Seq<Seq<char>>, command: Command) -> bool {
    match command {
        Command::Eval(is) => forall|i: int| 0 <= i < is.len() ==> known_item(names, #[trigger] is[i]),
        Command::Trace(e) => known(names, e),
        Command::Show(sym) => sym.0 < names.len(),
        _ => true,
    }
}

/// Whether the expressions of `item` are in flattened normal form.
pub open spec fn flat_item(item: Item) -> bool {
    match item {
        Item::FnDef(_, body) => flat(body),
        Item::Expr(e) => flat(e),
    }
}

/// Whether the expressions of `command` are in flattened normal form.
pub open spec fn flat_command(command: Command) -> bool {
    match command {
        Command::Eval(is) => forall|i: int| 0 <= i < is.len() ==> flat_item(#[trigger] is[i]),
        Command::Trace(e) => flat(e),
        _ => true,
    }
}

/// What a line that shows the state of the machine says of it.
pub enum Marker {
    /// The state before the first step.
    Start,
    /// The state a reduction ended in.
    Final,
    /// The state after one step.
    Step,
    /// The state after one step, canonicalized.
    Folded,
}

/// One thing a session puts out.
pub enum Event {
    /// The stack and the continuation.
    State(Marker, Seq<Datum>, Term),
    /// A name was defined that had no definition.
    Defined(Symbol),
    /// A name was defined that had a definition.
    Redefined(Symbol),
    /// A step failed.
    Failed(EvalError),
    /// The definition of a name.
    Definition(Symbol, Term),
    /// The name asked for has no definition.
    NotDefined,
    /// The stack was emptied.
    ValuesDropped,
    /// The definitions were forgotten.
    DefinitionsCleared,
    /// The session was reset.
    WasReset,
    /// The list of commands.
    Help,
    /// The text of a command could not be read.
    Unreadable(ParseError),
}

/// The list of commands.
pub const HELP: &'static str = "\
Commands available:

   <expr>                   evaluate <expr>
   {fn <sym> = <expr>}      define <sym> as <expr>
   :trace <expr>            trace the evaluation of <expr>
   :show <sym>              show the definition of <sym>
   :list                    list the defined symbols
   :drop                    drop the current value stack
   :clear                   clear all definitions
   :reset                   reset the interpreter
   :help                    display this list of commands
";

/// The text that goes in front of a line that shows the state.
pub open spec fn marker_text(marker: Marker) -> Seq<char> {
    match marker {
        Marker::Start => ""@,
        Marker::Final => "⇓ "@,
        Marker::Step => "⟶ "@,
        Marker::Folded => "= "@,
    }
}

/// The line that shows the stack and the continuation.
pub open spec fn state_text(names: Seq<Seq<char>>, marker: Marker, stack: Seq<Datum>, e: Term) -> Seq<
    char,
> {
    marker_text(marker) + stack_text(named_stack(names, stack)) + " "@ + expr_text(
        named_term(names, e),
    ) + "\n"@
}

/// The text of one event, with symbols written as their names in `names`.
pub open spec fn event_text(names: Seq<Seq<char>>, event: Event) -> Seq<char> {
    match event {
        Event::State(marker, stack, e) => state_text(names, marker, stack, e),
        Event::Defined(sym) => "Defined `"@ + names[sym.0 as int] + "`.\n"@,
        Event::Redefined(sym) => "Redefined `"@ + names[sym.0 as int] + "`.\n"@,
        Event::Failed(err) => error_text(names, err) + "\n"@,
        Event::Definition(sym, body) => "{fn "@ + names[sym.0 as int] + " = "@ + expr_text(
            named_term(names, body),
        ) + "}\n"@,
        Event::NotDefined => "Not defined.\n"@,
        Event::ValuesDropped => "Values dropped.\n"@,
        Event::DefinitionsCleared => "Definitions cleared.\n"@,
        Event::WasReset => "Reset.\n"@,
        Event::Help => HELP@,
        Event::Unreadable(err) => parse_error_text(err),
    }
}

/// The line that says why a text could not be read.
pub open spec fn parse_error_text(err: ParseError) -> Seq<char> {
    match err {
        ParseError::Lex => "Unrecognized character.\n"@,
        ParseError::Syntax => "Syntax error.\n"@,
        ParseError::Names => "Too many names.\n"@,
    }
}

impl ParseError {
    /// The line that says why a text could not be read.
    pub fn describe(&self) -> (r: String)
        ensures
            r@ == parse_error_text(*self),
    {
        match self {
            ParseError::Lex => String::from_str("Unrecognized character.\n"),
            ParseError::Syntax => String::from_str("Syntax error.\n"),
            ParseError::Names => String::from_str("Too many names.\n"),
        }
    }
}

/// The text of a sequence of events, one after the other.
pub open spec fn events_text(names: Seq<Seq<char>>, events: Seq<Event>) -> Seq<char>
    decreases events.len(),
{
    if events.len() == 0 {
        Seq::empty()
    } else {
        events_text(names, events.drop_last()) + event_text(names, events.last())
    }
}

/// The text of events that follow one another is the texts, one after the
/// other.
pub proof fn lemma_events_text_push(names: Seq<Seq<char>>, events: Seq<Event>, event: Event)
    ensures
        events_text(names, events.push(event)) == events_text(names, events) + event_text(
            names,
            event,
        ),
{
    assert(events.push(event).drop_last() =~= events);
}

/// The line that shows `vs` and `e`, after `marker`.
pub fn state_line(ctx: &Context, marker: &str, vs: &ValueStack, e: &Expr) -> (r: String)
    requires
        known_stack(ctx@.names, vs@),
        known(ctx@.names, e@),
    ensures
        r@ == marker@ + stack_text(named_stack(ctx@.names, vs@)) + " "@ + expr_text(
            named_term(ctx@.names, e@),
        ) + "\n"@,
{
    let mut out = String::from_str(marker);
    out.append(vs.resolve(ctx).to_string().as_str());
    out.append(" ");
    out.append(e.resolve(ctx).to_string().as_str());
    out.append("\n");
    out
}

} // verus!
