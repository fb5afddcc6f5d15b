//! The resumable driver: a session that takes a command and then does one
//! unit of work at a time, so that the caller is never held by a program
//! that does not end.

use crate::builtin::{bootstrap, lemma_known_store_grows};
use crate::canon::compress_stack;
use crate::command::{
    event_text, events_text, flat_command, flat_item, items, known_command, known_item,
    lemma_events_text_push,
    parse_error_text, state_line, Command, Event, InterpCommand, InterpItem, Item, Marker, HELP,
};
use crate::display::{join_words, known_datum, known_stack};
use crate::eval::step;
use crate::intern::{
    add_names, extends, lemma_spells_command_flat, lemma_spells_command_known,
    lemma_spells_lower_command, lower_command, taken, words_of_command,
};
use crate::laws::{
    flat_defs, flat_stack, known_store, lemma_compress_flat, lemma_compress_known,
    lemma_define_flat, lemma_define_known, lemma_known_grows, lemma_step_flat, lemma_step_known,
};
use crate::listing::{join_names, listing};
use crate::parse::{lemma_read_command_flat, read_command_spec, ParseError};
use crate::store::{define, max_names, Context, Store};
use crate::term::{done, Datum, Expr, Term, ValueStack};
use vstd::prelude::*;
use vstd::string::StringExecFns;

verus! {

/// The mathematical value of a session.
pub struct Machine {
    /// The definitions and names.
    pub store: Store,
    /// The value stack.
    pub stack: Seq<Datum>,
    /// The command that is being worked on, if any.
    pub command: Option<Command>,
    /// Whether the next expression of an evaluation has not been shown yet.
    pub first: bool,
}

impl Machine {
    /// The names of a session are sound, it holds only symbols it has a name
    /// for, all its expressions are in flattened normal form, and the command
    /// it works on is an evaluation or a trace.
    pub open spec fn wf(self) -> bool {
        &&& known_store(self.store)
        &&& self.store.sound()
        &&& known_stack(self.store.names, self.stack)
        &&& flat_defs(self.store.defs)
        &&& flat_stack(self.stack)
        &&& match self.command {
            None => true,
            Some(c) => (c is Eval || c is Trace) && known_command(self.store.names, c)
                && flat_command(c),
        }
    }

    /// This machine with no command to work on.
    pub open spec fn idle(self) -> Machine {
        Machine { command: None, ..self }
    }
}

/// The session that starts from `store`: nothing on the stack, no command.
pub open spec fn fresh(store: Store) -> Machine {
    Machine { store, stack: Seq::empty(), command: None, first: true }
}

/// The machine `m` with the names `names`.
pub open spec fn with_names(m: Machine, names: Seq<Seq<char>>) -> Machine {
    Machine { store: Store { names, ..m.store }, ..m }
}

/// What taking up the command `c` makes of the machine and what it puts
/// out, for every command but the list of names and the reset. An
/// evaluation and a trace are staged; the others are done at once.
pub open spec fn begin(m: Machine, c: Command) -> (Machine, Seq<Event>) {
    match c {
        Command::Eval(_) => (Machine { command: Some(c), first: true, ..m }, Seq::empty()),
        Command::Trace(e) => (
            Machine { command: Some(c), ..m },
            seq![Event::State(Marker::Start, m.stack, e)],
        ),
        Command::Show(sym) => (
            m,
            seq![
                if m.store.defs.contains_key(sym) {
                    Event::Definition(sym, m.store.defs[sym])
                } else {
                    Event::NotDefined
                },
            ],
        ),
        Command::Drop => (Machine { stack: Seq::empty(), ..m }, seq![Event::ValuesDropped]),
        Command::Clear => (
            Machine { store: Store { defs: Map::empty(), ..m.store }, ..m },
            seq![Event::DefinitionsCleared],
        ),
        Command::Help => (m, seq![Event::Help]),
        _ => (m, Seq::empty()),
    }
}

/// Whether taking up the command `c` leads from `m` to `after` and puts out
/// `out`. The list of names is the defined names, each once, in order, on
/// one line. A reset leads to the session as it starts, with the
/// definitions every session starts with.
pub open spec fn started(m: Machine, c: Command, after: Machine, out: Seq<char>) -> bool {
    match c {
        Command::List => after == m && exists|words: Seq<Seq<char>>|
            listing(m.store, words) && out == join_words(words) + "\n"@,
        Command::Reset => after == fresh(bootstrap()) && out == "Reset.\n"@,
        _ => after == begin(m, c).0 && out == events_text(m.store.names, begin(m, c).1),
    }
}

/// A stack whose symbols all have a name still has when names are added.
pub proof fn lemma_known_stack_grows(names: Seq<Seq<char>>, more: Seq<Seq<char>>, stack: Seq<Datum>)
    requires
        known_stack(names, stack),
        names.len() <= more.len(),
    ensures
        known_stack(more, stack),
{
    assert forall|i: int| 0 <= i < stack.len() implies known_datum(more, #[trigger] stack[i]) by {
        assert(known_datum(names, stack[i]));
        if let Datum::Quote(t) = stack[i] {
            lemma_known_grows(names, more, t);
        }
    }
}

/// A command whose symbols all have a name still has when names are added.
pub proof fn lemma_known_command_grows(names: Seq<Seq<char>>, more: Seq<Seq<char>>, c: Command)
    requires
        known_command(names, c),
        names.len() <= more.len(),
    ensures
        known_command(more, c),
{
    match c {
        Command::Eval(is) => {
            assert forall|i: int| 0 <= i < is.len() implies known_item(more, #[trigger] is[i]) by {
                assert(known_item(names, is[i]));
                match is[i] {
                    Item::FnDef(sym, body) => {
                        lemma_known_grows(names, more, body);
                    },
                    Item::Expr(e) => {
                        lemma_known_grows(names, more, e);
                    },
                }
            }
        },
        Command::Trace(e) => {
            lemma_known_grows(names, more, e);
        },
        _ => {},
    }
}

/// A session that holds only symbols it has a name for still does when
/// names are added.
pub proof fn lemma_wf_grows(m: Machine, more: Seq<Seq<char>>)
    requires
        m.wf(),
        extends(more, m.store.names),
        with_names(m, more).store.sound(),
    ensures
        with_names(m, more).wf(),
{
    lemma_known_store_grows(m.store, more);
    lemma_known_stack_grows(m.store.names, more, m.stack);
    if let Some(c) = m.command {
        lemma_known_command_grows(m.store.names, more, c);
    }
}

/// One unit of work on an evaluation whose items are `is`.
pub open spec fn advance_eval(m: Machine, is: Seq<Item>) -> (Machine, Seq<Event>) {
    if is.len() == 0 {
        (m.idle(), Seq::empty())
    } else {
        let rest = Some(Command::Eval(is.drop_first()));
        match is[0] {
            Item::FnDef(sym, body) => (
                Machine { store: define(m.store, sym, body), command: rest, ..m },
                seq![
                    if m.store.defs.contains_key(sym) {
                        Event::Redefined(sym)
                    } else {
                        Event::Defined(sym)
                    },
                ],
            ),
            Item::Expr(e) => {
                let shown = if m.first {
                    seq![Event::State(Marker::Start, m.stack, e)]
                } else {
                    Seq::empty()
                };
                if e == done() {
                    (
                        Machine { command: rest, first: true, ..m },
                        shown.push(Event::State(Marker::Final, m.stack, e)),
                    )
                } else {
                    match step(m.store.defs, m.stack, e) {
                        Err(err) => (
                            m.idle(),
                            shown.push(Event::State(Marker::Final, m.stack, e)).push(
                                Event::Failed(err),
                            ),
                        ),
                        Ok((s, t)) => (
                            Machine {
                                stack: compress_stack(m.store.index, s),
                                command: Some(Command::Eval(is.update(0, Item::Expr(t)))),
                                first: false,
                                ..m
                            },
                            shown,
                        ),
                    }
                }
            },
        }
    }
}

/// One unit of work on the trace of `e`.
pub open spec fn advance_trace(m: Machine, e: Term) -> (Machine, Seq<Event>) {
    if e == done() {
        (m.idle(), Seq::empty())
    } else {
        match step(m.store.defs, m.stack, e) {
            Err(err) => (m.idle(), seq![Event::Failed(err)]),
            Ok((s, t)) => {
                let folded = compress_stack(m.store.index, s);
                (
                    Machine { stack: folded, command: Some(Command::Trace(t)), ..m },
                    if folded != s {
                        seq![Event::State(Marker::Step, s, t), Event::State(Marker::Folded, folded, t)]
                    } else {
                        seq![Event::State(Marker::Step, s, t)]
                    },
                )
            },
        }
    }
}

/// One unit of work: the machine after it and what was put out. An
/// evaluation installs one definition, or takes one step of its current
/// expression and canonicalizes the stack, or finds that expression reduced
/// and goes on to the next item. A trace takes one step and shows it. A step
/// that fails ends the command; what is left of it is dropped.
pub open spec fn advance(m: Machine) -> (Machine, Seq<Event>) {
    match m.command {
        Some(Command::Eval(is)) => advance_eval(m, is),
        Some(Command::Trace(e)) => advance_trace(m, e),
        _ => (m, Seq::empty()),
    }
}

/// A session that is worked one step at a time.
pub struct NonBlockingInterp {
    ctx: Context,
    vs: ValueStack,
    command: Option<InterpCommand>,
    is_first_eval_step: bool,
}

impl View for NonBlockingInterp {
    type V = Machine;

    closed spec fn view(&self) -> Machine {
        Machine {
            store: self.ctx@,
            stack: self.vs@,
            command: match self.command {
                Some(c) => Some(c@),
                None => None,
            },
            first: self.is_first_eval_step,
        }
    }
}

impl Default for NonBlockingInterp {
    /// The session as it starts: with the definitions every session starts
    /// with, nothing on the stack and no command.
    fn default() -> (r: Self)
        ensures
            r@ == fresh(bootstrap()),
            r@.wf(),
    {
        NonBlockingInterp {
            ctx: Context::with_builtins(),
            vs: ValueStack::default(),
            command: None,
            is_first_eval_step: true,
        }
    }
}

impl NonBlockingInterp {
    /// Takes up `command`. An evaluation or a trace is staged, to be worked
    /// on step by step; any other command is done at once. Returns what is
    /// put out.
    pub fn start(&mut self, command: InterpCommand) -> (out: String)
        requires
            old(self)@.wf(),
            known_command(old(self)@.store.names, command@),
            flat_command(command@),
        ensures
            started(old(self)@, command@, final(self)@, out@),
            final(self)@.wf(),
    {
        let ghost m = self@;
        let ghost names = m.store.names;
        let ghost ev = begin(m, command@).1;
        proof {
            if ev.len() == 1 {
                lemma_events_text_push(names, Seq::empty(), ev[0]);
                assert(Seq::<Event>::empty().push(ev[0]) =~= ev);
                assert(events_text(names, ev) =~= event_text(names, ev[0]));
            }
        }
        match command {
            InterpCommand::Eval(is) => {
                self.is_first_eval_step = true;
                self.command = Some(InterpCommand::Eval(is));
                String::new()
            },
            InterpCommand::Trace(e) => {
                let out = state_line(&self.ctx, "", &self.vs, &e);
                self.command = Some(InterpCommand::Trace(e));
                out
            },
            InterpCommand::Show(sym) => {
                match self.ctx.lookup(sym) {
                    Some(body) => {
                        let mut out = String::from_str("{fn ");
                        out.append(sym.resolve(&self.ctx).as_str());
                        out.append(" = ");
                        out.append(body.resolve(&self.ctx).to_string().as_str());
                        out.append("}\n");
                        out
                    },
                    None => String::from_str("Not defined.\n"),
                }
            },
            InterpCommand::List => {
                let names = self.ctx.list_names();
                let mut out = join_names(&names);
                out.append("\n");
                out
            },
            InterpCommand::Drop => {
                self.vs = ValueStack::default();
                String::from_str("Values dropped.\n")
            },
            InterpCommand::Clear => {
                self.ctx.clear();
                proof {
                    assert(self@.store =~= Store { defs: Map::empty(), ..m.store });
                }
                String::from_str("Definitions cleared.\n")
            },
            InterpCommand::Reset => {
                *self = NonBlockingInterp::default();
                String::from_str("Reset.\n")
            },
            InterpCommand::Help => String::from_str(HELP),
        }
    }

    /// Reads `input` as a command of this session, interning the names that
    /// are new. A text that is a command is refused, with
    /// `ParseError::Names`, exactly where its names would make the names of
    /// the session more than there are handles.
    pub fn read(&mut self, input: &str) -> (r: Result<InterpCommand, ParseError>)
        requires
            old(self)@.wf(),
        ensures
            final(self)@.wf(),
            final(self)@ == with_names(old(self)@, final(self)@.store.names),
            extends(final(self)@.store.names, old(self)@.store.names),
            match read_command_spec(input@) {
                Err(e) => r == Err::<InterpCommand, ParseError>(e) && final(self)@ == old(self)@,
                Ok(n) => {
                    let names = add_names(old(self)@.store.names, words_of_command(n));
                    match r {
                        Ok(c) => names.len() <= max_names() && final(self)@.store.names == names
                            && c@ == lower_command(names, n) && known_command(names, c@)
                            && flat_command(c@),
                        Err(e) => e == ParseError::Names && names.len() > max_names()
                            && final(self)@.store.names == taken(
                            old(self)@.store.names,
                            old(self)@.store.limit,
                            words_of_command(n),
                        ),
                    }
                },
            },
    {
        let ghost m = self@;
        let r = self.ctx.parse_command(input);
        proof {
            lemma_wf_grows(m, self@.store.names);
            assert(self@ == with_names(m, self@.store.names));
            if r is Ok {
                let n = read_command_spec(input@)->Ok_0;
                lemma_spells_command_known(self@.store.names, r->Ok_0@, n);
                lemma_spells_lower_command(self@.store.names, r->Ok_0@, n);
                lemma_read_command_flat(input@);
                lemma_spells_command_flat(self@.store.names, r->Ok_0@, n);
            }
        }
        r
    }

    /// Reads `input` as a command and takes it up. Returns what is put out:
    /// for a text that is no command, the line that says why. A command is
    /// refused, with the line `Too many names.`, exactly where its names
    /// would make the names of the session more than there are handles; the
    /// names that were taken before the one that found no room stay.
    pub fn interp_start(&mut self, input: &str) -> (out: String)
        requires
            old(self)@.wf(),
        ensures
            final(self)@.wf(),
            match read_command_spec(input@) {
                Err(e) => final(self)@ == old(self)@ && out@ == parse_error_text(e),
                Ok(n) => {
                    let names = add_names(old(self)@.store.names, words_of_command(n));
                    if names.len() <= max_names() {
                        started(
                            with_names(old(self)@, names),
                            lower_command(names, n),
                            final(self)@,
                            out@,
                        )
                    } else {
                        &&& final(self)@ == with_names(
                            old(self)@,
                            taken(
                                old(self)@.store.names,
                                old(self)@.store.limit,
                                words_of_command(n),
                            ),
                        )
                        &&& out@ == parse_error_text(ParseError::Names)
                    }
                },
            },
    {
        match self.read(input) {
            Err(e) => e.describe(),
            Ok(command) => self.start(command),
        }
    }

    /// Whether no command is being worked on.
    pub fn is_done(&self) -> (r: bool)
        ensures
            r == (self@.command is None),
    {
        self.command.is_none()
    }

    /// Does one unit of work on the command that is being worked on and
    /// returns what it puts out.
    pub fn interp_step(&mut self) -> (out: String)
        requires
            old(self)@.wf(),
            old(self)@.command is Some,
        ensures
            final(self)@ == advance(old(self)@).0,
            out@ == events_text(old(self)@.store.names, advance(old(self)@).1),
            final(self)@.wf(),
    {
        let ghost m = self@;
        let ghost names = m.store.names;
        let mut command: Option<InterpCommand> = None;
        core::mem::swap(&mut self.command, &mut command);
        match command {
            Some(InterpCommand::Eval(is)) => {
                let mut is = is;
                let ghost all = items(is@);
                if is.len() == 0 {
                    return String::new();
                }
                let item = is.remove(0);
                proof {
                    assert(items(is@) =~= all.drop_first());
                    assert(item@ == all[0]);
                    assert(known_item(names, all[0]));
                    assert(flat_item(all[0]));
                    assert forall|i: int| 0 <= i < items(is@).len() implies known_item(
                        names,
                        #[trigger] items(is@)[i],
                    ) && flat_item(items(is@)[i]) by {
                        assert(items(is@)[i] == all[i + 1]);
                    }
                }
                match item {
                    InterpItem::FnDef(fn_def) => {
                        let ghost sym = fn_def.0;
                        let name = fn_def.0.resolve(&self.ctx);
                        let prev = self.ctx.define_fn(fn_def);
                        let mut out = match prev {
                            Some(_) => String::from_str("Redefined `"),
                            None => String::from_str("Defined `"),
                        };
                        out.append(name.as_str());
                        out.append("`.\n");
                        self.command = Some(InterpCommand::Eval(is));
                        proof {
                            lemma_define_known(m.store, sym, all[0]->FnDef_1);
                            lemma_define_flat(m.store, sym, all[0]->FnDef_1);
                            let ev = advance(m).1;
                            assert(ev.len() == 1);
                            lemma_events_text_push(names, Seq::empty(), ev[0]);
                            assert(Seq::<Event>::empty().push(ev[0]) =~= ev);
                            assert(out@ =~= event_text(names, ev[0]));
                        }
                        out
                    },
                    InterpItem::Expr(e) => {
                        let mut e = e;
                        let ghost before = e@;
                        let mut out = String::new();
                        let ghost shown: Seq<Event> = if m.first {
                            seq![Event::State(Marker::Start, m.stack, before)]
                        } else {
                            Seq::empty()
                        };
                        if self.is_first_eval_step {
                            out.append(state_line(&self.ctx, "", &self.vs, &e).as_str());
                            proof {
                                lemma_events_text_push(names, Seq::empty(), shown[0]);
                                assert(Seq::<Event>::empty().push(shown[0]) =~= shown);
                                assert(out@ =~= events_text(names, shown));
                            }
                        }
                        assert(out@ == events_text(names, shown));
                        if !e.is_done() {
                            proof {
                                lemma_step_known(names, m.store.defs, m.stack, before);
                                lemma_step_flat(m.store.defs, m.stack, before);
                            }
                            match self.ctx.small_step(&mut self.vs, &mut e) {
                                Err(err) => {
                                    out.append(state_line(&self.ctx, "⇓ ", &self.vs, &e).as_str());
                                    out.append(err.describe(&self.ctx).as_str());
                                    out.append("\n");
                                    proof {
                                        let last = Event::State(Marker::Final, m.stack, before);
                                        lemma_events_text_push(names, shown, last);
                                        lemma_events_text_push(
                                            names,
                                            shown.push(last),
                                            Event::Failed(err),
                                        );
                                        assert(out@ =~= events_text(
                                            names,
                                            shown.push(last).push(Event::Failed(err)),
                                        ));
                                    }
                                    out
                                },
                                Ok(()) => {
                                    proof {
                                        lemma_compress_known(names, m.store.index, self.vs@);
                                        lemma_compress_flat(m.store.index, self.vs@);
                                    }
                                    self.ctx.compress(&mut self.vs);
                                    let ghost after = e@;
                                    let ghost rest = is@;
                                    is.insert(0, InterpItem::Expr(e));
                                    self.is_first_eval_step = false;
                                    proof {
                                        assert(items(is@) =~= all.update(0, Item::Expr(after)));
                                        assert forall|i: int| 0 <= i < items(is@).len() implies known_item(
                                            names,
                                            #[trigger] items(is@)[i],
                                        ) && flat_item(items(is@)[i]) by {
                                            if i > 0 {
                                                assert(items(is@)[i] == all[i]);
                                            }
                                        }
                                    }
                                    self.command = Some(InterpCommand::Eval(is));
                                    out
                                },
                            }
                        } else {
                            out.append(state_line(&self.ctx, "⇓ ", &self.vs, &e).as_str());
                            self.is_first_eval_step = true;
                            self.command = Some(InterpCommand::Eval(is));
                            proof {
                                let last = Event::State(Marker::Final, m.stack, before);
                                lemma_events_text_push(names, shown, last);
                                assert(out@ =~= events_text(names, shown.push(last)));
                            }
                            out
                        }
                    },
                }
            },
            Some(InterpCommand::Trace(e)) => {
                let mut e = e;
                let ghost before = e@;
                if e.is_done() {
                    return String::new();
                }
                proof {
                    lemma_step_known(names, m.store.defs, m.stack, before);
                    lemma_step_flat(m.store.defs, m.stack, before);
                }
                match self.ctx.small_step(&mut self.vs, &mut e) {
                    Err(err) => {
                        let mut out = err.describe(&self.ctx);
                        out.append("\n");
                        proof {
                            lemma_events_text_push(names, Seq::empty(), Event::Failed(err));
                            assert(Seq::<Event>::empty().push(Event::Failed(err)) =~= seq![
                                Event::Failed(err),
                            ]);
                            assert(out@ =~= event_text(names, Event::Failed(err)));
                        }
                        out
                    },
                    Ok(()) => {
                        let ghost stepped = self.vs@;
                        let ghost first = Event::State(Marker::Step, stepped, e@);
                        let mut out = state_line(&self.ctx, "⟶ ", &self.vs, &e);
                        proof {
                            lemma_compress_known(names, m.store.index, stepped);
                            lemma_compress_flat(m.store.index, stepped);
                            lemma_events_text_push(names, Seq::empty(), first);
                            assert(Seq::<Event>::empty().push(first) =~= seq![first]);
                            assert(out@ =~= events_text(names, seq![first]));
                        }
                        if self.ctx.compress(&mut self.vs) {
                            out.append(state_line(&self.ctx, "= ", &self.vs, &e).as_str());
                            proof {
                                let second = Event::State(Marker::Folded, self.vs@, e@);
                                lemma_events_text_push(names, seq![first], second);
                                assert(seq![first].push(second) =~= seq![first, second]);
                            }
                        }
                        self.command = Some(InterpCommand::Trace(e));
                        out
                    },
                }
            },
            _ => String::new(),
        }
    }
}

} // verus!
