//! The batch driver: a session that takes a command and works on it until it
//! is done or a given number of steps has been taken.

use crate::builtin::bootstrap;
use crate::command::{events_text, parse_error_text, Command, Event};
use crate::intern::{add_names, lower_command, taken, words_of_command};
use crate::non_blocking_interp::{
    advance, fresh, started, with_names, Machine, NonBlockingInterp,
};
use crate::parse::{read_command_spec, ParseError};
use crate::store::max_names;
use vstd::prelude::*;
use vstd::string::StringExecFns;

verus! {

/// At most `n` units of work, one after the other, until no command is
/// left: the machine after them and what was put out.
pub open spec fn drain(m: Machine, n: nat) -> (Machine, Seq<Event>)
    decreases n,
{
    if n == 0 || m.command is None {
        (m, Seq::empty())
    } else {
        let (next, events) = advance(m);
        let (last, rest) = drain(next, (n - 1) as nat);
        (last, events + rest)
    }
}

/// Whether taking up the command `c` and then working on it for at most
/// `limit` steps leads from `m` to `after` and puts out `out`.
pub open spec fn ran(m: Machine, c: Command, limit: nat, after: Machine, out: Seq<char>) -> bool {
    exists|mid: Machine, first: Seq<char>|
        #![trigger started(m, c, mid, first)]
        {
            &&& started(m, c, mid, first)
            &&& after == drain(mid, limit).0
            &&& out == first + events_text(mid.store.names, drain(mid, limit).1)
        }
}

/// The text of events that follow one another is the texts, one after the
/// other.
pub proof fn lemma_events_text_add(names: Seq<Seq<char>>, a: Seq<Event>, b: Seq<Event>)
    ensures
        events_text(names, a + b) == events_text(names, a) + events_text(names, b),
    decreases b.len(),
{
    if b.len() == 0 {
        assert(a + b =~= a);
        assert(events_text(names, a) + Seq::<char>::empty() =~= events_text(names, a));
    } else {
        lemma_events_text_add(names, a, b.drop_last());
        assert((a + b).drop_last() =~= a + b.drop_last());
        assert((a + b).last() == b.last());
        assert(events_text(names, a + b) =~= events_text(names, a) + events_text(names, b));
    }
}

/// A unit of work keeps the names.
pub proof fn lemma_advance_names(m: Machine)
    ensures
        advance(m).0.store.names == m.store.names,
{
}

/// A session that is worked on until it is done.
pub struct Interp {
    session: NonBlockingInterp,
}

impl View for Interp {
    type V = Machine;

    closed spec fn view(&self) -> Machine {
        self.session@
    }
}

impl Default for Interp {
    /// The session as it starts.
    fn default() -> (r: Self)
        ensures
            r@ == fresh(bootstrap()),
            r@.wf(),
    {
        Interp { session: NonBlockingInterp::default() }
    }
}

impl Interp {
    /// Whether no command is being worked on.
    pub fn is_done(&self) -> (r: bool)
        ensures
            r == (self@.command is None),
    {
        self.session.is_done()
    }

    /// Works on the command that is being worked on for at most `limit`
    /// steps, or until it is done. Returns what is put out.
    pub fn resume(&mut self, limit: usize) -> (out: String)
        requires
            old(self)@.wf(),
        ensures
            final(self)@.wf(),
            final(self)@ == drain(old(self)@, limit as nat).0,
            out@ == events_text(old(self)@.store.names, drain(old(self)@, limit as nat).1),
    {
        let ghost start = self@;
        let ghost names = start.store.names;
        let ghost mut acc: Seq<Event> = Seq::empty();
        let mut out = String::new();
        let mut k: usize = 0;
        proof {
            assert(acc + drain(start, limit as nat).1 =~= drain(start, limit as nat).1);
        }
        while k < limit && !self.session.is_done()
            invariant
                k <= limit,
                self@.wf(),
                self@.store.names == names,
                drain(start, limit as nat).0 == drain(self@, (limit - k) as nat).0,
                drain(start, limit as nat).1 == acc + drain(self@, (limit - k) as nat).1,
                out@ == events_text(names, acc),
            decreases limit - k,
        {
            let ghost m = self@;
            let ghost events = advance(m).1;
            let piece = self.session.interp_step();
            out.append(piece.as_str());
            proof {
                lemma_advance_names(m);
                lemma_events_text_add(names, acc, events);
                assert(acc + (events + drain(self@, (limit - k - 1) as nat).1) =~= (acc + events)
                    + drain(self@, (limit - k - 1) as nat).1);
                acc = acc + events;
            }
            k += 1;
        }
        proof {
            assert(acc + Seq::<Event>::empty() =~= acc);
        }
        out
    }

    /// Reads `input` as a command, takes it up and works on it for at most
    /// `limit` steps, or until it is done. Returns what is put out. A command
    /// is refused, with the line `Too many names.`, exactly where its names
    /// would make the names of the session more than there are handles; the
    /// names that were taken before the one that found no room stay.
    pub fn interp(&mut self, input: &str, limit: usize) -> (out: String)
        requires
            old(self)@.wf(),
        ensures
            final(self)@.wf(),
            match read_command_spec(input@) {
                Err(e) => final(self)@ == old(self)@ && out@ == parse_error_text(e),
                Ok(n) => {
                    let names = add_names(old(self)@.store.names, words_of_command(n));
                    if names.len() <= max_names() {
                        ran(
                            with_names(old(self)@, names),
                            lower_command(names, n),
                            limit as nat,
                            final(self)@,
                            out@,
                        )
                    } else {
                        &&& final(self)@ == with_names(
                            old(self)@,
                            taken(
                                old(self)@.store.names,
                                old(self)@.store.limit,
                                words_of_command(n),
                            ),
                        )
                        &&& out@ == parse_error_text(ParseError::Names)
                    }
                },
            },
    {
        match self.session.read(input) {
            Err(e) => e.describe(),
            Ok(command) => {
                let ghost m = self@;
                let mut out = self.session.start(command);
                let ghost mid = self@;
                let ghost first = out@;
                let rest = self.resume(limit);
                out.append(rest.as_str());
                proof {
                    assert(started(m, command@, mid, first));
                }
                out
            },
        }
    }
}

} // verus!
