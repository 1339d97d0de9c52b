use vstd::prelude::*;
use crate::builtin::Builtin;
use crate::env::Env;
use crate::eval::{Status, run, decimal_ops, decimals_of};
use crate::parse::{Reader, trim, definition_of, program_of, reader_ops, reader_of, chars_of, trimmed, definition, parse_program};
use crate::semantics::{Outcome, Words, Decimals, eval};
use crate::value::{Value, Val, models};

verus! {

/// What became of one line of input.
#[derive(Debug, PartialEq)]
pub enum LineResult {
    /// The line held nothing but blanks.
    Blank,
    /// The line defined a word.
    Defined,
    /// The line was a program, and it was evaluated.
    Evaluated(Status),
    /// The line was neither a definition nor a program.
    Unparsed,
}

/// The model of what became of a line.
pub enum LineOutcome {
    Blank,
    Defined,
    Evaluated(Outcome),
    Unparsed,
}

impl View for LineResult {
    type V = LineOutcome;

    open spec fn view(&self) -> LineOutcome {
        match self {
            LineResult::Blank => LineOutcome::Blank,
            LineResult::Defined => LineOutcome::Defined,
            LineResult::Evaluated(st) => LineOutcome::Evaluated(st@),
            LineResult::Unparsed => LineOutcome::Unparsed,
        }
    }
}

/// The effect of one line on a session's stack and words.
///
/// The line is taken without the blanks at its ends. A line that holds a definition binds it;
/// otherwise a line that holds a program runs it with `fuel` steps; a line that is neither
/// changes nothing.
pub open spec fn line_step(line: Seq<char>, s: Seq<Val>, env: Words, rd: Reader, dec: Decimals, fuel: nat) -> (Seq<Val>, Words, LineOutcome) {
    if trim(line).len() == 0 {
        (s, env, LineOutcome::Blank)
    } else {
        match definition_of(trim(line), rd) {
            Some(d) => (s, env.insert(d.0, d.1), LineOutcome::Defined),
            None => match program_of(trim(line), rd) {
                Some(p) => {
                    let r = eval(p, s, env, dec, fuel);
                    (r.0, env, LineOutcome::Evaluated(r.1))
                },
                None => (s, env, LineOutcome::Unparsed),
            },
        }
    }
}

/// An interpreter session: one stack and the user-defined words, both kept from line to line.
pub struct Session {
    stack: Vec<Value>,
    words: Env,
}

impl Session {
    pub closed spec fn wf(&self) -> bool {
        self.words.wf()
    }

    /// The stack, bottom first.
    pub closed spec fn stack_view(&self) -> Seq<Val> {
        models(self.stack@)
    }

    /// The user-defined words.
    pub closed spec fn words_view(&self) -> Words {
        self.words@
    }

    /// A session with an empty stack and no words.
    pub fn new() -> (r: Session)
        ensures
            r.wf(),
            r.stack_view() == Seq::<Val>::empty(),
            r.words_view() == Map::<Seq<char>, Seq<Val>>::empty(),
    {
        let r = Session { stack: Vec::new(), words: Env::new() };
        assert(models(r.stack@) =~= Seq::<Val>::empty());
        r
    }

    /// The stack, bottom first.
    pub fn stack(&self) -> (r: &Vec<Value>)
        ensures
            models(r@) == self.stack_view(),
    {
        &self.stack
    }

    /// Handles one line of input: binds a definition, or runs a program against the stack with
    /// a budget of `fuel` steps.
    pub fn line<F: Fn(Builtin, u32, u32) -> Value, R: Fn(Vec<char>) -> Option<u32>>(
        &mut self,
        line: &str,
        arith: &F,
        rd: &R,
        fuel: u64,
    ) -> (r: LineResult)
        requires
            old(self).wf(),
            decimal_ops(*arith),
            reader_ops(*rd),
        ensures
            final(self).wf(),
            (final(self).stack_view(), final(self).words_view(), r@) == line_step(
                line@,
                old(self).stack_view(),
                old(self).words_view(),
                reader_of(*rd),
                decimals_of(*arith),
                fuel as nat,
            ),
    {
        let t = trimmed(&chars_of(line));
        if t.len() == 0 {
            return LineResult::Blank;
        }
        match definition(&t, rd) {
            Some((name, body)) => {
                self.words.bind(name, body);
                LineResult::Defined
            },
            None => match parse_program(&t, rd) {
                Some(p) => {
                    let st = run(p, &mut self.stack, &self.words, arith, fuel);
                    LineResult::Evaluated(st)
                },
                None => LineResult::Unparsed,
            },
        }
    }
}

} // verus!
