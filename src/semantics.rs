use vstd::prelude::*;
use crate::builtin::{Builtin, builtin_named};
use crate::value::Val;

verus! {

/// Why an evaluation stopped early.
pub enum Fault {
    /// A symbol that is neither built in nor defined.
    Undefined(Seq<char>),
    /// A built-in word found an operand of the wrong kind.
    Type(Builtin),
    /// A built-in word found too few operands.
    Underflow(Builtin),
    /// The step budget ran out.
    Exhausted,
}

/// How an evaluation ended.
pub enum Outcome {
    Finished,
    Quit,
    Failed(Fault),
}

/// The user-defined words, by name.
pub type Words = Map<Seq<char>, Seq<Val>>;

/// Binary32 arithmetic on bit patterns: the result of a numeric built-in on two decimals.
pub type Decimals = spec_fn(Builtin, u32, u32) -> Val;

/// The stack without its top `n` elements.
pub open spec fn below(s: Seq<Val>, n: int) -> Seq<Val> {
    s.take(s.len() - n)
}

/// The element `k` places below the top (`k == 0` is the top).
pub open spec fn nth_top(s: Seq<Val>, k: int) -> Val {
    s[s.len() - 1 - k]
}

pub open spec fn is_quotation(v: Val) -> bool {
    v is Quotation
}

pub open spec fn quoted(v: Val) -> Seq<Val> {
    match v {
        Val::Quotation(q) => q,
        _ => Seq::empty(),
    }
}

pub open spec fn is_numeric_word(b: Builtin) -> bool {
    match b {
        Builtin::Add | Builtin::Sub | Builtin::Mul | Builtin::Greater | Builtin::Less | Builtin::Equal => true,
        _ => false,
    }
}

/// The result of a numeric word on `x` (second from top) and `y` (top), if their kinds fit.
/// Integer arithmetic wraps around at 32 bits; decimals go to `dec`.
pub open spec fn arith(b: Builtin, x: Val, y: Val, dec: Decimals) -> Option<Val> {
    match (x, y) {
        (Val::Integer(m), Val::Integer(n)) => Some(
            match b {
                Builtin::Add => Val::Integer(m.wrapping_add(n)),
                Builtin::Sub => Val::Integer(m.wrapping_sub(n)),
                Builtin::Mul => Val::Integer(m.wrapping_mul(n)),
                Builtin::Greater => Val::Boolean(m > n),
                Builtin::Less => Val::Boolean(m < n),
                _ => Val::Boolean(m == n),
            },
        ),
        (Val::Decimal(m), Val::Decimal(n)) => Some(dec(b, m, n)),
        _ => None,
    }
}

/// The effect of a word that only rearranges or computes on the stack.
pub open spec fn stack_step(b: Builtin, s: Seq<Val>, dec: Decimals) -> Result<Seq<Val>, Fault> {
    let n = s.len();
    if is_numeric_word(b) {
        if n < 2 {
            Err(Fault::Underflow(b))
        } else {
            match arith(b, nth_top(s, 1), nth_top(s, 0), dec) {
                Some(v) => Ok(below(s, 2).push(v)),
                None => Err(Fault::Type(b)),
            }
        }
    } else {
        match b {
            Builtin::Pop => if n < 1 {
                Err(Fault::Underflow(b))
            } else {
                Ok(below(s, 1))
            },
            Builtin::Dup => if n < 1 {
                Err(Fault::Underflow(b))
            } else {
                Ok(s.push(nth_top(s, 0)))
            },
            Builtin::Swap => if n < 2 {
                Err(Fault::Underflow(b))
            } else {
                Ok(below(s, 2).push(nth_top(s, 0)).push(nth_top(s, 1)))
            },
            Builtin::Concat => if n < 2 {
                Err(Fault::Underflow(b))
            } else if !is_quotation(nth_top(s, 0)) || !is_quotation(nth_top(s, 1)) {
                Err(Fault::Type(b))
            } else {
                Ok(below(s, 2).push(Val::Quotation(quoted(nth_top(s, 1)) + quoted(nth_top(s, 0)))))
            },
            Builtin::Rest => if n < 1 {
                Err(Fault::Underflow(b))
            } else if !is_quotation(nth_top(s, 0)) || quoted(nth_top(s, 0)).len() == 0 {
                Err(Fault::Type(b))
            } else {
                Ok(below(s, 1).push(Val::Quotation(quoted(nth_top(s, 0)).drop_first())))
            },
            Builtin::Size => if n < 1 {
                Err(Fault::Underflow(b))
            } else if !is_quotation(nth_top(s, 0)) {
                Err(Fault::Type(b))
            } else {
                Ok(s.push(Val::Integer(quoted(nth_top(s, 0)).len() as i32)))
            },
            _ => Err(Fault::Type(b)),
        }
    }
}

/// The words whose effect is given by `stack_step`.
pub open spec fn is_stack_word(b: Builtin) -> bool {
    match b {
        Builtin::Apply | Builtin::Dip | Builtin::Ifte | Builtin::MapEach | Builtin::Filter
        | Builtin::Fold | Builtin::Quit => false,
        _ => true,
    }
}

/// The program that `fold` runs after the initial elements: each element followed by the step program.
pub open spec fn fold_body(xs: Seq<Val>, p: Seq<Val>) -> Seq<Val>
    decreases xs.len(),
{
    if xs.len() == 0 {
        Seq::empty()
    } else {
        fold_body(xs.drop_last(), p) + seq![xs.last()] + p
    }
}

/// What is left of an evaluation that did not finish: the stack and the outcome.
pub open spec fn unfinished(r: (Seq<Val>, Outcome)) -> bool {
    !(r.1 is Finished)
}

/// Evaluates a program against a stack: the final stack and how the evaluation ended.
///
/// Each value of the program costs one unit of `fuel`; a nested evaluation started by a
/// word runs on what is left after that unit, and so does the rest of the program.
pub open spec fn eval(prog: Seq<Val>, s: Seq<Val>, env: Words, dec: Decimals, fuel: nat) -> (Seq<Val>, Outcome)
    decreases fuel, 0nat, 0nat,
{
    if prog.len() == 0 {
        (s, Outcome::Finished)
    } else if fuel == 0 {
        (s, Outcome::Failed(Fault::Exhausted))
    } else {
        let f = (fuel - 1) as nat;
        let rest = prog.drop_first();
        match prog[0] {
            Val::Symbol(name) => match builtin_named(name) {
                Some(Builtin::Apply) => if s.len() < 1 {
                    (s, Outcome::Failed(Fault::Underflow(Builtin::Apply)))
                } else if !is_quotation(nth_top(s, 0)) {
                    (s, Outcome::Failed(Fault::Type(Builtin::Apply)))
                } else {
                    eval(quoted(nth_top(s, 0)) + rest, below(s, 1), env, dec, f)
                },
                Some(b) => {
                    let r = word_effect(b, s, env, dec, f);
                    if unfinished(r) {
                        r
                    } else {
                        eval(rest, r.0, env, dec, f)
                    }
                },
                None => if env.contains_key(name) {
                    let r = eval(env[name], s, env, dec, f);
                    if unfinished(r) {
                        r
                    } else {
                        eval(rest, r.0, env, dec, f)
                    }
                } else {
                    (s, Outcome::Failed(Fault::Undefined(name)))
                },
            },
            v => eval(rest, s.push(v), env, dec, f),
        }
    }
}

/// The effect of built-in word `b` (other than `i`) on stack `s`; when it is `Finished`, the
/// program goes on from the stack it gives.
pub open spec fn word_effect(b: Builtin, s: Seq<Val>, env: Words, dec: Decimals, f: nat) -> (Seq<Val>, Outcome)
    decreases f, 2nat, 0nat,
{
    let n = s.len();
    if is_stack_word(b) {
        match stack_step(b, s, dec) {
            Ok(s1) => (s1, Outcome::Finished),
            Err(e) => (s, Outcome::Failed(e)),
        }
    } else {
        match b {
            Builtin::Dip => if n < 2 {
                (s, Outcome::Failed(Fault::Underflow(b)))
            } else if !is_quotation(nth_top(s, 0)) {
                (s, Outcome::Failed(Fault::Type(b)))
            } else {
                let r = eval(quoted(nth_top(s, 0)), below(s, 2), env, dec, f);
                if unfinished(r) {
                    r
                } else {
                    (r.0.push(nth_top(s, 1)), Outcome::Finished)
                }
            },
            Builtin::Ifte => if n < 3 {
                (s, Outcome::Failed(Fault::Underflow(b)))
            } else if !is_quotation(nth_top(s, 0)) || !is_quotation(nth_top(s, 1)) || !is_quotation(nth_top(s, 2)) {
                (s, Outcome::Failed(Fault::Type(b)))
            } else {
                let base = below(s, 3);
                let c = eval(quoted(nth_top(s, 2)), base, env, dec, f);
                if unfinished(c) {
                    (base, c.1)
                } else if c.0.len() == 0 {
                    (base, Outcome::Failed(Fault::Underflow(b)))
                } else {
                    match c.0.last() {
                        Val::Boolean(t) => eval(if t { quoted(nth_top(s, 1)) } else { quoted(nth_top(s, 0)) }, base, env, dec, f),
                        _ => (base, Outcome::Failed(Fault::Type(b))),
                    }
                }
            },
            Builtin::MapEach => if n < 2 {
                (s, Outcome::Failed(Fault::Underflow(b)))
            } else if !is_quotation(nth_top(s, 0)) || !is_quotation(nth_top(s, 1)) {
                (s, Outcome::Failed(Fault::Type(b)))
            } else {
                let base = below(s, 2);
                match map_each(quoted(nth_top(s, 1)), quoted(nth_top(s, 0)), env, dec, f) {
                    Ok(ys) => (base.push(Val::Quotation(ys)), Outcome::Finished),
                    Err(o) => (base, o),
                }
            },
            Builtin::Filter => if n < 2 {
                (s, Outcome::Failed(Fault::Underflow(b)))
            } else if !is_quotation(nth_top(s, 0)) || !is_quotation(nth_top(s, 1)) {
                (s, Outcome::Failed(Fault::Type(b)))
            } else {
                let r = filter_each(quoted(nth_top(s, 1)), quoted(nth_top(s, 0)), below(s, 2), env, dec, f);
                match r.1 {
                    Ok(ys) => (r.0.push(Val::Quotation(ys)), Outcome::Finished),
                    Err(o) => (r.0, o),
                }
            },
            Builtin::Fold => if n < 3 {
                (s, Outcome::Failed(Fault::Underflow(b)))
            } else if !is_quotation(nth_top(s, 0)) || !is_quotation(nth_top(s, 1)) || !is_quotation(nth_top(s, 2)) {
                (s, Outcome::Failed(Fault::Type(b)))
            } else {
                let program = quoted(nth_top(s, 1)) + fold_body(quoted(nth_top(s, 2)), quoted(nth_top(s, 0)));
                eval(program, below(s, 3), env, dec, f)
            },
            _ => (s, Outcome::Quit),
        }
    }
}

/// `map`: runs `p` on a fresh stack holding each element of `xs` in turn and collects the tops,
/// or gives how the first run that went wrong ended.
pub open spec fn map_each(xs: Seq<Val>, p: Seq<Val>, env: Words, dec: Decimals, f: nat) -> Result<Seq<Val>, Outcome>
    decreases f, 1nat, xs.len(),
{
    if xs.len() == 0 {
        Ok(Seq::empty())
    } else {
        let r = eval(p, seq![xs[0]], env, dec, f);
        if unfinished(r) {
            Err(r.1)
        } else if r.0.len() == 0 {
            Err(Outcome::Failed(Fault::Underflow(Builtin::MapEach)))
        } else {
            match map_each(xs.drop_first(), p, env, dec, f) {
                Ok(ys) => Ok(seq![r.0.last()] + ys),
                Err(o) => Err(o),
            }
        }
    }
}

/// `filter`: for each element of `xs` in turn, pushes it on the stack, runs `p` and pops the
/// Boolean it leaves; the result is the stack after the last run and the kept elements, or how
/// the first run that went wrong ended.
pub open spec fn filter_each(xs: Seq<Val>, p: Seq<Val>, s: Seq<Val>, env: Words, dec: Decimals, f: nat) -> (Seq<Val>, Result<Seq<Val>, Outcome>)
    decreases f, 1nat, xs.len(),
{
    if xs.len() == 0 {
        (s, Ok(Seq::empty()))
    } else {
        let r = eval(p, s.push(xs[0]), env, dec, f);
        if unfinished(r) {
            (r.0, Err(r.1))
        } else if r.0.len() == 0 {
            (r.0, Err(Outcome::Failed(Fault::Underflow(Builtin::Filter))))
        } else {
            match r.0.last() {
                Val::Boolean(keep) => {
                    let t = filter_each(xs.drop_first(), p, r.0.drop_last(), env, dec, f);
                    match t.1 {
                        Ok(ys) => (t.0, Ok(if keep { seq![xs[0]] + ys } else { ys })),
                        Err(o) => (t.0, Err(o)),
                    }
                },
                _ => (r.0, Err(Outcome::Failed(Fault::Type(Builtin::Filter)))),
            }
        }
    }
}

} // verus!
