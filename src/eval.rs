use vstd::prelude::*;
use crate::builtin::Builtin;
use crate::builtin::builtin_of;
use crate::env::Env;
use crate::semantics::{
    Fault, Outcome, Decimals, eval, word_effect, map_each, filter_each, fold_body, stack_step,
    is_stack_word, is_numeric_word, nth_top, below, quoted,
};
use crate::value::{Value, Val, models, model_of, copy_value, copy_values, lemma_models_push, lemma_quotation_view};

verus! {

/// Why an evaluation stopped early.
#[derive(Debug, PartialEq)]
pub enum EvalError {
    /// A symbol that is neither built in nor defined.
    UndefinedSymbol(Vec<char>),
    /// A built-in word found an operand of the wrong kind.
    TypeError(Builtin),
    /// A built-in word found too few operands.
    Underflow(Builtin),
    /// The step budget ran out.
    OutOfFuel,
}

impl View for EvalError {
    type V = Fault;

    open spec fn view(&self) -> Fault {
        match self {
            EvalError::UndefinedSymbol(name) => Fault::Undefined(name@),
            EvalError::TypeError(b) => Fault::Type(*b),
            EvalError::Underflow(b) => Fault::Underflow(*b),
            EvalError::OutOfFuel => Fault::Exhausted,
        }
    }
}

/// How an evaluation ended.
#[derive(Debug, PartialEq)]
pub enum Status {
    Finished,
    Quit,
    Failed(EvalError),
}

impl View for Status {
    type V = Outcome;

    open spec fn view(&self) -> Outcome {
        match self {
            Status::Finished => Outcome::Finished,
            Status::Quit => Outcome::Quit,
            Status::Failed(e) => Outcome::Failed(e@),
        }
    }
}

/// What an evaluation needs of the decimal arithmetic it is given: it accepts every input,
/// and the value of its result depends on its arguments alone.
pub open spec fn decimal_ops<F: Fn(Builtin, u32, u32) -> Value>(f: F) -> bool {
    &&& forall|b: Builtin, x: u32, y: u32| f.requires((b, x, y))
    &&& forall|b: Builtin, x: u32, y: u32, r1: Value, r2: Value|
        f.ensures((b, x, y), r1) && f.ensures((b, x, y), r2) ==> r1@ == r2@
}

/// The decimal arithmetic that `f` performs, as a function on bit patterns.
pub open spec fn decimals_of<F: Fn(Builtin, u32, u32) -> Value>(f: F) -> Decimals {
    |b: Builtin, x: u32, y: u32| (choose|r: Value| f.ensures((b, x, y), r))@
}

pub proof fn lemma_models_take(s: Seq<Value>, k: int)
    requires
        0 <= k <= s.len(),
    ensures
        models(s.take(k)) == models(s).take(k),
{
    assert(models(s.take(k)) =~= models(s).take(k));
}

proof fn lemma_pop(s: Seq<Value>)
    requires
        s.len() > 0,
    ensures
        models(s.drop_last()) == below(models(s), 1),
        model_of(s.last()) == nth_top(models(s), 0),
{
    lemma_models_take(s, s.len() - 1);
    assert(s.drop_last() == s.take(s.len() - 1));
}

proof fn lemma_pop_two(s: Seq<Value>)
    requires
        s.len() > 1,
    ensures
        models(s.drop_last().drop_last()) == below(models(s), 2),
        model_of(s[s.len() - 2]) == nth_top(models(s), 1),
{
    lemma_models_take(s, s.len() - 2);
    assert(s.drop_last().drop_last() =~= s.take(s.len() - 2));
}

fn is_stack_builtin(b: Builtin) -> (r: bool)
    ensures
        r == is_stack_word(b),
{
    match b {
        Builtin::Apply | Builtin::Dip | Builtin::Ifte | Builtin::MapEach | Builtin::Filter
        | Builtin::Fold | Builtin::Quit => false,
        _ => true,
    }
}

fn is_numeric_builtin(b: Builtin) -> (r: bool)
    ensures
        r == is_numeric_word(b),
{
    match b {
        Builtin::Add | Builtin::Sub | Builtin::Mul | Builtin::Greater | Builtin::Less | Builtin::Equal => true,
        _ => false,
    }
}

fn integer_op(b: Builtin, m: i32, n: i32) -> (r: Value)
    requires
        is_numeric_word(b),
    ensures
        crate::semantics::arith(b, Val::Integer(m), Val::Integer(n), |b: Builtin, x: u32, y: u32| Val::Integer(0))
            == Some(r@),
{
    match b {
        Builtin::Add => Value::Integer(m.wrapping_add(n)),
        Builtin::Sub => Value::Integer(m.wrapping_sub(n)),
        Builtin::Mul => Value::Integer(m.wrapping_mul(n)),
        Builtin::Greater => Value::Boolean(m > n),
        Builtin::Less => Value::Boolean(m < n),
        _ => Value::Boolean(m == n),
    }
}

fn is_quotation_value(v: &Value) -> (r: bool)
    ensures
        r == (v@ is Quotation),
{
    match v {
        Value::Quotation(_) => true,
        _ => false,
    }
}

/// Takes the top of a stack whose top is known to be a quotation, and gives its contents.
fn pop_quotation(stack: &mut Vec<Value>) -> (q: Vec<Value>)
    requires
        old(stack).len() > 0,
        old(stack)@.last()@ is Quotation,
    ensures
        final(stack)@ == old(stack)@.drop_last(),
        models(q@) == quoted(nth_top(models(old(stack)@), 0)),
{
    proof {
        lemma_pop(stack@);
    }
    let v = stack.pop().unwrap();
    match v {
        Value::Quotation(q) => {
            proof {
                lemma_quotation_view(q);
            }
            q
        },
        _ => {
            assert(false);
            Vec::new()
        },
    }
}

/// Runs a word that only rearranges or computes on the stack.
fn stack_word<F: Fn(Builtin, u32, u32) -> Value>(b: Builtin, stack: &mut Vec<Value>, arith: &F) -> (r: Result<(), EvalError>)
    requires
        is_stack_word(b),
        decimal_ops(*arith),
    ensures
        match stack_step(b, models(old(stack)@), decimals_of(*arith)) {
            Ok(s1) => r is Ok && models(final(stack)@) == s1,
            Err(e) => r matches Err(x) && x@ == e && final(stack)@ == old(stack)@,
        },
{
    let ghost s0 = stack@;
    let ghost m0 = models(stack@);
    let n = stack.len();
    if is_numeric_builtin(b) {
        if n < 2 {
            return Err(EvalError::Underflow(b));
        }
        proof {
            lemma_pop_two(stack@);
            lemma_pop(stack@);
        }
        let v = match (&stack[n - 2], &stack[n - 1]) {
            (Value::Integer(x), Value::Integer(y)) => integer_op(b, *x, *y),
            (Value::Decimal(x), Value::Decimal(y)) => {
                let r = arith(b, *x, *y);
                proof {
                    let c = choose|c: Value| arith.ensures((b, *x, *y), c);
                    assert(arith.ensures((b, *x, *y), c));
                }
                r
            },
            _ => {
                return Err(EvalError::TypeError(b));
            },
        };
        stack.pop();
        stack.pop();
        proof {
            assert(stack@ == s0.drop_last().drop_last());
            lemma_models_push(stack@, v);
        }
        stack.push(v);
        return Ok(());
    }
    match b {
        Builtin::Pop => {
            if n < 1 {
                return Err(EvalError::Underflow(b));
            }
            proof {
                lemma_pop(stack@);
            }
            stack.pop();
            Ok(())
        },
        Builtin::Dup => {
            if n < 1 {
                return Err(EvalError::Underflow(b));
            }
            proof {
                lemma_pop(stack@);
            }
            let v = copy_value(&stack[n - 1]);
            proof {
                lemma_models_push(stack@, v);
            }
            stack.push(v);
            Ok(())
        },
        Builtin::Swap => {
            if n < 2 {
                return Err(EvalError::Underflow(b));
            }
            proof {
                lemma_pop_two(stack@);
                lemma_pop(stack@);
            }
            let top = stack.pop().unwrap();
            let second = stack.pop().unwrap();
            proof {
                lemma_models_push(stack@, top);
                lemma_models_push(stack@.push(top), second);
            }
            stack.push(top);
            stack.push(second);
            Ok(())
        },
        Builtin::Concat => {
            if n < 2 {
                return Err(EvalError::Underflow(b));
            }
            if !is_quotation_value(&stack[n - 1]) || !is_quotation_value(&stack[n - 2]) {
                proof {
                    lemma_pop_two(stack@);
                    lemma_pop(stack@);
                }
                return Err(EvalError::TypeError(b));
            }
            proof {
                lemma_pop_two(stack@);
            }
            let mut q = pop_quotation(stack);
            proof {
                lemma_pop(stack@);
            }
            let mut p = pop_quotation(stack);
            let ghost (pm, qm) = (models(p@), models(q@));
            p.append(&mut q);
            proof {
                assert(models(p@) =~= pm + qm);
                lemma_quotation_view(p);
                lemma_models_push(stack@, Value::Quotation(p));
            }
            stack.push(Value::Quotation(p));
            Ok(())
        },
        Builtin::Rest => {
            if n < 1 {
                return Err(EvalError::Underflow(b));
            }
            proof {
                lemma_pop(stack@);
            }
            let nonempty = match &stack[n - 1] {
                Value::Quotation(q) => {
                    proof {
                        lemma_quotation_view(*q);
                    }
                    q.len() > 0
                },
                _ => false,
            };
            if !nonempty {
                return Err(EvalError::TypeError(b));
            }
            let mut q = pop_quotation(stack);
            let ghost qm = models(q@);
            q.remove(0);
            proof {
                assert(models(q@) =~= qm.drop_first());
                lemma_quotation_view(q);
                lemma_models_push(stack@, Value::Quotation(q));
            }
            stack.push(Value::Quotation(q));
            Ok(())
        },
        _ => {
            // size
            if n < 1 {
                return Err(EvalError::Underflow(b));
            }
            proof {
                lemma_pop(stack@);
            }
            let len = match &stack[n - 1] {
                Value::Quotation(q) => {
                    proof {
                        lemma_quotation_view(*q);
                    }
                    q.len()
                },
                _ => {
                    return Err(EvalError::TypeError(b));
                },
            };
            let v = Value::Integer(len as i32);
            proof {
                lemma_models_push(stack@, v);
            }
            stack.push(v);
            Ok(())
        },
    }
}

/// The program still to run, given the work list that holds it last value first.
pub open spec fn pending(work: Seq<Value>) -> Seq<Val> {
    Seq::new(work.len(), |i: int| model_of(work[work.len() - 1 - i]))
}

proof fn lemma_pending_push(work: Seq<Value>, v: Value)
    ensures
        pending(work.push(v)) == seq![model_of(v)] + pending(work),
{
    assert(pending(work.push(v)) =~= seq![model_of(v)] + pending(work));
}

/// Puts a program in front of what the work list holds.
fn push_program(work: &mut Vec<Value>, prog: Vec<Value>)
    ensures
        pending(final(work)@) == models(prog@) + pending(old(work)@),
{
    let mut prog = prog;
    let ghost target = models(prog@) + pending(work@);
    while prog.len() > 0
        invariant
            models(prog@) + pending(work@) == target,
        decreases prog.len(),
    {
        let ghost before = prog@;
        let v = prog.pop().unwrap();
        proof {
            lemma_pending_push(work@, v);
            assert(before == prog@.push(v));
            lemma_models_push(prog@, v);
            assert(models(prog@) + pending(work@.push(v)) =~= models(before) + pending(work@));
        }
        work.push(v);
    }
    assert(models(prog@) + pending(work@) =~= pending(work@));
}

/// Evaluates a program against a stack, with the user-defined words of `env`, the decimal
/// arithmetic `arith`, and a budget of `fuel` steps.
///
/// The stack is changed in place; when the evaluation stops early it holds what the steps
/// before the stop left.
pub fn run<F: Fn(Builtin, u32, u32) -> Value>(prog: Vec<Value>, stack: &mut Vec<Value>, env: &Env, arith: &F, fuel: u64) -> (r: Status)
    requires
        env.wf(),
        decimal_ops(*arith),
    ensures
        (models(final(stack)@), r@) == eval(models(prog@), models(old(stack)@), env@, decimals_of(*arith), fuel as nat),
    decreases fuel, 0nat,
{
    let ghost dec = decimals_of(*arith);
    let ghost goal = eval(models(prog@), models(stack@), env@, dec, fuel as nat);
    let mut work: Vec<Value> = Vec::new();
    push_program(&mut work, prog);
    assert(pending(work@) =~= models(prog@));
    let mut budget = fuel;
    loop
        invariant
            env.wf(),
            decimal_ops(*arith),
            dec == decimals_of(*arith),
            goal == eval(models(prog@), models(old(stack)@), env@, dec, fuel as nat),
            budget <= fuel,
            eval(pending(work@), models(stack@), env@, dec, budget as nat) == goal,
        decreases budget,
    {
        if work.len() == 0 {
            return Status::Finished;
        }
        if budget == 0 {
            return Status::Failed(EvalError::OutOfFuel);
        }
        budget = budget - 1;
        let ghost before = work@;
        let v = work.pop().unwrap();
        proof {
            assert(before == work@.push(v));
            lemma_pending_push(work@, v);
            assert(pending(before).drop_first() =~= pending(work@));
        }
        match v {
            Value::Symbol(name) => {
                match builtin_of(&name) {
                    Some(Builtin::Apply) => {
                        let n = stack.len();
                        if n < 1 {
                            return Status::Failed(EvalError::Underflow(Builtin::Apply));
                        }
                        proof {
                            lemma_pop(stack@);
                        }
                        if !is_quotation_value(&stack[n - 1]) {
                            return Status::Failed(EvalError::TypeError(Builtin::Apply));
                        }
                        let q = pop_quotation(stack);
                        push_program(&mut work, q);
                    },
                    Some(b) => {
                        let r = word(b, stack, env, arith, budget);
                        match r {
                            Status::Finished => {},
                            _ => {
                                return r;
                            },
                        }
                    },
                    None => {
                        match env.lookup_copy(&name) {
                            Some(body) => {
                                let r = run(body, stack, env, arith, budget);
                                match r {
                                    Status::Finished => {},
                                    _ => {
                                        return r;
                                    },
                                }
                            },
                            None => {
                                return Status::Failed(EvalError::UndefinedSymbol(name));
                            },
                        }
                    },
                }
            },
            other => {
                proof {
                    lemma_models_push(stack@, other);
                }
                stack.push(other);
            },
        }
    }
}

/// Runs a built-in word other than `i`.
fn word<F: Fn(Builtin, u32, u32) -> Value>(b: Builtin, stack: &mut Vec<Value>, env: &Env, arith: &F, fuel: u64) -> (r: Status)
    requires
        b != Builtin::Apply,
        env.wf(),
        decimal_ops(*arith),
    ensures
        (models(final(stack)@), r@) == word_effect(b, models(old(stack)@), env@, decimals_of(*arith), fuel as nat),
    decreases fuel, 2nat,
{
    let ghost dec = decimals_of(*arith);
    let ghost s0 = models(stack@);
    if is_stack_builtin(b) {
        return match stack_word(b, stack, arith) {
            Ok(()) => Status::Finished,
            Err(e) => Status::Failed(e),
        };
    }
    let n = stack.len();
    match b {
        Builtin::Dip => {
            if n < 2 {
                return Status::Failed(EvalError::Underflow(b));
            }
            proof {
                lemma_pop(stack@);
                lemma_pop_two(stack@);
            }
            if !is_quotation_value(&stack[n - 1]) {
                return Status::Failed(EvalError::TypeError(b));
            }
            let p = pop_quotation(stack);
            let x = stack.pop().unwrap();
            let r = run(p, stack, env, arith, fuel);
            match r {
                Status::Finished => {
                    proof {
                        lemma_models_push(stack@, x);
                    }
                    stack.push(x);
                    Status::Finished
                },
                _ => r,
            }
        },
        Builtin::Ifte => {
            if n < 3 {
                return Status::Failed(EvalError::Underflow(b));
            }
            proof {
                lemma_pop(stack@);
                lemma_pop_two(stack@);
                lemma_models_take(stack@, n - 3);
                assert(nth_top(s0, 2) == model_of(stack@[n - 3]));
            }
            if !is_quotation_value(&stack[n - 1]) || !is_quotation_value(&stack[n - 2]) || !is_quotation_value(&stack[n - 3]) {
                return Status::Failed(EvalError::TypeError(b));
            }
            let otherwise = pop_quotation(stack);
            proof {
                lemma_pop(stack@);
            }
            let then = pop_quotation(stack);
            proof {
                lemma_pop(stack@);
            }
            let cond = pop_quotation(stack);
            proof {
                assert(stack@ =~= old(stack)@.take(n - 3));
            }
            let mut scratch = copy_values(stack);
            let rc = run(cond, &mut scratch, env, arith, fuel);
            match rc {
                Status::Finished => {},
                _ => {
                    return rc;
                },
            }
            let k = scratch.len();
            if k == 0 {
                return Status::Failed(EvalError::Underflow(b));
            }
            proof {
                lemma_pop(scratch@);
            }
            match &scratch[k - 1] {
                Value::Boolean(t) => {
                    if *t {
                        run(then, stack, env, arith, fuel)
                    } else {
                        run(otherwise, stack, env, arith, fuel)
                    }
                },
                _ => Status::Failed(EvalError::TypeError(b)),
            }
        },
        Builtin::MapEach => {
            if n < 2 {
                return Status::Failed(EvalError::Underflow(b));
            }
            proof {
                lemma_pop(stack@);
                lemma_pop_two(stack@);
            }
            if !is_quotation_value(&stack[n - 1]) || !is_quotation_value(&stack[n - 2]) {
                return Status::Failed(EvalError::TypeError(b));
            }
            let p = pop_quotation(stack);
            proof {
                lemma_pop(stack@);
            }
            let xs = pop_quotation(stack);
            match map_run(&xs, &p, env, arith, fuel) {
                Ok(ys) => {
                    proof {
                        lemma_quotation_view(ys);
                        lemma_models_push(stack@, Value::Quotation(ys));
                    }
                    stack.push(Value::Quotation(ys));
                    Status::Finished
                },
                Err(r) => r,
            }
        },
        Builtin::Filter => {
            if n < 2 {
                return Status::Failed(EvalError::Underflow(b));
            }
            proof {
                lemma_pop(stack@);
                lemma_pop_two(stack@);
            }
            if !is_quotation_value(&stack[n - 1]) || !is_quotation_value(&stack[n - 2]) {
                return Status::Failed(EvalError::TypeError(b));
            }
            let p = pop_quotation(stack);
            proof {
                lemma_pop(stack@);
            }
            let xs = pop_quotation(stack);
            match filter_run(&xs, &p, stack, env, arith, fuel) {
                Ok(ys) => {
                    proof {
                        lemma_quotation_view(ys);
                        lemma_models_push(stack@, Value::Quotation(ys));
                    }
                    stack.push(Value::Quotation(ys));
                    Status::Finished
                },
                Err(r) => r,
            }
        },
        Builtin::Fold => {
            if n < 3 {
                return Status::Failed(EvalError::Underflow(b));
            }
            proof {
                lemma_pop(stack@);
                lemma_pop_two(stack@);
                lemma_models_take(stack@, n - 3);
                assert(nth_top(s0, 2) == model_of(stack@[n - 3]));
            }
            if !is_quotation_value(&stack[n - 1]) || !is_quotation_value(&stack[n - 2]) || !is_quotation_value(&stack[n - 3]) {
                return Status::Failed(EvalError::TypeError(b));
            }
            let p = pop_quotation(stack);
            proof {
                lemma_pop(stack@);
            }
            let init = pop_quotation(stack);
            proof {
                lemma_pop(stack@);
            }
            let xs = pop_quotation(stack);
            proof {
                assert(stack@ =~= old(stack)@.take(n - 3));
            }
            let program = fold_program(&xs, init, &p);
            run(program, stack, env, arith, fuel)
        },
        _ => Status::Quit,
    }
}

/// The results of `map` gathered so far, in front of what the remaining runs give.
pub open spec fn map_prefix(acc: Seq<Val>, r: Result<Seq<Val>, Outcome>) -> Result<Seq<Val>, Outcome> {
    match r {
        Ok(ys) => Ok(acc + ys),
        Err(o) => Err(o),
    }
}

/// The runs of `map`: `p` on a fresh stack holding each element of `xs`.
fn map_run<F: Fn(Builtin, u32, u32) -> Value>(xs: &Vec<Value>, p: &Vec<Value>, env: &Env, arith: &F, fuel: u64) -> (r: Result<Vec<Value>, Status>)
    requires
        env.wf(),
        decimal_ops(*arith),
    ensures
        map_each(models(xs@), models(p@), env@, decimals_of(*arith), fuel as nat) == match r {
            Ok(ys) => Ok::<Seq<Val>, Outcome>(models(ys@)),
            Err(st) => Err(st@),
        },
        r matches Err(st) ==> !(st is Finished),
    decreases fuel, 1nat,
{
    let ghost dec = decimals_of(*arith);
    let ghost whole = map_each(models(xs@), models(p@), env@, dec, fuel as nat);
    let mut ys: Vec<Value> = Vec::new();
    let mut k: usize = 0;
    assert(models(xs@).skip(0) =~= models(xs@));
    assert(models(ys@) =~= Seq::<Val>::empty());
    assert(map_prefix(Seq::<Val>::empty(), whole) == whole) by {
        match whole {
            Ok(zs) => assert(Seq::<Val>::empty() + zs =~= zs),
            Err(o) => {},
        }
    }
    while k < xs.len()
        invariant
            k <= xs.len(),
            env.wf(),
            decimal_ops(*arith),
            dec == decimals_of(*arith),
            whole == map_each(models(xs@), models(p@), env@, dec, fuel as nat),
            whole == map_prefix(models(ys@), map_each(models(xs@).skip(k as int), models(p@), env@, dec, fuel as nat)),
        decreases xs.len() - k,
    {
        let ghost rest = models(xs@).skip(k as int);
        let x = copy_value(&xs[k]);
        let mut sub: Vec<Value> = Vec::new();
        proof {
            lemma_models_push(sub@, x);
        }
        sub.push(x);
        assert(models(sub@) =~= seq![model_of(x)]);
        let prog = copy_values(p);
        let r = run(prog, &mut sub, env, arith, fuel);
        proof {
            assert(rest[0] == model_of(xs@[k as int]));
            assert(rest.drop_first() =~= models(xs@).skip(k + 1));
        }
        match r {
            Status::Finished => {},
            _ => {
                return Err(r);
            },
        }
        let m = sub.len();
        if m == 0 {
            return Err(Status::Failed(EvalError::Underflow(Builtin::MapEach)));
        }
        proof {
            lemma_pop(sub@);
        }
        let top = sub.pop().unwrap();
        let ghost acc = models(ys@);
        proof {
            lemma_models_push(ys@, top);
        }
        ys.push(top);
        proof {
            let tail = map_each(models(xs@).skip(k + 1), models(p@), env@, dec, fuel as nat);
            match tail {
                Ok(zs) => {
                    assert(acc + (seq![model_of(top)] + zs) =~= models(ys@) + zs);
                },
                Err(o) => {},
            }
        }
        k = k + 1;
    }
    proof {
        assert(models(xs@).skip(k as int) =~= Seq::<Val>::empty());
        assert(models(ys@) + Seq::<Val>::empty() =~= models(ys@));
    }
    Ok(ys)
}

/// The elements kept by `filter` so far, in front of what the remaining runs keep.
pub open spec fn filter_prefix(acc: Seq<Val>, r: (Seq<Val>, Result<Seq<Val>, Outcome>)) -> (Seq<Val>, Result<Seq<Val>, Outcome>) {
    (r.0, map_prefix(acc, r.1))
}

/// The runs of `filter`: `p` on the stack with each element of `xs` pushed in turn.
fn filter_run<F: Fn(Builtin, u32, u32) -> Value>(xs: &Vec<Value>, p: &Vec<Value>, stack: &mut Vec<Value>, env: &Env, arith: &F, fuel: u64) -> (r: Result<Vec<Value>, Status>)
    requires
        env.wf(),
        decimal_ops(*arith),
    ensures
        filter_each(models(xs@), models(p@), models(old(stack)@), env@, decimals_of(*arith), fuel as nat) == (
            models(final(stack)@),
            match r {
                Ok(ys) => Ok::<Seq<Val>, Outcome>(models(ys@)),
                Err(st) => Err(st@),
            },
        ),
        r matches Err(st) ==> !(st is Finished),
    decreases fuel, 1nat,
{
    let ghost dec = decimals_of(*arith);
    let ghost whole = filter_each(models(xs@), models(p@), models(stack@), env@, dec, fuel as nat);
    let mut ys: Vec<Value> = Vec::new();
    let mut k: usize = 0;
    assert(models(xs@).skip(0) =~= models(xs@));
    assert(models(ys@) =~= Seq::<Val>::empty());
    assert(map_prefix(Seq::<Val>::empty(), whole.1) == whole.1) by {
        match whole.1 {
            Ok(zs) => assert(Seq::<Val>::empty() + zs =~= zs),
            Err(o) => {},
        }
    }
    while k < xs.len()
        invariant
            k <= xs.len(),
            env.wf(),
            decimal_ops(*arith),
            dec == decimals_of(*arith),
            whole == filter_each(models(xs@), models(p@), models(old(stack)@), env@, dec, fuel as nat),
            whole == filter_prefix(models(ys@), filter_each(models(xs@).skip(k as int), models(p@), models(stack@), env@, dec, fuel as nat)),
        decreases xs.len() - k,
    {
        let ghost rest = models(xs@).skip(k as int);
        let x = copy_value(&xs[k]);
        proof {
            lemma_models_push(stack@, x);
            assert(rest[0] == model_of(xs@[k as int]));
            assert(rest.drop_first() =~= models(xs@).skip(k + 1));
        }
        stack.push(x);
        let prog = copy_values(p);
        let r = run(prog, stack, env, arith, fuel);
        match r {
            Status::Finished => {},
            _ => {
                return Err(r);
            },
        }
        let m = stack.len();
        if m == 0 {
            return Err(Status::Failed(EvalError::Underflow(Builtin::Filter)));
        }
        proof {
            lemma_pop(stack@);
        }
        let keep = match &stack[m - 1] {
            Value::Boolean(t) => *t,
            _ => {
                return Err(Status::Failed(EvalError::TypeError(Builtin::Filter)));
            },
        };
        stack.pop();
        let ghost acc = models(ys@);
        if keep {
            let y = copy_value(&xs[k]);
            proof {
                lemma_models_push(ys@, y);
            }
            ys.push(y);
        }
        proof {
            let tail = filter_each(models(xs@).skip(k + 1), models(p@), models(stack@), env@, dec, fuel as nat);
            match tail.1 {
                Ok(zs) => {
                    if keep {
                        assert(acc + (seq![rest[0]] + zs) =~= models(ys@) + zs);
                    }
                },
                Err(o) => {},
            }
        }
        k = k + 1;
    }
    proof {
        assert(models(xs@).skip(k as int) =~= Seq::<Val>::empty());
        assert(models(ys@) + Seq::<Val>::empty() =~= models(ys@));
    }
    Ok(ys)
}

/// The program that `fold` runs: the initial elements, then each element of `xs` followed by `p`.
fn fold_program(xs: &Vec<Value>, init: Vec<Value>, p: &Vec<Value>) -> (r: Vec<Value>)
    ensures
        models(r@) == models(init@) + fold_body(models(xs@), models(p@)),
{
    let mut program = init;
    let ghost start = models(program@);
    let mut k: usize = 0;
    while k < xs.len()
        invariant
            k <= xs.len(),
            models(program@) == start + fold_body(models(xs@).take(k as int), models(p@)),
        decreases xs.len() - k,
    {
        let ghost before = models(program@);
        let x = copy_value(&xs[k]);
        proof {
            lemma_models_push(program@, x);
        }
        program.push(x);
        let mut step = copy_values(p);
        let ghost stepm = models(step@);
        let ghost mid = program@;
        program.append(&mut step);
        proof {
            assert(models(program@) =~= models(mid) + stepm);
            let t = models(xs@).take(k + 1);
            assert(t.drop_last() =~= models(xs@).take(k as int));
            assert(t.last() == model_of(xs@[k as int]));
            assert(models(program@) =~= start + fold_body(t, models(p@)));
        }
        k = k + 1;
    }
    assert(models(xs@).take(k as int) =~= models(xs@));
    program
}

} // verus!
