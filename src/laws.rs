//! Laws of the language, proved of its semantics.
use vstd::prelude::*;
use crate::builtin::{Builtin, builtin_name, builtin_named, lemma_builtin_named};
use crate::parse::{
    Reader, program_of, is_digit, run_end, class_fn, CharClass, expr_more, token_at,
    literal_at, floating_point_end, signed_digits_end, number_at, boolean_at, has_word_at, signed_value,
    digits_value,
};
use crate::semantics::{
    Outcome, Fault, Words, Decimals, eval, word_effect, map_each, filter_each, unfinished, below, nth_top,
    is_quotation, quoted, fold_body, is_stack_word,
};
use crate::value::Val;

verus! {

/// The word with a built-in name.
pub open spec fn word(b: Builtin) -> Val {
    Val::Symbol(builtin_name(b))
}

pub open spec fn digit_char(d: int) -> char {
    if d == 0 { '0' } else if d == 1 { '1' } else if d == 2 { '2' } else if d == 3 { '3' } else if d == 4 { '4' }
    else if d == 5 { '5' } else if d == 6 { '6' } else if d == 7 { '7' } else if d == 8 { '8' } else { '9' }
}

/// The decimal digits of a natural number.
pub open spec fn digits_text(m: nat) -> Seq<char>
    decreases m,
{
    if m < 10 {
        seq![digit_char(m as int)]
    } else {
        digits_text(m / 10) + seq![digit_char((m % 10) as int)]
    }
}

/// The textual form of an integer: a minus sign for a negative one, then its digits.
pub open spec fn int_text(n: int) -> Seq<char> {
    if n < 0 {
        seq!['-'] + digits_text((-n) as nat)
    } else {
        digits_text(n as nat)
    }
}

/// The textual form of a Boolean.
pub open spec fn bool_text(b: bool) -> Seq<char> {
    if b {
        seq!['t', 'r', 'u', 'e']
    } else {
        seq!['f', 'a', 'l', 's', 'e']
    }
}

proof fn lemma_digits_text(m: nat)
    ensures
        digits_text(m).len() > 0,
        forall|j: int| 0 <= j < digits_text(m).len() ==> is_digit(#[trigger] digits_text(m)[j]),
        digits_value(digits_text(m)) == m,
    decreases m,
{
    if m >= 10 {
        lemma_digits_text(m / 10);
        let t = digits_text(m);
        assert(t.drop_last() =~= digits_text(m / 10));
        let d = (m % 10) as int;
        assert(digit_char(d) as int - '0' as int == d);
        assert(m == (m / 10) * 10 + d);
        assert(t.last() == digit_char(d));
    } else {
        let t = digits_text(m);
        assert(t.drop_last() =~= Seq::<char>::empty());
        assert(digits_value(t.drop_last()) == 0);
        assert(digit_char(m as int) as int - '0' as int == m);
        assert forall|j: int| 0 <= j < t.len() implies is_digit(#[trigger] t[j]) by {
            if j < t.len() - 1 {
                assert(t[j] == digits_text(m / 10)[j]);
            }
        }
    }
}

proof fn lemma_run_to_end(s: Seq<char>, i: int)
    requires
        0 <= i <= s.len(),
        forall|j: int| i <= j < s.len() ==> is_digit(#[trigger] s[j]),
    ensures
        run_end(s, i, class_fn(CharClass::Digit)) == s.len(),
    decreases s.len() - i,
{
    if i < s.len() {
        lemma_run_to_end(s, i + 1);
    }
}

/// A lone token that reaches the end of the text is the whole program.
proof fn lemma_single_token(t: Seq<char>, rd: Reader, v: Val)
    requires
        t.len() > 0,
        token_at(t, 0, rd) == Some((v, t.len() as int)),
    ensures
        program_of(t, rd) == Some(seq![v]),
{
    assert(expr_more(t, t.len() as int, rd) == (Seq::<Val>::empty(), t.len() as int));
    assert(seq![v] + Seq::<Val>::empty() =~= seq![v]);
}

/// The textual form of an integer, with a plus sign before a non-negative one when `plus`.
pub open spec fn signed_int_text(n: int, plus: bool) -> Seq<char> {
    if plus && n >= 0 {
        seq!['+'] + digits_text(n as nat)
    } else {
        int_text(n)
    }
}

/// The textual form of an integer, with or without a plus sign, is read back by the integer
/// recogniser and as a token: as that integer, never as a decimal or a symbol.
pub proof fn lemma_integer_token(n: i32, plus: bool, rd: Reader)
    ensures
        number_at(signed_int_text(n as int, plus), 0) == Some((Val::Integer(n), signed_int_text(n as int, plus).len() as int)),
        token_at(signed_int_text(n as int, plus), 0, rd) == Some((Val::Integer(n), signed_int_text(n as int, plus).len() as int)),
{
    let t = signed_int_text(n as int, plus);
    let m: nat = if n < 0 { (-n) as nat } else { n as nat };
    lemma_digits_text(m);
    let d = digits_text(m);
    let start: int = if n < 0 || plus { 1 } else { 0 };
    assert forall|j: int| start <= j < t.len() implies is_digit(#[trigger] t[j]) by {
        assert(t[j] == d[j - start]);
    }
    lemma_run_to_end(t, start);
    assert(literal_at(t, 0) is None);
    assert(signed_digits_end(t, 0) == Some(t.len() as int));
    assert(floating_point_end(t, 0) is None);
    assert(t.subrange(0, t.len() as int) =~= t);
    if start == 1 {
        assert(t.drop_first() =~= d);
    } else {
        assert(t =~= d);
    }
    assert(signed_value(t) == n as int);
}

/// Parsing the textual form of an integer gives back that integer.
pub proof fn lemma_integer_round_trip(n: i32, rd: Reader)
    ensures
        program_of(int_text(n as int), rd) == Some(seq![Val::Integer(n)]),
{
    lemma_integer_token(n, false, rd);
    lemma_single_token(int_text(n as int), rd, Val::Integer(n));
}

/// Decimal text: signed digits, a dot, and one or more digits.
pub open spec fn is_decimal_text(t: Seq<char>, dot: int) -> bool {
    &&& 0 <= dot < t.len() - 1
    &&& t[dot] == '.'
    &&& (if t[0] == '+' || t[0] == '-' { 1int } else { 0int }) < dot
    &&& t[0] == '+' || t[0] == '-' || is_digit(t[0])
    &&& forall|j: int| 0 < j < t.len() && j != dot ==> is_digit(#[trigger] t[j])
}

/// Decimal text is handed whole to the decimal reader, and what the reader gives is the token:
/// the round trip of a decimal holds exactly when the reader reads its own text back.
pub proof fn lemma_decimal_token(t: Seq<char>, dot: int, rd: Reader)
    requires
        is_decimal_text(t, dot),
    ensures
        token_at(t, 0, rd) == match rd(t) {
            Some(bits) => Some((Val::Decimal(bits), t.len() as int)),
            None => None::<(Val, int)>,
        },
        rd(t) matches Some(bits) ==> program_of(t, rd) == Some(seq![Val::Decimal(bits)]),
{
    let start: int = if t[0] == '+' || t[0] == '-' { 1 } else { 0 };
    let front = t.take(dot);
    assert forall|j: int| start <= j < front.len() implies is_digit(#[trigger] front[j]) by {
        assert(front[j] == t[j]);
    }
    lemma_run_to_end(front, start);
    lemma_run_prefix(t, start, dot);
    lemma_run_to_end(t, dot + 1);
    assert(literal_at(t, 0) is None);
    assert(signed_digits_end(t, 0) == Some(dot));
    assert(floating_point_end(t, 0) == Some(t.len() as int));
    assert(t.subrange(0, t.len() as int) =~= t);
    if let Some(bits) = rd(t) {
        lemma_single_token(t, rd, Val::Decimal(bits));
    }
}

/// A run of digits in a prefix ends where it ends in the whole text, when the character after
/// the prefix is no digit.
proof fn lemma_run_prefix(t: Seq<char>, i: int, k: int)
    requires
        0 <= i <= k < t.len(),
        !is_digit(t[k]),
        run_end(t.take(k), i, class_fn(CharClass::Digit)) == k,
    ensures
        run_end(t, i, class_fn(CharClass::Digit)) == k,
    decreases k - i,
{
    if i < k {
        assert(t.take(k)[i] == t[i]);
        lemma_run_prefix(t, i + 1, k);
    }
}

/// Parsing the textual form of a Boolean gives back that Boolean, as a token and as a program.
pub proof fn lemma_boolean_round_trip(b: bool, rd: Reader)
    ensures
        token_at(bool_text(b), 0, rd) == Some((Val::Boolean(b), bool_text(b).len() as int)),
        program_of(bool_text(b), rd) == Some(seq![Val::Boolean(b)]),
{
    let t = bool_text(b);
    assert(literal_at(t, 0) is None);
    assert(run_end(t, 0, class_fn(CharClass::Digit)) == 0);
    assert(signed_digits_end(t, 0) is None);
    assert(floating_point_end(t, 0) is None);
    if b {
        assert(t.subrange(0, 4) =~= seq!['t', 'r', 'u', 'e']);
        assert(has_word_at(t, 0, seq!['t', 'r', 'u', 'e']));
    } else {
        assert(t.subrange(0, 4) != seq!['t', 'r', 'u', 'e']) by {
            assert(t.subrange(0, 4)[0] == 'f');
        }
        assert(t.subrange(0, 5) =~= seq!['f', 'a', 'l', 's', 'e']);
    }
    assert(boolean_at(t, 0) == Some((Val::Boolean(b), t.len() as int)));
    lemma_single_token(t, rd, Val::Boolean(b));
}

/// A program of one value that is not a symbol pushes exactly that value.
pub proof fn lemma_self_evaluation(v: Val, s: Seq<Val>, env: Words, dec: Decimals, fuel: nat)
    requires
        !(v is Symbol),
        fuel >= 1,
    ensures
        eval(seq![v], s, env, dec, fuel) == (s.push(v), Outcome::Finished),
{
    reveal_with_fuel(eval, 2);
    assert(seq![v].drop_first() =~= Seq::<Val>::empty());
}

/// Pushing a quotation runs none of what it holds, whatever that is: the rest of the program
/// goes on with the quotation on the stack, as it was written.
pub proof fn lemma_quotation_opaque(q: Seq<Val>, rest: Seq<Val>, s: Seq<Val>, env: Words, dec: Decimals, fuel: nat)
    ensures
        eval(seq![Val::Quotation(q)] + rest, s, env, dec, fuel + 1) == eval(rest, s.push(Val::Quotation(q)), env, dec, fuel),
{
    assert((seq![Val::Quotation(q)] + rest).drop_first() =~= rest);
}

/// After `dup` the top two elements of the stack are equal, and the rest is as it was.
pub proof fn lemma_dup(s: Seq<Val>, env: Words, dec: Decimals, fuel: nat)
    requires
        s.len() >= 1,
    ensures
        ({
            let r = eval(seq![word(Builtin::Dup)], s, env, dec, fuel + 1);
            &&& r.1 == Outcome::Finished
            &&& r.0.len() == s.len() + 1
            &&& r.0[r.0.len() - 1] == r.0[r.0.len() - 2]
            &&& r.0.take(s.len() as int) == s
        }),
{
    lemma_builtin_named(Builtin::Dup);
    reveal_with_fuel(eval, 2);
    assert(seq![word(Builtin::Dup)].drop_first() =~= Seq::<Val>::empty());
    let r = eval(seq![word(Builtin::Dup)], s, env, dec, fuel + 1);
    assert(r.0 == s.push(s.last()));
    assert(r.0.take(s.len() as int) =~= s);
}

/// `swap swap` leaves a stack of two or more elements as it was.
pub proof fn lemma_swap_swap(s: Seq<Val>, env: Words, dec: Decimals, fuel: nat)
    requires
        s.len() >= 2,
    ensures
        eval(seq![word(Builtin::Swap), word(Builtin::Swap)], s, env, dec, fuel + 2) == (s, Outcome::Finished),
{
    lemma_builtin_named(Builtin::Swap);
    reveal_with_fuel(eval, 3);
    let p = seq![word(Builtin::Swap), word(Builtin::Swap)];
    assert(p.drop_first() =~= seq![word(Builtin::Swap)]);
    assert(seq![word(Builtin::Swap)].drop_first() =~= Seq::<Val>::empty());
    let n = s.len() as int;
    let s1 = below(s, 2).push(s[n - 1]).push(s[n - 2]);
    assert(below(s1, 2) =~= below(s, 2));
    assert(below(s1, 2).push(s1[n - 1]).push(s1[n - 2]) =~= s);
}

/// `q i` has the effect of the contents of `q` written in its place.
pub proof fn lemma_apply_splices(q: Seq<Val>, rest: Seq<Val>, s: Seq<Val>, env: Words, dec: Decimals, fuel: nat)
    ensures
        eval(seq![Val::Quotation(q), word(Builtin::Apply)] + rest, s, env, dec, fuel + 2) == eval(q + rest, s, env, dec, fuel),
{
    lemma_builtin_named(Builtin::Apply);
    reveal_with_fuel(eval, 2);
    let p = seq![Val::Quotation(q), word(Builtin::Apply)] + rest;
    assert(p.drop_first() =~= seq![word(Builtin::Apply)] + rest);
    assert((seq![word(Builtin::Apply)] + rest).drop_first() =~= rest);
    assert(below(s.push(Val::Quotation(q)), 1) =~= s);
}

/// `x p dip` runs `p` on the stack below `x` and then puts `x` back on top; when `p` stops
/// early, so does the program.
pub proof fn lemma_dip(x: Val, p: Seq<Val>, rest: Seq<Val>, s: Seq<Val>, env: Words, dec: Decimals, fuel: nat)
    requires
        !(x is Symbol),
    ensures
        eval(seq![x, Val::Quotation(p), word(Builtin::Dip)] + rest, s, env, dec, fuel + 3) == ({
            let r = eval(p, s, env, dec, fuel);
            if unfinished(r) {
                r
            } else {
                eval(rest, r.0.push(x), env, dec, fuel)
            }
        }),
{
    lemma_builtin_named(Builtin::Dip);
    reveal_with_fuel(eval, 3);
    let prog = seq![x, Val::Quotation(p), word(Builtin::Dip)] + rest;
    assert(prog.drop_first() =~= seq![Val::Quotation(p), word(Builtin::Dip)] + rest);
    assert((seq![Val::Quotation(p), word(Builtin::Dip)] + rest).drop_first() =~= seq![word(Builtin::Dip)] + rest);
    assert((seq![word(Builtin::Dip)] + rest).drop_first() =~= rest);
    let s2 = s.push(x).push(Val::Quotation(p));
    assert(below(s2, 2) =~= s);
    let f = fuel;
    assert(eval(prog, s, env, dec, f + 3) == eval(seq![Val::Quotation(p), word(Builtin::Dip)] + rest, s.push(x), env, dec, f + 2));
    assert(eval(seq![Val::Quotation(p), word(Builtin::Dip)] + rest, s.push(x), env, dec, f + 2) == eval(seq![word(Builtin::Dip)] + rest, s2, env, dec, f + 1));
    let r = word_effect(Builtin::Dip, s2, env, dec, f);
    assert(eval(seq![word(Builtin::Dip)] + rest, s2, env, dec, f + 1) == (if unfinished(r) { r } else { eval(rest, r.0, env, dec, f) }));
}

/// What `c t e ifte` does: the predicate `c` runs on a copy of the stack, and whatever it does,
/// the stack handed on, to the branch or with a failure, is the stack below the operands.
pub open spec fn ifte_result(c: Seq<Val>, t: Seq<Val>, e: Seq<Val>, rest: Seq<Val>, s: Seq<Val>, env: Words, dec: Decimals, fuel: nat) -> (Seq<Val>, Outcome) {
    let cr = eval(c, s, env, dec, fuel);
    if unfinished(cr) {
        (s, cr.1)
    } else if cr.0.len() == 0 {
        (s, Outcome::Failed(Fault::Underflow(Builtin::Ifte)))
    } else {
        match cr.0.last() {
            Val::Boolean(b) => {
                let r = eval(if b { t } else { e }, s, env, dec, fuel);
                if unfinished(r) {
                    r
                } else {
                    eval(rest, r.0, env, dec, fuel)
                }
            },
            _ => (s, Outcome::Failed(Fault::Type(Builtin::Ifte))),
        }
    }
}

/// The predicate of `ifte` has no effect on the main stack.
pub proof fn lemma_ifte_predicate_pure(c: Seq<Val>, t: Seq<Val>, e: Seq<Val>, rest: Seq<Val>, s: Seq<Val>, env: Words, dec: Decimals, fuel: nat)
    ensures
        eval(
            seq![Val::Quotation(c), Val::Quotation(t), Val::Quotation(e), word(Builtin::Ifte)] + rest,
            s,
            env,
            dec,
            fuel + 4,
        ) == ifte_result(c, t, e, rest, s, env, dec, fuel),
{
    lemma_builtin_named(Builtin::Ifte);
    reveal_with_fuel(eval, 4);
    let (qc, qt, qe, w) = (Val::Quotation(c), Val::Quotation(t), Val::Quotation(e), word(Builtin::Ifte));
    assert((seq![qc, qt, qe, w] + rest).drop_first() =~= seq![qt, qe, w] + rest);
    assert((seq![qt, qe, w] + rest).drop_first() =~= seq![qe, w] + rest);
    assert((seq![qe, w] + rest).drop_first() =~= seq![w] + rest);
    assert((seq![w] + rest).drop_first() =~= rest);
    let s3 = s.push(qc).push(qt).push(qe);
    assert(below(s3, 3) =~= s);
    let f = fuel;
    assert(eval(seq![qc, qt, qe, w] + rest, s, env, dec, f + 4) == eval(seq![qt, qe, w] + rest, s.push(qc), env, dec, f + 3));
    assert(eval(seq![qt, qe, w] + rest, s.push(qc), env, dec, f + 3) == eval(seq![qe, w] + rest, s.push(qc).push(qt), env, dec, f + 2));
    assert(eval(seq![qe, w] + rest, s.push(qc).push(qt), env, dec, f + 2) == eval(seq![w] + rest, s3, env, dec, f + 1));
    let r = word_effect(Builtin::Ifte, s3, env, dec, f);
    assert(eval(seq![w] + rest, s3, env, dec, f + 1) == (if unfinished(r) { r } else { eval(rest, r.0, env, dec, f) }));
}

proof fn lemma_map_each_len(xs: Seq<Val>, p: Seq<Val>, env: Words, dec: Decimals, f: nat)
    ensures
        map_each(xs, p, env, dec, f) matches Ok(ys) ==> ys.len() == xs.len(),
        map_each(xs, p, env, dec, f) matches Err(o) ==> !(o is Finished),
    decreases xs.len(),
{
    if xs.len() > 0 {
        lemma_map_each_len(xs.drop_first(), p, env, dec, f);
    }
}

/// When `xs p map` finishes, the quotation it leaves has as many elements as `xs`.
pub proof fn lemma_map_length(xs: Seq<Val>, p: Seq<Val>, s: Seq<Val>, env: Words, dec: Decimals, fuel: nat)
    ensures
        ({
            let r = eval(seq![Val::Quotation(xs), Val::Quotation(p), word(Builtin::MapEach)], s, env, dec, fuel + 3);
            r.1 == Outcome::Finished ==> (r.0.len() == s.len() + 1 && (r.0.last() matches Val::Quotation(ys)
                && ys.len() == xs.len()))
        }),
{
    lemma_builtin_named(Builtin::MapEach);
    reveal_with_fuel(eval, 4);
    let (qx, qp, w) = (Val::Quotation(xs), Val::Quotation(p), word(Builtin::MapEach));
    assert(seq![qx, qp, w].drop_first() =~= seq![qp, w]);
    assert(seq![qp, w].drop_first() =~= seq![w]);
    assert(seq![w].drop_first() =~= Seq::<Val>::empty());
    let s2 = s.push(qx).push(qp);
    assert(below(s2, 2) =~= s);
    let f = fuel;
    assert(eval(seq![qx, qp, w], s, env, dec, f + 3) == eval(seq![qp, w], s.push(qx), env, dec, f + 2));
    assert(eval(seq![qp, w], s.push(qx), env, dec, f + 2) == eval(seq![w], s2, env, dec, f + 1));
    let r = word_effect(Builtin::MapEach, s2, env, dec, f);
    assert(eval(seq![w], s2, env, dec, f + 1) == (if unfinished(r) { r } else { eval(Seq::<Val>::empty(), r.0, env, dec, f) }));
    lemma_map_each_len(xs, p, env, dec, fuel);
}

/// `a` is an order-preserving subsequence of `b`: the elements of `a` stand in `b` at
/// increasing positions.
pub open spec fn is_subsequence(a: Seq<Val>, b: Seq<Val>) -> bool {
    exists|idx: Seq<int>| #[trigger] picks(idx, a, b)
}

/// `idx` gives, for each element of `a`, a position of `b` that holds it, in increasing order.
pub open spec fn picks(idx: Seq<int>, a: Seq<Val>, b: Seq<Val>) -> bool {
    &&& idx.len() == a.len()
    &&& forall|k: int| 0 <= k < a.len() ==> 0 <= #[trigger] idx[k] < b.len() && b[idx[k]] == a[k]
    &&& forall|k: int, l: int| 0 <= k < l < a.len() ==> #[trigger] idx[k] < #[trigger] idx[l]
}

proof fn lemma_filter_each_subsequence(xs: Seq<Val>, p: Seq<Val>, s: Seq<Val>, env: Words, dec: Decimals, f: nat)
    ensures
        filter_each(xs, p, s, env, dec, f).1 matches Ok(ys) ==> is_subsequence(ys, xs),
        filter_each(xs, p, s, env, dec, f).1 matches Err(o) ==> !(o is Finished),
    decreases xs.len(),
{
    if xs.len() == 0 {
        assert(picks(Seq::<int>::empty(), Seq::<Val>::empty(), xs));
    } else {
        let r = eval(p, s.push(xs[0]), env, dec, f);
        if !unfinished(r) && r.0.len() > 0 {
            if let Val::Boolean(keep) = r.0.last() {
                let tail = xs.drop_first();
                lemma_filter_each_subsequence(tail, p, r.0.drop_last(), env, dec, f);
                let t = filter_each(tail, p, r.0.drop_last(), env, dec, f);
                if let Ok(zs) = t.1 {
                    let idx0 = choose|idx: Seq<int>| #[trigger] picks(idx, zs, tail);
                    let shifted = Seq::new(idx0.len(), |k: int| idx0[k] + 1);
                    if keep {
                        let ys = seq![xs[0]] + zs;
                        let idx = seq![0int] + shifted;
                        assert forall|k: int| 0 <= k < ys.len() implies 0 <= #[trigger] idx[k] < xs.len() && xs[idx[k]] == ys[k] by {
                            if k > 0 {
                                assert(idx[k] == idx0[k - 1] + 1);
                                assert(tail[idx0[k - 1]] == zs[k - 1]);
                            }
                        }
                        assert forall|k: int, l: int| 0 <= k < l < ys.len() implies #[trigger] idx[k] < #[trigger] idx[l] by {
                            if k > 0 {
                                assert(idx0[k - 1] < idx0[l - 1]);
                            } else {
                                assert(0 <= idx0[l - 1]);
                            }
                        }
                        assert(picks(idx, ys, xs));
                    } else {
                        assert forall|k: int| 0 <= k < zs.len() implies 0 <= #[trigger] shifted[k] < xs.len() && xs[shifted[k]] == zs[k] by {
                            assert(tail[idx0[k]] == zs[k]);
                        }
                        assert forall|k: int, l: int| 0 <= k < l < zs.len() implies #[trigger] shifted[k] < #[trigger] shifted[l] by {
                            assert(idx0[k] < idx0[l]);
                        }
                        assert(picks(shifted, zs, xs));
                    }
                }
            }
        }
    }
}

/// When `xs p filter` finishes, the quotation it leaves is an order-preserving subsequence of
/// `xs`.
pub proof fn lemma_filter_subsequence(xs: Seq<Val>, p: Seq<Val>, s: Seq<Val>, env: Words, dec: Decimals, fuel: nat)
    ensures
        ({
            let r = eval(seq![Val::Quotation(xs), Val::Quotation(p), word(Builtin::Filter)], s, env, dec, fuel + 3);
            r.1 == Outcome::Finished ==> (r.0.len() > 0 && (r.0.last() matches Val::Quotation(ys)
                && is_subsequence(ys, xs)))
        }),
{
    lemma_builtin_named(Builtin::Filter);
    reveal_with_fuel(eval, 4);
    let (qx, qp, w) = (Val::Quotation(xs), Val::Quotation(p), word(Builtin::Filter));
    assert(seq![qx, qp, w].drop_first() =~= seq![qp, w]);
    assert(seq![qp, w].drop_first() =~= seq![w]);
    assert(seq![w].drop_first() =~= Seq::<Val>::empty());
    let s2 = s.push(qx).push(qp);
    assert(below(s2, 2) =~= s);
    let f = fuel;
    assert(eval(seq![qx, qp, w], s, env, dec, f + 3) == eval(seq![qp, w], s.push(qx), env, dec, f + 2));
    assert(eval(seq![qp, w], s.push(qx), env, dec, f + 2) == eval(seq![w], s2, env, dec, f + 1));
    let r = word_effect(Builtin::Filter, s2, env, dec, f);
    assert(eval(seq![w], s2, env, dec, f + 1) == (if unfinished(r) { r } else { eval(Seq::<Val>::empty(), r.0, env, dec, f) }));
    lemma_filter_each_subsequence(xs, p, s, env, dec, fuel);
}

/// The evaluation ran out of steps.
pub open spec fn exhausted(o: Outcome) -> bool {
    o == Outcome::Failed(Fault::Exhausted)
}

/// More steps change nothing in an evaluation that did not run out of them.
pub proof fn lemma_eval_fuel(p: Seq<Val>, s: Seq<Val>, env: Words, dec: Decimals, f: nat, g: nat)
    requires
        f <= g,
        !exhausted(eval(p, s, env, dec, f).1),
    ensures
        eval(p, s, env, dec, g) == eval(p, s, env, dec, f),
    decreases f, 0nat, 0nat,
{
    if p.len() > 0 {
        let f1 = (f - 1) as nat;
        let g1 = (g - 1) as nat;
        let rest = p.drop_first();
        match p[0] {
            Val::Symbol(name) => match builtin_named(name) {
                Some(Builtin::Apply) => {
                    if s.len() >= 1 && is_quotation(nth_top(s, 0)) {
                        lemma_eval_fuel(quoted(nth_top(s, 0)) + rest, below(s, 1), env, dec, f1, g1);
                    }
                },
                Some(b) => {
                    lemma_word_fuel(b, s, env, dec, f1, g1);
                    let r = word_effect(b, s, env, dec, f1);
                    if !unfinished(r) {
                        lemma_eval_fuel(rest, r.0, env, dec, f1, g1);
                    }
                },
                None => {
                    if env.contains_key(name) {
                        lemma_eval_fuel(env[name], s, env, dec, f1, g1);
                        let r = eval(env[name], s, env, dec, f1);
                        if !unfinished(r) {
                            lemma_eval_fuel(rest, r.0, env, dec, f1, g1);
                        }
                    }
                },
            },
            v => {
                lemma_eval_fuel(rest, s.push(v), env, dec, f1, g1);
            },
        }
    }
}

/// More steps change nothing in a built-in word that did not run out of them.
pub proof fn lemma_word_fuel(b: Builtin, s: Seq<Val>, env: Words, dec: Decimals, f: nat, g: nat)
    requires
        f <= g,
        !exhausted(word_effect(b, s, env, dec, f).1),
    ensures
        word_effect(b, s, env, dec, g) == word_effect(b, s, env, dec, f),
    decreases f, 2nat, 0nat,
{
    let n = s.len();
    match b {
        Builtin::Dip => {
            if n >= 2 && is_quotation(nth_top(s, 0)) {
                lemma_eval_fuel(quoted(nth_top(s, 0)), below(s, 2), env, dec, f, g);
            }
        },
        Builtin::Ifte => {
            if n >= 3 && is_quotation(nth_top(s, 0)) && is_quotation(nth_top(s, 1)) && is_quotation(nth_top(s, 2)) {
                let base = below(s, 3);
                lemma_eval_fuel(quoted(nth_top(s, 2)), base, env, dec, f, g);
                let c = eval(quoted(nth_top(s, 2)), base, env, dec, f);
                if !unfinished(c) && c.0.len() > 0 {
                    if let Val::Boolean(t) = c.0.last() {
                        let branch = if t { quoted(nth_top(s, 1)) } else { quoted(nth_top(s, 0)) };
                        lemma_eval_fuel(branch, base, env, dec, f, g);
                    }
                }
            }
        },
        Builtin::MapEach => {
            if n >= 2 && is_quotation(nth_top(s, 0)) && is_quotation(nth_top(s, 1)) {
                lemma_map_fuel(quoted(nth_top(s, 1)), quoted(nth_top(s, 0)), env, dec, f, g);
            }
        },
        Builtin::Filter => {
            if n >= 2 && is_quotation(nth_top(s, 0)) && is_quotation(nth_top(s, 1)) {
                lemma_filter_fuel(quoted(nth_top(s, 1)), quoted(nth_top(s, 0)), below(s, 2), env, dec, f, g);
            }
        },
        Builtin::Fold => {
            if n >= 3 && is_quotation(nth_top(s, 0)) && is_quotation(nth_top(s, 1)) && is_quotation(nth_top(s, 2)) {
                let program = quoted(nth_top(s, 1)) + fold_body(quoted(nth_top(s, 2)), quoted(nth_top(s, 0)));
                lemma_eval_fuel(program, below(s, 3), env, dec, f, g);
            }
        },
        _ => {},
    }
}

proof fn lemma_map_fuel(xs: Seq<Val>, p: Seq<Val>, env: Words, dec: Decimals, f: nat, g: nat)
    requires
        f <= g,
        map_each(xs, p, env, dec, f) != Err::<Seq<Val>, Outcome>(Outcome::Failed(Fault::Exhausted)),
    ensures
        map_each(xs, p, env, dec, g) == map_each(xs, p, env, dec, f),
    decreases f, 1nat, xs.len(),
{
    if xs.len() > 0 {
        lemma_eval_fuel(p, seq![xs[0]], env, dec, f, g);
        let r = eval(p, seq![xs[0]], env, dec, f);
        if !unfinished(r) && r.0.len() > 0 {
            lemma_map_fuel(xs.drop_first(), p, env, dec, f, g);
        }
    }
}

proof fn lemma_filter_fuel(xs: Seq<Val>, p: Seq<Val>, s: Seq<Val>, env: Words, dec: Decimals, f: nat, g: nat)
    requires
        f <= g,
        filter_each(xs, p, s, env, dec, f).1 != Err::<Seq<Val>, Outcome>(Outcome::Failed(Fault::Exhausted)),
    ensures
        filter_each(xs, p, s, env, dec, g) == filter_each(xs, p, s, env, dec, f),
    decreases f, 1nat, xs.len(),
{
    if xs.len() > 0 {
        lemma_eval_fuel(p, s.push(xs[0]), env, dec, f, g);
        let r = eval(p, s.push(xs[0]), env, dec, f);
        if !unfinished(r) && r.0.len() > 0 {
            if let Val::Boolean(keep) = r.0.last() {
                lemma_filter_fuel(xs.drop_first(), p, r.0.drop_last(), env, dec, f, g);
            }
        }
    }
}

/// Wherever `q i` stands in a program, it has the effect of the contents of `q` written in its
/// place: the contents run next, in order, against the outer stack. The spliced program is
/// given two steps fewer, and the law holds of every run of it that does not run out of steps.
pub proof fn lemma_apply_splices_anywhere(pre: Seq<Val>, q: Seq<Val>, rest: Seq<Val>, s: Seq<Val>, env: Words, dec: Decimals, fuel: nat)
    requires
        !exhausted(eval(pre + q + rest, s, env, dec, fuel).1),
    ensures
        eval(pre + seq![Val::Quotation(q), word(Builtin::Apply)] + rest, s, env, dec, fuel + 2)
            == eval(pre + q + rest, s, env, dec, fuel),
    decreases fuel,
{
    let tail = seq![Val::Quotation(q), word(Builtin::Apply)] + rest;
    let left = pre + seq![Val::Quotation(q), word(Builtin::Apply)] + rest;
    let right = pre + q + rest;
    if pre.len() == 0 {
        assert(left =~= tail);
        assert(right =~= q + rest);
        lemma_apply_splices(q, rest, s, env, dec, fuel);
    } else {
        let f1 = (fuel - 1) as nat;
        let pre1 = pre.drop_first();
        assert(left[0] == pre[0]);
        assert(right[0] == pre[0]);
        assert(left.drop_first() =~= pre1 + seq![Val::Quotation(q), word(Builtin::Apply)] + rest);
        assert(right.drop_first() =~= pre1 + q + rest);
        match pre[0] {
            Val::Symbol(name) => match builtin_named(name) {
                Some(Builtin::Apply) => {
                    if s.len() >= 1 && is_quotation(nth_top(s, 0)) {
                        let q2 = quoted(nth_top(s, 0));
                        assert(q2 + (pre1 + seq![Val::Quotation(q), word(Builtin::Apply)] + rest)
                            =~= (q2 + pre1) + seq![Val::Quotation(q), word(Builtin::Apply)] + rest);
                        assert(q2 + (pre1 + q + rest) =~= (q2 + pre1) + q + rest);
                        lemma_apply_splices_anywhere(q2 + pre1, q, rest, below(s, 1), env, dec, f1);
                    }
                },
                Some(b) => {
                    lemma_word_fuel(b, s, env, dec, f1, f1 + 2);
                    let r = word_effect(b, s, env, dec, f1);
                    if !unfinished(r) {
                        lemma_apply_splices_anywhere(pre1, q, rest, r.0, env, dec, f1);
                    }
                },
                None => {
                    if env.contains_key(name) {
                        lemma_eval_fuel(env[name], s, env, dec, f1, f1 + 2);
                        let r = eval(env[name], s, env, dec, f1);
                        if !unfinished(r) {
                            lemma_apply_splices_anywhere(pre1, q, rest, r.0, env, dec, f1);
                        }
                    }
                },
            },
            v => {
                lemma_apply_splices_anywhere(pre1, q, rest, s.push(v), env, dec, f1);
            },
        }
    }
}

/// The evaluation failed for want of operands: it reached below the stack it was given.
pub open spec fn underflowed(o: Outcome) -> bool {
    o matches Outcome::Failed(Fault::Underflow(_))
}

proof fn lemma_frame_stack(lo: Seq<Val>, s: Seq<Val>)
    ensures
        forall|k: int| 0 <= k < s.len() ==> #[trigger] nth_top(lo + s, k) == nth_top(s, k),
        forall|n: int| 0 <= n <= s.len() ==> #[trigger] below(lo + s, n) == lo + below(s, n),
        forall|x: Seq<Val>, a: Val| #[trigger] (lo + x).push(a) == lo + x.push(a),
        forall|x: Seq<Val>| x.len() > 0 ==> #[trigger] (lo + x).drop_last() == lo + x.drop_last(),
        forall|x: Seq<Val>| x.len() > 0 ==> #[trigger] (lo + x).last() == x.last(),
{
    assert forall|k: int| 0 <= k < s.len() implies #[trigger] nth_top(lo + s, k) == nth_top(s, k) by {
        assert((lo + s)[lo.len() + s.len() - 1 - k] == s[s.len() - 1 - k]);
    }
    assert forall|n: int| 0 <= n <= s.len() implies #[trigger] below(lo + s, n) == lo + below(s, n) by {
        assert(below(lo + s, n) =~= lo + below(s, n));
    }
    assert forall|x: Seq<Val>, a: Val| #[trigger] (lo + x).push(a) == lo + x.push(a) by {
        assert((lo + x).push(a) =~= lo + x.push(a));
    }
    assert forall|x: Seq<Val>| x.len() > 0 implies #[trigger] (lo + x).drop_last() == lo + x.drop_last() by {
        assert((lo + x).drop_last() =~= lo + x.drop_last());
    }
}

/// What lies below the part of the stack that a run reaches plays no part in it: a run that
/// does not underflow on `s` does the same on `lo + s`, and leaves `lo` as it was.
pub proof fn lemma_eval_frame(p: Seq<Val>, lo: Seq<Val>, s: Seq<Val>, env: Words, dec: Decimals, f: nat)
    requires
        !underflowed(eval(p, s, env, dec, f).1),
    ensures
        eval(p, lo + s, env, dec, f) == (lo + eval(p, s, env, dec, f).0, eval(p, s, env, dec, f).1),
    decreases f, 0nat, 0nat,
{
    lemma_frame_stack(lo, s);
    if p.len() > 0 && f > 0 {
        let f1 = (f - 1) as nat;
        let rest = p.drop_first();
        match p[0] {
            Val::Symbol(name) => match builtin_named(name) {
                Some(Builtin::Apply) => {
                    if s.len() >= 1 && is_quotation(nth_top(s, 0)) {
                        lemma_eval_frame(quoted(nth_top(s, 0)) + rest, lo, below(s, 1), env, dec, f1);
                    }
                },
                Some(b) => {
                    lemma_word_frame(b, lo, s, env, dec, f1);
                    let r = word_effect(b, s, env, dec, f1);
                    if !unfinished(r) {
                        lemma_eval_frame(rest, lo, r.0, env, dec, f1);
                    }
                },
                None => {
                    if env.contains_key(name) {
                        lemma_eval_frame(env[name], lo, s, env, dec, f1);
                        let r = eval(env[name], s, env, dec, f1);
                        if !unfinished(r) {
                            lemma_eval_frame(rest, lo, r.0, env, dec, f1);
                        }
                    }
                },
            },
            v => {
                lemma_eval_frame(rest, lo, s.push(v), env, dec, f1);
            },
        }
    }
}

/// A built-in word that does not underflow on `s` does the same on `lo + s`.
pub proof fn lemma_word_frame(b: Builtin, lo: Seq<Val>, s: Seq<Val>, env: Words, dec: Decimals, f: nat)
    requires
        !underflowed(word_effect(b, s, env, dec, f).1),
    ensures
        word_effect(b, lo + s, env, dec, f) == (lo + word_effect(b, s, env, dec, f).0, word_effect(b, s, env, dec, f).1),
    decreases f, 2nat, 0nat,
{
    lemma_frame_stack(lo, s);
    let n = s.len();
    if is_stack_word(b) {
        if n >= 2 {
            assert(below(lo + s, 2) == lo + below(s, 2));
            assert(nth_top(lo + s, 1) == nth_top(s, 1));
        }
        if n >= 1 {
            assert(below(lo + s, 1) == lo + below(s, 1));
            assert(nth_top(lo + s, 0) == nth_top(s, 0));
        }
        assert((lo + s).push(nth_top(s, 0)) == lo + s.push(nth_top(s, 0)));
    } else {
        match b {
            Builtin::Dip => {
                if n >= 2 && is_quotation(nth_top(s, 0)) {
                    assert(nth_top(lo + s, 0) == nth_top(s, 0));
                    assert(nth_top(lo + s, 1) == nth_top(s, 1));
                    assert(below(lo + s, 2) == lo + below(s, 2));
                    lemma_eval_frame(quoted(nth_top(s, 0)), lo, below(s, 2), env, dec, f);
                    let r = eval(quoted(nth_top(s, 0)), below(s, 2), env, dec, f);
                    assert((lo + r.0).push(nth_top(s, 1)) == lo + r.0.push(nth_top(s, 1)));
                }
            },
            Builtin::Ifte => {
                if n >= 3 && is_quotation(nth_top(s, 0)) && is_quotation(nth_top(s, 1)) && is_quotation(nth_top(s, 2)) {
                    assert(nth_top(lo + s, 0) == nth_top(s, 0));
                    assert(nth_top(lo + s, 1) == nth_top(s, 1));
                    assert(nth_top(lo + s, 2) == nth_top(s, 2));
                    let base = below(s, 3);
                    assert(below(lo + s, 3) == lo + base);
                    lemma_eval_frame(quoted(nth_top(s, 2)), lo, base, env, dec, f);
                    let c = eval(quoted(nth_top(s, 2)), base, env, dec, f);
                    if !unfinished(c) && c.0.len() > 0 {
                        assert((lo + c.0).last() == c.0.last());
                        if let Val::Boolean(t) = c.0.last() {
                            let branch = if t { quoted(nth_top(s, 1)) } else { quoted(nth_top(s, 0)) };
                            lemma_eval_frame(branch, lo, base, env, dec, f);
                        }
                    }
                } else if n >= 3 {
                    assert(nth_top(lo + s, 0) == nth_top(s, 0));
                    assert(nth_top(lo + s, 1) == nth_top(s, 1));
                    assert(nth_top(lo + s, 2) == nth_top(s, 2));
                }
            },
            Builtin::MapEach => {
                if n >= 2 {
                    assert(nth_top(lo + s, 0) == nth_top(s, 0));
                    assert(nth_top(lo + s, 1) == nth_top(s, 1));
                    assert(below(lo + s, 2) == lo + below(s, 2));
                    let ys = map_each(quoted(nth_top(s, 1)), quoted(nth_top(s, 0)), env, dec, f);
                    if let Ok(zs) = ys {
                        assert((lo + below(s, 2)).push(Val::Quotation(zs)) == lo + below(s, 2).push(Val::Quotation(zs)));
                    }
                }
            },
            Builtin::Filter => {
                if n >= 2 {
                    assert(nth_top(lo + s, 0) == nth_top(s, 0));
                    assert(nth_top(lo + s, 1) == nth_top(s, 1));
                    assert(below(lo + s, 2) == lo + below(s, 2));
                    if is_quotation(nth_top(s, 0)) && is_quotation(nth_top(s, 1)) {
                        lemma_filter_frame(quoted(nth_top(s, 1)), quoted(nth_top(s, 0)), lo, below(s, 2), env, dec, f);
                        let r = filter_each(quoted(nth_top(s, 1)), quoted(nth_top(s, 0)), below(s, 2), env, dec, f);
                        if let Ok(zs) = r.1 {
                            assert((lo + r.0).push(Val::Quotation(zs)) == lo + r.0.push(Val::Quotation(zs)));
                        }
                    }
                }
            },
            Builtin::Fold => {
                if n >= 3 {
                    assert(nth_top(lo + s, 0) == nth_top(s, 0));
                    assert(nth_top(lo + s, 1) == nth_top(s, 1));
                    assert(nth_top(lo + s, 2) == nth_top(s, 2));
                    assert(below(lo + s, 3) == lo + below(s, 3));
                    if is_quotation(nth_top(s, 0)) && is_quotation(nth_top(s, 1)) && is_quotation(nth_top(s, 2)) {
                        let program = quoted(nth_top(s, 1)) + fold_body(quoted(nth_top(s, 2)), quoted(nth_top(s, 0)));
                        lemma_eval_frame(program, lo, below(s, 3), env, dec, f);
                    }
                }
            },
            _ => {},
        }
    }
}

proof fn lemma_filter_frame(xs: Seq<Val>, p: Seq<Val>, lo: Seq<Val>, s: Seq<Val>, env: Words, dec: Decimals, f: nat)
    requires
        !(filter_each(xs, p, s, env, dec, f).1 matches Err(o) && underflowed(o)),
    ensures
        filter_each(xs, p, lo + s, env, dec, f) == (lo + filter_each(xs, p, s, env, dec, f).0, filter_each(xs, p, s, env, dec, f).1),
    decreases f, 1nat, xs.len(),
{
    lemma_frame_stack(lo, s);
    if xs.len() > 0 {
        assert((lo + s).push(xs[0]) == lo + s.push(xs[0]));
        lemma_eval_frame(p, lo, s.push(xs[0]), env, dec, f);
        let r = eval(p, s.push(xs[0]), env, dec, f);
        lemma_frame_stack(lo, r.0);
        if !unfinished(r) && r.0.len() > 0 {
            assert((lo + r.0).last() == r.0.last());
            assert((lo + r.0).drop_last() == lo + r.0.drop_last());
            if let Val::Boolean(keep) = r.0.last() {
                lemma_filter_frame(xs.drop_first(), p, lo, r.0.drop_last(), env, dec, f);
            }
        }
    }
}

/// A quotation on the stack that a program never reaches is never examined: the run is the
/// same whatever the quotation holds, and the quotation is left where it was. A program that
/// does not underflow on the part of the stack above the quotation never reaches it.
pub proof fn lemma_quotation_untouched(a: Seq<Val>, q: Seq<Val>, q2: Seq<Val>, b: Seq<Val>, p: Seq<Val>, env: Words, dec: Decimals, fuel: nat)
    requires
        !underflowed(eval(p, b, env, dec, fuel).1),
    ensures
        ({
            let r = eval(p, b, env, dec, fuel);
            &&& eval(p, a.push(Val::Quotation(q)) + b, env, dec, fuel) == (a.push(Val::Quotation(q)) + r.0, r.1)
            &&& eval(p, a.push(Val::Quotation(q2)) + b, env, dec, fuel) == (a.push(Val::Quotation(q2)) + r.0, r.1)
        }),
{
    lemma_eval_frame(p, a.push(Val::Quotation(q)), b, env, dec, fuel);
    lemma_eval_frame(p, a.push(Val::Quotation(q2)), b, env, dec, fuel);
}

} // verus!
