use joy::builtin::Builtin;
use joy::eval::{EvalError, Status};
use joy::session::{LineResult, Session};
use joy::value::Value;

const FUEL: u64 = 10_000;

fn arith(b: Builtin, x: u32, y: u32) -> Value {
    let (x, y) = (f32::from_bits(x), f32::from_bits(y));
    match b {
        Builtin::Add => Value::Decimal((x + y).to_bits()),
        Builtin::Sub => Value::Decimal((x - y).to_bits()),
        Builtin::Mul => Value::Decimal((x * y).to_bits()),
        Builtin::Greater => Value::Boolean(x > y),
        Builtin::Less => Value::Boolean(x < y),
        _ => Value::Boolean(x == y),
    }
}

fn read(t: Vec<char>) -> Option<u32> {
    let text: String = t.into_iter().collect();
    text.parse::<f32>().ok().filter(|f| f.is_finite()).map(|f| f.to_bits())
}

fn feed(session: &mut Session, line: &str) -> LineResult {
    session.line(line, &arith, &read, FUEL)
}

fn run_lines(lines: &[&str]) -> (Session, LineResult) {
    let mut session = Session::new();
    let mut last = LineResult::Blank;
    for line in lines {
        last = feed(&mut session, line);
    }
    (session, last)
}

fn integer(n: i32) -> Value {
    Value::Integer(n)
}

fn quot(items: Vec<Value>) -> Value {
    Value::Quotation(items)
}

fn chars(s: &str) -> Vec<char> {
    s.chars().collect()
}

#[test]
fn scenario_addition() {
    let (s, r) = run_lines(&["2 3 +"]);
    assert_eq!(r, LineResult::Evaluated(Status::Finished));
    assert_eq!(s.stack(), &vec![integer(5)]);
}

#[test]
fn scenario_subtraction_order() {
    let (s, _) = run_lines(&["3 2 -"]);
    assert_eq!(s.stack(), &vec![integer(1)]);
}

#[test]
fn scenario_definition_persists() {
    let (s, r) = run_lines(&["square == dup *", "5 square"]);
    assert_eq!(r, LineResult::Evaluated(Status::Finished));
    assert_eq!(s.stack(), &vec![integer(25)]);
}

#[test]
fn scenario_map_squares() {
    let (s, _) = run_lines(&["[1 2 3] [dup *] map"]);
    assert_eq!(s.stack(), &vec![quot(vec![integer(1), integer(4), integer(9)])]);
}

#[test]
fn scenario_filter_greater() {
    let (s, _) = run_lines(&["[1 2 3 4] [2 >] filter"]);
    assert_eq!(s.stack(), &vec![quot(vec![integer(3), integer(4)])]);
}

#[test]
fn scenario_ifte_isolated_predicate() {
    // The predicate runs on a copy; the true branch then runs on the stack as it was.
    let (s, r) = run_lines(&["10 [0 >] [1] [0] ifte"]);
    assert_eq!(r, LineResult::Evaluated(Status::Finished));
    assert_eq!(s.stack(), &vec![integer(10), integer(1)]);
}

#[test]
fn scenario_size_keeps_quotation() {
    let (s, _) = run_lines(&["[1 2 3] size"]);
    assert_eq!(s.stack(), &vec![quot(vec![integer(1), integer(2), integer(3)]), integer(3)]);
}

#[test]
fn literal_round_trip_integers() {
    for n in [0, 7, -7, 42, i32::MAX, i32::MIN] {
        let (s, r) = run_lines(&[&n.to_string()]);
        assert_eq!(r, LineResult::Evaluated(Status::Finished));
        assert_eq!(s.stack(), &vec![integer(n)]);
    }
}

#[test]
fn literal_round_trip_booleans() {
    let (s, _) = run_lines(&["true false"]);
    assert_eq!(s.stack(), &vec![Value::Boolean(true), Value::Boolean(false)]);
}

#[test]
fn literal_round_trip_decimal() {
    let (s, _) = run_lines(&["1.5 -0.25"]);
    assert_eq!(s.stack(), &vec![Value::Decimal(1.5f32.to_bits()), Value::Decimal((-0.25f32).to_bits())]);
}

#[test]
fn integer_literal_out_of_range_is_parse_error() {
    let (s, r) = run_lines(&["2147483648"]);
    assert_eq!(r, LineResult::Unparsed);
    assert!(s.stack().is_empty());
    let (_, r) = run_lines(&["-2147483649"]);
    assert_eq!(r, LineResult::Unparsed);
}

#[test]
fn explicit_plus_sign() {
    let (s, _) = run_lines(&["+12"]);
    assert_eq!(s.stack(), &vec![integer(12)]);
}

#[test]
fn self_evaluation_of_values() {
    let (s, _) = run_lines(&["'hi' \"there\" [a b]"]);
    assert_eq!(
        s.stack(),
        &vec![
            Value::Text(chars("hi")),
            Value::Text(chars("there")),
            quot(vec![Value::Symbol(chars("a")), Value::Symbol(chars("b"))]),
        ]
    );
}

#[test]
fn quotation_contents_are_not_run_when_pushed() {
    let (s, r) = run_lines(&["[nosuchword quit] 1"]);
    assert_eq!(r, LineResult::Evaluated(Status::Finished));
    assert_eq!(
        s.stack(),
        &vec![quot(vec![Value::Symbol(chars("nosuchword")), Value::Symbol(chars("quit"))]), integer(1)]
    );
}

#[test]
fn dup_makes_equal_top_two() {
    let (s, _) = run_lines(&["[1 [2]] dup"]);
    let st = s.stack();
    assert_eq!(st.len(), 2);
    assert_eq!(st[0], st[1]);
}

#[test]
fn swap_twice_is_identity() {
    let (s, _) = run_lines(&["1 'x' swap swap"]);
    assert_eq!(s.stack(), &vec![integer(1), Value::Text(chars("x"))]);
}

#[test]
fn swap_exchanges() {
    let (s, _) = run_lines(&["1 2 swap"]);
    assert_eq!(s.stack(), &vec![integer(2), integer(1)]);
}

#[test]
fn apply_splices_like_inline() {
    let (a, _) = run_lines(&["4 [2 3 + *] i"]);
    let (b, _) = run_lines(&["4 2 3 + *"]);
    assert_eq!(a.stack(), b.stack());
    assert_eq!(a.stack(), &vec![integer(20)]);
}

#[test]
fn dip_restores_hidden_value() {
    let (s, _) = run_lines(&["1 2 [10 *] dip"]);
    assert_eq!(s.stack(), &vec![integer(10), integer(2)]);
}

#[test]
fn ifte_predicate_leaves_stack_alone() {
    let (s, _) = run_lines(&["5 [pop 0 0 =] [100] [200] ifte"]);
    assert_eq!(s.stack(), &vec![integer(5), integer(100)]);
    let (s, _) = run_lines(&["5 [3 >] [] [pop] ifte"]);
    assert_eq!(s.stack(), &vec![integer(5)]);
    let (s, _) = run_lines(&["1 [3 >] [] [pop] ifte"]);
    assert!(s.stack().is_empty());
}

#[test]
fn ifte_predicate_must_give_boolean() {
    let (s, r) = run_lines(&["5 [1] [2] [3] ifte"]);
    assert_eq!(r, LineResult::Evaluated(Status::Failed(EvalError::TypeError(Builtin::Ifte))));
    assert_eq!(s.stack(), &vec![integer(5)]);
}

#[test]
fn map_keeps_length() {
    let (s, _) = run_lines(&["[1 2 3 4 5] [10 +] map"]);
    assert_eq!(s.stack(), &vec![quot(vec![integer(11), integer(12), integer(13), integer(14), integer(15)])]);
}

#[test]
fn map_runs_on_fresh_stack() {
    let (s, r) = run_lines(&["7 [1 2] [pop] map"]);
    assert_eq!(r, LineResult::Evaluated(Status::Failed(EvalError::Underflow(Builtin::MapEach))));
    assert_eq!(s.stack(), &vec![integer(7)]);
}

#[test]
fn filter_keeps_order() {
    let (s, _) = run_lines(&["[5 1 4 2 3] [2 >] filter"]);
    assert_eq!(s.stack(), &vec![quot(vec![integer(5), integer(4), integer(3)])]);
}

#[test]
fn filter_needs_boolean() {
    let (_, r) = run_lines(&["[1 2] [dup] filter"]);
    assert_eq!(r, LineResult::Evaluated(Status::Failed(EvalError::TypeError(Builtin::Filter))));
}

#[test]
fn fold_sums() {
    let (s, _) = run_lines(&["[1 2 3] [0] [+] fold"]);
    assert_eq!(s.stack(), &vec![integer(6)]);
}

#[test]
fn concat_and_rest() {
    let (s, _) = run_lines(&["[1 2] [3] concat rest"]);
    assert_eq!(s.stack(), &vec![quot(vec![integer(2), integer(3)])]);
}

#[test]
fn rest_of_empty_quotation_fails() {
    let (s, r) = run_lines(&["[] rest"]);
    assert_eq!(r, LineResult::Evaluated(Status::Failed(EvalError::TypeError(Builtin::Rest))));
    assert_eq!(s.stack(), &vec![quot(vec![])]);
}

#[test]
fn comparisons() {
    let (s, _) = run_lines(&["3 2 > 3 2 < 4 4 ="]);
    assert_eq!(s.stack(), &vec![Value::Boolean(true), Value::Boolean(false), Value::Boolean(true)]);
}

#[test]
fn integer_arithmetic_wraps() {
    let (s, _) = run_lines(&["2147483647 1 +"]);
    assert_eq!(s.stack(), &vec![integer(i32::MIN)]);
}

#[test]
fn decimal_arithmetic() {
    let (s, _) = run_lines(&["1.5 2.25 + 0.5 *"]);
    assert_eq!(s.stack(), &vec![Value::Decimal(1.875f32.to_bits())]);
    let (s, _) = run_lines(&["1.5 2.25 <"]);
    assert_eq!(s.stack(), &vec![Value::Boolean(true)]);
}

#[test]
fn mixed_numbers_are_type_error() {
    let (s, r) = run_lines(&["1 1.5 +"]);
    assert_eq!(r, LineResult::Evaluated(Status::Failed(EvalError::TypeError(Builtin::Add))));
    assert_eq!(s.stack(), &vec![integer(1), Value::Decimal(1.5f32.to_bits())]);
}

#[test]
fn text_operand_is_type_error() {
    let (_, r) = run_lines(&["'a' 1 +"]);
    assert_eq!(r, LineResult::Evaluated(Status::Failed(EvalError::TypeError(Builtin::Add))));
    let (_, r) = run_lines(&["'a' size"]);
    assert_eq!(r, LineResult::Evaluated(Status::Failed(EvalError::TypeError(Builtin::Size))));
}

#[test]
fn underflow_error() {
    let (s, r) = run_lines(&["1 +"]);
    assert_eq!(r, LineResult::Evaluated(Status::Failed(EvalError::Underflow(Builtin::Add))));
    assert_eq!(s.stack(), &vec![integer(1)]);
    let (_, r) = run_lines(&["pop"]);
    assert_eq!(r, LineResult::Evaluated(Status::Failed(EvalError::Underflow(Builtin::Pop))));
}

#[test]
fn undefined_symbol_stops_the_line() {
    let (s, r) = run_lines(&["1 frob 2"]);
    assert_eq!(r, LineResult::Evaluated(Status::Failed(EvalError::UndefinedSymbol(chars("frob")))));
    assert_eq!(s.stack(), &vec![integer(1)]);
}

#[test]
fn session_survives_errors() {
    let (s, r) = run_lines(&["1 frob", "2 +"]);
    assert_eq!(r, LineResult::Evaluated(Status::Finished));
    assert_eq!(s.stack(), &vec![integer(3)]);
}

#[test]
fn quit_stops_and_flags() {
    let (s, r) = run_lines(&["1 quit 2"]);
    assert_eq!(r, LineResult::Evaluated(Status::Quit));
    assert_eq!(s.stack(), &vec![integer(1)]);
    let (s, r) = run_lines(&["stop == quit", "[1 2] [stop] dip 3"]);
    assert_eq!(r, LineResult::Evaluated(Status::Quit));
    assert!(s.stack().is_empty());
}

#[test]
fn runaway_recursion_runs_out_of_fuel() {
    let mut session = Session::new();
    assert_eq!(feed(&mut session, "loop == loop"), LineResult::Defined);
    let r = session.line("1 loop", &arith, &read, 300);
    assert_eq!(r, LineResult::Evaluated(Status::Failed(EvalError::OutOfFuel)));
    assert_eq!(session.stack(), &vec![integer(1)]);
    let r = session.line("[dup i] dup i", &arith, &read, 300);
    assert_eq!(r, LineResult::Evaluated(Status::Failed(EvalError::OutOfFuel)));
}

#[test]
fn redefinition_replaces() {
    let (s, r) = run_lines(&["a == 1", "a == 2", "a"]);
    assert_eq!(r, LineResult::Evaluated(Status::Finished));
    assert_eq!(s.stack(), &vec![integer(2)]);
}

#[test]
fn definition_line_result() {
    let (s, r) = run_lines(&["  twice == dup +  "]);
    assert_eq!(r, LineResult::Defined);
    assert!(s.stack().is_empty());
}

#[test]
fn blank_line() {
    let (_, r) = run_lines(&[" \t "]);
    assert_eq!(r, LineResult::Blank);
}

#[test]
fn malformed_lines_are_unparsed() {
    for line in ["[1 2", "1 2]", "12abc", "( 1 )", "'open", "[ 1]", "1.", "truex"] {
        let (s, r) = run_lines(&[line]);
        assert_eq!(r, LineResult::Unparsed, "{}", line);
        assert!(s.stack().is_empty());
    }
}

#[test]
fn text_literal_keeps_escapes() {
    let (s, _) = run_lines(&[r"'it\'s' '' "]);
    assert_eq!(s.stack(), &vec![Value::Text(chars(r"it\'s")), Value::Text(vec![])]);
}

#[test]
fn whitespace_separates_tokens() {
    let (s, _) = run_lines(&["1\t2\n+"]);
    assert_eq!(s.stack(), &vec![integer(3)]);
}

#[test]
fn apply_splices_after_a_prefix() {
    let (a, ra) = run_lines(&["sq == dup *", "1 3 sq [2 +] i 5"]);
    let (b, rb) = run_lines(&["sq == dup *", "1 3 sq 2 + 5"]);
    assert_eq!(ra, rb);
    assert_eq!(a.stack(), b.stack());
    assert_eq!(a.stack(), &vec![integer(1), integer(11), integer(5)]);
}

#[test]
fn untouched_quotation_does_not_matter() {
    let (a, ra) = run_lines(&["[frob quit] 4 5 [1 +] dip swap"]);
    let (b, rb) = run_lines(&["[] 4 5 [1 +] dip swap"]);
    assert_eq!(ra, rb);
    assert_eq!(a.stack()[1..], b.stack()[1..]);
    assert_eq!(a.stack()[0], quot(vec![Value::Symbol(chars("frob")), Value::Symbol(chars("quit"))]));
    assert_eq!(b.stack(), &vec![quot(vec![]), integer(5), integer(5)]);
}

#[test]
fn leading_and_trailing_blanks_are_trimmed_by_the_session() {
    let (s, r) = run_lines(&["  sq == dup *  ", " 3 sq\r\n"]);
    assert_eq!(r, LineResult::Evaluated(Status::Finished));
    assert_eq!(s.stack(), &vec![integer(9)]);
}
