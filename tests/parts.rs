use joy::builtin::{builtin_of, name_of, Builtin};
use joy::env::Env;
use joy::eval::{run, Status};
use joy::parse::{decimal, definition, literal_in, number, parse_program, trimmed};
use joy::value::{copy_value, Value};

fn chars(s: &str) -> Vec<char> {
    s.chars().collect()
}

fn read(t: Vec<char>) -> Option<u32> {
    let text: String = t.into_iter().collect();
    text.parse::<f32>().ok().filter(|f| f.is_finite()).map(|f| f.to_bits())
}

fn no_decimals(_: Builtin, _: u32, _: u32) -> Value {
    Value::Boolean(false)
}

#[test]
fn builtin_names() {
    assert_eq!(builtin_of(&chars("dup")), Some(Builtin::Dup));
    assert_eq!(builtin_of(&chars("map")), Some(Builtin::MapEach));
    assert_eq!(builtin_of(&chars("i")), Some(Builtin::Apply));
    assert_eq!(builtin_of(&chars("+")), Some(Builtin::Add));
    assert_eq!(builtin_of(&chars("square")), None);
    assert_eq!(builtin_of(&chars("")), None);
}

#[test]
fn builtin_names_round_trip() {
    for b in [Builtin::Add, Builtin::Swap, Builtin::Apply, Builtin::MapEach, Builtin::Ifte, Builtin::Quit] {
        assert_eq!(builtin_of(&name_of(b)), Some(b));
    }
    assert_eq!(name_of(Builtin::Filter), chars("filter"));
}

#[test]
fn env_binds_and_replaces() {
    let mut env = Env::new();
    assert_eq!(env.lookup(&chars("a")), None);
    env.bind(chars("a"), vec![Value::Integer(1)]);
    env.bind(chars("b"), vec![Value::Integer(2)]);
    env.bind(chars("a"), vec![Value::Integer(3)]);
    assert_eq!(env.lookup(&chars("a")), Some(&vec![Value::Integer(3)]));
    assert_eq!(env.lookup_copy(&chars("b")), Some(vec![Value::Integer(2)]));
}

#[test]
fn parse_nested_program() {
    let p = parse_program(&chars("[1 [2 'x'] sym] true"), &read).unwrap();
    assert_eq!(
        p,
        vec![
            Value::Quotation(vec![
                Value::Integer(1),
                Value::Quotation(vec![Value::Integer(2), Value::Text(chars("x"))]),
                Value::Symbol(chars("sym")),
            ]),
            Value::Boolean(true),
        ]
    );
}

#[test]
fn parse_empty_quotation_and_line() {
    assert_eq!(parse_program(&chars("[]"), &read), Some(vec![Value::Quotation(vec![])]));
    assert_eq!(parse_program(&chars(""), &read), Some(vec![]));
}

#[test]
fn parse_definition_parts() {
    let (name, body) = definition(&chars("sq == dup *"), &read).unwrap();
    assert_eq!(name, chars("sq"));
    assert_eq!(body, vec![Value::Symbol(chars("dup")), Value::Symbol(chars("*"))]);
    assert_eq!(definition(&chars("sq==dup"), &read), None);
    assert_eq!(definition(&chars("sq == [1"), &read), None);
    assert_eq!(definition(&chars("1 2 +"), &read), None);
    assert_eq!(definition(&chars(" sq == dup"), &read), None);
    assert_eq!(definition(&chars("sq == dup "), &read), None);
    assert_eq!(definition(&chars("sq\t==\ndup"), &read).map(|d| d.0), Some(chars("sq")));
}

#[test]
fn decimal_literal_needs_digits_after_dot() {
    assert_eq!(parse_program(&chars("-3.25"), &read), Some(vec![Value::Decimal((-3.25f32).to_bits())]));
    assert_eq!(parse_program(&chars("3."), &read), None);
}

#[test]
fn program_is_not_trimmed() {
    assert_eq!(parse_program(&chars(" 1"), &read), None);
    assert_eq!(parse_program(&chars("1 "), &read), None);
    assert_eq!(parse_program(&chars("1 2"), &read), Some(vec![Value::Integer(1), Value::Integer(2)]));
}

#[test]
fn lexical_pieces_reject_other_text() {
    assert_eq!(decimal(&chars("3"), 0, &read), None);
    assert_eq!(decimal(&chars("1."), 0, &read), None);
    assert_eq!(decimal(&chars("1.5 x"), 0, &read), Some((Value::Decimal(1.5f32.to_bits()), 3)));
    assert_eq!(number(&chars("-"), 0), None);
    assert_eq!(number(&chars("1.5"), 0), Some((Value::Integer(1), 1)));
    assert_eq!(number(&chars("+7"), 0), Some((Value::Integer(7), 2)));
    assert_eq!(literal_in(&chars("abc"), 0), None);
    assert_eq!(literal_in(&chars("'abc"), 0), None);
    assert_eq!(literal_in(&chars("'a\\nb'"), 0), None);
    assert_eq!(literal_in(&chars("'abc\""), 0), None);
    assert_eq!(literal_in(&chars("'ab' c"), 0), Some(3));
    assert_eq!(literal_in(&chars(""), 0), None);
}

#[test]
fn trimming_strips_blanks() {
    assert_eq!(trimmed(&chars(" \t 1 2\r\n")), chars("1 2"));
    assert_eq!(trimmed(&chars("   ")), chars(""));
}

#[test]
fn run_with_environment() {
    let mut env = Env::new();
    env.bind(chars("inc"), vec![Value::Integer(1), Value::Symbol(chars("+"))]);
    let mut stack = vec![Value::Integer(41)];
    let status = run(vec![Value::Symbol(chars("inc"))], &mut stack, &env, &no_decimals, 100);
    assert_eq!(status, Status::Finished);
    assert_eq!(stack, vec![Value::Integer(42)]);
}

#[test]
fn run_counts_fuel_per_value() {
    let env = Env::new();
    let mut stack = vec![];
    let prog = vec![Value::Integer(1), Value::Integer(2), Value::Integer(3)];
    let copy: Vec<Value> = prog.iter().map(copy_value).collect();
    assert_eq!(run(prog, &mut stack, &env, &no_decimals, 2), Status::Failed(joy::eval::EvalError::OutOfFuel));
    assert_eq!(stack, vec![Value::Integer(1), Value::Integer(2)]);
    let mut stack = vec![];
    assert_eq!(run(copy, &mut stack, &env, &no_decimals, 3), Status::Finished);
}

#[test]
fn copy_is_deep() {
    let v = Value::Quotation(vec![Value::Text(chars("t")), Value::Quotation(vec![Value::Integer(1)])]);
    assert_eq!(copy_value(&v), v);
}
