use vstd::prelude::*;

verus! {

/// A runtime value; programs are sequences of values too.
///
/// A `Decimal` is held as the bit pattern of an IEEE-754 binary32 number.
#[derive(Debug, PartialEq)]
pub enum Value {
    Integer(i32),
    Decimal(u32),
    Boolean(bool),
    Text(Vec<char>),
    Symbol(Vec<char>),
    Quotation(Vec<Value>),
}

/// The mathematical model of a value.
pub enum Val {
    Integer(i32),
    Decimal(u32),
    Boolean(bool),
    Text(Seq<char>),
    Symbol(Seq<char>),
    Quotation(Seq<Val>),
}

pub open spec fn model_of(v: Value) -> Val
    decreases v,
{
    match v {
        Value::Integer(n) => Val::Integer(n),
        Value::Decimal(b) => Val::Decimal(b),
        Value::Boolean(b) => Val::Boolean(b),
        Value::Text(t) => Val::Text(t@),
        Value::Symbol(s) => Val::Symbol(s@),
        Value::Quotation(q) => Val::Quotation(
            Seq::new(q.len() as nat, |i: int| if 0 <= i < q.len() { model_of(q[i]) } else { Val::Boolean(false) }),
        ),
    }
}

/// The models of a sequence of values, element by element.
pub open spec fn models(vs: Seq<Value>) -> Seq<Val> {
    vs.map_values(|v: Value| model_of(v))
}

impl View for Value {
    type V = Val;

    open spec fn view(&self) -> Val {
        model_of(*self)
    }
}

pub proof fn lemma_quotation_view(q: Vec<Value>)
    ensures
        Value::Quotation(q)@ == Val::Quotation(models(q@)),
{
    let m = model_of(Value::Quotation(q));
    assert(m->Quotation_0 =~= models(q@));
}

pub proof fn lemma_models_push(s: Seq<Value>, v: Value)
    ensures
        models(s.push(v)) == models(s).push(model_of(v)),
{
    assert(models(s.push(v)) =~= models(s).push(model_of(v)));
}

/// A deep copy of a sequence of values.
pub fn copy_values(vs: &Vec<Value>) -> (r: Vec<Value>)
    ensures
        models(r@) == models(vs@),
    decreases vs,
{
    let mut r: Vec<Value> = Vec::new();
    let mut i: usize = 0;
    while i < vs.len()
        invariant
            i <= vs.len(),
            models(r@) == models(vs@).take(i as int),
        decreases vs.len() - i,
    {
        let c = copy_value(&vs[i]);
        let ghost before = r@;
        r.push(c);
        assert(r@ == before.push(c));
        proof {
            lemma_models_push(before, c);
            assert(models(vs@).take(i + 1) =~= models(vs@).take(i as int).push(model_of(vs@[i as int])));
        }
        i = i + 1;
    }
    assert(models(vs@).take(vs.len() as int) =~= models(vs@));
    r
}

/// A deep copy of a value.
pub fn copy_value(v: &Value) -> (r: Value)
    ensures
        r@ == v@,
    decreases v,
{
    match v {
        Value::Integer(n) => Value::Integer(*n),
        Value::Decimal(b) => Value::Decimal(*b),
        Value::Boolean(b) => Value::Boolean(*b),
        Value::Text(t) => Value::Text(t.clone()),
        Value::Symbol(s) => Value::Symbol(s.clone()),
        Value::Quotation(q) => {
            let c = copy_values(q);
            proof {
                lemma_quotation_view(*q);
                lemma_quotation_view(c);
            }
            Value::Quotation(c)
        },
    }
}

} // verus!
