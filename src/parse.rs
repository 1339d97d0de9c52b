use vstd::prelude::*;
use crate::value::{Value, Val, models, lemma_models_push, lemma_quotation_view};

verus! {

/// Reading of a decimal literal (signed digits, a dot, digits) as binary32 bits; `None` when
/// the literal does not fit.
pub type Reader = spec_fn(Seq<char>) -> Option<u32>;

/// What parsing needs of the decimal reader it is given: it accepts every input, and its result
/// depends on the characters alone.
pub open spec fn reader_ops<R: Fn(Vec<char>) -> Option<u32>>(r: R) -> bool {
    &&& forall|t: Vec<char>| r.requires((t,))
    &&& forall|a: Vec<char>, b: Vec<char>, x: Option<u32>, y: Option<u32>|
        a@ == b@ && r.ensures((a,), x) && r.ensures((b,), y) ==> x == y
}

/// `r` may give `x` for the characters `t`.
pub open spec fn reads<R: Fn(Vec<char>) -> Option<u32>>(r: R, t: Seq<char>, x: Option<u32>) -> bool {
    exists|a: Vec<char>| a@ == t && #[trigger] r.ensures((a,), x)
}

/// The reading that `r` performs, as a function of the characters.
pub open spec fn reader_of<R: Fn(Vec<char>) -> Option<u32>>(r: R) -> Reader {
    |t: Seq<char>| choose|x: Option<u32>| #[trigger] reads(r, t, x)
}

/// Token separators: space, tab and newline.
pub open spec fn is_ws(c: char) -> bool {
    c == ' ' || c == '\t' || c == '\n'
}

/// What is stripped from both ends of a line: the separators and a carriage return.
pub open spec fn is_blank(c: char) -> bool {
    is_ws(c) || c == '\r'
}

pub open spec fn is_digit(c: char) -> bool {
    '0' <= c && c <= '9'
}

/// Characters that may stand in a symbol.
pub open spec fn is_symbol_char(c: char) -> bool {
    !is_ws(c) && c != '[' && c != ']' && c != '(' && c != ')' && c != '\'' && c != '"'
}

/// The classes of characters that the scanner looks for runs of.
#[derive(Clone, Copy)]
pub enum CharClass {
    Digit,
    Space,
    SymbolChar,
}

pub open spec fn class_fn(k: CharClass) -> spec_fn(char) -> bool {
    match k {
        CharClass::Digit => |c: char| is_digit(c),
        CharClass::Space => |c: char| is_ws(c),
        CharClass::SymbolChar => |c: char| is_symbol_char(c),
    }
}

/// The end of the longest run of characters of a class that starts at `i`.
pub open spec fn run_end(s: Seq<char>, i: int, class: spec_fn(char) -> bool) -> int
    decreases s.len() - i,
{
    if 0 <= i < s.len() && class(s[i]) {
        run_end(s, i + 1, class)
    } else {
        i
    }
}

/// The end of an optional sign followed by one or more digits at `i`.
pub open spec fn signed_digits_end(s: Seq<char>, i: int) -> Option<int> {
    let j = if i < s.len() && (s[i] == '+' || s[i] == '-') { i + 1 } else { i };
    let k = run_end(s, j, class_fn(CharClass::Digit));
    if k > j {
        Some(k)
    } else {
        None
    }
}

/// The end of signed digits, a dot and one or more digits at `i`.
pub open spec fn floating_point_end(s: Seq<char>, i: int) -> Option<int> {
    match signed_digits_end(s, i) {
        Some(j) => if j < s.len() && s[j] == '.' {
            let k = run_end(s, j + 1, class_fn(CharClass::Digit));
            if k > j + 1 {
                Some(k)
            } else {
                None
            }
        } else {
            None
        },
        None => None,
    }
}

/// The number that a string of decimal digits denotes.
pub open spec fn digits_value(ds: Seq<char>) -> int
    decreases ds.len(),
{
    if ds.len() == 0 {
        0
    } else {
        digits_value(ds.drop_last()) * 10 + (ds.last() as int - '0' as int)
    }
}

/// The number that optionally signed digits denote.
pub open spec fn signed_value(t: Seq<char>) -> int {
    if t.len() > 0 && t[0] == '-' {
        -digits_value(t.drop_first())
    } else if t.len() > 0 && t[0] == '+' {
        digits_value(t.drop_first())
    } else {
        digits_value(t)
    }
}

pub open spec fn fits_i32(v: int) -> bool {
    i32::MIN <= v <= i32::MAX
}

/// Scans the body of a text literal closed by `q` from `j`: the position of the closing quote.
pub open spec fn text_end(s: Seq<char>, j: int, q: char) -> Option<int>
    decreases s.len() - j,
{
    if j < 0 || j >= s.len() {
        None
    } else if s[j] == q {
        Some(j)
    } else if s[j] == '\\' {
        if j + 1 < s.len() && s[j + 1] == q {
            text_end(s, j + 2, q)
        } else {
            None
        }
    } else {
        text_end(s, j + 1, q)
    }
}

/// A text literal at `i`: its body as written, and where it ends.
pub open spec fn literal_at(s: Seq<char>, i: int) -> Option<(Val, int)> {
    if 0 <= i < s.len() && (s[i] == '\'' || s[i] == '"') {
        match text_end(s, i + 1, s[i]) {
            Some(e) => Some((Val::Text(s.subrange(i + 1, e)), e + 1)),
            None => None,
        }
    } else {
        None
    }
}

pub open spec fn has_word_at(s: Seq<char>, i: int, w: Seq<char>) -> bool {
    0 <= i && i + w.len() <= s.len() && s.subrange(i, i + w.len()) == w
}

/// A Boolean literal at `i`.
pub open spec fn boolean_at(s: Seq<char>, i: int) -> Option<(Val, int)> {
    if has_word_at(s, i, seq!['t', 'r', 'u', 'e']) {
        Some((Val::Boolean(true), i + 4))
    } else if has_word_at(s, i, seq!['f', 'a', 'l', 's', 'e']) {
        Some((Val::Boolean(false), i + 5))
    } else {
        None
    }
}

/// A symbol at `i`.
pub open spec fn symbol_at(s: Seq<char>, i: int) -> Option<(Val, int)> {
    let k = run_end(s, i, class_fn(CharClass::SymbolChar));
    if k > i {
        Some((Val::Symbol(s.subrange(i, k)), k))
    } else {
        None
    }
}

/// A decimal literal at `i`, read by `rd`.
pub open spec fn decimal_at(s: Seq<char>, i: int, rd: Reader) -> Option<(Val, int)> {
    match floating_point_end(s, i) {
        Some(k) => match rd(s.subrange(i, k)) {
            Some(bits) => Some((Val::Decimal(bits), k)),
            None => None,
        },
        None => None,
    }
}

/// An integer literal at `i`; none when its value does not fit in 32 bits.
pub open spec fn number_at(s: Seq<char>, i: int) -> Option<(Val, int)> {
    match signed_digits_end(s, i) {
        Some(k) => {
            let v = signed_value(s.subrange(i, k));
            if fits_i32(v) {
                Some((Val::Integer(v as i32), k))
            } else {
                None
            }
        },
        None => None,
    }
}

/// The token at `i`, trying in turn a text literal, a decimal, an integer, a Boolean, a symbol
/// and a quotation. A numeric literal that does not fit is no token.
pub open spec fn token_at(s: Seq<char>, i: int, rd: Reader) -> Option<(Val, int)>
    decreases s.len() - i, 2nat,
{
    if literal_at(s, i) is Some {
        literal_at(s, i)
    } else if floating_point_end(s, i) is Some {
        decimal_at(s, i, rd)
    } else if signed_digits_end(s, i) is Some {
        number_at(s, i)
    } else if boolean_at(s, i) is Some {
        boolean_at(s, i)
    } else if symbol_at(s, i) is Some {
        symbol_at(s, i)
    } else {
        list_at(s, i, rd)
    }
}

/// A quotation at `i`: `[`, an expression, `]`.
pub open spec fn list_at(s: Seq<char>, i: int, rd: Reader) -> Option<(Val, int)>
    decreases s.len() - i, 1nat,
{
    if 0 <= i < s.len() && s[i] == '[' {
        let r = expr_at(s, i + 1, rd);
        if 0 <= r.1 < s.len() && s[r.1] == ']' {
            Some((Val::Quotation(r.0), r.1 + 1))
        } else {
            None
        }
    } else {
        None
    }
}

/// The longest expression at `i`: tokens separated by whitespace, and where it ends.
pub open spec fn expr_at(s: Seq<char>, i: int, rd: Reader) -> (Seq<Val>, int)
    decreases s.len() - i, 3nat,
{
    if i < 0 || i > s.len() {
        (Seq::empty(), i)
    } else {
        match token_at(s, i, rd) {
            Some(t) => if i < t.1 <= s.len() {
                let r = expr_more(s, t.1, rd);
                (seq![t.0] + r.0, r.1)
            } else {
                (Seq::empty(), i)
            },
            None => (Seq::empty(), i),
        }
    }
}

/// The further tokens of an expression after one that ends at `i`, each after whitespace.
pub open spec fn expr_more(s: Seq<char>, i: int, rd: Reader) -> (Seq<Val>, int)
    decreases s.len() - i, 3nat,
{
    let w = run_end(s, i, class_fn(CharClass::Space));
    if i < 0 || w <= i || w > s.len() {
        (Seq::empty(), i)
    } else {
        match token_at(s, w, rd) {
            Some(t) => if w < t.1 <= s.len() {
                let r = expr_more(s, t.1, rd);
                (seq![t.0] + r.0, r.1)
            } else {
                (Seq::empty(), i)
            },
            None => (Seq::empty(), i),
        }
    }
}

/// A line without the blanks at its start.
pub open spec fn trim_start(s: Seq<char>) -> Seq<char>
    decreases s.len(),
{
    if s.len() > 0 && is_blank(s[0]) {
        trim_start(s.drop_first())
    } else {
        s
    }
}

/// A line without the blanks at its end.
pub open spec fn trim_end(s: Seq<char>) -> Seq<char>
    decreases s.len(),
{
    if s.len() > 0 && is_blank(s.last()) {
        trim_end(s.drop_last())
    } else {
        s
    }
}

pub open spec fn trim(s: Seq<char>) -> Seq<char> {
    trim_end(trim_start(s))
}

/// The program that a text holds: the whole text must be one expression.
pub open spec fn program_of(t: Seq<char>, rd: Reader) -> Option<Seq<Val>> {
    let r = expr_at(t, 0, rd);
    if r.1 == t.len() {
        Some(r.0)
    } else {
        None
    }
}

/// The definition that a text holds: a symbol, whitespace, `==`, whitespace and an expression,
/// which together make up the whole text.
pub open spec fn definition_of(t: Seq<char>, rd: Reader) -> Option<(Seq<char>, Seq<Val>)> {
    let k = run_end(t, 0, class_fn(CharClass::SymbolChar));
    let w1 = run_end(t, k, class_fn(CharClass::Space));
    let w2 = run_end(t, w1 + 2, class_fn(CharClass::Space));
    if k > 0 && w1 > k && has_word_at(t, w1, seq!['=', '=']) && w2 > w1 + 2 {
        let r = expr_at(t, w2, rd);
        if r.1 == t.len() {
            Some((t.subrange(0, k), r.0))
        } else {
            None
        }
    } else {
        None
    }
}

pub open spec fn opt_int(o: Option<usize>) -> Option<int> {
    match o {
        Some(k) => Some(k as int),
        None => None,
    }
}

/// The model of a token and where it ends.
pub open spec fn token_view(r: Option<(Value, usize)>) -> Option<(Val, int)> {
    match r {
        Some(t) => Some((t.0@, t.1 as int)),
        None => None,
    }
}

proof fn lemma_run_end(s: Seq<char>, i: int, class: spec_fn(char) -> bool)
    requires
        0 <= i <= s.len(),
    ensures
        i <= run_end(s, i, class) <= s.len(),
        forall|j: int| i <= j < run_end(s, i, class) ==> class(#[trigger] s[j]),
        run_end(s, i, class) < s.len() ==> !class(s[run_end(s, i, class)]),
    decreases s.len() - i,
{
    if i < s.len() && class(s[i]) {
        lemma_run_end(s, i + 1, class);
    }
}

fn in_class(k: CharClass, c: char) -> (r: bool)
    ensures
        r == class_fn(k)(c),
{
    match k {
        CharClass::Digit => '0' <= c && c <= '9',
        CharClass::Space => c == ' ' || c == '\t' || c == '\n',
        CharClass::SymbolChar => !(c == ' ' || c == '\t' || c == '\n') && c != '[' && c != ']' && c != '('
            && c != ')' && c != '\'' && c != '"',
    }
}

/// The end of the longest run of characters of class `k` from `i`.
pub fn scan(s: &Vec<char>, i: usize, k: CharClass) -> (r: usize)
    requires
        i <= s.len(),
    ensures
        r == run_end(s@, i as int, class_fn(k)),
        i <= r <= s.len(),
{
    let mut j = i;
    while j < s.len() && in_class(k, s[j])
        invariant
            i <= j <= s.len(),
            run_end(s@, i as int, class_fn(k)) == run_end(s@, j as int, class_fn(k)),
        decreases s.len() - j,
    {
        j = j + 1;
    }
    j
}

/// The characters of `s` from `a` up to `b`.
fn slice_chars(s: &Vec<char>, a: usize, b: usize) -> (r: Vec<char>)
    requires
        a <= b <= s.len(),
    ensures
        r@ == s@.subrange(a as int, b as int),
{
    let mut r: Vec<char> = Vec::new();
    let mut j = a;
    while j < b
        invariant
            a <= j <= b <= s.len(),
            r@ == s@.subrange(a as int, j as int),
        decreases b - j,
    {
        r.push(s[j]);
        j = j + 1;
        assert(r@ =~= s@.subrange(a as int, j as int));
    }
    r
}

fn has_word<const N: usize>(s: &Vec<char>, i: usize, w: [char; N]) -> (r: bool)
    requires
        i <= s.len(),
    ensures
        r == has_word_at(s@, i as int, w@),
{
    if N > s.len() - i {
        return false;
    }
    let mut j: usize = 0;
    while j < N
        invariant
            j <= N,
            i + N <= s.len(),
            forall|m: int| 0 <= m < j ==> s@[i + m] == w@[m],
        decreases N - j,
    {
        if s[i + j] != w[j] {
            assert(s@.subrange(i as int, i + N)[j as int] != w@[j as int]);
            return false;
        }
        j = j + 1;
    }
    assert(s@.subrange(i as int, i + N) =~= w@);
    true
}

/// The end of an optional sign and one or more digits at `i`.
pub fn maybe_signed_digits(s: &Vec<char>, i: usize) -> (r: Option<usize>)
    requires
        i <= s.len(),
    ensures
        opt_int(r) == signed_digits_end(s@, i as int),
        r matches Some(k) ==> i < k <= s.len(),
{
    let j = if i < s.len() && (s[i] == '+' || s[i] == '-') {
        i + 1
    } else {
        i
    };
    let k = scan(s, j, CharClass::Digit);
    if k > j {
        Some(k)
    } else {
        None
    }
}

/// The end of a decimal literal's text at `i`: signed digits, a dot, digits.
pub fn floating_point(s: &Vec<char>, i: usize) -> (r: Option<usize>)
    requires
        i <= s.len(),
    ensures
        opt_int(r) == floating_point_end(s@, i as int),
        r matches Some(k) ==> i < k <= s.len(),
{
    match maybe_signed_digits(s, i) {
        Some(j) => {
            if j < s.len() && s[j] == '.' {
                let k = scan(s, j + 1, CharClass::Digit);
                if k > j + 1 {
                    Some(k)
                } else {
                    None
                }
            } else {
                None
            }
        },
        None => None,
    }
}

/// A decimal literal at `i`, read by `rd`.
pub fn decimal<R: Fn(Vec<char>) -> Option<u32>>(s: &Vec<char>, i: usize, rd: &R) -> (r: Option<(Value, usize)>)
    requires
        i <= s.len(),
        reader_ops(*rd),
    ensures
        token_view(r) == decimal_at(s@, i as int, reader_of(*rd)),
{
    let k = match floating_point(s, i) {
        Some(k) => k,
        None => {
            return None;
        },
    };
    proof {
        lemma_run_end(s@, i as int, class_fn(CharClass::Digit));
    }
    let lexeme = slice_chars(s, i, k);
    let ghost lex = lexeme;
    let bits = rd(lexeme);
    proof {
        assert(reads(*rd, lex@, bits));
        let x = choose|x: Option<u32>| #[trigger] reads(*rd, lex@, x);
        assert(reads(*rd, lex@, x));
        let a = choose|a: Vec<char>| a@ == lex@ && #[trigger] rd.ensures((a,), x);
        assert(x == bits);
    }
    match bits {
        Some(b) => Some((Value::Decimal(b), k)),
        None => None,
    }
}

proof fn lemma_digits_value(ds: Seq<char>, m: int)
    requires
        0 <= m <= ds.len(),
        forall|j: int| 0 <= j < ds.len() ==> is_digit(#[trigger] ds[j]),
    ensures
        0 <= digits_value(ds.take(m)) <= digits_value(ds),
    decreases ds.len(),
{
    if ds.len() > 0 {
        let d = ds.drop_last();
        if m == ds.len() {
            assert(ds.take(m) =~= ds);
            lemma_digits_value(d, d.len() as int);
            assert(d.take(d.len() as int) =~= d);
        } else {
            lemma_digits_value(d, m);
            assert(d.take(m) =~= ds.take(m));
            lemma_digits_value(d, d.len() as int);
            assert(d.take(d.len() as int) =~= d);
        }
    } else {
        assert(ds.take(m) =~= ds);
    }
}

/// An integer literal at `i`; `None` when its value does not fit in 32 bits.
pub fn number(s: &Vec<char>, i: usize) -> (r: Option<(Value, usize)>)
    requires
        i <= s.len(),
    ensures
        token_view(r) == number_at(s@, i as int),
{
    let k = match maybe_signed_digits(s, i) {
        Some(k) => k,
        None => {
            return None;
        },
    };
    let signed = s[i] == '-' || s[i] == '+';
    let negative = s[i] == '-';
    let start = if signed {
        i + 1
    } else {
        i
    };
    let ghost t = s@.subrange(i as int, k as int);
    let ghost ds = s@.subrange(start as int, k as int);
    proof {
        lemma_run_end(s@, start as int, class_fn(CharClass::Digit));
        assert forall|j: int| 0 <= j < ds.len() implies is_digit(#[trigger] ds[j]) by {
            assert(ds[j] == s@[start + j]);
        }
        if signed {
            assert(t.drop_first() =~= ds);
        } else {
            assert(t =~= ds);
        }
    }
    let mut acc: u64 = 0;
    let mut j = start;
    while j < k
        invariant
            i <= start <= j <= k <= s.len(),
            ds == s@.subrange(start as int, k as int),
            t == s@.subrange(i as int, k as int),
            signed_digits_end(s@, i as int) == Some(k as int),
            t.len() > 0 && t[0] == s@[i as int],
            negative == (s@[i as int] == '-'),
            signed == (s@[i as int] == '-' || s@[i as int] == '+'),
            signed ==> t.drop_first() == ds,
            !signed ==> t == ds,
            forall|m: int| 0 <= m < ds.len() ==> is_digit(#[trigger] ds[m]),
            acc == digits_value(ds.take(j - start)),
            acc <= 2147483648,
        decreases k - j,
    {
        let c = s[j];
        assert(c == ds[j - start]);
        let d = (c as u32 - '0' as u32) as u64;
        proof {
            assert(ds.take(j - start + 1).drop_last() =~= ds.take(j - start));
        }
        assert(is_digit(c));
        assert(d == c as int - '0' as int);
        assert(ds.take(j - start + 1).last() == c);
        assert(digits_value(ds.take(j - start + 1)) == acc * 10 + d);
        if acc * 10 + d > 2147483648 {
            proof {
                lemma_digits_value(ds, j - start + 1);
                assert(digits_value(ds) > 2147483648);
                assert(signed_digits_end(s@, i as int) == Some(k as int));
                let v = signed_value(t);
                if negative {
                    assert(v == -digits_value(ds));
                } else if signed {
                    assert(v == digits_value(ds));
                } else {
                    assert(v == digits_value(ds));
                }
                assert(!fits_i32(v));
                assert(number_at(s@, i as int) is None);
            }
            return None;
        }
        acc = acc * 10 + d;
        j = j + 1;
    }
    assert(ds.take(k - start) =~= ds);
    let v: i64 = if negative {
        -(acc as i64)
    } else {
        acc as i64
    };
    if v > 2147483647 {
        return None;
    }
    Some((Value::Integer(v as i32), k))
}

/// The position of the quote that closes a text literal opened at `i`; none when no quote
/// stands at `i`.
pub fn literal_in(s: &Vec<char>, i: usize) -> (r: Option<usize>)
    requires
        i <= s.len(),
    ensures
        if i < s.len() && (s@[i as int] == '\'' || s@[i as int] == '"') {
            opt_int(r) == text_end(s@, i + 1, s@[i as int])
        } else {
            r is None
        },
        r matches Some(e) ==> i < e < s.len(),
{
    if !(i < s.len() && (s[i] == '\'' || s[i] == '"')) {
        return None;
    }
    let q = s[i];
    let mut j = i + 1;
    while j < s.len() && s[j] != q
        invariant
            i < j <= s.len(),
            q == s@[i as int],
            text_end(s@, i + 1, q) == text_end(s@, j as int, q),
        decreases s.len() - j,
    {
        if s[j] == '\\' {
            if j + 1 < s.len() && s[j + 1] == q {
                j = j + 2;
            } else {
                return None;
            }
        } else {
            j = j + 1;
        }
    }
    if j >= s.len() {
        None
    } else {
        Some(j)
    }
}

/// A text literal at `i`: its body, as written between the quotes.
pub fn literal(s: &Vec<char>, i: usize) -> (r: Option<(Value, usize)>)
    requires
        i <= s.len(),
    ensures
        token_view(r) == literal_at(s@, i as int),
{
    match literal_in(s, i) {
        Some(e) => {
            let body = slice_chars(s, i + 1, e);
            Some((Value::Text(body), e + 1))
        },
        None => None,
    }
}

/// A Boolean literal at `i`.
pub fn boolean(s: &Vec<char>, i: usize) -> (r: Option<(Value, usize)>)
    requires
        i <= s.len(),
    ensures
        token_view(r) == boolean_at(s@, i as int),
{
    let t = ['t', 'r', 'u', 'e'];
    assert(t@ =~= seq!['t', 'r', 'u', 'e']);
    let f = ['f', 'a', 'l', 's', 'e'];
    assert(f@ =~= seq!['f', 'a', 'l', 's', 'e']);
    if has_word(s, i, t) {
        Some((Value::Boolean(true), i + 4))
    } else if has_word(s, i, f) {
        Some((Value::Boolean(false), i + 5))
    } else {
        None
    }
}

/// A symbol at `i`.
pub fn symbol(s: &Vec<char>, i: usize) -> (r: Option<(Value, usize)>)
    requires
        i <= s.len(),
    ensures
        token_view(r) == symbol_at(s@, i as int),
{
    let k = scan(s, i, CharClass::SymbolChar);
    if k > i {
        let name = slice_chars(s, i, k);
        Some((Value::Symbol(name), k))
    } else {
        None
    }
}

/// The end of the whitespace at `i`.
pub fn whitespace(s: &Vec<char>, i: usize) -> (r: usize)
    requires
        i <= s.len(),
    ensures
        r == run_end(s@, i as int, class_fn(CharClass::Space)),
        i <= r <= s.len(),
{
    scan(s, i, CharClass::Space)
}

/// The token at `i`.
pub fn token<R: Fn(Vec<char>) -> Option<u32>>(s: &Vec<char>, i: usize, rd: &R) -> (r: Option<(Value, usize)>)
    requires
        i <= s.len(),
        reader_ops(*rd),
    ensures
        token_view(r) == token_at(s@, i as int, reader_of(*rd)),
    decreases s.len() - i, 2nat,
{
    let lit = literal(s, i);
    if lit.is_some() {
        return lit;
    }
    if floating_point(s, i).is_some() {
        return decimal(s, i, rd);
    }
    if maybe_signed_digits(s, i).is_some() {
        return number(s, i);
    }
    let b = boolean(s, i);
    if b.is_some() {
        return b;
    }
    let y = symbol(s, i);
    if y.is_some() {
        return y;
    }
    list(s, i, rd)
}

/// A quotation at `i`.
pub fn list<R: Fn(Vec<char>) -> Option<u32>>(s: &Vec<char>, i: usize, rd: &R) -> (r: Option<(Value, usize)>)
    requires
        i <= s.len(),
        reader_ops(*rd),
    ensures
        token_view(r) == list_at(s@, i as int, reader_of(*rd)),
    decreases s.len() - i, 1nat,
{
    if i < s.len() && s[i] == '[' {
        let (items, e) = expr(s, i + 1, rd);
        if e < s.len() && s[e] == ']' {
            proof {
                lemma_quotation_view(items);
            }
            Some((Value::Quotation(items), e + 1))
        } else {
            None
        }
    } else {
        None
    }
}

/// The tokens in front of what the rest of an expression holds.
pub open spec fn prepend(acc: Seq<Val>, r: (Seq<Val>, int)) -> (Seq<Val>, int) {
    (acc + r.0, r.1)
}

/// The longest expression at `i`, and where it ends.
pub fn expr<R: Fn(Vec<char>) -> Option<u32>>(s: &Vec<char>, i: usize, rd: &R) -> (r: (Vec<Value>, usize))
    requires
        i <= s.len(),
        reader_ops(*rd),
    ensures
        (models(r.0@), r.1 as int) == expr_at(s@, i as int, reader_of(*rd)),
    decreases s.len() - i, 3nat,
{
    let ghost rdr = reader_of(*rd);
    let mut items: Vec<Value> = Vec::new();
    let (v, e) = match token(s, i, rd) {
        Some(t) => t,
        None => {
            assert(models(items@) =~= Seq::<Val>::empty());
            return (items, i);
        },
    };
    if !(i < e && e <= s.len()) {
        assert(models(items@) =~= Seq::<Val>::empty());
        return (items, i);
    }
    proof {
        lemma_models_push(items@, v);
        assert(models(items@.push(v)) =~= seq![v@]);
    }
    items.push(v);
    let mut pos = e;
    loop
        invariant
            i < pos <= s.len(),
            reader_ops(*rd),
            rdr == reader_of(*rd),
            expr_at(s@, i as int, rdr) == prepend(models(items@), expr_more(s@, pos as int, rdr)),
        ensures
            expr_at(s@, i as int, rdr) == prepend(models(items@), (Seq::<Val>::empty(), pos as int)),
        decreases s.len() - pos,
    {
        let w = whitespace(s, pos);
        if w <= pos {
            break;
        }
        let (v, e) = match token(s, w, rd) {
            Some(t) => t,
            None => {
                break;
            },
        };
        if !(w < e && e <= s.len()) {
            break;
        }
        proof {
            lemma_models_push(items@, v);
            let more = expr_more(s@, e as int, rdr);
            assert(models(items@) + (seq![v@] + more.0) =~= models(items@.push(v)) + more.0);
        }
        items.push(v);
        pos = e;
    }
    assert(models(items@) + Seq::<Val>::empty() =~= models(items@));
    (items, pos)
}

/// The characters of a string.
pub fn chars_of(line: &str) -> (r: Vec<char>)
    ensures
        r@ == line@,
{
    let n = line.unicode_len();
    let mut r: Vec<char> = Vec::new();
    let mut i: usize = 0;
    while i < n
        invariant
            i <= n == line@.len(),
            r@ == line@.take(i as int),
        decreases n - i,
    {
        r.push(line.get_char(i));
        i = i + 1;
        assert(r@ =~= line@.take(i as int));
    }
    assert(line@.take(n as int) =~= line@);
    r
}

/// A line without the blanks at both ends.
pub fn trimmed(s: &Vec<char>) -> (r: Vec<char>)
    ensures
        r@ == trim(s@),
{
    let mut lo: usize = 0;
    assert(s@.subrange(0, s.len() as int) =~= s@);
    while lo < s.len() && (s[lo] == ' ' || s[lo] == '\t' || s[lo] == '\n' || s[lo] == '\r')
        invariant
            lo <= s.len(),
            trim_start(s@) == trim_start(s@.subrange(lo as int, s.len() as int)),
        decreases s.len() - lo,
    {
        assert(s@.subrange(lo as int, s.len() as int).drop_first() =~= s@.subrange(lo + 1, s.len() as int));
        lo = lo + 1;
    }
    let mut hi: usize = s.len();
    let ghost front = s@.subrange(lo as int, s.len() as int);
    assert(trim_start(s@) == front);
    while hi > lo && (s[hi - 1] == ' ' || s[hi - 1] == '\t' || s[hi - 1] == '\n' || s[hi - 1] == '\r')
        invariant
            lo <= hi <= s.len(),
            trim_end(front) == trim_end(s@.subrange(lo as int, hi as int)),
        decreases hi - lo,
    {
        assert(s@.subrange(lo as int, hi as int).drop_last() =~= s@.subrange(lo as int, hi - 1));
        hi = hi - 1;
    }
    slice_chars(s, lo, hi)
}

/// Parses text as a program: the whole text must be one expression. Decimal literals are read
/// by `rd`.
pub fn parse_program<R: Fn(Vec<char>) -> Option<u32>>(t: &Vec<char>, rd: &R) -> (r: Option<Vec<Value>>)
    requires
        reader_ops(*rd),
    ensures
        match r {
            Some(p) => program_of(t@, reader_of(*rd)) == Some(models(p@)),
            None => program_of(t@, reader_of(*rd)) is None,
        },
{
    let (items, e) = expr(t, 0, rd);
    if e == t.len() {
        Some(items)
    } else {
        None
    }
}

/// Parses text as a definition: a name, whitespace, `==`, whitespace and the body, which must
/// reach the end of the text.
pub fn definition<R: Fn(Vec<char>) -> Option<u32>>(t: &Vec<char>, rd: &R) -> (r: Option<(Vec<char>, Vec<Value>)>)
    requires
        reader_ops(*rd),
    ensures
        match r {
            Some(d) => definition_of(t@, reader_of(*rd)) == Some((d.0@, models(d.1@))),
            None => definition_of(t@, reader_of(*rd)) is None,
        },
{
    let k = scan(t, 0, CharClass::SymbolChar);
    let w1 = whitespace(t, k);
    let eq = ['=', '='];
    assert(eq@ =~= seq!['=', '=']);
    if !(k > 0 && w1 > k && has_word(t, w1, eq)) {
        return None;
    }
    let w2 = whitespace(t, w1 + 2);
    if w2 <= w1 + 2 {
        return None;
    }
    let (body, e) = expr(t, w2, rd);
    if e == t.len() {
        let name = slice_chars(t, 0, k);
        Some((name, body))
    } else {
        None
    }
}

} // verus!
