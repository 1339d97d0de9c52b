use vstd::prelude::*;

verus! {

/// The words that the evaluator implements itself.
#[derive(Debug, Clone, Copy, PartialEq, Eq, Structural)]
pub enum Builtin {
    Add,
    Sub,
    Mul,
    Greater,
    Less,
    Equal,
    Pop,
    Dup,
    Swap,
    Concat,
    Rest,
    Size,
    Apply,
    Dip,
    Ifte,
    MapEach,
    Filter,
    Fold,
    Quit,
}

/// The name under which each built-in word is written.
pub open spec fn builtin_name(b: Builtin) -> Seq<char> {
    match b {
        Builtin::Add => seq!['+'],
        Builtin::Sub => seq!['-'],
        Builtin::Mul => seq!['*'],
        Builtin::Greater => seq!['>'],
        Builtin::Less => seq!['<'],
        Builtin::Equal => seq!['='],
        Builtin::Pop => seq!['p', 'o', 'p'],
        Builtin::Dup => seq!['d', 'u', 'p'],
        Builtin::Swap => seq!['s', 'w', 'a', 'p'],
        Builtin::Concat => seq!['c', 'o', 'n', 'c', 'a', 't'],
        Builtin::Rest => seq!['r', 'e', 's', 't'],
        Builtin::Size => seq!['s', 'i', 'z', 'e'],
        Builtin::Apply => seq!['i'],
        Builtin::Dip => seq!['d', 'i', 'p'],
        Builtin::Ifte => seq!['i', 'f', 't', 'e'],
        Builtin::MapEach => seq!['m', 'a', 'p'],
        Builtin::Filter => seq!['f', 'i', 'l', 't', 'e', 'r'],
        Builtin::Fold => seq!['f', 'o', 'l', 'd'],
        Builtin::Quit => seq!['q', 'u', 'i', 't'],
    }
}

/// The built-in word that a name denotes, if any.
pub open spec fn builtin_named(name: Seq<char>) -> Option<Builtin> {
    if exists|b: Builtin| builtin_name(b) == name {
        Some(choose|b: Builtin| builtin_name(b) == name)
    } else {
        None
    }
}

/// Distinct built-in words have distinct names.
pub proof fn lemma_builtin_names_distinct(a: Builtin, b: Builtin)
    ensures
        builtin_name(a) == builtin_name(b) ==> a == b,
{
    if builtin_name(a) == builtin_name(b) {
        let na = builtin_name(a);
        let nb = builtin_name(b);
        assert(na.len() == nb.len());
        assert(na[0] == nb[0]);
        if na.len() > 1 {
            assert(na[1] == nb[1]);
        }
        if na.len() > 2 {
            assert(na[2] == nb[2]);
        }
        if na.len() > 3 {
            assert(na[3] == nb[3]);
        }
    }
}

/// A built-in word is found under its own name.
pub proof fn lemma_builtin_named(b: Builtin)
    ensures
        builtin_named(builtin_name(b)) == Some(b),
{
    let c = choose|c: Builtin| builtin_name(c) == builtin_name(b);
    lemma_builtin_names_distinct(b, c);
}

fn spells<const N: usize>(name: &Vec<char>, word: [char; N]) -> (r: bool)
    ensures
        r == (name@ == word@),
{
    if name.len() != N {
        return false;
    }
    let mut i: usize = 0;
    while i < name.len()
        invariant
            i <= name.len() == word@.len() == N,
            name@.take(i as int) == word@.take(i as int),
        decreases name.len() - i,
    {
        if name[i] != word[i] {
            assert(name@[i as int] != word@[i as int]);
            return false;
        }
        assert(name@.take(i + 1) =~= name@.take(i as int).push(name@[i as int]));
        assert(word@.take(i + 1) =~= word@.take(i as int).push(word@[i as int]));
        i = i + 1;
    }
    assert(name@ =~= name@.take(i as int));
    assert(word@ =~= word@.take(i as int));
    true
}

/// Whether two character sequences are equal.
pub fn same_chars(a: &Vec<char>, b: &Vec<char>) -> (r: bool)
    ensures
        r == (a@ == b@),
{
    if a.len() != b.len() {
        return false;
    }
    let mut i: usize = 0;
    while i < a.len()
        invariant
            i <= a.len() == b.len(),
            a@.take(i as int) == b@.take(i as int),
        decreases a.len() - i,
    {
        if a[i] != b[i] {
            assert(a@[i as int] != b@[i as int]);
            return false;
        }
        assert(a@.take(i + 1) =~= a@.take(i as int).push(a@[i as int]));
        assert(b@.take(i + 1) =~= b@.take(i as int).push(b@[i as int]));
        i = i + 1;
    }
    assert(a@ =~= a@.take(i as int));
    assert(b@ =~= b@.take(i as int));
    true
}

fn chars_from<const N: usize>(w: [char; N]) -> (r: Vec<char>)
    ensures
        r@ == w@,
{
    let mut r: Vec<char> = Vec::new();
    let mut j: usize = 0;
    while j < N
        invariant
            j <= N,
            r@ == w@.take(j as int),
        decreases N - j,
    {
        r.push(w[j]);
        j = j + 1;
        assert(r@ =~= w@.take(j as int));
    }
    assert(w@.take(N as int) =~= w@);
    r
}

/// The name of a built-in word, as it is written.
pub fn name_of(b: Builtin) -> (r: Vec<char>)
    ensures
        r@ == builtin_name(b),
{
    match b {
        Builtin::Add => {
            let w = ['+'];
            assert(w@ =~= builtin_name(b));
            chars_from(w)
        },
        Builtin::Sub => {
            let w = ['-'];
            assert(w@ =~= builtin_name(b));
            chars_from(w)
        },
        Builtin::Mul => {
            let w = ['*'];
            assert(w@ =~= builtin_name(b));
            chars_from(w)
        },
        Builtin::Greater => {
            let w = ['>'];
            assert(w@ =~= builtin_name(b));
            chars_from(w)
        },
        Builtin::Less => {
            let w = ['<'];
            assert(w@ =~= builtin_name(b));
            chars_from(w)
        },
        Builtin::Equal => {
            let w = ['='];
            assert(w@ =~= builtin_name(b));
            chars_from(w)
        },
        Builtin::Pop => {
            let w = ['p', 'o', 'p'];
            assert(w@ =~= builtin_name(b));
            chars_from(w)
        },
        Builtin::Dup => {
            let w = ['d', 'u', 'p'];
            assert(w@ =~= builtin_name(b));
            chars_from(w)
        },
        Builtin::Swap => {
            let w = ['s', 'w', 'a', 'p'];
            assert(w@ =~= builtin_name(b));
            chars_from(w)
        },
        Builtin::Concat => {
            let w = ['c', 'o', 'n', 'c', 'a', 't'];
            assert(w@ =~= builtin_name(b));
            chars_from(w)
        },
        Builtin::Rest => {
            let w = ['r', 'e', 's', 't'];
            assert(w@ =~= builtin_name(b));
            chars_from(w)
        },
        Builtin::Size => {
            let w = ['s', 'i', 'z', 'e'];
            assert(w@ =~= builtin_name(b));
            chars_from(w)
        },
        Builtin::Apply => {
            let w = ['i'];
            assert(w@ =~= builtin_name(b));
            chars_from(w)
        },
        Builtin::Dip => {
            let w = ['d', 'i', 'p'];
            assert(w@ =~= builtin_name(b));
            chars_from(w)
        },
        Builtin::Ifte => {
            let w = ['i', 'f', 't', 'e'];
            assert(w@ =~= builtin_name(b));
            chars_from(w)
        },
        Builtin::MapEach => {
            let w = ['m', 'a', 'p'];
            assert(w@ =~= builtin_name(b));
            chars_from(w)
        },
        Builtin::Filter => {
            let w = ['f', 'i', 'l', 't', 'e', 'r'];
            assert(w@ =~= builtin_name(b));
            chars_from(w)
        },
        Builtin::Fold => {
            let w = ['f', 'o', 'l', 'd'];
            assert(w@ =~= builtin_name(b));
            chars_from(w)
        },
        Builtin::Quit => {
            let w = ['q', 'u', 'i', 't'];
            assert(w@ =~= builtin_name(b));
            chars_from(w)
        },
    }
}

/// Looks a name up among the built-in words.
pub fn builtin_of(name: &Vec<char>) -> (r: Option<Builtin>)
    ensures
        r == builtin_named(name@),
{
    let w = ['+'];
    assert(w@ =~= builtin_name(Builtin::Add));
    if spells(name, w) {
        proof {
            lemma_builtin_named(Builtin::Add);
        }
        return Some(Builtin::Add);
    }
    let w = ['-'];
    assert(w@ =~= builtin_name(Builtin::Sub));
    if spells(name, w) {
        proof {
            lemma_builtin_named(Builtin::Sub);
        }
        return Some(Builtin::Sub);
    }
    let w = ['*'];
    assert(w@ =~= builtin_name(Builtin::Mul));
    if spells(name, w) {
        proof {
            lemma_builtin_named(Builtin::Mul);
        }
        return Some(Builtin::Mul);
    }
    let w = ['>'];
    assert(w@ =~= builtin_name(Builtin::Greater));
    if spells(name, w) {
        proof {
            lemma_builtin_named(Builtin::Greater);
        }
        return Some(Builtin::Greater);
    }
    let w = ['<'];
    assert(w@ =~= builtin_name(Builtin::Less));
    if spells(name, w) {
        proof {
            lemma_builtin_named(Builtin::Less);
        }
        return Some(Builtin::Less);
    }
    let w = ['='];
    assert(w@ =~= builtin_name(Builtin::Equal));
    if spells(name, w) {
        proof {
            lemma_builtin_named(Builtin::Equal);
        }
        return Some(Builtin::Equal);
    }
    let w = ['p', 'o', 'p'];
    assert(w@ =~= builtin_name(Builtin::Pop));
    if spells(name, w) {
        proof {
            lemma_builtin_named(Builtin::Pop);
        }
        return Some(Builtin::Pop);
    }
    let w = ['d', 'u', 'p'];
    assert(w@ =~= builtin_name(Builtin::Dup));
    if spells(name, w) {
        proof {
            lemma_builtin_named(Builtin::Dup);
        }
        return Some(Builtin::Dup);
    }
    let w = ['s', 'w', 'a', 'p'];
    assert(w@ =~= builtin_name(Builtin::Swap));
    if spells(name, w) {
        proof {
            lemma_builtin_named(Builtin::Swap);
        }
        return Some(Builtin::Swap);
    }
    let w = ['c', 'o', 'n', 'c', 'a', 't'];
    assert(w@ =~= builtin_name(Builtin::Concat));
    if spells(name, w) {
        proof {
            lemma_builtin_named(Builtin::Concat);
        }
        return Some(Builtin::Concat);
    }
    let w = ['r', 'e', 's', 't'];
    assert(w@ =~= builtin_name(Builtin::Rest));
    if spells(name, w) {
        proof {
            lemma_builtin_named(Builtin::Rest);
        }
        return Some(Builtin::Rest);
    }
    let w = ['s', 'i', 'z', 'e'];
    assert(w@ =~= builtin_name(Builtin::Size));
    if spells(name, w) {
        proof {
            lemma_builtin_named(Builtin::Size);
        }
        return Some(Builtin::Size);
    }
    let w = ['i'];
    assert(w@ =~= builtin_name(Builtin::Apply));
    if spells(name, w) {
        proof {
            lemma_builtin_named(Builtin::Apply);
        }
        return Some(Builtin::Apply);
    }
    let w = ['d', 'i', 'p'];
    assert(w@ =~= builtin_name(Builtin::Dip));
    if spells(name, w) {
        proof {
            lemma_builtin_named(Builtin::Dip);
        }
        return Some(Builtin::Dip);
    }
    let w = ['i', 'f', 't', 'e'];
    assert(w@ =~= builtin_name(Builtin::Ifte));
    if spells(name, w) {
        proof {
            lemma_builtin_named(Builtin::Ifte);
        }
        return Some(Builtin::Ifte);
    }
    let w = ['m', 'a', 'p'];
    assert(w@ =~= builtin_name(Builtin::MapEach));
    if spells(name, w) {
        proof {
            lemma_builtin_named(Builtin::MapEach);
        }
        return Some(Builtin::MapEach);
    }
    let w = ['f', 'i', 'l', 't', 'e', 'r'];
    assert(w@ =~= builtin_name(Builtin::Filter));
    if spells(name, w) {
        proof {
            lemma_builtin_named(Builtin::Filter);
        }
        return Some(Builtin::Filter);
    }
    let w = ['f', 'o', 'l', 'd'];
    assert(w@ =~= builtin_name(Builtin::Fold));
    if spells(name, w) {
        proof {
            lemma_builtin_named(Builtin::Fold);
        }
        return Some(Builtin::Fold);
    }
    let w = ['q', 'u', 'i', 't'];
    assert(w@ =~= builtin_name(Builtin::Quit));
    if spells(name, w) {
        proof {
            lemma_builtin_named(Builtin::Quit);
        }
        return Some(Builtin::Quit);
    }
    assert forall|b: Builtin| builtin_name(b) != name@ by {
        match b {
            Builtin::Add => {},
            Builtin::Sub => {},
            Builtin::Mul => {},
            Builtin::Greater => {},
            Builtin::Less => {},
            Builtin::Equal => {},
            Builtin::Pop => {},
            Builtin::Dup => {},
            Builtin::Swap => {},
            Builtin::Concat => {},
            Builtin::Rest => {},
            Builtin::Size => {},
            Builtin::Apply => {},
            Builtin::Dip => {},
            Builtin::Ifte => {},
            Builtin::MapEach => {},
            Builtin::Filter => {},
            Builtin::Fold => {},
            Builtin::Quit => {},
        }
    }
    None
}

} // verus!
