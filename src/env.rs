use vstd::prelude::*;
use crate::value::{Value, Val, models, copy_values};

verus! {

/// The user-defined words: a map from names to program bodies.
pub struct Env {
    entries: Vec<(Vec<char>, Vec<Value>)>,
}

impl Env {
    /// Well-formedness: no two entries share a name.
    pub closed spec fn wf(self) -> bool {
        forall|i: int, j: int|
            0 <= i < j < self.entries.len() ==> (#[trigger] self.entries[i]).0@ != (#[trigger] self.entries[j]).0@
    }

    spec fn holds(self, name: Seq<char>) -> bool {
        exists|i: int| 0 <= i < self.entries.len() && (#[trigger] self.entries[i]).0@ == name
    }

    spec fn slot(self, name: Seq<char>) -> int {
        choose|i: int| 0 <= i < self.entries.len() && (#[trigger] self.entries[i]).0@ == name
    }

    pub closed spec fn view(self) -> Map<Seq<char>, Seq<Val>> {
        Map::new(|name: Seq<char>| self.holds(name), |name: Seq<char>| models(self.entries[self.slot(name)].1@))
    }

    proof fn lemma_slot(self, i: int)
        requires
            self.wf(),
            0 <= i < self.entries.len(),
        ensures
            self@.contains_key(self.entries[i].0@),
            self@[self.entries[i].0@] == models(self.entries[i].1@),
    {
        let name = self.entries[i].0@;
        assert(self.holds(name));
        let j = self.slot(name);
        assert(i == j);
    }

    /// An environment with no words.
    pub fn new() -> (r: Env)
        ensures
            r.wf(),
            r@ == Map::<Seq<char>, Seq<Val>>::empty(),
    {
        let r = Env { entries: Vec::new() };
        assert(r@ =~= Map::<Seq<char>, Seq<Val>>::empty());
        r
    }

    fn position(&self, name: &Vec<char>) -> (r: Option<usize>)
        ensures
            match r {
                Some(i) => i < self.entries.len() && self.entries[i as int].0@ == name@,
                None => !self.holds(name@),
            },
    {
        let mut i: usize = 0;
        while i < self.entries.len()
            invariant
                i <= self.entries.len(),
                forall|j: int| 0 <= j < i ==> (#[trigger] self.entries[j]).0@ != name@,
            decreases self.entries.len() - i,
        {
            if crate::builtin::same_chars(&self.entries[i].0, name) {
                return Some(i);
            }
            i = i + 1;
        }
        None
    }

    /// Binds a name to a body, replacing any earlier binding of that name.
    pub fn bind(&mut self, name: Vec<char>, body: Vec<Value>)
        requires
            old(self).wf(),
        ensures
            final(self).wf(),
            final(self)@ == old(self)@.insert(name@, models(body@)),
    {
        let ghost before = *self;
        match self.position(&name) {
            Some(i) => {
                let ghost key = name@;
                self.entries.set(i, (name, body));
                proof {
                    assert forall|k: Seq<char>| #![auto] self@.contains_key(k) == before@.insert(key, models(body@)).contains_key(k) by {
                        if self.holds(k) {
                            let j = self.slot(k);
                            if j != i {
                                assert(before.entries[j] == self.entries[j]);
                                assert(before.holds(k));
                            }
                        }
                        if before.holds(k) && k != key {
                            let j = before.slot(k);
                            assert(before.entries[j] == self.entries[j]);
                            assert(self.holds(k));
                        }
                        if k == key {
                            assert(self.entries[i as int].0@ == key);
                            assert(self.holds(k));
                        }
                    }
                    assert forall|k: Seq<char>| #![auto] self@.contains_key(k) implies self@[k] == before@.insert(key, models(body@))[k] by {
                        let j = self.slot(k);
                        self.lemma_slot(j);
                        if k != key {
                            before.lemma_slot(j);
                        }
                    }
                    assert(self@ =~= before@.insert(key, models(body@)));
                }
            },
            None => {
                let ghost key = name@;
                self.entries.push((name, body));
                proof {
                    let n = before.entries.len() as int;
                    assert(self.entries[n].0@ == key);
                    assert forall|i: int, j: int| 0 <= i < j < self.entries.len() implies (#[trigger] self.entries[i]).0@ != (#[trigger] self.entries[j]).0@ by {
                        if j == n {
                            assert(before.entries[i] == self.entries[i]);
                        } else {
                            assert(before.entries[i] == self.entries[i]);
                            assert(before.entries[j] == self.entries[j]);
                        }
                    }
                    assert forall|k: Seq<char>| #![auto] self@.contains_key(k) == before@.insert(key, models(body@)).contains_key(k) by {
                        if self.holds(k) {
                            let j = self.slot(k);
                            if j != n {
                                assert(before.entries[j] == self.entries[j]);
                                assert(before.holds(k));
                            }
                        }
                        if before.holds(k) {
                            let j = before.slot(k);
                            assert(before.entries[j] == self.entries[j]);
                            assert(self.holds(k));
                        }
                        if k == key {
                            assert(self.holds(k));
                        }
                    }
                    assert forall|k: Seq<char>| #![auto] self@.contains_key(k) implies self@[k] == before@.insert(key, models(body@))[k] by {
                        let j = self.slot(k);
                        self.lemma_slot(j);
                        if k != key {
                            before.lemma_slot(j);
                        }
                    }
                    assert(self@ =~= before@.insert(key, models(body@)));
                }
            },
        }
    }

    /// The body bound to a name, if any.
    pub fn lookup(&self, name: &Vec<char>) -> (r: Option<&Vec<Value>>)
        requires
            self.wf(),
        ensures
            match r {
                Some(body) => self@.contains_key(name@) && self@[name@] == models(body@),
                None => !self@.contains_key(name@),
            },
    {
        match self.position(name) {
            Some(i) => {
                proof {
                    self.lemma_slot(i as int);
                }
                Some(&self.entries[i].1)
            },
            None => None,
        }
    }

    /// A copy of the body bound to a name, if any.
    pub fn lookup_copy(&self, name: &Vec<char>) -> (r: Option<Vec<Value>>)
        requires
            self.wf(),
        ensures
            match r {
                Some(body) => self@.contains_key(name@) && self@[name@] == models(body@),
                None => !self@.contains_key(name@),
            },
    {
        match self.lookup(name) {
            Some(body) => Some(copy_values(body)),
            None => None,
        }
    }
}

} // verus!
