use vstd::prelude::*;

verus! {

/// The balances of the accounts, keyed by account name; no name occurs twice.
pub struct Accounts {
    entries: Vec<(String, u32)>,
}

impl Accounts {
    #[verifier::type_invariant]
    spec fn names_distinct(self) -> bool {
        forall|i: int, j: int|
            0 <= i < self.entries@.len() && 0 <= j < self.entries@.len() && i != j
                ==> #[trigger] self.entries@[i].0@ != #[trigger] self.entries@[j].0@
    }

    spec fn has_name(self, name: Seq<char>) -> bool {
        exists|i: int| 0 <= i < self.entries@.len() && #[trigger] self.entries@[i].0@ == name
    }

    spec fn position(self, name: Seq<char>) -> int {
        choose|i: int| 0 <= i < self.entries@.len() && #[trigger] self.entries@[i].0@ == name
    }

    proof fn lemma_position(self, i: int)
        requires
            self.names_distinct(),
            0 <= i < self.entries@.len(),
        ensures
            self.has_name(self.entries@[i].0@),
            self.position(self.entries@[i].0@) == i,
    {
        let name = self.entries@[i].0@;
        assert(self.entries@[i].0@ == name);
        let j = self.position(name);
        assert(0 <= j < self.entries@.len() && self.entries@[j].0@ == name);
    }
}

impl View for Accounts {
    type V = Map<Seq<char>, u32>;

    closed spec fn view(&self) -> Map<Seq<char>, u32> {
        Map::new(|name: Seq<char>| self.has_name(name), |name: Seq<char>| self.entries@[self.position(name)].1)
    }
}

impl Clone for Accounts {
    fn clone(&self) -> (r: Self)
        ensures
            r@ == self@,
    {
        proof { use_type_invariant(self); }
        let mut entries: Vec<(String, u32)> = Vec::new();
        let n = self.entries.len();
        let mut i: usize = 0;
        while i < n
            invariant
                n == self.entries@.len(),
                i <= n,
                entries@.len() == i,
                forall|j: int| 0 <= j < i ==> #[trigger] entries@[j].0@ == self.entries@[j].0@
                    && entries@[j].1 == self.entries@[j].1,
            decreases n - i,
        {
            let name = self.entries[i].0.clone();
            entries.push((name, self.entries[i].1));
            i = i + 1;
        }
        let r = Accounts { entries };
        proof {
            assert forall|name: Seq<char>| r.has_name(name) == self.has_name(name) by {
                if r.has_name(name) {
                    let j = choose|j: int| 0 <= j < r.entries@.len() && #[trigger] r.entries@[j].0@ == name;
                    assert(self.entries@[j].0@ == name);
                }
                if self.has_name(name) {
                    let j = choose|j: int| 0 <= j < self.entries@.len() && #[trigger] self.entries@[j].0@ == name;
                    assert(r.entries@[j].0@ == name);
                }
            }
            assert forall|name: Seq<char>| r.has_name(name) implies
                r.entries@[r.position(name)].1 == self.entries@[self.position(name)].1 by {
                let j = r.position(name);
                self.lemma_position(j);
                r.lemma_position(j);
            }
            assert(r@ =~= self@);
        }
        r
    }
}

impl Accounts {
    /// There are finitely many accounts.
    pub proof fn lemma_view_finite(&self)
        ensures
            self@.dom().finite(),
    {
        let names = self.entries@.map_values(|e: (String, u32)| e.0@);
        assert forall|name: Seq<char>| self@.dom().contains(name) == names.to_set().contains(name) by {
            if self@.dom().contains(name) {
                let i = choose|i: int| 0 <= i < self.entries@.len() && #[trigger] self.entries@[i].0@ == name;
                assert(names[i] == name);
            }
            if names.to_set().contains(name) {
                let i = choose|i: int| 0 <= i < names.len() && names[i] == name;
                assert(self.entries@[i].0@ == name);
            }
        }
        assert(self@.dom() =~= names.to_set());
        vstd::seq_lib::seq_to_set_is_finite(names);
    }

    /// No account at all.
    pub fn new() -> (r: Accounts)
        ensures
            r@ == Map::<Seq<char>, u32>::empty(),
    {
        let r = Accounts { entries: Vec::new() };
        assert(r@ =~= Map::<Seq<char>, u32>::empty());
        r
    }

    fn find(&self, name: &String) -> (r: Option<usize>)
        ensures
            match r {
                Some(i) => i < self.entries@.len() && self.entries@[i as int].0@ == name@,
                None => !self.has_name(name@),
            },
    {
        let n = self.entries.len();
        let mut i: usize = 0;
        while i < n
            invariant
                n == self.entries@.len(),
                i <= n,
                forall|j: int| 0 <= j < i ==> #[trigger] self.entries@[j].0@ != name@,
            decreases n - i,
        {
            if self.entries[i].0 == *name {
                return Some(i);
            }
            i = i + 1;
        }
        None
    }

    /// The balance of the account `name`, if there is one.
    pub fn get(&self, name: &String) -> (r: Option<u32>)
        ensures
            r == (if self@.contains_key(name@) { Some(self@[name@]) } else { None::<u32> }),
    {
        proof { use_type_invariant(self); }
        match self.find(name) {
            Some(i) => {
                proof { self.lemma_position(i as int); }
                Some(self.entries[i].1)
            },
            None => None,
        }
    }

    /// Sets the balance of the account `name`, opening it where there is none.
    pub fn insert(&mut self, name: String, balance: u32)
        ensures
            final(self)@ == old(self)@.insert(name@, balance),
    {
        proof { use_type_invariant(&*self); }
        let ghost before = *self;
        let found = self.find(&name);
        let mut entries: Vec<(String, u32)> = Vec::new();
        std::mem::swap(&mut entries, &mut self.entries);
        match found {
            Some(i) => {
                entries.set(i, (name, balance));
                let ghost after = Accounts { entries };
                proof {
                    assert(after.entries@ == before.entries@.update(i as int, after.entries@[i as int]));
                    assert(after.names_distinct());
                    Self::lemma_update_view(before, after, i as int);
                }
            },
            None => {
                entries.push((name, balance));
                let ghost after = Accounts { entries };
                proof {
                    assert(after.names_distinct());
                    Self::lemma_push_view(before, after);
                }
            },
        }
        self.entries = entries;
    }

    proof fn lemma_update_view(before: Accounts, after: Accounts, i: int)
        requires
            before.names_distinct(),
            after.names_distinct(),
            0 <= i < before.entries@.len(),
            after.entries@.len() == before.entries@.len(),
            after.entries@[i].0@ == before.entries@[i].0@,
            forall|j: int| 0 <= j < before.entries@.len() && j != i ==> #[trigger] after.entries@[j] == before.entries@[j],
        ensures
            after@ == before@.insert(before.entries@[i].0@, after.entries@[i].1),
    {
        let key = before.entries@[i].0@;
        assert forall|name: Seq<char>| after.has_name(name) == before@.insert(key, after.entries@[i].1).dom().contains(name) by {
            if after.has_name(name) {
                let j = choose|j: int| 0 <= j < after.entries@.len() && #[trigger] after.entries@[j].0@ == name;
                if j != i {
                    assert(before.entries@[j].0@ == name);
                }
            }
            if before.has_name(name) {
                let j = choose|j: int| 0 <= j < before.entries@.len() && #[trigger] before.entries@[j].0@ == name;
                if j != i {
                    assert(after.entries@[j] == before.entries@[j]);
                    assert(after.entries@[j].0@ == name);
                } else {
                    assert(after.entries@[i].0@ == name);
                }
            }
            if name == key {
                assert(after.entries@[i].0@ == name);
            }
        }
        assert forall|name: Seq<char>| after.has_name(name) implies
            after.entries@[after.position(name)].1 == before@.insert(key, after.entries@[i].1)[name] by {
            let j = after.position(name);
            after.lemma_position(j);
            if j != i {
                assert(after.entries@[j] == before.entries@[j]);
                before.lemma_position(j);
            } else {
                after.lemma_position(i);
            }
        }
        assert(after@ =~= before@.insert(key, after.entries@[i].1));
    }

    proof fn lemma_push_view(before: Accounts, after: Accounts)
        requires
            before.names_distinct(),
            after.names_distinct(),
            after.entries@.len() == before.entries@.len() + 1,
            forall|j: int| 0 <= j < before.entries@.len() ==> #[trigger] after.entries@[j] == before.entries@[j],
        ensures
            after@ == before@.insert(after.entries@.last().0@, after.entries@.last().1),
    {
        let n = before.entries@.len() as int;
        let key = after.entries@[n].0@;
        let v = after.entries@[n].1;
        assert forall|name: Seq<char>| after.has_name(name) == before@.insert(key, v).dom().contains(name) by {
            if after.has_name(name) {
                let j = choose|j: int| 0 <= j < after.entries@.len() && #[trigger] after.entries@[j].0@ == name;
                if j != n {
                    assert(after.entries@[j] == before.entries@[j]);
                    assert(before.entries@[j].0@ == name);
                }
            }
            if before.has_name(name) {
                let j = choose|j: int| 0 <= j < before.entries@.len() && #[trigger] before.entries@[j].0@ == name;
                assert(after.entries@[j] == before.entries@[j]);
                assert(after.entries@[j].0@ == name);
            }
            if name == key {
                assert(after.entries@[n].0@ == name);
            }
        }
        assert forall|name: Seq<char>| after.has_name(name) implies
            after.entries@[after.position(name)].1 == before@.insert(key, v)[name] by {
            let j = after.position(name);
            after.lemma_position(j);
            if j != n {
                assert(after.entries@[j] == before.entries@[j]);
                before.lemma_position(j);
                after.lemma_position(n);
            } else {
                after.lemma_position(n);
            }
        }
        assert(after@ =~= before@.insert(key, v));
    }

    /// Every account with its balance, each name once.
    pub fn to_vec(&self) -> (r: Vec<(String, u32)>)
        ensures
            forall|i: int| 0 <= i < r@.len() ==> self@.contains_key(#[trigger] r@[i].0@)
                && self@[r@[i].0@] == r@[i].1,
            forall|name: Seq<char>| #[trigger] self@.contains_key(name) ==>
                exists|i: int| 0 <= i < r@.len() && #[trigger] r@[i].0@ == name,
            forall|i: int, j: int| 0 <= i < r@.len() && 0 <= j < r@.len() && i != j
                ==> #[trigger] r@[i].0@ != #[trigger] r@[j].0@,
    {
        proof { use_type_invariant(self); }
        let copy = self.clone();
        proof { use_type_invariant(&copy); }
        let r = copy.entries;
        proof {
            assert forall|i: int| 0 <= i < r@.len() implies self@.contains_key(#[trigger] r@[i].0@)
                && self@[r@[i].0@] == r@[i].1 by {
                copy.lemma_position(i);
            }
            assert forall|name: Seq<char>| #[trigger] self@.contains_key(name) implies
                exists|i: int| 0 <= i < r@.len() && #[trigger] r@[i].0@ == name by {
                assert(copy@.contains_key(name));
                let j = copy.position(name);
                assert(r@[j].0@ == name);
            }
        }
        r
    }
}

} // verus!
