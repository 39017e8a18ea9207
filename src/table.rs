//! A table from path names to handles, kept in insertion order.

use vstd::prelude::*;

verus! {

/// Names bound to handles; no name occurs twice.
pub struct NameTable {
    entries: Vec<(String, u64)>,
}

/// Whether entry `i` of `s` carries the name `k`.
pub open spec fn names_at(s: Seq<(String, u64)>, i: int, k: Seq<char>) -> bool {
    0 <= i < s.len() && s[i].0@ == k
}

impl NameTable {
    /// The entries, in the order they were bound.
    pub closed spec fn entries(&self) -> Seq<(String, u64)> {
        self.entries@
    }

    /// The table as a map from names to handles.
    pub closed spec fn view(&self) -> Map<Seq<char>, u64> {
        Map::new(
            |k: Seq<char>| exists|i: int| names_at(self.entries@, i, k),
            |k: Seq<char>| self.entries@[choose|i: int| names_at(self.entries@, i, k)].1,
        )
    }

    /// No name is bound twice.
    pub closed spec fn wf(&self) -> bool {
        forall|i: int, j: int|
            0 <= i < self.entries@.len() && 0 <= j < self.entries@.len() && #[trigger] self.entries@[i].0@
                == #[trigger] self.entries@[j].0@ ==> i == j
    }

    proof fn lemma_at(&self, i: int)
        requires
            self.wf(),
            0 <= i < self.entries@.len(),
        ensures
            self@.contains_key(self.entries@[i].0@),
            self@[self.entries@[i].0@] == self.entries@[i].1,
    {
        let k = self.entries@[i].0@;
        assert(names_at(self.entries@, i, k));
        let j = choose|j: int| names_at(self.entries@, j, k);
        assert(self.entries@[j].0@ == self.entries@[i].0@);
    }

    /// An empty table.
    pub fn new() -> (r: NameTable)
        ensures
            r.wf(),
            r@ == Map::<Seq<char>, u64>::empty(),
    {
        let r = NameTable { entries: Vec::new() };
        assert(r@ =~= Map::<Seq<char>, u64>::empty());
        r
    }

    /// The handle bound to `name`, if any.
    pub fn lookup(&self, name: &str) -> (r: Option<u64>)
        requires
            self.wf(),
        ensures
            r == (if self@.contains_key(name@) {
                Some(self@[name@])
            } else {
                None::<u64>
            }),
    {
        let key = name.to_owned();
        let mut i: usize = 0;
        while i < self.entries.len()
            invariant
                self.wf(),
                key@ == name@,
                0 <= i <= self.entries@.len(),
                forall|j: int| 0 <= j < i ==> self.entries@[j].0@ != name@,
            decreases self.entries@.len() - i,
        {
            if self.entries[i].0 == key {
                proof { self.lemma_at(i as int); }
                return Some(self.entries[i].1);
            }
            i = i + 1;
        }
        assert(!self@.contains_key(name@)) by {
            if self@.contains_key(name@) {
                let j = choose|j: int| names_at(self.entries@, j, name@);
                assert(self.entries@[j].0@ == name@);
            }
        }
        None
    }

    /// The name bound to `handle`, if any.
    pub fn name_of(&self, handle: u64) -> (r: Option<String>)
        requires
            self.wf(),
        ensures
            r matches Some(n) ==> self@.contains_key(n@) && self@[n@] == handle,
            r is None ==> forall|k: Seq<char>| self@.contains_key(k) ==> self@[k] != handle,
    {
        let mut i: usize = 0;
        while i < self.entries.len()
            invariant
                self.wf(),
                0 <= i <= self.entries@.len(),
                forall|j: int| 0 <= j < i ==> self.entries@[j].1 != handle,
            decreases self.entries@.len() - i,
        {
            if self.entries[i].1 == handle {
                proof { self.lemma_at(i as int); }
                return Some(self.entries[i].0.clone());
            }
            i = i + 1;
        }
        assert forall|k: Seq<char>| self@.contains_key(k) implies self@[k] != handle by {
            let j = choose|j: int| names_at(self.entries@, j, k);
            self.lemma_at(j);
        }
        None
    }

    /// Binds a name that is not bound yet.
    pub fn bind(&mut self, name: String, handle: u64)
        requires
            old(self).wf(),
            !old(self)@.contains_key(name@),
        ensures
            final(self).wf(),
            final(self)@ == old(self)@.insert(name@, handle),
            final(self).entries() == old(self).entries().push((name, handle)),
    {
        let ghost k = name@;
        let ghost s0 = self.entries@;
        assert forall|j: int| 0 <= j < s0.len() implies s0[j].0@ != k by {
            if s0[j].0@ == k {
                assert(names_at(s0, j, k));
            }
        }
        self.entries.push((name, handle));
        let ghost s1 = self.entries@;
        assert(s1.len() == s0.len() + 1);
        assert(s1[s0.len() as int].0@ == k);
        assert forall|a: int, b: int|
            0 <= a < s1.len() && 0 <= b < s1.len() && #[trigger] s1[a].0@ == #[trigger] s1[b].0@ implies a == b by {
            if a < s0.len() && b < s0.len() {
                assert(s0[a].0@ == s0[b].0@);
            }
        }
        assert forall|key: Seq<char>| #[trigger] self@.contains_key(key) <==> old(self)@.insert(k, handle).contains_key(key) by {
            if self@.contains_key(key) && key != k {
                let j = choose|j: int| names_at(s1, j, key);
                assert(names_at(s0, j, key));
            }
            if old(self)@.contains_key(key) {
                let j = choose|j: int| names_at(s0, j, key);
                assert(names_at(s1, j, key));
            }
            if key == k {
                assert(names_at(s1, s0.len() as int, key));
            }
        }
        assert forall|key: Seq<char>| #[trigger] self@.contains_key(key) implies self@[key] == old(self)@.insert(k, handle)[key] by {
            let j = choose|j: int| names_at(s1, j, key);
            self.lemma_at(j);
            if key != k {
                assert(j < s0.len());
                assert(names_at(s0, j, key));
                old(self).lemma_at(j);
            }
        }
        assert(self@ =~= old(self)@.insert(k, handle));
    }
}

} // verus!
