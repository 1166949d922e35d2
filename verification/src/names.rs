//! Lists of indices kept under names.

use crate::text::same_text;
use vstd::prelude::*;

verus! {

/// A map from names to lists of indices; each name occurs once.
#[derive(Clone, Debug)]
pub struct NamedSets {
    entries: Vec<(String, Vec<usize>)>,
}

impl NamedSets {
    /// No name occurs twice.
    pub closed spec fn wf(self) -> bool {
        forall|i: int, j: int|
            0 <= i < j < self.entries.len() ==> (#[trigger] self.entries[i]).0@ != (
            #[trigger] self.entries[j]).0@
    }

    spec fn holds(self, i: int, name: Seq<char>) -> bool {
        0 <= i < self.entries.len() && self.entries[i].0@ == name
    }

    pub closed spec fn has(self, name: Seq<char>) -> bool {
        exists|i: int| self.holds(i, name)
    }

    spec fn list(self, name: Seq<char>) -> Seq<usize> {
        let i = choose|i: int| self.holds(i, name);
        self.entries[i].1@
    }

    /// The sets by name.
    pub closed spec fn view(self) -> Map<Seq<char>, Seq<usize>> {
        Map::new(|name: Seq<char>| self.has(name), |name: Seq<char>| self.list(name))
    }

    proof fn lemma_entry(self, i: int)
        requires
            self.wf(),
            0 <= i < self.entries.len(),
        ensures
            self@.dom().contains(self.entries[i].0@),
            self@[self.entries[i].0@] == self.entries[i].1@,
    {
        let name = self.entries[i].0@;
        assert(self.holds(i, name));
        let k = choose|k: int| self.holds(k, name);
        assert(self.holds(k, name));
        if k < i {
            assert(self.entries[k].0@ != self.entries[i].0@);
        } else if i < k {
            assert(self.entries[i].0@ != self.entries[k].0@);
        }
    }

    pub fn new() -> (r: NamedSets)
        ensures
            r.wf(),
            r@ == Map::<Seq<char>, Seq<usize>>::empty(),
    {
        let r: NamedSets = NamedSets { entries: Vec::new() };
        assert(r@ =~= Map::<Seq<char>, Seq<usize>>::empty());
        r
    }

    /// Position of a name's entry; the number of entries if it has none.
    fn position(&self, name: &str) -> (at: usize)
        requires
            self.wf(),
        ensures
            at <= self.entries.len(),
            at < self.entries.len() ==> self.entries[at as int].0@ == name@,
            at == self.entries.len() <==> !self@.dom().contains(name@),
            at < self.entries.len() ==> self@[name@] == self.entries[at as int].1@,
    {
        let mut i: usize = 0;
        while i < self.entries.len()
            invariant
                self.wf(),
                i <= self.entries.len(),
                forall|k: int| 0 <= k < i ==> (#[trigger] self.entries[k]).0@ != name@,
            decreases self.entries.len() - i,
        {
            if same_text(&self.entries[i].0, name) {
                proof {
                    self.lemma_entry(i as int);
                }
                return i;
            }
            i += 1;
        }
        proof {
            if self.has(name@) {
                let k = choose|k: int| self.holds(k, name@);
                assert(self.entries[k].0@ == name@);
            }
        }
        i
    }

    /// Whether a set of this name is kept.
    pub fn contains(&self, name: &str) -> (b: bool)
        requires
            self.wf(),
        ensures
            b == self@.dom().contains(name@),
    {
        self.position(name) < self.entries.len()
    }

    /// The set of this name.
    pub fn get(&self, name: &str) -> (r: Option<&Vec<usize>>)
        requires
            self.wf(),
        ensures
            match r {
                Some(v) => self@.dom().contains(name@) && v@ == self@[name@],
                None => !self@.dom().contains(name@),
            },
    {
        let at: usize = self.position(name);
        if at < self.entries.len() {
            Some(&self.entries[at].1)
        } else {
            None
        }
    }

    proof fn lemma_same_names(self, other: NamedSets, at: int)
        requires
            self.wf(),
            0 <= at < self.entries.len(),
            other.entries.len() == self.entries.len(),
            forall|k: int|
                0 <= k < self.entries.len() ==> (#[trigger] other.entries[k]).0@
                    == self.entries[k].0@,
            forall|k: int|
                0 <= k < self.entries.len() && k != at ==> (#[trigger] other.entries[k]).1@
                    == self.entries[k].1@,
        ensures
            other.wf(),
            other@ == self@.insert(self.entries[at].0@, other.entries[at].1@),
    {
        assert forall|i: int, j: int| 0 <= i < j < other.entries.len() implies (
        #[trigger] other.entries[i]).0@ != (#[trigger] other.entries[j]).0@ by {
            assert(self.entries[i].0@ != self.entries[j].0@);
        }
        let target = self@.insert(self.entries[at].0@, other.entries[at].1@);
        assert forall|name: Seq<char>| other.has(name) == self.has(name) by {
            if other.has(name) {
                let k = choose|k: int| other.holds(k, name);
                assert(self.holds(k, name));
            }
            if self.has(name) {
                let k = choose|k: int| self.holds(k, name);
                assert(other.holds(k, name));
            }
        }
        assert(self.holds(at, self.entries[at].0@));
        assert(other@.dom() =~= target.dom());
        assert forall|name: Seq<char>| other@.dom().contains(name) implies #[trigger] other@[name]
            == target[name] by {
            let k = choose|k: int| other.holds(k, name);
            assert(other.holds(k, name));
            other.lemma_entry(k);
            self.lemma_entry(k);
            other.lemma_entry(at);
            if k != at {
                if k < at {
                    assert(self.entries[k].0@ != self.entries[at].0@);
                } else {
                    assert(self.entries[at].0@ != self.entries[k].0@);
                }
            }
        }
        assert(other@ =~= target);
    }

    proof fn lemma_one_more(self, other: NamedSets)
        requires
            self.wf(),
            other.entries.len() == self.entries.len() + 1,
            other.entries@.drop_last() == self.entries@,
            !self@.dom().contains(other.entries@.last().0@),
        ensures
            other.wf(),
            other@ == self@.insert(other.entries@.last().0@, other.entries@.last().1@),
    {
        let n = self.entries.len() as int;
        assert forall|k: int| 0 <= k < n implies #[trigger] other.entries[k]
            == self.entries[k] by {
            assert(other.entries@.drop_last()[k] == self.entries@[k]);
        }
        assert forall|i: int, j: int| 0 <= i < j < other.entries.len() implies (
        #[trigger] other.entries[i]).0@ != (#[trigger] other.entries[j]).0@ by {
            if j == n {
                assert(self.holds(i, self.entries[i].0@));
            } else {
                assert(self.entries[i].0@ != self.entries[j].0@);
            }
        }
        let target = self@.insert(other.entries@.last().0@, other.entries@.last().1@);
        assert forall|name: Seq<char>| other@.dom().contains(name) == target.dom().contains(
            name,
        ) by {
            if other.has(name) {
                let k = choose|k: int| other.holds(k, name);
                if k < n {
                    assert(self.holds(k, name));
                }
            }
            if self.has(name) {
                let k = choose|k: int| self.holds(k, name);
                assert(other.holds(k, name));
            }
            assert(other.holds(n, other.entries[n].0@));
        }
        assert(other@.dom() =~= target.dom());
        assert forall|name: Seq<char>| other@.dom().contains(name) implies #[trigger] other@[name]
            == target[name] by {
            let k = choose|k: int| other.holds(k, name);
            assert(other.holds(k, name));
            other.lemma_entry(k);
            if k < n {
                self.lemma_entry(k);
            }
        }
        assert(other@ =~= target);
    }

    /// Keeps a set under a name, in place of the one it had.
    pub fn insert(&mut self, name: &str, set: Vec<usize>)
        requires
            old(self).wf(),
        ensures
            final(self).wf(),
            final(self)@ == old(self)@.insert(name@, set@),
    {
        let at: usize = self.position(name);
        if at < self.entries.len() {
            self.entries.set(at, (name.to_string(), set));
            proof {
                old(self).lemma_same_names(*self, at as int);
            }
        } else {
            self.entries.push((name.to_string(), set));
            proof {
                assert(self.entries@.drop_last() =~= old(self).entries@);
                old(self).lemma_one_more(*self);
            }
        }
    }

    /// Keeps a set under a name that has none.
    pub fn insert_if_absent(&mut self, name: &str, set: Vec<usize>)
        requires
            old(self).wf(),
        ensures
            final(self).wf(),
            final(self)@ == if old(self)@.dom().contains(name@) {
                old(self)@
            } else {
                old(self)@.insert(name@, set@)
            },
    {
        if !self.contains(name) {
            self.insert(name, set);
        }
    }

    /// Appends an index to the set of this name, which starts out empty.
    pub fn push(&mut self, name: &str, index: usize)
        requires
            old(self).wf(),
        ensures
            final(self).wf(),
            final(self)@ == old(self)@.insert(
                name@,
                (if old(self)@.dom().contains(name@) {
                    old(self)@[name@]
                } else {
                    Seq::empty()
                }).push(index),
            ),
    {
        let at: usize = self.position(name);
        if at < self.entries.len() {
            self.entries[at].1.push(index);
            proof {
                old(self).lemma_same_names(*self, at as int);
            }
        } else {
            let mut set: Vec<usize> = Vec::new();
            set.push(index);
            self.entries.push((name.to_string(), set));
            proof {
                assert(set@ =~= Seq::<usize>::empty().push(index));
                assert(self.entries@.drop_last() =~= old(self).entries@);
                old(self).lemma_one_more(*self);
            }
        }
    }
}

} // verus!
