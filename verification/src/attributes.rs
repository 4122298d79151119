//! The attributes of an element: a finite map from names to optional values.

use vstd::prelude::*;
use vstd::set_lib::lemma_subset_equality;
use vstd::std_specs::cmp::PartialEqSpecImpl;

verus! {

/// The attributes of one element. Each name occurs once; a name may stand
/// without a value.
///
/// Two sets of attributes are equal when they hold the same names with the
/// same values, in whatever order these were inserted.
#[derive(Debug)]
pub struct Attributes {
    entries: Vec<(String, Option<String>)>,
}

impl Attributes {
    #[verifier::type_invariant]
    spec fn names_are_distinct(&self) -> bool {
        forall|i: int, j: int|
            #![trigger self.entries[i], self.entries[j]]
            0 <= i < j < self.entries.len() ==> self.entries[i].0@ != self.entries[j].0@
    }

    spec fn holds(&self, name: Seq<char>) -> bool {
        exists|i: int| 0 <= i < self.entries.len() && self.entries[i].0@ == name
    }

    spec fn place(&self, name: Seq<char>) -> int {
        choose|i: int| 0 <= i < self.entries.len() && self.entries[i].0@ == name
    }
}

impl View for Attributes {
    type V = Map<Seq<char>, Option<Seq<char>>>;

    closed spec fn view(&self) -> Map<Seq<char>, Option<Seq<char>>> {
        Map::new(
            |name: Seq<char>| self.holds(name),
            |name: Seq<char>| self.entries[self.place(name)].1.deep_view(),
        )
    }
}

impl Attributes {
    /// An empty set of attributes.
    pub fn new() -> (attributes: Attributes)
        ensures
            attributes@ == Map::<Seq<char>, Option<Seq<char>>>::empty(),
    {
        let attributes = Attributes { entries: Vec::new() };
        assert(attributes@ =~= Map::<Seq<char>, Option<Seq<char>>>::empty());
        attributes
    }

    /// Gives `name` the value `value`, whether or not the name was there
    /// before.
    pub fn insert(&mut self, name: String, value: Option<String>)
        ensures
            final(self)@ == old(self)@.insert(name@, value.deep_view()),
    {
        proof {
            use_type_invariant(&*self);
        }
        let ghost before = *self;
        let ghost wanted = before@.insert(name@, value.deep_view());
        let mut entries: Vec<(String, Option<String>)> = Vec::new();
        core::mem::swap(&mut self.entries, &mut entries);
        let mut i: usize = 0;
        while i < entries.len()
            invariant
                i <= entries.len(),
                entries == before.entries,
                forall|j: int| 0 <= j < i ==> entries[j].0@ != name@,
            ensures
                i < entries.len() ==> entries[i as int].0@ == name@,
            decreases entries.len() - i,
        {
            if entries[i].0 == name {
                break ;
            }
            i += 1;
        }
        if i < entries.len() {
            entries[i].1 = value;
        } else {
            entries.push((name, value));
        }
        core::mem::swap(&mut self.entries, &mut entries);
        proof {
            let after = *self;
            assert forall|n: Seq<char>| after.holds(n) == (before.holds(n) || n == name@) by {
                if before.holds(n) {
                    let k = before.place(n);
                    assert(after.entries[k].0@ == n);
                }
                if after.holds(n) {
                    let k = after.place(n);
                    if k < before.entries.len() {
                        assert(before.entries[k].0@ == n);
                    }
                }
                if n == name@ {
                    assert(after.entries[i as int].0@ == n);
                }
            }
            assert forall|n: Seq<char>| after.holds(n) implies after@[n] == wanted[n] by {
                let k = after.place(n);
                if n == name@ {
                    assert(k == i);
                } else {
                    assert(before.entries[k].0@ == n);
                    assert(before.holds(n));
                    assert(before.place(n) == k);
                }
            }
            assert(after@ =~= wanted);
        }
    }

    /// The value recorded for `name`, if the name is there.
    pub fn get(&self, name: &String) -> (value: Option<&Option<String>>)
        ensures
            match value {
                Some(v) => self@.contains_key(name@) && self@[name@] == v.deep_view(),
                None => !self@.contains_key(name@),
            },
    {
        let mut i: usize = 0;
        while i < self.entries.len()
            invariant
                i <= self.entries.len(),
                forall|j: int| 0 <= j < i ==> self.entries[j].0@ != name@,
            decreases self.entries.len() - i,
        {
            if self.entries[i].0 == *name {
                proof {
                    use_type_invariant(self);
                    assert(self.holds(name@));
                    assert(self.entries[self.place(name@)].0@ == name@);
                }
                return Some(&self.entries[i].1);
            }
            i += 1;
        }
        None
    }

    /// How many names there are.
    pub fn len(&self) -> (n: usize)
        ensures
            self@.dom().finite(),
            n == self@.len(),
    {
        proof {
            use_type_invariant(self);
            self.counted();
        }
        self.entries.len()
    }

    /// There are as many names as entries.
    proof fn counted(&self)
        requires
            self.names_are_distinct(),
        ensures
            self@.dom().finite(),
            self@.len() == self.entries.len(),
    {
        let names = Seq::new(self.entries.len() as nat, |i: int| self.entries[i].0@);
        assert(names.no_duplicates());
        names.unique_seq_to_set();
        assert forall|n: Seq<char>| names.to_set().contains(n) == self.holds(n) by {
            if names.to_set().contains(n) {
                let k = choose|k: int| 0 <= k < names.len() && names[k] == n;
                assert(self.entries[k].0@ == n);
            }
            if self.holds(n) {
                let k = self.place(n);
                assert(names[k] == n);
            }
        }
        assert(self@.dom() =~= names.to_set());
    }
}

/// Whether two optional values are the same.
fn same_value(a: &Option<String>, b: &Option<String>) -> (same: bool)
    ensures
        same == (a.deep_view() == b.deep_view()),
{
    match (a, b) {
        (Some(x), Some(y)) => *x == *y,
        (None, None) => true,
        _ => false,
    }
}

impl PartialEq for Attributes {
    fn eq(&self, other: &Attributes) -> (same: bool) {
        proof {
            use_type_invariant(self);
            use_type_invariant(other);
            self.counted();
            other.counted();
        }
        if self.entries.len() != other.entries.len() {
            return false;
        }
        let mut i: usize = 0;
        while i < self.entries.len()
            invariant
                i <= self.entries.len(),
                forall|j: int|
                    0 <= j < i ==> other@.contains_key(#[trigger] self.entries[j].0@)
                        && other@[self.entries[j].0@] == self.entries[j].1.deep_view(),
            decreases self.entries.len() - i,
        {
            proof {
                use_type_invariant(self);
                assert(self.holds(self.entries[i as int].0@));
                assert(self.entries[self.place(self.entries[i as int].0@)].0@
                    == self.entries[i as int].0@);
            }
            match other.get(&self.entries[i].0) {
                None => {
                    return false;
                },
                Some(value) => {
                    if !same_value(value, &self.entries[i].1) {
                        return false;
                    }
                },
            }
            i += 1;
        }
        proof {
            use_type_invariant(self);
            assert forall|n: Seq<char>| self@.contains_key(n) implies other@.contains_key(n)
                && other@[n] == self@[n] by {
                let k = self.place(n);
                assert(self.entries[k].0@ == n);
            }
            assert(self@.dom().subset_of(other@.dom()));
            lemma_subset_equality(self@.dom(), other@.dom());
            assert(self@ =~= other@);
        }
        true
    }
}

impl PartialEqSpecImpl for Attributes {
    open spec fn obeys_eq_spec() -> bool {
        true
    }

    open spec fn eq_spec(&self, other: &Attributes) -> bool {
        self@ == other@
    }
}

} // verus!
