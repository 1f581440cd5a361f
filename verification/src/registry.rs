//! The table of function signatures that calls are resolved against.
use vstd::prelude::*;
use crate::ast::{Prototype, PrototypeAST};

verus! {

/// The position of the first signature called `name`, or the length of
/// `entries` where there is none.
pub open spec fn first_named(entries: Seq<Prototype>, name: Seq<char>) -> int
    decreases entries.len(),
{
    if entries.len() == 0 {
        0
    } else if entries[0].name == name {
        0
    } else {
        1 + first_named(entries.drop_first(), name)
    }
}

/// `first_named` is the one position before which no entry has the name and
/// at which, unless it is the length, the entry has it.
pub proof fn lemma_first_named(entries: Seq<Prototype>, name: Seq<char>, at: int)
    requires
        0 <= at <= entries.len(),
        forall|i: int| 0 <= i < at ==> entries[i].name != name,
        at < entries.len() ==> entries[at].name == name,
    ensures
        first_named(entries, name) == at,
    decreases entries.len(),
{
    if entries.len() > 0 && entries[0].name != name {
        let rest = entries.drop_first();
        assert forall|i: int| 0 <= i < at - 1 implies rest[i].name != name by {
            assert(rest[i] == entries[i + 1]);
        }
        lemma_first_named(rest, name, at - 1);
    }
}

/// The position that `first_named` gives is in range, and the entry there has
/// the name.
pub proof fn lemma_first_named_found(entries: Seq<Prototype>, name: Seq<char>)
    ensures
        0 <= first_named(entries, name) <= entries.len(),
        forall|i: int| 0 <= i < first_named(entries, name) ==> entries[i].name != name,
        first_named(entries, name) < entries.len() ==> entries[first_named(entries, name)].name
            == name,
    decreases entries.len(),
{
    if entries.len() > 0 && entries[0].name != name {
        let rest = entries.drop_first();
        lemma_first_named_found(rest, name);
        assert forall|i: int| 0 <= i < first_named(entries, name) implies entries[i].name
            != name by {
            if i > 0 {
                assert(rest[i - 1] == entries[i]);
            }
        }
    }
}

/// The map from each name in `entries` to the first signature that has it.
pub open spec fn signatures(entries: Seq<Prototype>) -> Map<Seq<char>, Prototype> {
    Map::new(
        |name: Seq<char>| first_named(entries, name) < entries.len(),
        |name: Seq<char>| entries[first_named(entries, name)],
    )
}

/// The signatures declared so far, by function name. A later signature for a
/// name replaces the earlier one.
pub struct Registry {
    entries: Vec<PrototypeAST>,
}

impl Registry {
    /// The signatures on file, in the order in which their names came.
    pub closed spec fn entries(&self) -> Seq<Prototype> {
        Seq::new(self.entries.len() as nat, |i: int| self.entries[i]@)
    }
}

impl View for Registry {
    type V = Map<Seq<char>, Prototype>;

    closed spec fn view(&self) -> Map<Seq<char>, Prototype> {
        signatures(self.entries())
    }
}

impl Registry {
    /// Every signature is filed under its own name.
    pub proof fn lemma_keyed_by_name(&self, name: Seq<char>)
        ensures
            self@.contains_key(name) ==> self@[name].name == name,
    {
        lemma_first_named_found(self.entries(), name);
    }

    /// A registry without signatures.
    pub fn new() -> (r: Registry)
        ensures
            r@ == Map::<Seq<char>, Prototype>::empty(),
    {
        let r = Registry { entries: Vec::new() };
        proof {
            assert(r.entries() =~= Seq::empty());
            assert(r@ =~= Map::<Seq<char>, Prototype>::empty());
        }
        r
    }

    fn position(&self, name: &String) -> (r: usize)
        ensures
            r == first_named(self.entries(), name@),
            r <= self.entries.len(),
    {
        let mut i: usize = 0;
        while i < self.entries.len()
            invariant
                i <= self.entries.len(),
                forall|j: int| 0 <= j < i ==> self.entries()[j].name != name@,
            decreases self.entries.len() - i,
        {
            if self.entries[i].0 == *name {
                proof {
                    assert(self.entries()[i as int].name == name@);
                    lemma_first_named(self.entries(), name@, i as int);
                }
                return i;
            }
            i += 1;
        }
        proof {
            lemma_first_named(self.entries(), name@, i as int);
        }
        i
    }

    /// The signature filed under `name`, if there is one.
    pub fn get(&self, name: &String) -> (r: Option<&PrototypeAST>)
        ensures
            match r {
                Some(proto) => self@.contains_key(name@) && proto@ == self@[name@],
                None => !self@.contains_key(name@),
            },
    {
        let i = self.position(name);
        if i < self.entries.len() {
            Some(&self.entries[i])
        } else {
            None
        }
    }

    /// Whether a signature is filed under `name`.
    pub fn contains(&self, name: &String) -> (r: bool)
        ensures
            r == self@.contains_key(name@),
    {
        self.position(name) < self.entries.len()
    }

    /// Files `proto` under its name, in place of any signature that was there.
    #[verifier::rlimit(50)]
    pub fn insert(&mut self, proto: PrototypeAST)
        ensures
            final(self)@ == old(self)@.insert(proto@.name, proto@),
    {
        let i = self.position(&proto.0);
        let ghost before = self.entries();
        let ghost name = proto@.name;
        let ghost value = proto@;
        if i < self.entries.len() {
            self.entries[i] = proto;
        } else {
            self.entries.push(proto);
        }
        proof {
            let after = self.entries();
            lemma_first_named_found(before, name);
            assert forall|k: Seq<char>|
                first_named(after, k) == (if k == name {
                    i as int
                } else if first_named(before, k) < before.len() {
                    first_named(before, k)
                } else {
                    after.len() as int
                }) by {
                lemma_first_named_found(before, k);
                let at = if k == name {
                    i as int
                } else if first_named(before, k) < before.len() {
                    first_named(before, k)
                } else {
                    after.len() as int
                };
                assert forall|j: int| 0 <= j < at implies after[j].name != k by {
                    if j < before.len() {
                        assert(after[j].name == before[j].name);
                    }
                }
                lemma_first_named(after, k, at);
            }
            assert forall|k: Seq<char>| k != name && first_named(before, k) < before.len() implies
                after[first_named(before, k)] == before[first_named(before, k)] by {
                lemma_first_named_found(before, k);
            }
            assert(after[i as int] == value);
            assert(self@ =~= old(self)@.insert(name, value));
        }
    }
}

} // verus!
