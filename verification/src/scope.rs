//! The values that names stand for while one function body is generated.
use vstd::prelude::*;
use crate::ir::{Value, ValueView};

verus! {

/// The value of the innermost binding of `name`, if it is bound.
pub open spec fn lookup(bindings: Seq<(Seq<char>, ValueView)>, name: Seq<char>) -> Option<
    ValueView,
>
    decreases bindings.len(),
{
    if bindings.len() == 0 {
        None
    } else if bindings.last().0 == name {
        Some(bindings.last().1)
    } else {
        lookup(bindings.drop_last(), name)
    }
}

/// A stack of bindings from names to values. A later binding shadows an
/// earlier one of the same name until it is removed again.
pub struct Scope {
    bindings: Vec<(String, Value)>,
}

impl View for Scope {
    type V = Seq<(Seq<char>, ValueView)>;

    closed spec fn view(&self) -> Seq<(Seq<char>, ValueView)> {
        Seq::new(self.bindings.len() as nat, |i: int| (self.bindings[i].0@, self.bindings[i].1@))
    }
}

impl Scope {
    /// A scope without bindings.
    pub fn new() -> (r: Scope)
        ensures
            r@ == Seq::<(Seq<char>, ValueView)>::empty(),
    {
        let r = Scope { bindings: Vec::new() };
        proof {
            assert(r@ =~= Seq::<(Seq<char>, ValueView)>::empty());
        }
        r
    }

    /// Removes every binding.
    pub fn clear(&mut self)
        ensures
            final(self)@ == Seq::<(Seq<char>, ValueView)>::empty(),
    {
        self.bindings.clear();
        proof {
            assert(self@ =~= Seq::<(Seq<char>, ValueView)>::empty());
        }
    }

    /// Binds `name` to `value`, shadowing what it was bound to.
    pub fn bind(&mut self, name: String, value: Value)
        ensures
            final(self)@ == old(self)@.push((name@, value@)),
    {
        self.bindings.push((name, value));
        proof {
            assert(self@ =~= old(self)@.push((name@, value@)));
        }
    }

    /// Removes the binding made last, so that what it shadowed shows again.
    pub fn unbind(&mut self)
        ensures
            final(self)@ == if old(self)@.len() > 0 {
                old(self)@.drop_last()
            } else {
                old(self)@
            },
    {
        let _ = self.bindings.pop();
        proof {
            if old(self)@.len() > 0 {
                assert(self@ =~= old(self)@.drop_last());
            } else {
                assert(self@ =~= old(self)@);
            }
        }
    }

    /// The value that `name` stands for, if it is bound.
    pub fn get(&self, name: &String) -> (r: Option<Value>)
        ensures
            match r {
                Some(value) => lookup(self@, name@) == Some(value@),
                None => lookup(self@, name@) is None,
            },
    {
        let mut i: usize = self.bindings.len();
        proof {
            assert(self@.take(i as int) =~= self@);
        }
        while i > 0
            invariant
                i <= self.bindings.len(),
                lookup(self@, name@) == lookup(self@.take(i as int), name@),
            decreases i,
        {
            proof {
                assert(self@.take(i as int).drop_last() =~= self@.take(i as int - 1));
            }
            i -= 1;
            if self.bindings[i].0 == *name {
                return Some(self.bindings[i].1);
            }
        }
        None
    }
}

} // verus!
