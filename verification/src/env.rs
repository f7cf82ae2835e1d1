//! The lexically scoped environment: one frame maps names to values with
//! last-write-wins, and a non-empty stack of frames is looked up top to
//! bottom.

use vstd::prelude::*;

use crate::eval::{Value, ValueV};
use crate::interner::Name;

verus! {

/// The mathematical shadow of a [`Stack`]: bottom frame first.
pub type StackV = Seq<Map<Name, ValueV>>;

/// The map an association list stands for: later entries win.
pub open spec fn assoc_view(entries: Seq<(Name, Value)>) -> Map<Name, ValueV>
    decreases entries.len(),
{
    if entries.len() == 0 {
        Map::empty()
    } else {
        assoc_view(entries.drop_last()).insert(
            entries.last().0,
            entries.last().1.to_v(),
        )
    }
}

/// Lookup walks from the top frame down; the first hit wins.
pub open spec fn stack_get(stk: StackV, name: Name) -> Option<ValueV>
    decreases stk.len(),
{
    if stk.len() == 0 {
        None
    } else if stk.last().contains_key(name) {
        Some(stk.last()[name])
    } else {
        stack_get(stk.drop_last(), name)
    }
}

/// Insertion writes to the topmost frame.
pub open spec fn stack_insert(stk: StackV, name: Name, v: ValueV) -> StackV {
    stk.update(stk.len() - 1, stk.last().insert(name, v))
}

/// One frame: a mapping from names to values, last write wins, no deletion.
pub struct Env {
    entries: Vec<(Name, Value)>,
}

impl View for Env {
    type V = Map<Name, ValueV>;

    closed spec fn view(&self) -> Map<Name, ValueV> {
        assoc_view(self.entries@)
    }
}

proof fn lemma_assoc_get_hit(s: Seq<(Name, Value)>, name: Name, j: int)
    requires
        0 <= j < s.len(),
        s[j].0 == name,
        forall|k: int| j < k < s.len() ==> s[k].0 != name,
    ensures
        assoc_view(s).contains_key(name),
        assoc_view(s)[name] == s[j].1.to_v(),
    decreases s.len(),
{
    if j < s.len() - 1 {
        lemma_assoc_get_hit(s.drop_last(), name, j);
    }
}

proof fn lemma_assoc_get_miss(s: Seq<(Name, Value)>, name: Name)
    requires
        forall|k: int| 0 <= k < s.len() ==> s[k].0 != name,
    ensures
        !assoc_view(s).contains_key(name),
    decreases s.len(),
{
    if s.len() > 0 {
        lemma_assoc_get_miss(s.drop_last(), name);
    }
}

impl Env {
    /// An empty frame.
    pub fn new() -> (r: Env)
        ensures
            r@ == Map::<Name, ValueV>::empty(),
    {
        Env { entries: Vec::new() }
    }

    /// Binds `name` to `value`, hiding any earlier binding of `name`.
    pub fn insert(&mut self, name: Name, value: Value)
        ensures
            final(self)@ == old(self)@.insert(name, value.to_v()),
    {
        self.entries.push((name, value));
        proof {
            assert(self.entries@.drop_last() =~= old(self).entries@);
        }
    }

    /// The value bound to `name`, if any.
    pub fn get(&self, name: Name) -> (r: Option<&Value>)
        ensures
            match r {
                Some(v) => self@.contains_key(name) && v.to_v() == self@[name],
                None => !self@.contains_key(name),
            },
    {
        let n = self.entries.len();
        let mut i: usize = n;
        while i > 0
            invariant
                i <= n,
                n == self.entries@.len(),
                forall|k: int| i <= k < n ==> self.entries@[k].0 != name,
            decreases i,
        {
            i = i - 1;
            if self.entries[i].0 == name {
                proof {
                    lemma_assoc_get_hit(self.entries@, name, i as int);
                }
                return Some(&self.entries[i].1);
            }
        }
        proof {
            lemma_assoc_get_miss(self.entries@, name);
        }
        None
    }
}

/// A non-empty stack of frames; the bottom frame is the global one.
pub struct Stack {
    frames: Vec<Env>,
}

impl View for Stack {
    type V = StackV;

    closed spec fn view(&self) -> StackV {
        Seq::new(self.frames@.len(), |i: int| self.frames@[i]@)
    }
}

proof fn lemma_stack_get_skip_top(stk: StackV, name: Name, i: int)
    requires
        0 <= i <= stk.len(),
        forall|j: int| i <= j < stk.len() ==> !(#[trigger] stk[j]).contains_key(name),
    ensures
        stack_get(stk, name) == stack_get(stk.subrange(0, i), name),
    decreases stk.len() - i,
{
    if i < stk.len() {
        lemma_stack_get_skip_top(stk.drop_last(), name, i);
        assert(stk.drop_last().subrange(0, i) =~= stk.subrange(0, i));
    } else {
        assert(stk.subrange(0, i) =~= stk);
    }
}

impl Stack {
    /// The stack always has its global frame.
    pub open spec fn wf(&self) -> bool {
        self@.len() >= 1
    }

    /// A stack holding one empty global frame.
    pub fn new_global() -> (r: Stack)
        ensures
            r@ =~= seq![Map::<Name, ValueV>::empty()],
            r.wf(),
    {
        let mut frames = Vec::new();
        frames.push(Env::new());
        Stack { frames }
    }

    /// Enters a nested scope.
    pub fn push(&mut self, frame: Env)
        ensures
            final(self)@ == old(self)@.push(frame@),
    {
        self.frames.push(frame);
        proof {
            assert(self@ =~= old(self)@.push(frame@));
        }
    }

    /// Leaves the innermost scope. The global frame is never popped.
    pub fn pop(&mut self)
        requires
            old(self)@.len() >= 2,
        ensures
            final(self)@ == old(self)@.drop_last(),
    {
        let _ = self.frames.pop();
        proof {
            assert(self@ =~= old(self)@.drop_last());
        }
    }

    /// Binds `name` in the topmost frame.
    pub fn insert(&mut self, name: Name, value: Value)
        requires
            old(self).wf(),
        ensures
            final(self).wf(),
            final(self)@ == stack_insert(old(self)@, name, value.to_v()),
    {
        let n = self.frames.len();
        let mut top = match self.frames.pop() {
            Some(t) => t,
            None => Env::new(),  // unreachable: the stack is never empty
        };
        top.insert(name, value);
        self.frames.push(top);
        proof {
            assert(self@ =~= stack_insert(old(self)@, name, value.to_v()));
        }
    }

    /// Looks `name` up, walking from the top frame down.
    pub fn get(&self, name: Name) -> (r: Option<&Value>)
        ensures
            match r {
                Some(v) => stack_get(self@, name) == Some(v.to_v()),
                None => stack_get(self@, name) is None,
            },
    {
        let n = self.frames.len();
        let mut i: usize = n;
        while i > 0
            invariant
                i <= n,
                n == self@.len(),
                forall|j: int| i <= j < n ==> !(#[trigger] self@[j]).contains_key(name),
            decreases i,
        {
            i = i - 1;
            match self.frames[i].get(name) {
                Some(v) => {
                    proof {
                        lemma_stack_get_skip_top(self@, name, i as int + 1);
                        let prefix = self@.subrange(0, i as int + 1);
                        assert(prefix.last() == self@[i as int]);
                    }
                    return Some(v);
                },
                None => (),
            }
        }
        proof {
            lemma_stack_get_skip_top(self@, name, 0);
            assert(self@.subrange(0, 0) =~= Seq::<Map<Name, ValueV>>::empty());
        }
        None
    }
}

} // verus!
