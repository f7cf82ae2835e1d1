//! The interner: a growing table giving each distinct textual name a stable,
//! compact handle. Interning is idempotent and handles never move.

use vstd::prelude::*;

verus! {

/// A compact handle standing for an interned name. Equality is bitwise;
/// recovering the text takes the [`Interner`] that issued it.
#[derive(Clone, Copy, PartialEq, Eq, Structural, Debug, Hash)]
pub struct Name {
    pub raw: usize,
}

/// The table never holds the same text twice.
pub open spec fn table_wf(tbl: Seq<Seq<char>>) -> bool {
    forall|i: int, j: int| 0 <= i < j < tbl.len() ==> tbl[i] != tbl[j]
}

/// Some entry of the table is `s`.
pub open spec fn table_has(tbl: Seq<Seq<char>>, s: Seq<char>) -> bool {
    exists|i: int| 0 <= i < tbl.len() && tbl[i] == s
}

/// The index of `s` in the table (meaningful when `table_has(tbl, s)`).
pub open spec fn table_index(tbl: Seq<Seq<char>>, s: Seq<char>) -> int {
    choose|i: int| 0 <= i < tbl.len() && tbl[i] == s
}

/// The table after interning `s`: unchanged when already present, else
/// extended by one entry.
pub open spec fn intern_table(tbl: Seq<Seq<char>>, s: Seq<char>) -> Seq<Seq<char>> {
    if table_has(tbl, s) {
        tbl
    } else {
        tbl.push(s)
    }
}

/// The handle interning `s` yields.
pub open spec fn intern_index(tbl: Seq<Seq<char>>, s: Seq<char>) -> int {
    if table_has(tbl, s) {
        table_index(tbl, s)
    } else {
        tbl.len() as int
    }
}

/// Character-for-character string equality.
pub fn str_eq(a: &str, b: &str) -> (r: bool)
    ensures
        r == (a@ == b@),
{
    let a_len = a.unicode_len();
    let b_len = b.unicode_len();
    if a_len != b_len {
        proof {
            assert(a@ != b@);
        }
        return false;
    }
    let mut i: usize = 0;
    while i < a_len
        invariant
            i <= a_len,
            a_len == a@.len(),
            a_len == b@.len(),
            forall|j: int| 0 <= j < i ==> a@[j] == b@[j],
        decreases a_len - i,
    {
        if a.get_char(i) != b.get_char(i) {
            return false;
        }
        i += 1;
    }
    proof {
        assert(a@ =~= b@);
    }
    true
}

/// Bidirectional mapping between textual names and [`Name`] handles.
pub struct Interner {
    names: Vec<String>,
}

impl View for Interner {
    type V = Seq<Seq<char>>;

    closed spec fn view(&self) -> Seq<Seq<char>> {
        self.names.deep_view()
    }
}

impl Interner {
    /// Every entry is distinct.
    pub open spec fn wf(&self) -> bool {
        table_wf(self@)
    }

    pub fn new() -> (r: Interner)
        ensures
            r@ == Seq::<Seq<char>>::empty(),
            r.wf(),
    {
        Interner { names: Vec::new() }
    }

    /// Interns `s`: returns the handle it already has, or issues the next
    /// one. Existing entries never change, so handles stay valid.
    pub fn intern(&mut self, s: &str) -> (n: Name)
        requires
            old(self).wf(),
        ensures
            final(self).wf(),
            final(self)@ == intern_table(old(self)@, s@),
            n.raw == intern_index(old(self)@, s@),
            n.raw < final(self)@.len(),
            final(self)@[n.raw as int] == s@,
            old(self)@.len() <= final(self)@.len(),
            forall|i: int| 0 <= i < old(self)@.len() ==> final(self)@[i] == old(self)@[i],
    {
        let len = self.names.len();
        let mut i: usize = 0;
        while i < len
            invariant
                i <= len,
                len == self@.len(),
                forall|j: int| 0 <= j < i ==> self@[j] != s@,
                *self == *old(self),
                self.wf(),
            decreases len - i,
        {
            if str_eq(self.names[i].as_str(), s) {
                proof {
                    assert(self@[i as int] == self.names@[i as int].deep_view());
                    assert(self@[i as int] == s@);
                    assert(table_has(self@, s@));
                    let k = table_index(self@, s@);
                    assert(self@[k] == s@);
                    assert(k == i as int);
                }
                return Name { raw: i };
            }
            i += 1;
        }
        proof {
            assert(forall|j: int| 0 <= j < self@.len() ==> self@[j] != s@);
            assert(!table_has(self@, s@));
        }
        let raw = self.names.len();
        self.names.push(s.to_owned());
        proof {
            assert(self@ =~= old(self)@.push(s@));
            assert(self@[raw as int] == s@);
            assert forall|i2: int, j2: int| 0 <= i2 < j2 < self@.len() implies self@[i2]
                != self@[j2] by {
                if j2 < raw as int {
                    assert(old(self)@[i2] != old(self)@[j2]);
                } else {
                    assert(self@[j2] == s@);
                    assert(old(self)@[i2] != s@);
                }
            }
        }
        Name { raw }
    }

    /// The number of names issued so far.
    pub fn len(&self) -> (r: usize)
        ensures
            r == self@.len(),
    {
        self.names.len()
    }

    /// The text a handle stands for.
    pub fn get(&self, n: Name) -> (r: &str)
        requires
            n.raw < self@.len(),
        ensures
            r@ == self@[n.raw as int],
    {
        self.names[n.raw].as_str()
    }
}

/// Law: interning is idempotent. Interning `s` a second time changes nothing
/// and yields the same handle, and the handle resolves back to `s`.
pub proof fn lemma_intern_idempotent(tbl: Seq<Seq<char>>, s: Seq<char>)
    requires
        table_wf(tbl),
    ensures
        intern_table(intern_table(tbl, s), s) == intern_table(tbl, s),
        intern_index(intern_table(tbl, s), s) == intern_index(tbl, s),
        intern_table(tbl, s)[intern_index(tbl, s)] == s,
{
    let t1 = intern_table(tbl, s);
    if table_has(tbl, s) {
        let k = table_index(tbl, s);
        assert(0 <= k < tbl.len() && tbl[k] == s);
    } else {
        let n = tbl.len() as int;
        assert(t1[n] == s);
        assert(table_has(t1, s));
        let k = table_index(t1, s);
        assert(0 <= k < t1.len() && t1[k] == s);
        assert forall|i: int| 0 <= i < tbl.len() implies t1[i] != s by {
            assert(t1[i] == tbl[i]);
        }
        assert(k == n);
    }
}

} // verus!
