use vstd::prelude::*;

verus! {

/// An interned identifier: a dense index into the identifier table.  Two
/// names compare equal exactly when they intern to the same id.
#[derive(Debug, Clone, Copy, PartialEq, Eq, Hash, Structural)]
pub struct IdentId(pub u32);

impl IdentId {
    pub fn from_usize(id: usize) -> (r: IdentId)
        requires
            id <= u32::MAX,
        ensures
            r.0 == id,
    {
        IdentId(id as u32)
    }

    pub fn as_usize(&self) -> (r: usize)
        ensures
            r == self.0,
    {
        self.0 as usize
    }
}

/// No two entries of the table hold the same name.
pub open spec fn distinct_names(t: Seq<Seq<char>>) -> bool {
    forall|i: int, j: int| 0 <= i < j < t.len() ==> t[i] != t[j]
}

/// The id under which `name` stands in table `t`; meaningful when the table
/// holds the name and its entries are distinct.
pub open spec fn interned_id(t: Seq<Seq<char>>, name: Seq<char>) -> int {
    choose|j: int| 0 <= j < t.len() && t[j] == name
}

/// Law: interning the name of a reachable id gives back that id.
pub proof fn lemma_intern_of_name(t: Seq<Seq<char>>, id: int)
    requires
        distinct_names(t),
        0 <= id < t.len(),
    ensures
        interned_id(t, t[id]) == id,
{
    assert(0 <= id < t.len() && t[id] == t[id]);
    let j = interned_id(t, t[id]);
    assert(0 <= j < t.len() && t[j] == t[id]);
}

/// Law: the name of the id an interned name maps to is that name.
pub proof fn lemma_name_of_intern(t: Seq<Seq<char>>, name: Seq<char>)
    requires
        distinct_names(t),
        t.contains(name),
    ensures
        0 <= interned_id(t, name) < t.len(),
        t[interned_id(t, name)] == name,
{
    let w = choose|j: int| 0 <= j < t.len() && t[j] == name;
    assert(0 <= w < t.len() && t[w] == name);
}

/// Law: growing the table never moves an interned name's id.
pub proof fn lemma_interned_id_stable(t1: Seq<Seq<char>>, t2: Seq<Seq<char>>, name: Seq<char>)
    requires
        distinct_names(t2),
        t1.len() <= t2.len(),
        t2.subrange(0, t1.len() as int) == t1,
        t1.contains(name),
    ensures
        t2.contains(name),
        interned_id(t2, name) == interned_id(t1, name),
{
    let i = choose|j: int| 0 <= j < t1.len() && t1[j] == name;
    assert(t2.subrange(0, t1.len() as int)[i] == t1[i]);
    assert(t2[i] == name);
    assert(distinct_names(t1)) by {
        assert forall|a: int, b: int| 0 <= a < b < t1.len() implies t1[a] != t1[b] by {
            assert(t2.subrange(0, t1.len() as int)[a] == t1[a]);
            assert(t2.subrange(0, t1.len() as int)[b] == t1[b]);
        }
    }
    lemma_name_of_intern(t1, name);
    lemma_name_of_intern(t2, name);
    let j1 = interned_id(t1, name);
    let j2 = interned_id(t2, name);
    assert(t2.subrange(0, t1.len() as int)[j1] == t1[j1]);
    assert(t2[j1] == name);
    if j1 != j2 {
        assert(t2[j1] == t2[j2]);
        assert(false);
    }
}

/// Interns textual names to dense integer ids and resolves them back.  The
/// model is the sequence of interned names, in id order.
#[derive(Debug)]
pub struct IdentifierTable {
    names: Vec<String>,
}

impl View for IdentifierTable {
    type V = Seq<Seq<char>>;

    closed spec fn view(&self) -> Seq<Seq<char>> {
        self.names.deep_view()
    }
}

impl IdentifierTable {
    /// Ids are written into the instruction stream as 32-bit words, so the
    /// table never outgrows that range.
    pub open spec fn wf(&self) -> bool {
        distinct_names(self@) && self@.len() <= 0x1_0000_0000
    }

    pub fn new() -> (t: IdentifierTable)
        ensures
            t@ == Seq::<Seq<char>>::empty(),
            t.wf(),
    {
        IdentifierTable { names: Vec::new() }
    }

    /// Interns `name`: the id of its entry if it is already in the table,
    /// else the next free id, under which the name is appended.  The same
    /// name always yields the same id; existing entries never move.
    pub fn get_ident_id(&mut self, name: &String) -> (id: IdentId)
        requires
            old(self).wf(),
            old(self)@.len() < 0x1_0000_0000,
        ensures
            final(self).wf(),
            final(self)@ == (if old(self)@.contains(name@) {
                old(self)@
            } else {
                old(self)@.push(name@)
            }),
            id.0 as int == interned_id(final(self)@, name@),
            id.0 < final(self)@.len(),
            final(self)@[id.0 as int] == name@,
    {
        let n = self.names.len();
        let mut i: usize = 0;
        while i < n
            invariant
                self@ == old(self)@,
                self.wf(),
                n == self.names.len(),
                n == self@.len(),
                i <= n,
                forall|k: int| 0 <= k < i ==> self@[k] != name@,
            decreases n - i,
        {
            if self.names[i] == *name {
                proof {
                    assert(self@[i as int] == self.names@[i as int]@);
                    lemma_intern_of_name(self@, i as int);
                }
                return IdentId(i as u32);
            }
            assert(self@[i as int] == self.names@[i as int]@);
            i += 1;
        }
        assert(forall|k: int| 0 <= k < self@.len() ==> self@[k] != name@);
        assert(!self@.contains(name@));
        self.names.push(name.clone());
        proof {
            assert(self@ =~= old(self)@.push(name@));
            lemma_intern_of_name(self@, n as int);
        }
        IdentId(n as u32)
    }

    /// The textual name interned under `id`.
    pub fn get_name(&self, id: IdentId) -> (name: &String)
        requires
            id.0 < self@.len(),
        ensures
            name@ == self@[id.0 as int],
    {
        let r = &self.names[id.0 as usize];
        assert(self@[id.0 as int] == self.names@[id.0 as int]@);
        r
    }

    /// How many names are interned.
    pub fn len(&self) -> (n: usize)
        ensures
            n == self@.len(),
    {
        self.names.len()
    }
}

} // verus!
