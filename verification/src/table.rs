use vstd::prelude::*;
use crate::ident::IdentId;
use crate::node::Node;
use crate::value::{Value, ValueView};

verus! {

/// The value bound to `id` in an association list: the entry nearest the
/// front with that key, if any.  New bindings go to the front, which gives
/// the list the update semantics of a map.
pub open spec fn assoc_lookup<T>(entries: Seq<(IdentId, T)>, id: IdentId) -> Option<T>
    decreases entries.len(),
{
    if entries.len() == 0 {
        None
    } else if entries[0].0 == id {
        Some(entries[0].1)
    } else {
        assoc_lookup(entries.drop_first(), id)
    }
}

/// The constant table: a flat, process-wide mapping from identifier id to
/// value, without lexical scoping.
#[derive(Debug)]
pub struct ValueTable {
    entries: Vec<(IdentId, Value)>,
}

impl View for ValueTable {
    type V = Seq<(IdentId, ValueView)>;

    closed spec fn view(&self) -> Seq<(IdentId, ValueView)> {
        Seq::new(self.entries@.len(), |i: int| (self.entries@[i].0, self.entries@[i].1@))
    }
}

impl ValueTable {
    pub fn new() -> (t: ValueTable)
        ensures
            t@ == Seq::<(IdentId, ValueView)>::empty(),
    {
        let t = ValueTable { entries: Vec::new() };
        assert(t@ =~= Seq::<(IdentId, ValueView)>::empty());
        t
    }

    /// Binds `id` to `val`, shadowing any earlier binding.
    pub fn insert(&mut self, id: IdentId, val: Value)
        ensures
            final(self)@ == old(self)@.insert(0, (id, val@)),
    {
        self.entries.insert(0, (id, val));
        assert(final(self)@ =~= old(self)@.insert(0, (id, val@)));
    }

    /// The value bound to `id`, cloned out of the table.
    pub fn get(&self, id: IdentId) -> (r: Option<Value>)
        ensures
            match r {
                Some(v) => assoc_lookup(self@, id) == Some(v@),
                None => assoc_lookup(self@, id) is None,
            },
    {
        let n = self.entries.len();
        assert(self@.subrange(0, n as int) =~= self@);
        let mut i: usize = 0;
        while i < n
            invariant
                n == self.entries.len(),
                n == self@.len(),
                i <= n,
                assoc_lookup(self@.subrange(i as int, n as int), id) == assoc_lookup(self@, id),
            decreases n - i,
        {
            assert(self@.subrange(i as int, n as int)[0] == self@[i as int]);
            if self.entries[i].0 == id {
                let v = self.entries[i].1.clone();
                return Some(v);
            }
            assert(self@.subrange(i as int, n as int).drop_first() =~= self@.subrange(
                i + 1,
                n as int,
            ));
            i += 1;
        }
        None
    }
}

/// Which host-implemented callable a built-in method dispatches to.
#[derive(Debug, Clone, Copy, PartialEq, Eq, Structural)]
pub enum BuiltinId {
    Puts,
    Print,
    Chr,
    AssertEqual,
}

/// A method descriptor.  The core only ever dispatches `BuiltinFunc`;
/// `RubyFunc` exists for the user-defined methods of a later iteration and
/// is answered with an error when reached.
#[derive(Debug)]
pub enum MethodInfo {
    RubyFunc { params: Vec<Node>, body: Box<Node> },
    BuiltinFunc { name: String, func: BuiltinId },
}

/// The model of a method descriptor: which path dispatch takes.
#[derive(PartialEq, Eq, Structural)]
pub enum MethodInfoView {
    Ruby,
    Builtin(BuiltinId),
}

impl View for MethodInfo {
    type V = MethodInfoView;

    open spec fn view(&self) -> MethodInfoView {
        match self {
            MethodInfo::RubyFunc { .. } => MethodInfoView::Ruby,
            MethodInfo::BuiltinFunc { func, .. } => MethodInfoView::Builtin(*func),
        }
    }
}

/// The method table: a flat mapping from identifier id to method
/// descriptor, consulted by `SEND`.
#[derive(Debug)]
pub struct MethodTable {
    entries: Vec<(IdentId, MethodInfo)>,
}

impl View for MethodTable {
    type V = Seq<(IdentId, MethodInfoView)>;

    closed spec fn view(&self) -> Seq<(IdentId, MethodInfoView)> {
        Seq::new(self.entries@.len(), |i: int| (self.entries@[i].0, self.entries@[i].1@))
    }
}

impl MethodTable {
    pub fn new() -> (t: MethodTable)
        ensures
            t@ == Seq::<(IdentId, MethodInfoView)>::empty(),
    {
        let t = MethodTable { entries: Vec::new() };
        assert(t@ =~= Seq::<(IdentId, MethodInfoView)>::empty());
        t
    }

    /// Registers a method under `id`, shadowing any earlier registration.
    pub fn insert(&mut self, id: IdentId, info: MethodInfo)
        ensures
            final(self)@ == old(self)@.insert(0, (id, info@)),
    {
        self.entries.insert(0, (id, info));
        assert(final(self)@ =~= old(self)@.insert(0, (id, info@)));
    }

    /// The descriptor registered under `id`.
    pub fn get(&self, id: IdentId) -> (r: Option<&MethodInfo>)
        ensures
            match r {
                Some(m) => assoc_lookup(self@, id) == Some(m@),
                None => assoc_lookup(self@, id) is None,
            },
    {
        let n = self.entries.len();
        assert(self@.subrange(0, n as int) =~= self@);
        let mut i: usize = 0;
        while i < n
            invariant
                n == self.entries.len(),
                n == self@.len(),
                i <= n,
                assoc_lookup(self@.subrange(i as int, n as int), id) == assoc_lookup(self@, id),
            decreases n - i,
        {
            assert(self@.subrange(i as int, n as int)[0] == self@[i as int]);
            if self.entries[i].0 == id {
                return Some(&self.entries[i].1);
            }
            assert(self@.subrange(i as int, n as int).drop_first() =~= self@.subrange(
                i + 1,
                n as int,
            ));
            i += 1;
        }
        None
    }
}

} // verus!
