use vstd::prelude::*;
use crate::ident::IdentId;

verus! {

/// A position in the source text, carried on every node and on every error.
/// The core never reads into it; it only stores and copies it.
#[derive(Debug, Clone, Copy, PartialEq, Eq, Structural)]
pub struct Loc(pub usize, pub usize);

/// A dense local-variable slot index, assigned by the parser's collector.
#[derive(Debug, Clone, Copy, PartialEq, Eq, Structural)]
pub struct LvarId(pub u32);

impl LvarId {
    pub fn from_usize(id: usize) -> (r: LvarId)
        requires
            id <= u32::MAX,
        ensures
            r.0 == id,
    {
        LvarId(id as u32)
    }

    pub fn as_usize(&self) -> (r: usize)
        ensures
            r == self.0,
    {
        self.0 as usize
    }
}

/// The value bound to `id` in an association table: the first entry with
/// that key, if any.
pub open spec fn lvar_lookup_at(entries: Seq<(IdentId, LvarId)>, id: IdentId) -> Option<LvarId>
    decreases entries.len(),
{
    if entries.len() == 0 {
        None
    } else if entries[0].0 == id {
        Some(entries[0].1)
    } else {
        lvar_lookup_at(entries.drop_first(), id)
    }
}

/// The map from identifier id to local-variable slot that the parser
/// computes for the top-level scope and hands over on the root node.
#[derive(Debug)]
pub struct LvarTable {
    pub entries: Vec<(IdentId, LvarId)>,
}

impl Clone for LvarTable {
    fn clone(&self) -> (r: Self)
        ensures
            r.entries@ == self.entries@,
    {
        let mut entries: Vec<(IdentId, LvarId)> = Vec::new();
        let n = self.entries.len();
        let mut i: usize = 0;
        while i < n
            invariant
                n == self.entries.len(),
                i <= n,
                entries@ == self.entries@.subrange(0, i as int),
            decreases n - i,
        {
            entries.push(self.entries[i]);
            assert(entries@ =~= self.entries@.subrange(0, i + 1));
            i += 1;
        }
        assert(entries@ =~= self.entries@);
        LvarTable { entries }
    }
}

impl LvarTable {
    pub fn new() -> (t: LvarTable)
        ensures
            t.entries@ == Seq::<(IdentId, LvarId)>::empty(),
    {
        LvarTable { entries: Vec::new() }
    }

    pub open spec fn spec_lookup(&self, id: IdentId) -> Option<LvarId> {
        lvar_lookup_at(self.entries@, id)
    }

    /// Adds a binding; an earlier binding of the same id keeps precedence,
    /// as the parser never emits one.
    pub fn insert(&mut self, id: IdentId, lvar: LvarId)
        ensures
            final(self).entries@ == old(self).entries@.push((id, lvar)),
    {
        self.entries.push((id, lvar));
    }

    /// The slot bound to `id`, if the parser collected one.
    pub fn get(&self, id: IdentId) -> (r: Option<LvarId>)
        ensures
            r == self.spec_lookup(id),
    {
        let n = self.entries.len();
        assert(self.entries@.subrange(0, n as int) =~= self.entries@);
        let mut i: usize = 0;
        while i < n
            invariant
                n == self.entries.len(),
                i <= n,
                lvar_lookup_at(self.entries@.subrange(i as int, n as int), id) == self.spec_lookup(
                    id,
                ),
            decreases n - i,
        {
            let e = self.entries[i];
            assert(self.entries@.subrange(i as int, n as int)[0] == self.entries@[i as int]);
            if e.0 == id {
                return Some(e.1);
            }
            assert(self.entries@.subrange(i as int, n as int).drop_first() =~= self.entries@
                .subrange(i + 1, n as int));
            i += 1;
        }
        None
    }
}

/// What the parser hands the compiler beside the top-level node.
#[derive(Debug)]
pub struct LvarCollector {
    pub table: LvarTable,
}

impl Clone for LvarCollector {
    fn clone(&self) -> (r: Self)
        ensures
            r.table.entries@ == self.table.entries@,
    {
        LvarCollector { table: self.table.clone() }
    }
}

/// The binary operators of the language.
#[derive(Debug, Clone, Copy, PartialEq, Eq, Structural)]
pub enum BinOp {
    Add,
    Sub,
    Mul,
    Div,
    Shr,
    Shl,
    BitOr,
    BitAnd,
    BitXor,
    Eq,
    Ne,
    Gt,
    Ge,
    Lt,
    Le,
    LAnd,
    LOr,
}

/// The shape of an abstract-syntax-tree node.  Float literals arrive as
/// their IEEE-754 bit pattern, which is all the core stores of them.
#[derive(Debug)]
pub enum NodeKind {
    TopLevel(Box<Node>, LvarCollector),
    Nil,
    Bool(bool),
    Number(i64),
    Float(u64),
    Str(String),
    SelfValue,
    Range(Box<Node>, Box<Node>, bool),
    Ident(IdentId),
    Const(IdentId),
    BinOp(BinOp, Box<Node>, Box<Node>),
    CompStmt(Vec<Node>),
    If(Box<Node>, Box<Node>, Box<Node>),
    For(Box<Node>, Box<Node>, Box<Node>),
    Assign(Box<Node>, Box<Node>),
    Send(Box<Node>, Box<Node>, Vec<Node>),
    Break,
    Next,
}

/// A node of the abstract syntax tree, tagged with its source position.
#[derive(Debug)]
pub struct Node {
    pub kind: NodeKind,
    pub loc: Loc,
}

impl Node {
    pub fn new(kind: NodeKind, loc: Loc) -> (n: Node)
        ensures
            n.kind == kind,
            n.loc == loc,
    {
        Node { kind, loc }
    }

    pub fn loc(&self) -> (l: Loc)
        ensures
            l == self.loc,
    {
        self.loc
    }
}

} // verus!
