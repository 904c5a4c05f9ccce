use vstd::prelude::*;
use crate::error::{RubyErrKind, RubyError};
use crate::ident::IdentifierTable;
use crate::node::{Loc, LvarTable};
use crate::table::{MethodTable, ValueTable};
use crate::value::Value;
use vstd::string::StringExecFns;

verus! {

/// What the embedder knows about the source text.  The machine stores it
/// untouched, so that errors can later be rendered against it.
#[derive(Debug)]
pub struct SourceInfo {
    pub code: String,
}

/// A position inside the instruction vector.  For a jump it names the byte
/// one past the 32-bit operand slot, the point displacements are measured
/// from.
#[derive(Debug, Clone, Copy, PartialEq, Eq, Structural)]
pub struct ISeqPos(pub usize);

impl ISeqPos {
    /// The self-relative displacement that reaches `dist` from this
    /// position.
    pub fn disp(&self, dist: ISeqPos) -> (d: i32)
        requires
            self.0 < 0x8000_0000,
            dist.0 < 0x8000_0000,
        ensures
            d as int == dist.0 - self.0,
    {
        let to = dist.0 as i64;
        let here = self.0 as i64;
        (to - here) as i32
    }
}

/// What a `break` or `next` escapes to; collected per loop during
/// compilation, patched when the loop's layout is known.
#[derive(Debug, Clone, Copy, PartialEq, Eq, Structural)]
pub enum EscapeKind {
    Break,
    Next,
}

/// The outcome of compiling or executing: a value, or the first error.
pub type VMResult = Result<Value, RubyError>;

/// The virtual machine: identifier table, method and constant tables,
/// compiler state, and the execution state of the interpreter loop.
///
/// Output produced by the printing built-ins is appended to `output`; the
/// embedder decides where those bytes go.
#[derive(Debug)]
pub struct VM {
    // Global info
    pub source_info: SourceInfo,
    pub ident_table: IdentifierTable,
    pub method_table: MethodTable,
    pub const_table: ValueTable,
    // Codegen state
    pub loop_stack: Vec<Vec<(ISeqPos, EscapeKind)>>,
    pub lvar_table: LvarTable,
    pub loc: Loc,
    // VM state
    pub iseq: Vec<u8>,
    pub lvar_stack: Vec<Vec<Value>>,
    pub exec_stack: Vec<Value>,
    pub output: Vec<u8>,
}

impl VM {
    /// The structural invariant of a machine: a well-formed identifier
    /// table with room for more names, and at least one local frame.
    pub open spec fn inv(&self) -> bool {
        &&& self.ident_table.wf()
        &&& self.ident_table@.len() < 0x1_0000_0000
        &&& self.lvar_stack@.len() >= 1
    }

    pub fn new(source_info: SourceInfo, ident_table: IdentifierTable) -> (vm: VM)
        requires
            ident_table.wf(),
            ident_table@.len() < 0x1_0000_0000,
        ensures
            vm.inv(),
            vm.ident_table@ == ident_table@,
            vm.source_info == source_info,
            vm.method_table@.len() == 0,
            vm.const_table@.len() == 0,
            vm.loop_stack@.len() == 0,
            vm.lvar_table.entries@.len() == 0,
            vm.loc == Loc(0, 0),
            vm.iseq@.len() == 0,
            vm.lvar_stack@.len() == 1,
            vm.lvar_stack@[0].len() == 64,
            forall|i: int| 0 <= i < 64 ==> vm.lvar_stack@[0][i]@ == crate::value::ValueView::Nil,
            vm.exec_stack@.len() == 0,
            vm.output@.len() == 0,
    {
        let mut frame: Vec<Value> = Vec::new();
        let mut i: usize = 0;
        while i < 64
            invariant
                i <= 64,
                frame@.len() == i,
                forall|k: int|
                    0 <= k < i ==> frame@[k]@ == crate::value::ValueView::Nil,
            decreases 64 - i,
        {
            frame.push(Value::Nil);
            i += 1;
        }
        let mut lvar_stack: Vec<Vec<Value>> = Vec::new();
        lvar_stack.push(frame);
        VM {
            source_info,
            ident_table,
            method_table: MethodTable::new(),
            const_table: ValueTable::new(),
            loop_stack: Vec::new(),
            lvar_table: LvarTable::new(),
            loc: Loc(0, 0),
            iseq: Vec::new(),
            lvar_stack,
            exec_stack: Vec::new(),
            output: Vec::new(),
        }
    }

    /// Replaces the source text and the identifier table, keeping the rest
    /// of the machine.
    pub fn init(&mut self, source_info: SourceInfo, ident_table: IdentifierTable)
        ensures
            *final(self) == (VM {
                source_info,
                ident_table,
                ..*old(self)
            }),
    {
        self.source_info = source_info;
        self.ident_table = ident_table;
    }

    /// The active local-variable frame: the top of the frame stack.
    pub fn lvar(&self) -> (frame: &Vec<Value>)
        requires
            self.lvar_stack@.len() >= 1,
        ensures
            frame == self.lvar_stack@.last(),
    {
        let n = self.lvar_stack.len();
        &self.lvar_stack[n - 1]
    }

    /// The position one past the last emitted byte.
    pub fn current(&self) -> (pos: ISeqPos)
        ensures
            pos.0 == self.iseq@.len(),
    {
        ISeqPos(self.iseq.len())
    }
}

impl VM {
    pub fn error_nomethod(&self, msg: &str) -> (e: RubyError)
        ensures
            e.kind == RubyErrKind::NoMethod,
            e.message@ == msg@,
            e.loc == self.loc,
    {
        RubyError::new(RubyErrKind::NoMethod, String::from_str(msg), self.loc)
    }

    pub fn error_unimplemented(&self, msg: &str) -> (e: RubyError)
        ensures
            e.kind == RubyErrKind::Unimplemented,
            e.message@ == msg@,
            e.loc == self.loc,
    {
        RubyError::new(RubyErrKind::Unimplemented, String::from_str(msg), self.loc)
    }

    pub fn error_name(&self, msg: &str) -> (e: RubyError)
        ensures
            e.kind == RubyErrKind::Name,
            e.message@ == msg@,
            e.loc == self.loc,
    {
        RubyError::new(RubyErrKind::Name, String::from_str(msg), self.loc)
    }

    pub fn error_syntax(&self, msg: &str, loc: Loc) -> (e: RubyError)
        ensures
            e.kind == RubyErrKind::SyntaxError,
            e.message@ == msg@,
            e.loc == loc,
    {
        RubyError::new(RubyErrKind::SyntaxError, String::from_str(msg), loc)
    }
}

} // verus!
