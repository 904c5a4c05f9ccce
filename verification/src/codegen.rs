use vstd::prelude::*;
use crate::encoding::{be32, be64, to_word32};
use crate::error::{RubyErrKind, RubyError};
use crate::ident::IdentId;
use crate::inst::Inst;
use crate::node::{BinOp, LvarId, Node, NodeKind, lvar_lookup_at};
use crate::vm::{EscapeKind, ISeqPos, VM};

verus! {

/// The unsigned 64-bit word with the same bit pattern as `i`.
pub open spec fn u64_of_i64(i: i64) -> u64 {
    if i >= 0 {
        i as u64
    } else {
        (i + 0x1_0000_0000_0000_0000) as u64
    }
}

/// The operand word carrying displacement `d`.
pub fn disp_word(d: i32) -> (w: u32)
    ensures
        w == to_word32(d as int),
{
    if d >= 0 {
        d as u32
    } else {
        let wide: i64 = (d as i64) + 0x1_0000_0000;
        wide as u32
    }
}

/// The immediate word carrying the fixnum `i`.
pub fn fixnum_word(i: i64) -> (w: u64)
    ensures
        w == u64_of_i64(i),
{
    if i >= 0 {
        i as u64
    } else {
        let wide: i128 = (i as i128) + 0x1_0000_0000_0000_0000;
        wide as u64
    }
}

/// How many bytes compiling `n` emits, counting both fixed instruction
/// bytes and everything emitted for the children.
pub open spec fn emit_size(n: Node) -> nat
    decreases n,
{
    match n.kind {
        NodeKind::TopLevel(child, _) => emit_size(*child),
        NodeKind::Nil => 1,
        NodeKind::Bool(_) => 1,
        NodeKind::Number(_) => 9,
        NodeKind::Float(_) => 9,
        NodeKind::Str(_) => 5,
        NodeKind::SelfValue => 1,
        NodeKind::Range(start, end, _) => 2 + emit_size(*end) + emit_size(*start),
        NodeKind::Ident(_) => 5,
        NodeKind::Const(_) => 5,
        NodeKind::BinOp(op, lhs, rhs) => emit_size(*lhs) + emit_size(*rhs) + (
        if op == BinOp::LAnd || op == BinOp::LOr {
            11nat
        } else {
            1nat
        }),
        NodeKind::CompStmt(nodes) => emit_size_list(nodes@),
        NodeKind::If(cond, then_body, else_body) => emit_size(*cond) + emit_size(*then_body)
            + emit_size(*else_body) + 10,
        NodeKind::For(_, iter, body) => (match iter.kind {
            NodeKind::Range(start, end, _) => emit_size(*start) + emit_size(*end),
            _ => 0,
        }) + emit_size(*body) + 41,
        NodeKind::Assign(lhs, rhs) => emit_size(*rhs) + (match lhs.kind {
            NodeKind::Ident(_) => 5nat,
            NodeKind::Const(_) => 5nat,
            _ => 0nat,
        }),
        NodeKind::Send(receiver, _, args) => emit_size_list(args@) + emit_size(*receiver) + 9,
        NodeKind::Break => 6,
        NodeKind::Next => 6,
    }
}

pub open spec fn emit_size_list(ns: Seq<Node>) -> nat
    decreases ns,
{
    if ns.len() == 0 {
        0
    } else {
        emit_size(ns[0]) + emit_size_list(ns.subrange(1, ns.len() as int))
    }
}

/// Every identifier the tree reads or writes as a local is mapped in `t`;
/// an unmapped one is a programmer error the compiler does not survive.
/// A top-level wrapper node is admitted nowhere below the root.
pub open spec fn locals_ok(n: Node, t: Seq<(IdentId, LvarId)>) -> bool
    decreases n,
{
    match n.kind {
        NodeKind::TopLevel(_, _) => false,
        NodeKind::Nil => true,
        NodeKind::Bool(_) => true,
        NodeKind::Number(_) => true,
        NodeKind::Float(_) => true,
        NodeKind::Str(_) => true,
        NodeKind::SelfValue => true,
        NodeKind::Range(start, end, _) => locals_ok(*end, t) && locals_ok(*start, t),
        NodeKind::Ident(id) => lvar_lookup_at(t, id) is Some,
        NodeKind::Const(_) => true,
        NodeKind::BinOp(_, lhs, rhs) => locals_ok(*lhs, t) && locals_ok(*rhs, t),
        NodeKind::CompStmt(nodes) => locals_ok_list(nodes@, t),
        NodeKind::If(cond, then_body, else_body) => locals_ok(*cond, t) && locals_ok(
            *then_body,
            t,
        ) && locals_ok(*else_body, t),
        NodeKind::For(var, iter, body) => match var.kind {
            NodeKind::Ident(id) => match iter.kind {
                NodeKind::Range(start, end, _) => lvar_lookup_at(t, id) is Some && locals_ok(
                    *start,
                    t,
                ) && locals_ok(*end, t) && locals_ok(*body, t),
                _ => true,
            },
            _ => true,
        },
        NodeKind::Assign(lhs, rhs) => locals_ok(*rhs, t) && (match lhs.kind {
            NodeKind::Ident(id) => lvar_lookup_at(t, id) is Some,
            _ => true,
        }),
        NodeKind::Send(receiver, method, args) => match method.kind {
            NodeKind::Ident(_) => args@.len() <= u32::MAX && locals_ok_list(args@, t)
                && locals_ok(*receiver, t),
            _ => true,
        },
        NodeKind::Break => true,
        NodeKind::Next => true,
    }
}

pub open spec fn locals_ok_list(ns: Seq<Node>, t: Seq<(IdentId, LvarId)>) -> bool
    decreases ns,
{
    if ns.len() == 0 {
        true
    } else {
        locals_ok(ns[0], t) && locals_ok_list(ns.subrange(1, ns.len() as int), t)
    }
}

/// Law: the emitted size of a statement list grows by the size of an
/// appended statement.
pub proof fn lemma_emit_size_list_push(ns: Seq<Node>, x: Node)
    ensures
        emit_size_list(ns.push(x)) == emit_size_list(ns) + emit_size(x),
    decreases ns.len(),
{
    if ns.len() == 0 {
        assert(ns.push(x)[0] == x);
        assert(ns.push(x).subrange(1, ns.push(x).len() as int) =~= Seq::<Node>::empty());
        assert(emit_size_list(Seq::<Node>::empty()) == 0);
        assert(emit_size_list(ns.push(x)) == emit_size(x) + emit_size_list(
            ns.push(x).subrange(1, ns.push(x).len() as int),
        ));
        assert(emit_size_list(ns) == 0);
    } else {
        assert(ns.push(x)[0] == ns[0]);
        assert(ns.push(x).subrange(1, ns.push(x).len() as int) =~= ns.subrange(
            1,
            ns.len() as int,
        ).push(x));
        lemma_emit_size_list_push(ns.subrange(1, ns.len() as int), x);
        assert(emit_size_list(ns.push(x)) == emit_size(ns[0]) + emit_size_list(
            ns.subrange(1, ns.len() as int).push(x),
        ));
        assert(emit_size_list(ns) == emit_size(ns[0]) + emit_size_list(
            ns.subrange(1, ns.len() as int),
        ));
    }
}

/// Law: a suffix of a statement list never emits more than the whole list.
pub proof fn lemma_emit_size_list_suffix(ns: Seq<Node>, i: int)
    requires
        0 <= i <= ns.len(),
    ensures
        emit_size_list(ns.subrange(i, ns.len() as int)) <= emit_size_list(ns),
    decreases i,
{
    if i == 0 {
        assert(ns.subrange(0, ns.len() as int) =~= ns);
    } else {
        lemma_emit_size_list_suffix(ns, i - 1);
        assert(ns.subrange(i - 1, ns.len() as int)[0] == ns[i - 1]);
        assert(ns.subrange(i - 1, ns.len() as int).subrange(
            1,
            ns.len() - i + 1,
        ) =~= ns.subrange(i, ns.len() as int));
    }
}

pub proof fn lemma_locals_ok_list_index(ns: Seq<Node>, t: Seq<(IdentId, LvarId)>, i: int)
    requires
        locals_ok_list(ns, t),
        0 <= i < ns.len(),
    ensures
        locals_ok(ns[i], t),
    decreases ns.len(),
{
    if i > 0 {
        lemma_locals_ok_list_index(ns.subrange(1, ns.len() as int), t, i - 1);
    }
}

pub proof fn lemma_syntax_ok_list_index(ns: Seq<Node>, in_loop: bool, i: int)
    requires
        syntax_ok_list(ns, in_loop),
        0 <= i < ns.len(),
    ensures
        syntax_ok(ns[i], in_loop),
    decreases ns.len(),
{
    if i > 0 {
        lemma_syntax_ok_list_index(ns.subrange(1, ns.len() as int), in_loop, i - 1);
    }
}

/// Law: a statement list compiles when each of its statements does.
pub proof fn lemma_syntax_ok_list_build(ns: Seq<Node>, in_loop: bool)
    requires
        forall|i: int| 0 <= i < ns.len() ==> syntax_ok(#[trigger] ns[i], in_loop),
    ensures
        syntax_ok_list(ns, in_loop),
    decreases ns.len(),
{
    if ns.len() > 0 {
        assert(forall|i: int|
            0 <= i < ns.len() - 1 ==> syntax_ok(
                #[trigger] ns.subrange(1, ns.len() as int)[i],
                in_loop,
            ));
        lemma_syntax_ok_list_build(ns.subrange(1, ns.len() as int), in_loop);
    }
}

/// Whether compiling `n` succeeds.  `in_loop` says whether a loop-escape
/// list is open where the node stands: `break` and `next` demand one, a
/// `for` opens one before it compiles its bounds and body.  Compilation
/// fails exactly on the shapes the grammar cannot produce but the tree
/// could carry: a non-identifier method or loop variable, a non-range
/// iterator, an escape outside every loop.
pub open spec fn syntax_ok(n: Node, in_loop: bool) -> bool
    decreases n,
{
    match n.kind {
        NodeKind::TopLevel(child, _) => syntax_ok(*child, in_loop),
        NodeKind::Nil => true,
        NodeKind::Bool(_) => true,
        NodeKind::Number(_) => true,
        NodeKind::Float(_) => true,
        NodeKind::Str(_) => true,
        NodeKind::SelfValue => true,
        NodeKind::Range(start, end, _) => syntax_ok(*end, in_loop) && syntax_ok(*start, in_loop),
        NodeKind::Ident(_) => true,
        NodeKind::Const(_) => true,
        NodeKind::BinOp(_, lhs, rhs) => syntax_ok(*lhs, in_loop) && syntax_ok(*rhs, in_loop),
        NodeKind::CompStmt(nodes) => syntax_ok_list(nodes@, in_loop),
        NodeKind::If(cond, then_body, else_body) => syntax_ok(*cond, in_loop) && syntax_ok(
            *then_body,
            in_loop,
        ) && syntax_ok(*else_body, in_loop),
        NodeKind::For(var, iter, body) => match var.kind {
            NodeKind::Ident(_) => match iter.kind {
                NodeKind::Range(start, end, _) => syntax_ok(*start, true) && syntax_ok(*end, true)
                    && syntax_ok(*body, true),
                _ => false,
            },
            _ => false,
        },
        NodeKind::Assign(_, rhs) => syntax_ok(*rhs, in_loop),
        NodeKind::Send(receiver, method, args) => match method.kind {
            NodeKind::Ident(_) => syntax_ok_list(args@, in_loop) && syntax_ok(*receiver, in_loop),
            _ => false,
        },
        NodeKind::Break => in_loop,
        NodeKind::Next => in_loop,
    }
}

pub open spec fn syntax_ok_list(ns: Seq<Node>, in_loop: bool) -> bool
    decreases ns,
{
    if ns.len() == 0 {
        true
    } else {
        syntax_ok(ns[0], in_loop) && syntax_ok_list(ns.subrange(1, ns.len() as int), in_loop)
    }
}

/// What the compiler demands of a tree before it walks it: the locals under
/// the root are mapped in the table that will be in force there.
pub open spec fn gen_pre(n: Node, t: Seq<(IdentId, LvarId)>) -> bool {
    match n.kind {
        NodeKind::TopLevel(child, coll) => locals_ok(*child, coll.table.entries@),
        _ => locals_ok(n, t),
    }
}

/// The local-variable table in force after compiling `n`: a top-level
/// wrapper installs the parser's collected table, everything else leaves
/// the table alone.
pub open spec fn final_lvars(n: Node, t: Seq<(IdentId, LvarId)>) -> Seq<(IdentId, LvarId)> {
    match n.kind {
        NodeKind::TopLevel(_, coll) => coll.table.entries@,
        _ => t,
    }
}

/// Emission leaves every part of the machine alone but the instruction
/// vector.
pub open spec fn cg_same_but_iseq(pre: VM, post: VM) -> bool {
    &&& post.source_info == pre.source_info
    &&& post.ident_table == pre.ident_table
    &&& post.method_table == pre.method_table
    &&& post.const_table == pre.const_table
    &&& post.loop_stack == pre.loop_stack
    &&& post.lvar_table == pre.lvar_table
    &&& post.loc == pre.loc
    &&& post.lvar_stack == pre.lvar_stack
    &&& post.exec_stack == pre.exec_stack
    &&& post.output == pre.output
}

/// What compilation never touches: everything of the machine that belongs
/// to execution or to the embedder.
pub open spec fn gen_keeps(pre: VM, post: VM) -> bool {
    &&& post.source_info == pre.source_info
    &&& post.method_table == pre.method_table
    &&& post.const_table == pre.const_table
    &&& post.lvar_stack == pre.lvar_stack
    &&& post.exec_stack == pre.exec_stack
    &&& post.output == pre.output
}

/// The loop-escape discipline of one compilation step: the stack keeps its
/// depth, lists below the top are untouched, and the top list only gains
/// entries, each naming a patch position inside the newly emitted code.
pub open spec fn escapes_grow(pre: VM, post: VM) -> bool {
    &&& post.loop_stack@.len() == pre.loop_stack@.len()
    &&& forall|k: int|
        0 <= k < pre.loop_stack@.len() - 1 ==> post.loop_stack@[k] == pre.loop_stack@[k]
    &&& pre.loop_stack@.len() > 0 ==> {
        let a = pre.loop_stack@.last()@;
        let b = post.loop_stack@.last()@;
        &&& keeps_prefix(a, b)
        &&& forall|k: int|
            a.len() <= k < b.len() ==> pre.iseq@.len() + 6 <= (#[trigger] b[k]).0.0
                <= post.iseq@.len()
    }
}

/// The earlier sequence stands unchanged at the front of the later one.
pub open spec fn keeps_prefix<T>(pre: Seq<T>, post: Seq<T>) -> bool {
    pre.len() <= post.len() && post.subrange(0, pre.len() as int) == pre
}

pub proof fn lemma_keeps_prefix_trans<T>(a: Seq<T>, b: Seq<T>, c: Seq<T>)
    requires
        keeps_prefix(a, b),
        keeps_prefix(b, c),
    ensures
        keeps_prefix(a, c),
{
    assert forall|k: int| 0 <= k < a.len() implies c.subrange(0, a.len() as int)[k] == a[k] by {
        assert(b.subrange(0, a.len() as int)[k] == a[k]);
        assert(c.subrange(0, b.len() as int)[k] == b[k]);
    }
    assert(c.subrange(0, a.len() as int) =~= a);
}

pub proof fn lemma_append_keeps_prefix<T>(a: Seq<T>, x: Seq<T>)
    ensures
        keeps_prefix(a, a + x),
{
    assert((a + x).subrange(0, a.len() as int) =~= a);
}

/// Law: the loop-escape discipline composes across consecutive steps.
pub proof fn lemma_escapes_grow_trans(a: VM, b: VM, c: VM)
    requires
        escapes_grow(a, b),
        escapes_grow(b, c),
        a.iseq@.len() <= b.iseq@.len() <= c.iseq@.len(),
    ensures
        escapes_grow(a, c),
{
    if a.loop_stack@.len() > 0 {
        let la = a.loop_stack@.last()@;
        let lb = b.loop_stack@.last()@;
        let lc = c.loop_stack@.last()@;
        assert forall|k: int| 0 <= k < la.len() implies lc.subrange(0, la.len() as int)[k]
            == la[k] by {
            assert(lb.subrange(0, la.len() as int)[k] == la[k]);
            assert(lc.subrange(0, lb.len() as int)[k] == lb[k]);
        }
        assert(lc.subrange(0, la.len() as int) =~= la);
        assert forall|k: int| la.len() <= k < lc.len() implies a.iseq@.len() + 6
            <= (#[trigger] lc[k]).0.0 <= c.iseq@.len() by {
            if k < lb.len() {
                assert(lc.subrange(0, lb.len() as int)[k] == lb[k]);
                assert(lb[k].0.0 <= b.iseq@.len());
            }
        }
    }
}

/// What every compilation step keeps or grows: the machine invariant, the
/// execution state, the emitted prefix, the interned names and their ids,
/// and the local-variable table.  The identifier table gains at most one
/// name per emitted byte.
pub open spec fn gen_step(a: VM, b: VM) -> bool {
    &&& b.inv()
    &&& gen_keeps(a, b)
    &&& keeps_prefix(a.iseq@, b.iseq@)
    &&& keeps_prefix(a.ident_table@, b.ident_table@)
    &&& b.ident_table@.len() - a.ident_table@.len() <= b.iseq@.len() - a.iseq@.len()
    &&& b.lvar_table.entries@ == a.lvar_table.entries@
}

pub proof fn lemma_gen_step_trans(a: VM, b: VM, c: VM)
    requires
        gen_step(a, b),
        gen_step(b, c),
    ensures
        gen_step(a, c),
{
    lemma_keeps_prefix_trans(a.iseq@, b.iseq@, c.iseq@);
    lemma_keeps_prefix_trans(a.ident_table@, b.ident_table@, c.ident_table@);
}

pub proof fn lemma_keeps_prefix_refl<T>(a: Seq<T>)
    ensures
        keeps_prefix(a, a),
{
    assert(a.subrange(0, a.len() as int) =~= a);
}

/// A step that leaves the loop-escape stack alone obeys the escape
/// discipline.
pub proof fn lemma_escapes_same(a: VM, b: VM)
    requires
        b.loop_stack@ == a.loop_stack@,
        a.iseq@.len() <= b.iseq@.len(),
    ensures
        escapes_grow(a, b),
{
    if a.loop_stack@.len() > 0 {
        lemma_keeps_prefix_refl(a.loop_stack@.last()@);
    }
}

/// Patching a displacement slot that lies wholly past the old bytes leaves
/// the old bytes standing.
pub proof fn lemma_patch_keeps_prefix(a: Seq<u8>, b: Seq<u8>, c: Seq<u8>, lo: int)
    requires
        keeps_prefix(a, b),
        c.len() == b.len(),
        a.len() + 4 <= lo,
        forall|k: int| 0 <= k < b.len() && !(lo - 4 <= k < lo) ==> c[k] == b[k],
    ensures
        keeps_prefix(a, c),
{
    assert forall|k: int| 0 <= k < a.len() implies c.subrange(0, a.len() as int)[k] == a[k] by {
        assert(b.subrange(0, a.len() as int)[k] == a[k]);
    }
    assert(c.subrange(0, a.len() as int) =~= a);
}

/// A step that appends bytes and touches nothing else obeys every
/// compilation-step obligation.
pub proof fn lemma_gen_step_emit(a: VM, b: VM, x: Seq<u8>)
    requires
        a.inv(),
        cg_same_but_iseq(a, b),
        b.iseq@ == a.iseq@ + x,
    ensures
        gen_step(a, b),
        escapes_grow(a, b),
{
    lemma_append_keeps_prefix(a.iseq@, x);
    lemma_keeps_prefix_refl(a.ident_table@);
    lemma_escapes_same(a, b);
}

impl VM {
    /// Appends a 32-bit immediate, big-endian.
    pub fn push32(&mut self, num: u32)
        ensures
            cg_same_but_iseq(*old(self), *final(self)),
            final(self).iseq@ == old(self).iseq@ + be32(num),
    {
        self.iseq.push(((num >> 24) & 0xff) as u8);
        self.iseq.push(((num >> 16) & 0xff) as u8);
        self.iseq.push(((num >> 8) & 0xff) as u8);
        self.iseq.push((num & 0xff) as u8);
        assert(final(self).iseq@ =~= old(self).iseq@ + be32(num));
    }

    /// Appends a 64-bit immediate, big-endian.
    pub fn push64(&mut self, num: u64)
        ensures
            cg_same_but_iseq(*old(self), *final(self)),
            final(self).iseq@ == old(self).iseq@ + be64(num),
    {
        self.iseq.push(((num >> 56) & 0xff) as u8);
        self.iseq.push(((num >> 48) & 0xff) as u8);
        self.iseq.push(((num >> 40) & 0xff) as u8);
        self.iseq.push(((num >> 32) & 0xff) as u8);
        self.iseq.push(((num >> 24) & 0xff) as u8);
        self.iseq.push(((num >> 16) & 0xff) as u8);
        self.iseq.push(((num >> 8) & 0xff) as u8);
        self.iseq.push((num & 0xff) as u8);
        assert(final(self).iseq@ =~= old(self).iseq@ + be64(num));
    }

    /// Emits a conditional jump with a blank displacement; the returned
    /// fixup names the byte past the operand, to be patched later.
    pub fn gen_jmp_if_false(&mut self) -> (src: ISeqPos)
        ensures
            cg_same_but_iseq(*old(self), *final(self)),
            final(self).iseq@ == old(self).iseq@ + seq![
                Inst::JMP_IF_FALSE,
                0u8,
                0u8,
                0u8,
                0u8,
            ],
            src.0 == final(self).iseq@.len(),
            src.0 == old(self).iseq@.len() + 5,
    {
        self.iseq.push(Inst::JMP_IF_FALSE);
        self.iseq.push(0);
        self.iseq.push(0);
        self.iseq.push(0);
        self.iseq.push(0);
        assert(final(self).iseq@ =~= old(self).iseq@ + seq![
            Inst::JMP_IF_FALSE,
            0u8,
            0u8,
            0u8,
            0u8,
        ]);
        ISeqPos(self.iseq.len())
    }

    /// Emits an unconditional jump with a blank displacement, returning its
    /// fixup.
    pub fn gen_jmp(&mut self) -> (src: ISeqPos)
        ensures
            cg_same_but_iseq(*old(self), *final(self)),
            final(self).iseq@ == old(self).iseq@ + seq![Inst::JMP, 0u8, 0u8, 0u8, 0u8],
            src.0 == final(self).iseq@.len(),
            src.0 == old(self).iseq@.len() + 5,
    {
        self.iseq.push(Inst::JMP);
        self.iseq.push(0);
        self.iseq.push(0);
        self.iseq.push(0);
        self.iseq.push(0);
        assert(final(self).iseq@ =~= old(self).iseq@ + seq![Inst::JMP, 0u8, 0u8, 0u8, 0u8]);
        ISeqPos(self.iseq.len())
    }

    /// Emits an unconditional jump back to `pos`: the displacement is
    /// relative to the byte past the operand being emitted.
    pub fn gen_jmp_back(&mut self, pos: ISeqPos)
        requires
            pos.0 <= old(self).iseq@.len(),
            old(self).iseq@.len() + 5 < 0x8000_0000,
        ensures
            cg_same_but_iseq(*old(self), *final(self)),
            final(self).iseq@ == old(self).iseq@ + seq![Inst::JMP] + be32(
                to_word32(pos.0 - (old(self).iseq@.len() + 5)),
            ),
    {
        let disp = self.current().disp(pos) - 5;
        self.iseq.push(Inst::JMP);
        let word = disp_word(disp);
        self.push32(word);
        assert(final(self).iseq@ =~= old(self).iseq@ + seq![Inst::JMP] + be32(word));
    }

    /// Emits a store of the top of stack into the local slot the table maps
    /// `id` to.
    pub fn gen_set_local(&mut self, id: IdentId)
        requires
            lvar_lookup_at(old(self).lvar_table.entries@, id) is Some,
        ensures
            cg_same_but_iseq(*old(self), *final(self)),
            final(self).iseq@ == old(self).iseq@ + seq![Inst::SET_LOCAL] + be32(
                (lvar_lookup_at(old(self).lvar_table.entries@, id)->0).0,
            ),
    {
        self.iseq.push(Inst::SET_LOCAL);
        let lvar_id = match self.lvar_table.get(id) {
            Some(x) => x.0,
            None => unreached(),
        };
        self.push32(lvar_id);
        assert(final(self).iseq@ =~= old(self).iseq@ + seq![Inst::SET_LOCAL] + be32(lvar_id));
    }

    /// Emits a load of the local slot the table maps `id` to.
    pub fn gen_get_local(&mut self, id: IdentId)
        requires
            lvar_lookup_at(old(self).lvar_table.entries@, id) is Some,
        ensures
            cg_same_but_iseq(*old(self), *final(self)),
            final(self).iseq@ == old(self).iseq@ + seq![Inst::GET_LOCAL] + be32(
                (lvar_lookup_at(old(self).lvar_table.entries@, id)->0).0,
            ),
    {
        self.iseq.push(Inst::GET_LOCAL);
        let lvar_id = match self.lvar_table.get(id) {
            Some(x) => x.0,
            None => unreached(),
        };
        self.push32(lvar_id);
        assert(final(self).iseq@ =~= old(self).iseq@ + seq![Inst::GET_LOCAL] + be32(lvar_id));
    }

    /// Emits a store of the top of stack into the constant `id`.
    pub fn gen_set_const(&mut self, id: IdentId)
        ensures
            cg_same_but_iseq(*old(self), *final(self)),
            final(self).iseq@ == old(self).iseq@ + seq![Inst::SET_CONST] + be32(id.0),
    {
        self.iseq.push(Inst::SET_CONST);
        self.push32(id.0);
        assert(final(self).iseq@ =~= old(self).iseq@ + seq![Inst::SET_CONST] + be32(id.0));
    }

    /// Emits a load of the constant `id`.
    pub fn gen_get_const(&mut self, id: IdentId)
        ensures
            cg_same_but_iseq(*old(self), *final(self)),
            final(self).iseq@ == old(self).iseq@ + seq![Inst::GET_CONST] + be32(id.0),
    {
        self.iseq.push(Inst::GET_CONST);
        self.push32(id.0);
        assert(final(self).iseq@ =~= old(self).iseq@ + seq![Inst::GET_CONST] + be32(id.0));
    }

    /// Emits a push of the fixnum immediate `num`.
    pub fn gen_fixnum(&mut self, num: i64)
        ensures
            cg_same_but_iseq(*old(self), *final(self)),
            final(self).iseq@ == old(self).iseq@ + seq![Inst::PUSH_FIXNUM] + be64(u64_of_i64(num)),
    {
        self.iseq.push(Inst::PUSH_FIXNUM);
        let word = fixnum_word(num);
        self.push64(word);
        assert(final(self).iseq@ =~= old(self).iseq@ + seq![Inst::PUSH_FIXNUM] + be64(word));
    }

    /// Emits a message send of `method` with `args_num` arguments.
    pub fn gen_send(&mut self, method: IdentId, args_num: usize)
        requires
            args_num <= u32::MAX,
        ensures
            cg_same_but_iseq(*old(self), *final(self)),
            final(self).iseq@ == old(self).iseq@ + seq![Inst::SEND] + be32(method.0) + be32(
                args_num as u32,
            ),
    {
        self.iseq.push(Inst::SEND);
        self.push32(method.0);
        self.push32(args_num as u32);
        assert(final(self).iseq@ =~= old(self).iseq@ + seq![Inst::SEND] + be32(method.0) + be32(
            args_num as u32,
        ));
    }

    /// Patches the displacement slot ending at `src` so that the jump
    /// reaches the current end of the vector.
    pub fn write_disp_from_cur(&mut self, src: ISeqPos)
        requires
            4 <= src.0 <= old(self).iseq@.len(),
            old(self).iseq@.len() < 0x8000_0000,
        ensures
            cg_same_but_iseq(*old(self), *final(self)),
            final(self).iseq@.len() == old(self).iseq@.len(),
            forall|k: int|
                0 <= k < old(self).iseq@.len() && !(src.0 - 4 <= k < src.0)
                    ==> final(self).iseq@[k] == old(self).iseq@[k],
            final(self).iseq@.subrange(src.0 - 4, src.0 as int) == be32(
                to_word32(old(self).iseq@.len() - src.0),
            ),
            ({
                let b = final(self).iseq@;
                crate::encoding::signed32(
                    crate::encoding::word32(b[src.0 - 4], b[src.0 - 3], b[src.0 - 2], b[src.0 - 1]),
                ) == old(self).iseq@.len() - src.0
            }),
    {
        let dest = self.current();
        self.write_disp(src, dest);
    }

    /// Patches the displacement slot ending at `src` so that the jump
    /// reaches `dest`.  The written word is the distance from `src`, the
    /// byte past the operand, to the destination.
    pub fn write_disp(&mut self, src: ISeqPos, dest: ISeqPos)
        requires
            4 <= src.0 <= old(self).iseq@.len(),
            dest.0 <= old(self).iseq@.len(),
            old(self).iseq@.len() < 0x8000_0000,
        ensures
            cg_same_but_iseq(*old(self), *final(self)),
            final(self).iseq@.len() == old(self).iseq@.len(),
            forall|k: int|
                0 <= k < old(self).iseq@.len() && !(src.0 - 4 <= k < src.0)
                    ==> final(self).iseq@[k] == old(self).iseq@[k],
            final(self).iseq@.subrange(src.0 - 4, src.0 as int) == be32(
                to_word32(dest.0 - src.0),
            ),
            ({
                let b = final(self).iseq@;
                crate::encoding::signed32(
                    crate::encoding::word32(b[src.0 - 4], b[src.0 - 3], b[src.0 - 2], b[src.0 - 1]),
                ) == dest.0 - src.0
            }),
    {
        let num = disp_word(src.disp(dest));
        self.iseq[src.0 - 4] = ((num >> 24) & 0xff) as u8;
        self.iseq[src.0 - 3] = ((num >> 16) & 0xff) as u8;
        self.iseq[src.0 - 2] = ((num >> 8) & 0xff) as u8;
        self.iseq[src.0 - 1] = (num & 0xff) as u8;
        assert(final(self).iseq@.subrange(src.0 - 4, src.0 as int) =~= be32(num));
        proof {
            crate::encoding::lemma_be32_round_trip(num);
            crate::encoding::lemma_signed32_round_trip(dest.0 - src.0 as int);
        }
    }
}


/// Law: a short-circuit conjunction does not compile its right operand
/// away.  The emitted code holds the full compilation of both operands —
/// eleven bytes of jumps and the fallback push around them — and the
/// interpreter skips the right operand's bytes only at run time, when the
/// left one is falsy.
pub proof fn lemma_land_emits_rhs(n: Node)
    requires
        n.kind matches NodeKind::BinOp(op, lhs, rhs) && op == BinOp::LAnd,
    ensures
        emit_size(n) == emit_size(*n.kind->BinOp_1) + emit_size(*n.kind->BinOp_2) + 11,
{
}

/// Law: the display form of a range keeps its exclusivity flag: three dots
/// exactly when the range excludes its end.
pub proof fn lemma_range_display_exclusivity(start: crate::value::ValueView, end: crate::value::ValueView, exclude: bool)
    ensures
        crate::value::display_chars(crate::value::ValueView::Range(Box::new(start), Box::new(end), exclude))
            == seq!['('] + crate::value::display_chars(start)
                + (if exclude { seq!['.', '.', '.'] } else { seq!['.', '.'] })
                + crate::value::display_chars(end) + seq![')'],
{
}

/// Trees whose emitted bytes are a pure function of the tree and the
/// local-variable table: no string literal (its operand id depends on what
/// the identifier table already holds when it is interned) and no loop
/// escape (its jump is patched by an enclosing loop after this subtree is
/// laid out).
pub open spec fn plain_tree(n: Node) -> bool
    decreases n,
{
    match n.kind {
        NodeKind::TopLevel(child, _) => plain_tree(*child),
        NodeKind::Nil => true,
        NodeKind::Bool(_) => true,
        NodeKind::Number(_) => true,
        NodeKind::Float(_) => true,
        NodeKind::Str(_) => false,
        NodeKind::SelfValue => true,
        NodeKind::Range(start, end, _) => plain_tree(*end) && plain_tree(*start),
        NodeKind::Ident(_) => true,
        NodeKind::Const(_) => true,
        NodeKind::BinOp(_, lhs, rhs) => plain_tree(*lhs) && plain_tree(*rhs),
        NodeKind::CompStmt(nodes) => plain_list(nodes@),
        NodeKind::If(cond, then_body, else_body) => plain_tree(*cond) && plain_tree(*then_body)
            && plain_tree(*else_body),
        NodeKind::For(_, iter, body) => (match iter.kind {
            NodeKind::Range(start, end, _) => plain_tree(*start) && plain_tree(*end),
            _ => true,
        }) && plain_tree(*body),
        NodeKind::Assign(_, rhs) => plain_tree(*rhs),
        NodeKind::Send(receiver, _, args) => plain_list(args@) && plain_tree(*receiver),
        NodeKind::Break => false,
        NodeKind::Next => false,
    }
}

pub open spec fn plain_list(ns: Seq<Node>) -> bool
    decreases ns,
{
    if ns.len() == 0 {
        true
    } else {
        plain_tree(ns[0]) && plain_list(ns.subrange(1, ns.len() as int))
    }
}

pub proof fn lemma_plain_list_index(ns: Seq<Node>, i: int)
    requires
        plain_list(ns),
        0 <= i < ns.len(),
    ensures
        plain_tree(ns[i]),
    decreases ns.len(),
{
    if i > 0 {
        lemma_plain_list_index(ns.subrange(1, ns.len() as int), i - 1);
    }
}

/// The opcode of a two-operand instruction emitted as written, without the
/// short-circuit or swap rewrites.
pub open spec fn plain_opcode(op: BinOp) -> u8 {
    match op {
        BinOp::Add => Inst::ADD,
        BinOp::Sub => Inst::SUB,
        BinOp::Mul => Inst::MUL,
        BinOp::Div => Inst::DIV,
        BinOp::Shr => Inst::SHR,
        BinOp::Shl => Inst::SHL,
        BinOp::BitOr => Inst::BIT_OR,
        BinOp::BitAnd => Inst::BIT_AND,
        BinOp::BitXor => Inst::BIT_XOR,
        BinOp::Eq => Inst::EQ,
        BinOp::Ne => Inst::NE,
        BinOp::Ge => Inst::GE,
        BinOp::Gt => Inst::GT,
        _ => Inst::END,
    }
}

/// The exact bytes compiling a plain tree appends, forward jumps already
/// resolved: the opcode layout each construct's emission recipe lays down,
/// with `t` the local-variable table in force.
pub open spec fn emit_bytes(n: Node, t: Seq<(IdentId, LvarId)>) -> Seq<u8>
    decreases n,
{
    match n.kind {
        NodeKind::TopLevel(child, coll) => emit_bytes(*child, coll.table.entries@),
        NodeKind::Nil => seq![Inst::PUSH_NIL],
        NodeKind::Bool(b) => if b {
            seq![Inst::PUSH_TRUE]
        } else {
            seq![Inst::PUSH_FALSE]
        },
        NodeKind::Number(num) => seq![Inst::PUSH_FIXNUM] + be64(u64_of_i64(num)),
        NodeKind::Float(num) => seq![Inst::PUSH_FLONUM] + be64(num),
        NodeKind::Str(_) => Seq::empty(),
        NodeKind::SelfValue => seq![Inst::PUSH_SELF],
        NodeKind::Range(start, end, exclude) => (if exclude {
            seq![Inst::PUSH_TRUE]
        } else {
            seq![Inst::PUSH_FALSE]
        }) + emit_bytes(*end, t) + emit_bytes(*start, t) + seq![Inst::CREATE_RANGE],
        NodeKind::Ident(id) => seq![Inst::GET_LOCAL] + be32((lvar_lookup_at(t, id)->0).0),
        NodeKind::Const(id) => seq![Inst::GET_CONST] + be32(id.0),
        NodeKind::BinOp(op, lhs, rhs) => if op == BinOp::LAnd {
            let lb = emit_bytes(*lhs, t);
            let rb = emit_bytes(*rhs, t);
            lb + seq![Inst::JMP_IF_FALSE] + be32(to_word32((rb.len() + 5) as int)) + rb + seq![Inst::JMP]
                + be32(to_word32(1)) + seq![Inst::PUSH_FALSE]
        } else if op == BinOp::LOr {
            let lb = emit_bytes(*lhs, t);
            let rb = emit_bytes(*rhs, t);
            lb + seq![Inst::JMP_IF_FALSE] + be32(to_word32(6)) + seq![Inst::PUSH_TRUE] + seq![
                Inst::JMP,
            ] + be32(to_word32(rb.len() as int)) + rb
        } else if op == BinOp::Lt {
            emit_bytes(*rhs, t) + emit_bytes(*lhs, t) + seq![Inst::GT]
        } else if op == BinOp::Le {
            emit_bytes(*rhs, t) + emit_bytes(*lhs, t) + seq![Inst::GE]
        } else {
            emit_bytes(*lhs, t) + emit_bytes(*rhs, t) + seq![plain_opcode(op)]
        },
        NodeKind::CompStmt(nodes) => emit_bytes_list(nodes@, t),
        NodeKind::If(cond, then_body, else_body) => {
            let cb = emit_bytes(*cond, t);
            let tb = emit_bytes(*then_body, t);
            let eb = emit_bytes(*else_body, t);
            cb + seq![Inst::JMP_IF_FALSE] + be32(to_word32((tb.len() + 5) as int)) + tb + seq![Inst::JMP]
                + be32(to_word32(eb.len() as int)) + eb
        },
        NodeKind::For(var, iter, body) => match var.kind {
            NodeKind::Ident(id) => match iter.kind {
                NodeKind::Range(start, end, exclude) => {
                    let slot = be32((lvar_lookup_at(t, id)->0).0);
                    let sb = emit_bytes(*start, t);
                    let eb = emit_bytes(*end, t);
                    let bb = emit_bytes(*body, t);
                    sb + seq![Inst::SET_LOCAL] + slot + eb + seq![Inst::GET_LOCAL] + slot + seq![
                        if exclude {
                            Inst::GT
                        } else {
                            Inst::GE
                        },
                    ] + seq![Inst::JMP_IF_FALSE] + be32(to_word32((bb.len() + 25) as int)) + bb + seq![
                        Inst::GET_LOCAL,
                    ] + slot + seq![Inst::PUSH_FIXNUM] + be64(u64_of_i64(1)) + seq![Inst::ADD]
                        + seq![Inst::SET_LOCAL] + slot + seq![Inst::JMP] + be32(
                        to_word32(-((eb.len() + bb.len() + 36) as int)),
                    )
                },
                _ => Seq::empty(),
            },
            _ => Seq::empty(),
        },
        NodeKind::Assign(lhs, rhs) => emit_bytes(*rhs, t) + (match lhs.kind {
            NodeKind::Ident(id) => seq![Inst::SET_LOCAL] + be32((lvar_lookup_at(t, id)->0).0),
            NodeKind::Const(id) => seq![Inst::SET_CONST] + be32(id.0),
            _ => Seq::empty(),
        }),
        NodeKind::Send(receiver, method, args) => match method.kind {
            NodeKind::Ident(id) => emit_bytes_args(args@, t) + emit_bytes(*receiver, t) + seq![
                Inst::SEND,
            ] + be32(id.0) + be32(args@.len() as u32),
            _ => Seq::empty(),
        },
        NodeKind::Break => Seq::empty(),
        NodeKind::Next => Seq::empty(),
    }
}

pub open spec fn emit_bytes_list(ns: Seq<Node>, t: Seq<(IdentId, LvarId)>) -> Seq<u8>
    decreases ns,
{
    if ns.len() == 0 {
        Seq::empty()
    } else {
        emit_bytes(ns[0], t) + emit_bytes_list(ns.subrange(1, ns.len() as int), t)
    }
}

/// The argument bytes of a send: the arguments' emissions from the last
/// argument down to the first, the order the compiler lays them out so
/// that popping rebuilds call order.
pub open spec fn emit_bytes_args(ns: Seq<Node>, t: Seq<(IdentId, LvarId)>) -> Seq<u8>
    decreases ns,
{
    if ns.len() == 0 {
        Seq::empty()
    } else {
        emit_bytes(ns.last(), t) + emit_bytes_args(ns.subrange(0, ns.len() - 1), t)
    }
}

/// The full contract of one compilation step on `node`: the step
/// obligations, the size budget, the installed local table, success exactly
/// on well-shaped trees, and — on success — the exact growth, the
/// loop-escape discipline, and for a plain tree the emitted bytes
/// themselves.
pub open spec fn gen_post(pre: VM, post: VM, node: Node, r: Result<(), RubyError>) -> bool {
    &&& post.inv()
    &&& gen_keeps(pre, post)
    &&& keeps_prefix(pre.iseq@, post.iseq@)
    &&& keeps_prefix(pre.ident_table@, post.ident_table@)
    &&& post.ident_table@.len() - pre.ident_table@.len() <= post.iseq@.len() - pre.iseq@.len()
    &&& post.iseq@.len() <= pre.iseq@.len() + emit_size(node)
    &&& post.lvar_table.entries@ == final_lvars(node, pre.lvar_table.entries@)
    &&& (r is Ok <==> syntax_ok(node, pre.loop_stack@.len() > 0))
    &&& (r is Err ==> r->Err_0.kind == RubyErrKind::SyntaxError)
    &&& (r is Ok ==> post.iseq@.len() == pre.iseq@.len() + emit_size(node))
    &&& (r is Ok ==> escapes_grow(pre, post))
    &&& (r is Ok && plain_tree(node) ==> post.iseq@ == pre.iseq@ + emit_bytes(
        node,
        pre.lvar_table.entries@,
    ) && post.loop_stack@ == pre.loop_stack@)
}

impl VM {
    /// Lowers `node` into the instruction vector.
    ///
    /// On a malformed shape the first syntax error comes back, with the
    /// vector holding what was emitted up to that point.  On success exactly
    /// `emit_size(node)` bytes were appended — for a plain tree, exactly
    /// `emit_bytes(node)`, forward jumps resolved — and the loop-escape
    /// stack has its old depth back: every list a `for` pushes it pops
    /// again, emptied into patches, and a list of an enclosing loop gains
    /// nothing but patch slots that lie inside the new bytes.
    pub fn gen(&mut self, node: &Node) -> (r: Result<(), RubyError>)
        requires
            old(self).inv(),
            gen_pre(*node, old(self).lvar_table.entries@),
            old(self).iseq@.len() + emit_size(*node) < 0x8000_0000,
            old(self).ident_table@.len() + emit_size(*node) < 0x1_0000_0000,
        ensures
            gen_post(*old(self), *final(self), *node, r),
        decreases *node, 1int,
    {
        let ghost g0 = *old(self);
        self.loc = node.loc();
        proof {
            lemma_keeps_prefix_refl(g0.iseq@);
            lemma_keeps_prefix_refl(g0.ident_table@);
            lemma_escapes_same(g0, *self);
            assert(gen_step(g0, *self));
        }
        match &node.kind {
            NodeKind::TopLevel(child, lvar_collector) => {
                self.lvar_table = lvar_collector.table.clone();
                let ghost g1 = *self;
                proof {
                    assert(locals_ok(**child, lvar_collector.table.entries@));
                    assert(self.lvar_table.entries@ == lvar_collector.table.entries@);
                    assert(gen_pre(**child, self.lvar_table.entries@));
                }
                let r = self.gen(&**child);
                proof {
                    if r is Ok {
                        lemma_escapes_same(g0, g1);
                        lemma_escapes_grow_trans(g0, g1, *self);
                        if plain_tree(*node) {
                            assert(plain_tree(**child));
                            assert(self.iseq@ =~= g0.iseq@ + emit_bytes(
                                *node,
                                g0.lvar_table.entries@,
                            ));
                        }
                    }
                }
                r
            },
            NodeKind::Nil => {
                let ghost m = *self;
                self.iseq.push(Inst::PUSH_NIL);
                proof {
                    assert(self.iseq@ =~= m.iseq@ + seq![Inst::PUSH_NIL]);
                    lemma_gen_step_emit(m, *self, seq![Inst::PUSH_NIL]);
                    lemma_gen_step_trans(g0, m, *self);
                    lemma_escapes_grow_trans(g0, m, *self);
                    assert(self.iseq@ =~= g0.iseq@ + emit_bytes(*node, g0.lvar_table.entries@));
                }
                Ok(())
            },
            NodeKind::Bool(b) => {
                let ghost m = *self;
                let op = if *b {
                    Inst::PUSH_TRUE
                } else {
                    Inst::PUSH_FALSE
                };
                self.iseq.push(op);
                proof {
                    assert(self.iseq@ =~= m.iseq@ + seq![op]);
                    lemma_gen_step_emit(m, *self, seq![op]);
                    lemma_gen_step_trans(g0, m, *self);
                    lemma_escapes_grow_trans(g0, m, *self);
                    assert(self.iseq@ =~= g0.iseq@ + emit_bytes(*node, g0.lvar_table.entries@));
                }
                Ok(())
            },
            NodeKind::Number(num) => {
                let ghost m = *self;
                self.gen_fixnum(*num);
                proof {
                    assert(self.iseq@ =~= m.iseq@ + (seq![Inst::PUSH_FIXNUM] + be64(
                        u64_of_i64(*num),
                    )));
                    lemma_gen_step_emit(m, *self, seq![Inst::PUSH_FIXNUM] + be64(u64_of_i64(*num)));
                    lemma_gen_step_trans(g0, m, *self);
                    lemma_escapes_grow_trans(g0, m, *self);
                    assert(self.iseq@ =~= g0.iseq@ + emit_bytes(*node, g0.lvar_table.entries@));
                }
                Ok(())
            },
            NodeKind::Float(num) => {
                let ghost m = *self;
                self.iseq.push(Inst::PUSH_FLONUM);
                self.push64(*num);
                proof {
                    assert(self.iseq@ =~= m.iseq@ + (seq![Inst::PUSH_FLONUM] + be64(*num)));
                    lemma_gen_step_emit(m, *self, seq![Inst::PUSH_FLONUM] + be64(*num));
                    lemma_gen_step_trans(g0, m, *self);
                    lemma_escapes_grow_trans(g0, m, *self);
                    assert(self.iseq@ =~= g0.iseq@ + emit_bytes(*node, g0.lvar_table.entries@));
                }
                Ok(())
            },
            NodeKind::Str(s) => {
                let ghost m = *self;
                self.iseq.push(Inst::PUSH_STRING);
                let id = self.ident_table.get_ident_id(s);
                self.push32(id.0);
                proof {
                    assert(self.iseq@ =~= m.iseq@ + (seq![Inst::PUSH_STRING] + be32(id.0)));
                    lemma_append_keeps_prefix(m.iseq@, seq![Inst::PUSH_STRING] + be32(id.0));
                    if m.ident_table@.contains(s@) {
                        lemma_keeps_prefix_refl(m.ident_table@);
                    } else {
                        assert(m.ident_table@.push(s@) =~= m.ident_table@ + seq![s@]);
                        lemma_append_keeps_prefix(m.ident_table@, seq![s@]);
                    }
                    assert(gen_step(m, *self));
                    lemma_gen_step_trans(g0, m, *self);
                    lemma_escapes_same(m, *self);
                    lemma_escapes_grow_trans(g0, m, *self);
                }
                Ok(())
            },
            NodeKind::SelfValue => {
                let ghost m = *self;
                self.iseq.push(Inst::PUSH_SELF);
                proof {
                    assert(self.iseq@ =~= m.iseq@ + seq![Inst::PUSH_SELF]);
                    lemma_gen_step_emit(m, *self, seq![Inst::PUSH_SELF]);
                    lemma_gen_step_trans(g0, m, *self);
                    lemma_escapes_grow_trans(g0, m, *self);
                    assert(self.iseq@ =~= g0.iseq@ + emit_bytes(*node, g0.lvar_table.entries@));
                }
                Ok(())
            },
            NodeKind::Range(start, end, exclude) => self.gen_range(node, &**start, &**end, *exclude),
            NodeKind::Ident(id) => {
                let ghost m = *self;
                proof {
                    assert(locals_ok(*node, g0.lvar_table.entries@));
                }
                self.gen_get_local(*id);
                proof {
                    let x = seq![Inst::GET_LOCAL] + be32(
                        (lvar_lookup_at(m.lvar_table.entries@, *id)->0).0,
                    );
                    assert(self.iseq@ =~= m.iseq@ + x);
                    lemma_gen_step_emit(m, *self, x);
                    lemma_gen_step_trans(g0, m, *self);
                    lemma_escapes_grow_trans(g0, m, *self);
                    assert(self.iseq@ =~= g0.iseq@ + emit_bytes(*node, g0.lvar_table.entries@));
                }
                Ok(())
            },
            NodeKind::Const(id) => {
                let ghost m = *self;
                self.gen_get_const(*id);
                proof {
                    let x = seq![Inst::GET_CONST] + be32(id.0);
                    assert(self.iseq@ =~= m.iseq@ + x);
                    lemma_gen_step_emit(m, *self, x);
                    lemma_gen_step_trans(g0, m, *self);
                    lemma_escapes_grow_trans(g0, m, *self);
                    assert(self.iseq@ =~= g0.iseq@ + emit_bytes(*node, g0.lvar_table.entries@));
                }
                Ok(())
            },
            NodeKind::BinOp(op, lhs, rhs) => match op {
                BinOp::LAnd => self.gen_land(node, &**lhs, &**rhs),
                BinOp::LOr => self.gen_lor(node, &**lhs, &**rhs),
                _ => self.gen_binop_plain(node, *op, &**lhs, &**rhs),
            },
            NodeKind::CompStmt(nodes) => self.gen_comp_stmt(node, nodes),
            NodeKind::If(cond, then_body, else_body) => self.gen_if_node(
                node,
                &**cond,
                &**then_body,
                &**else_body,
            ),
            NodeKind::For(var, iter, body) => self.gen_for_node(node, &**var, &**iter, &**body),
            NodeKind::Assign(lhs, rhs) => self.gen_assign(node, &**lhs, &**rhs),
            NodeKind::Send(receiver, method, args) => self.gen_send_node(
                node,
                &**receiver,
                &**method,
                args,
            ),
            NodeKind::Break => self.gen_escape(node, EscapeKind::Break),
            NodeKind::Next => self.gen_escape(node, EscapeKind::Next),
        }
    }

    /// Emits the exclusivity flag, the end, the start and `CREATE_RANGE`,
    /// in the order the interpreter pops them back.
    fn gen_range(&mut self, whole: &Node, start: &Node, end: &Node, exclude: bool) -> (r: Result<
        (),
        RubyError,
    >)
        requires
            old(self).inv(),
            whole.kind matches NodeKind::Range(s, e, x) && *s == *start && *e == *end && x
                == exclude,
            gen_pre(*whole, old(self).lvar_table.entries@),
            old(self).iseq@.len() + emit_size(*whole) < 0x8000_0000,
            old(self).ident_table@.len() + emit_size(*whole) < 0x1_0000_0000,
        ensures
            gen_post(*old(self), *final(self), *whole, r),
        decreases *whole, 0int,
    {
        let ghost g0 = *old(self);
        proof {
            lemma_keeps_prefix_refl(g0.iseq@);
            lemma_keeps_prefix_refl(g0.ident_table@);
            assert(gen_step(g0, *self));
            lemma_escapes_same(g0, *self);
        }
        let ghost m = *self;
        let op = if exclude {
            Inst::PUSH_TRUE
        } else {
            Inst::PUSH_FALSE
        };
        self.iseq.push(op);
        proof {
            assert(self.iseq@ =~= m.iseq@ + seq![op]);
            lemma_gen_step_emit(m, *self, seq![op]);
            lemma_gen_step_trans(g0, m, *self);
            lemma_escapes_grow_trans(g0, m, *self);
        }
        let ghost m = *self;
        proof {
            assert(locals_ok(*whole, g0.lvar_table.entries@));
            assert(locals_ok(*end, g0.lvar_table.entries@));
            assert(self.lvar_table.entries@ == g0.lvar_table.entries@);
            assert(gen_pre(*end, self.lvar_table.entries@));
        }
        match self.gen(end) {
            Ok(_) => {
                proof {
                    assert(gen_step(m, *self));
                    lemma_gen_step_trans(g0, m, *self);
                    lemma_escapes_grow_trans(g0, m, *self);
                }
            },
            Err(e) => {
                proof {
                    assert(gen_step(m, *self));
                    lemma_gen_step_trans(g0, m, *self);
                }
                return Err(e);
            },
        }
        let ghost m = *self;
        proof {
            assert(locals_ok(*start, g0.lvar_table.entries@));
            assert(gen_pre(*start, self.lvar_table.entries@));
        }
        match self.gen(start) {
            Ok(_) => {
                proof {
                    assert(gen_step(m, *self));
                    lemma_gen_step_trans(g0, m, *self);
                    lemma_escapes_grow_trans(g0, m, *self);
                }
            },
            Err(e) => {
                proof {
                    assert(gen_step(m, *self));
                    lemma_gen_step_trans(g0, m, *self);
                }
                return Err(e);
            },
        }
        let ghost m = *self;
        self.iseq.push(Inst::CREATE_RANGE);
        proof {
            assert(self.iseq@ =~= m.iseq@ + seq![Inst::CREATE_RANGE]);
            lemma_gen_step_emit(m, *self, seq![Inst::CREATE_RANGE]);
            lemma_gen_step_trans(g0, m, *self);
            lemma_escapes_grow_trans(g0, m, *self);
        }
        proof {
            if plain_tree(*whole) {
                assert(self.iseq@ =~= g0.iseq@ + emit_bytes(*whole, g0.lvar_table.entries@));
            }
        }
        Ok(())
    }

    /// Emits both operands and one opcode.  `<` and `<=` are rewritten as
    /// `>` and `>=` with the operands swapped.
    fn gen_binop_plain(&mut self, whole: &Node, op: BinOp, lhs: &Node, rhs: &Node) -> (r: Result<
        (),
        RubyError,
    >)
        requires
            old(self).inv(),
            whole.kind matches NodeKind::BinOp(o, l, rr) && o == op && *l == *lhs && *rr == *rhs,
            op != BinOp::LAnd && op != BinOp::LOr,
            gen_pre(*whole, old(self).lvar_table.entries@),
            old(self).iseq@.len() + emit_size(*whole) < 0x8000_0000,
            old(self).ident_table@.len() + emit_size(*whole) < 0x1_0000_0000,
        ensures
            gen_post(*old(self), *final(self), *whole, r),
        decreases *whole, 0int,
    {
        let ghost g0 = *old(self);
        proof {
            lemma_keeps_prefix_refl(g0.iseq@);
            lemma_keeps_prefix_refl(g0.ident_table@);
            assert(gen_step(g0, *self));
            lemma_escapes_same(g0, *self);
            assert(locals_ok(*whole, g0.lvar_table.entries@));
            assert(locals_ok(*lhs, g0.lvar_table.entries@));
            assert(locals_ok(*rhs, g0.lvar_table.entries@));
        }
        let swapped = op == BinOp::Lt || op == BinOp::Le;
        let first = if swapped {
            rhs
        } else {
            lhs
        };
        let second = if swapped {
            lhs
        } else {
            rhs
        };
        let ghost m = *self;
        proof {
            assert(gen_pre(*first, self.lvar_table.entries@));
        }
        match self.gen(first) {
            Ok(_) => {
                proof {
                    assert(gen_step(m, *self));
                    lemma_gen_step_trans(g0, m, *self);
                    lemma_escapes_grow_trans(g0, m, *self);
                }
            },
            Err(e) => {
                proof {
                    assert(gen_step(m, *self));
                    lemma_gen_step_trans(g0, m, *self);
                }
                return Err(e);
            },
        }
        let ghost m = *self;
        proof {
            assert(gen_pre(*second, self.lvar_table.entries@));
        }
        match self.gen(second) {
            Ok(_) => {
                proof {
                    assert(gen_step(m, *self));
                    lemma_gen_step_trans(g0, m, *self);
                    lemma_escapes_grow_trans(g0, m, *self);
                }
            },
            Err(e) => {
                proof {
                    assert(gen_step(m, *self));
                    lemma_gen_step_trans(g0, m, *self);
                }
                return Err(e);
            },
        }
        let ghost m = *self;
        let opcode = match op {
            BinOp::Add => Inst::ADD,
            BinOp::Sub => Inst::SUB,
            BinOp::Mul => Inst::MUL,
            BinOp::Div => Inst::DIV,
            BinOp::Shr => Inst::SHR,
            BinOp::Shl => Inst::SHL,
            BinOp::BitOr => Inst::BIT_OR,
            BinOp::BitAnd => Inst::BIT_AND,
            BinOp::BitXor => Inst::BIT_XOR,
            BinOp::Eq => Inst::EQ,
            BinOp::Ne => Inst::NE,
            BinOp::Ge => Inst::GE,
            BinOp::Gt => Inst::GT,
            BinOp::Lt => Inst::GT,
            BinOp::Le => Inst::GE,
            _ => unreached(),
        };
        self.iseq.push(opcode);
        proof {
            assert(self.iseq@ =~= m.iseq@ + seq![opcode]);
            lemma_gen_step_emit(m, *self, seq![opcode]);
            lemma_gen_step_trans(g0, m, *self);
            lemma_escapes_grow_trans(g0, m, *self);
        }
        proof {
            if plain_tree(*whole) {
                assert(self.iseq@ =~= g0.iseq@ + emit_bytes(*whole, g0.lvar_table.entries@));
            }
        }
        Ok(())
    }

    /// Emits short-circuit conjunction: the right operand is compiled in
    /// full but jumped over when the left is falsy, which then leaves
    /// `false` on the stack.
    #[verifier::rlimit(100)]
    fn gen_land(&mut self, whole: &Node, lhs: &Node, rhs: &Node) -> (r: Result<(), RubyError>)
        requires
            old(self).inv(),
            whole.kind matches NodeKind::BinOp(o, l, rr) && o == BinOp::LAnd && *l == *lhs && *rr
                == *rhs,
            gen_pre(*whole, old(self).lvar_table.entries@),
            old(self).iseq@.len() + emit_size(*whole) < 0x8000_0000,
            old(self).ident_table@.len() + emit_size(*whole) < 0x1_0000_0000,
        ensures
            gen_post(*old(self), *final(self), *whole, r),
        decreases *whole, 0int,
    {
        let ghost g0 = *old(self);
        proof {
            lemma_keeps_prefix_refl(g0.iseq@);
            lemma_keeps_prefix_refl(g0.ident_table@);
            assert(gen_step(g0, *self));
            lemma_escapes_same(g0, *self);
            assert(locals_ok(*whole, g0.lvar_table.entries@));
            assert(locals_ok(*lhs, g0.lvar_table.entries@));
            assert(locals_ok(*rhs, g0.lvar_table.entries@));
        }
        let ghost m = *self;
        proof {
            assert(gen_pre(*lhs, self.lvar_table.entries@));
        }
        match self.gen(lhs) {
            Ok(_) => {
                proof {
                    assert(gen_step(m, *self));
                    lemma_gen_step_trans(g0, m, *self);
                    lemma_escapes_grow_trans(g0, m, *self);
                }
            },
            Err(e) => {
                proof {
                    assert(gen_step(m, *self));
                    lemma_gen_step_trans(g0, m, *self);
                }
                return Err(e);
            },
        }
        let ghost m = *self;
        let src1 = self.gen_jmp_if_false();
        proof {
            let x = seq![Inst::JMP_IF_FALSE, 0u8, 0u8, 0u8, 0u8];
            assert(self.iseq@ =~= m.iseq@ + x);
            lemma_gen_step_emit(m, *self, x);
            lemma_gen_step_trans(g0, m, *self);
            lemma_escapes_grow_trans(g0, m, *self);
        }
        let ghost m = *self;
        proof {
            assert(gen_pre(*rhs, self.lvar_table.entries@));
        }
        match self.gen(rhs) {
            Ok(_) => {
                proof {
                    assert(gen_step(m, *self));
                    lemma_gen_step_trans(g0, m, *self);
                    lemma_escapes_grow_trans(g0, m, *self);
                }
            },
            Err(e) => {
                proof {
                    assert(gen_step(m, *self));
                    lemma_gen_step_trans(g0, m, *self);
                }
                return Err(e);
            },
        }
        let ghost m = *self;
        let src2 = self.gen_jmp();
        proof {
            let x = seq![Inst::JMP, 0u8, 0u8, 0u8, 0u8];
            assert(self.iseq@ =~= m.iseq@ + x);
            lemma_gen_step_emit(m, *self, x);
            lemma_gen_step_trans(g0, m, *self);
            lemma_escapes_grow_trans(g0, m, *self);
        }
        let ghost m = *self;
        self.write_disp_from_cur(src1);
        proof {
            lemma_patch_keeps_prefix(g0.iseq@, m.iseq@, self.iseq@, src1.0 as int);
            assert(gen_step(g0, *self));
            lemma_escapes_same(m, *self);
            lemma_escapes_grow_trans(g0, m, *self);
        }
        let ghost m = *self;
        self.iseq.push(Inst::PUSH_FALSE);
        proof {
            assert(self.iseq@ =~= m.iseq@ + seq![Inst::PUSH_FALSE]);
            lemma_gen_step_emit(m, *self, seq![Inst::PUSH_FALSE]);
            lemma_gen_step_trans(g0, m, *self);
            lemma_escapes_grow_trans(g0, m, *self);
        }
        let ghost m = *self;
        self.write_disp_from_cur(src2);
        proof {
            lemma_patch_keeps_prefix(g0.iseq@, m.iseq@, self.iseq@, src2.0 as int);
            assert(gen_step(g0, *self));
            lemma_escapes_same(m, *self);
            lemma_escapes_grow_trans(g0, m, *self);
            if plain_tree(*whole) {
                let t0 = g0.lvar_table.entries@;
                let lb = emit_bytes(*lhs, t0);
                let rb = emit_bytes(*rhs, t0);
                assert(src1.0 == g0.iseq@.len() + lb.len() + 5);
                assert(src2.0 == src1.0 + rb.len() + 5);
                assert(self.iseq@ =~= g0.iseq@ + emit_bytes(*whole, t0));
            }
        }
        Ok(())
    }

    /// Emits short-circuit disjunction: a truthy left operand leaves `true`
    /// and jumps past the right one.
    #[verifier::rlimit(100)]
    fn gen_lor(&mut self, whole: &Node, lhs: &Node, rhs: &Node) -> (r: Result<(), RubyError>)
        requires
            old(self).inv(),
            whole.kind matches NodeKind::BinOp(o, l, rr) && o == BinOp::LOr && *l == *lhs && *rr
                == *rhs,
            gen_pre(*whole, old(self).lvar_table.entries@),
            old(self).iseq@.len() + emit_size(*whole) < 0x8000_0000,
            old(self).ident_table@.len() + emit_size(*whole) < 0x1_0000_0000,
        ensures
            gen_post(*old(self), *final(self), *whole, r),
        decreases *whole, 0int,
    {
        let ghost g0 = *old(self);
        proof {
            lemma_keeps_prefix_refl(g0.iseq@);
            lemma_keeps_prefix_refl(g0.ident_table@);
            assert(gen_step(g0, *self));
            lemma_escapes_same(g0, *self);
            assert(locals_ok(*whole, g0.lvar_table.entries@));
            assert(locals_ok(*lhs, g0.lvar_table.entries@));
            assert(locals_ok(*rhs, g0.lvar_table.entries@));
        }
        let ghost m = *self;
        proof {
            assert(gen_pre(*lhs, self.lvar_table.entries@));
        }
        match self.gen(lhs) {
            Ok(_) => {
                proof {
                    assert(gen_step(m, *self));
                    lemma_gen_step_trans(g0, m, *self);
                    lemma_escapes_grow_trans(g0, m, *self);
                }
            },
            Err(e) => {
                proof {
                    assert(gen_step(m, *self));
                    lemma_gen_step_trans(g0, m, *self);
                }
                return Err(e);
            },
        }
        let ghost m = *self;
        let src1 = self.gen_jmp_if_false();
        self.iseq.push(Inst::PUSH_TRUE);
        proof {
            let x = seq![Inst::JMP_IF_FALSE, 0u8, 0u8, 0u8, 0u8, Inst::PUSH_TRUE];
            assert(self.iseq@ =~= m.iseq@ + x);
            lemma_gen_step_emit(m, *self, x);
            lemma_gen_step_trans(g0, m, *self);
            lemma_escapes_grow_trans(g0, m, *self);
        }
        let ghost m = *self;
        let src2 = self.gen_jmp();
        proof {
            let x = seq![Inst::JMP, 0u8, 0u8, 0u8, 0u8];
            assert(self.iseq@ =~= m.iseq@ + x);
            lemma_gen_step_emit(m, *self, x);
            lemma_gen_step_trans(g0, m, *self);
            lemma_escapes_grow_trans(g0, m, *self);
        }
        let ghost m = *self;
        self.write_disp_from_cur(src1);
        proof {
            lemma_patch_keeps_prefix(g0.iseq@, m.iseq@, self.iseq@, src1.0 as int);
            assert(gen_step(g0, *self));
            lemma_escapes_same(m, *self);
            lemma_escapes_grow_trans(g0, m, *self);
        }
        let ghost m = *self;
        proof {
            assert(gen_pre(*rhs, self.lvar_table.entries@));
        }
        match self.gen(rhs) {
            Ok(_) => {
                proof {
                    assert(gen_step(m, *self));
                    lemma_gen_step_trans(g0, m, *self);
                    lemma_escapes_grow_trans(g0, m, *self);
                }
            },
            Err(e) => {
                proof {
                    assert(gen_step(m, *self));
                    lemma_gen_step_trans(g0, m, *self);
                }
                return Err(e);
            },
        }
        let ghost m = *self;
        self.write_disp_from_cur(src2);
        proof {
            lemma_patch_keeps_prefix(g0.iseq@, m.iseq@, self.iseq@, src2.0 as int);
            assert(gen_step(g0, *self));
            lemma_escapes_same(m, *self);
            lemma_escapes_grow_trans(g0, m, *self);
            if plain_tree(*whole) {
                let t0 = g0.lvar_table.entries@;
                let lb = emit_bytes(*lhs, t0);
                let rb = emit_bytes(*rhs, t0);
                assert(src1.0 == g0.iseq@.len() + lb.len() + 5);
                assert(src2.0 == src1.0 + 6);
                assert(self.iseq@ =~= g0.iseq@ + emit_bytes(*whole, t0));
            }
        }
        Ok(())
    }

    /// Compiles each statement in order; no value is discarded between
    /// them.
    #[verifier::loop_isolation(false)]
    fn gen_comp_stmt(&mut self, whole: &Node, nodes: &Vec<Node>) -> (r: Result<(), RubyError>)
        requires
            old(self).inv(),
            whole.kind matches NodeKind::CompStmt(ns) && ns == nodes,
            gen_pre(*whole, old(self).lvar_table.entries@),
            old(self).iseq@.len() + emit_size(*whole) < 0x8000_0000,
            old(self).ident_table@.len() + emit_size(*whole) < 0x1_0000_0000,
        ensures
            gen_post(*old(self), *final(self), *whole, r),
        decreases *whole, 0int,
    {
        let ghost g0 = *old(self);
        let ghost t0 = self.lvar_table.entries@;
        let ghost flag = g0.loop_stack@.len() > 0;
        proof {
            lemma_keeps_prefix_refl(g0.iseq@);
            lemma_keeps_prefix_refl(g0.ident_table@);
            assert(gen_step(g0, *self));
            lemma_escapes_same(g0, *self);
            assert(locals_ok(*whole, t0));
            assert(locals_ok_list(nodes@, t0));
            assert(emit_size(*whole) == emit_size_list(nodes@));
        }
        let n = nodes.len();
        proof {
            assert(nodes@.subrange(0, 0) =~= Seq::<Node>::empty());
            assert(nodes@.subrange(0, n as int) =~= nodes@);
        }
        let mut i: usize = 0;
        while i < n
            invariant
                i <= n,
                gen_step(g0, *self),
                escapes_grow(g0, *self),
                self.iseq@.len() == g0.iseq@.len() + emit_size_list(nodes@.subrange(0, i as int)),
                emit_size_list(nodes@.subrange(0, i as int)) + emit_size_list(
                    nodes@.subrange(i as int, n as int),
                ) == emit_size_list(nodes@),
                plain_list(nodes@) ==> g0.iseq@ + emit_bytes_list(nodes@, t0) == self.iseq@
                    + emit_bytes_list(nodes@.subrange(i as int, n as int), t0),
                plain_list(nodes@) ==> self.loop_stack@ == g0.loop_stack@,
                forall|k: int| 0 <= k < i ==> syntax_ok(#[trigger] nodes@[k], flag),
            decreases n - i,
        {
            let ghost m = *self;
            proof {
                lemma_locals_ok_list_index(nodes@, t0, i as int);
                assert(self.lvar_table.entries@ == t0);
                assert(gen_pre(nodes@[i as int], self.lvar_table.entries@));
                assert(nodes@.subrange(i as int, n as int)[0] == nodes@[i as int]);
                assert(nodes@.subrange(i as int, n as int).subrange(1, (n - i) as int)
                    =~= nodes@.subrange(i + 1, n as int));
            }
            match self.gen(&nodes[i]) {
                Ok(_) => {
                    proof {
                        assert(gen_step(m, *self));
                        lemma_gen_step_trans(g0, m, *self);
                        lemma_escapes_grow_trans(g0, m, *self);
                        assert(nodes@.subrange(0, i + 1) =~= nodes@.subrange(0, i as int).push(
                            nodes@[i as int],
                        ));
                        lemma_emit_size_list_push(nodes@.subrange(0, i as int), nodes@[i as int]);
                        if plain_list(nodes@) {
                            lemma_plain_list_index(nodes@, i as int);
                            assert(emit_bytes_list(nodes@.subrange(i as int, n as int), t0)
                                == emit_bytes(nodes@[i as int], t0) + emit_bytes_list(
                                nodes@.subrange(i + 1, n as int),
                                t0,
                            ));
                            assert(self.iseq@ + emit_bytes_list(
                                nodes@.subrange(i + 1, n as int),
                                t0,
                            ) =~= m.iseq@ + emit_bytes_list(
                                nodes@.subrange(i as int, n as int),
                                t0,
                            ));
                        }
                    }
                },
                Err(e) => {
                    proof {
                        assert(gen_step(m, *self));
                        lemma_gen_step_trans(g0, m, *self);
                        if syntax_ok_list(nodes@, flag) {
                            lemma_syntax_ok_list_index(nodes@, flag, i as int);
                        }
                    }
                    return Err(e);
                },
            }
            i += 1;
        }
        proof {
            lemma_syntax_ok_list_build(nodes@, flag);
            assert(nodes@.subrange(0, n as int) =~= nodes@);
            if plain_tree(*whole) {
                assert(nodes@.subrange(n as int, n as int) =~= Seq::<Node>::empty());
                assert(self.iseq@ =~= g0.iseq@ + emit_bytes(*whole, t0));
            }
        }
        Ok(())
    }

    /// Compiles the condition, the then-branch and the else-branch, with
    /// two forward jumps patched to the branch boundaries.
    #[verifier::rlimit(100)]
    fn gen_if_node(&mut self, whole: &Node, cond: &Node, then_body: &Node, else_body: &Node) -> (r:
        Result<(), RubyError>)
        requires
            old(self).inv(),
            whole.kind matches NodeKind::If(c, t, e) && *c == *cond && *t == *then_body && *e
                == *else_body,
            gen_pre(*whole, old(self).lvar_table.entries@),
            old(self).iseq@.len() + emit_size(*whole) < 0x8000_0000,
            old(self).ident_table@.len() + emit_size(*whole) < 0x1_0000_0000,
        ensures
            gen_post(*old(self), *final(self), *whole, r),
        decreases *whole, 0int,
    {
        let ghost g0 = *old(self);
        proof {
            lemma_keeps_prefix_refl(g0.iseq@);
            lemma_keeps_prefix_refl(g0.ident_table@);
            assert(gen_step(g0, *self));
            lemma_escapes_same(g0, *self);
            assert(locals_ok(*whole, g0.lvar_table.entries@));
            assert(locals_ok(*cond, g0.lvar_table.entries@));
            assert(locals_ok(*then_body, g0.lvar_table.entries@));
            assert(locals_ok(*else_body, g0.lvar_table.entries@));
        }
        let ghost m = *self;
        proof {
            assert(gen_pre(*cond, self.lvar_table.entries@));
        }
        match self.gen(cond) {
            Ok(_) => {
                proof {
                    assert(gen_step(m, *self));
                    lemma_gen_step_trans(g0, m, *self);
                    lemma_escapes_grow_trans(g0, m, *self);
                }
            },
            Err(e) => {
                proof {
                    assert(gen_step(m, *self));
                    lemma_gen_step_trans(g0, m, *self);
                }
                return Err(e);
            },
        }
        let ghost m = *self;
        let src1 = self.gen_jmp_if_false();
        proof {
            let x = seq![Inst::JMP_IF_FALSE, 0u8, 0u8, 0u8, 0u8];
            assert(self.iseq@ =~= m.iseq@ + x);
            lemma_gen_step_emit(m, *self, x);
            lemma_gen_step_trans(g0, m, *self);
            lemma_escapes_grow_trans(g0, m, *self);
        }
        let ghost m = *self;
        proof {
            assert(gen_pre(*then_body, self.lvar_table.entries@));
        }
        match self.gen(then_body) {
            Ok(_) => {
                proof {
                    assert(gen_step(m, *self));
                    lemma_gen_step_trans(g0, m, *self);
                    lemma_escapes_grow_trans(g0, m, *self);
                }
            },
            Err(e) => {
                proof {
                    assert(gen_step(m, *self));
                    lemma_gen_step_trans(g0, m, *self);
                }
                return Err(e);
            },
        }
        let ghost m = *self;
        let src2 = self.gen_jmp();
        proof {
            let x = seq![Inst::JMP, 0u8, 0u8, 0u8, 0u8];
            assert(self.iseq@ =~= m.iseq@ + x);
            lemma_gen_step_emit(m, *self, x);
            lemma_gen_step_trans(g0, m, *self);
            lemma_escapes_grow_trans(g0, m, *self);
        }
        let ghost m = *self;
        self.write_disp_from_cur(src1);
        proof {
            lemma_patch_keeps_prefix(g0.iseq@, m.iseq@, self.iseq@, src1.0 as int);
            assert(gen_step(g0, *self));
            lemma_escapes_same(m, *self);
            lemma_escapes_grow_trans(g0, m, *self);
        }
        let ghost m = *self;
        proof {
            assert(gen_pre(*else_body, self.lvar_table.entries@));
        }
        match self.gen(else_body) {
            Ok(_) => {
                proof {
                    assert(gen_step(m, *self));
                    lemma_gen_step_trans(g0, m, *self);
                    lemma_escapes_grow_trans(g0, m, *self);
                }
            },
            Err(e) => {
                proof {
                    assert(gen_step(m, *self));
                    lemma_gen_step_trans(g0, m, *self);
                }
                return Err(e);
            },
        }
        let ghost m = *self;
        self.write_disp_from_cur(src2);
        proof {
            lemma_patch_keeps_prefix(g0.iseq@, m.iseq@, self.iseq@, src2.0 as int);
            assert(gen_step(g0, *self));
            lemma_escapes_same(m, *self);
            lemma_escapes_grow_trans(g0, m, *self);
            if plain_tree(*whole) {
                let t0 = g0.lvar_table.entries@;
                let cb = emit_bytes(*cond, t0);
                let tb = emit_bytes(*then_body, t0);
                let eb = emit_bytes(*else_body, t0);
                assert(src1.0 == g0.iseq@.len() + cb.len() + 5);
                assert(src2.0 == src1.0 + tb.len() + 5);
                assert(self.iseq@ =~= g0.iseq@ + emit_bytes(*whole, t0));
            }
        }
        Ok(())
    }

    /// Compiles an assignment: the right side first, then a store keyed by
    /// the shape of the left side; any other left side is silently ignored.
    fn gen_assign(&mut self, whole: &Node, lhs: &Node, rhs: &Node) -> (r: Result<(), RubyError>)
        requires
            old(self).inv(),
            whole.kind matches NodeKind::Assign(l, rr) && *l == *lhs && *rr == *rhs,
            gen_pre(*whole, old(self).lvar_table.entries@),
            old(self).iseq@.len() + emit_size(*whole) < 0x8000_0000,
            old(self).ident_table@.len() + emit_size(*whole) < 0x1_0000_0000,
        ensures
            gen_post(*old(self), *final(self), *whole, r),
        decreases *whole, 0int,
    {
        let ghost g0 = *old(self);
        proof {
            lemma_keeps_prefix_refl(g0.iseq@);
            lemma_keeps_prefix_refl(g0.ident_table@);
            assert(gen_step(g0, *self));
            lemma_escapes_same(g0, *self);
            assert(locals_ok(*whole, g0.lvar_table.entries@));
            assert(locals_ok(*rhs, g0.lvar_table.entries@));
        }
        let ghost m = *self;
        proof {
            assert(gen_pre(*rhs, self.lvar_table.entries@));
        }
        match self.gen(rhs) {
            Ok(_) => {
                proof {
                    assert(gen_step(m, *self));
                    lemma_gen_step_trans(g0, m, *self);
                    lemma_escapes_grow_trans(g0, m, *self);
                }
            },
            Err(e) => {
                proof {
                    assert(gen_step(m, *self));
                    lemma_gen_step_trans(g0, m, *self);
                }
                return Err(e);
            },
        }
        match &lhs.kind {
            NodeKind::Ident(x) => {
                let ghost m = *self;
                self.gen_set_local(*x);
                proof {
                    let b = seq![Inst::SET_LOCAL] + be32(
                        (lvar_lookup_at(m.lvar_table.entries@, *x)->0).0,
                    );
                    assert(self.iseq@ =~= m.iseq@ + b);
                    lemma_gen_step_emit(m, *self, b);
                    lemma_gen_step_trans(g0, m, *self);
                    lemma_escapes_grow_trans(g0, m, *self);
                }
            },
            NodeKind::Const(x) => {
                let ghost m = *self;
                self.gen_set_const(*x);
                proof {
                    let b = seq![Inst::SET_CONST] + be32(x.0);
                    assert(self.iseq@ =~= m.iseq@ + b);
                    lemma_gen_step_emit(m, *self, b);
                    lemma_gen_step_trans(g0, m, *self);
                    lemma_escapes_grow_trans(g0, m, *self);
                }
            },
            _ => {},
        }
        proof {
            if plain_tree(*whole) {
                assert(self.iseq@ =~= g0.iseq@ + emit_bytes(*whole, g0.lvar_table.entries@));
            }
        }
        Ok(())
    }

    /// Compiles a message send: the arguments in reverse order, so that the
    /// interpreter pops them back into call order, then the receiver, then
    /// `SEND` with the method id and the argument count.
    #[verifier::loop_isolation(false)]
    fn gen_send_node(
        &mut self,
        whole: &Node,
        receiver: &Node,
        method: &Node,
        args: &Vec<Node>,
    ) -> (r: Result<(), RubyError>)
        requires
            old(self).inv(),
            whole.kind matches NodeKind::Send(rec, me, ar) && *rec == *receiver && *me == *method
                && ar == args,
            gen_pre(*whole, old(self).lvar_table.entries@),
            old(self).iseq@.len() + emit_size(*whole) < 0x8000_0000,
            old(self).ident_table@.len() + emit_size(*whole) < 0x1_0000_0000,
        ensures
            gen_post(*old(self), *final(self), *whole, r),
        decreases *whole, 0int,
    {
        let ghost g0 = *old(self);
        let ghost t0 = self.lvar_table.entries@;
        let ghost flag = g0.loop_stack@.len() > 0;
        proof {
            lemma_keeps_prefix_refl(g0.iseq@);
            lemma_keeps_prefix_refl(g0.ident_table@);
            assert(gen_step(g0, *self));
            lemma_escapes_same(g0, *self);
            assert(locals_ok(*whole, t0));
        }
        let id = match &method.kind {
            NodeKind::Ident(x) => *x,
            _ => {
                let l = method.loc();
                return Err(self.error_syntax("Expected identifier.", l));
            },
        };
        proof {
            assert(locals_ok_list(args@, t0));
            assert(locals_ok(*receiver, t0));
        }
        let n = args.len();
        proof {
            assert(args@.subrange(n as int, n as int) =~= Seq::<Node>::empty());
            assert(args@.subrange(0, n as int) =~= args@);
        }
        let mut i: usize = n;
        while i > 0
            invariant
                i <= n,
                gen_step(g0, *self),
                escapes_grow(g0, *self),
                self.iseq@.len() == g0.iseq@.len() + emit_size_list(
                    args@.subrange(i as int, n as int),
                ),
                plain_list(args@) ==> g0.iseq@ + emit_bytes_args(args@, t0) == self.iseq@
                    + emit_bytes_args(args@.subrange(0, i as int), t0),
                plain_list(args@) ==> self.loop_stack@ == g0.loop_stack@,
                forall|k: int| i <= k < n ==> syntax_ok(#[trigger] args@[k], flag),
            decreases i,
        {
            i = i - 1;
            let ghost m = *self;
            proof {
                lemma_locals_ok_list_index(args@, t0, i as int);
                lemma_emit_size_list_suffix(args@, i as int);
                assert(self.lvar_table.entries@ == t0);
                assert(gen_pre(args@[i as int], self.lvar_table.entries@));
                assert(args@.subrange(i as int, n as int)[0] == args@[i as int]);
                assert(args@.subrange(i as int, n as int).subrange(1, (n - i) as int)
                    =~= args@.subrange(i + 1, n as int));
            }
            match self.gen(&args[i]) {
                Ok(_) => {
                    proof {
                        assert(gen_step(m, *self));
                        lemma_gen_step_trans(g0, m, *self);
                        lemma_escapes_grow_trans(g0, m, *self);
                        if plain_list(args@) {
                            lemma_plain_list_index(args@, i as int);
                            assert(args@.subrange(0, i + 1).last() == args@[i as int]);
                            assert(args@.subrange(0, i + 1).subrange(0, i as int) =~= args@
                                .subrange(0, i as int));
                            assert(emit_bytes_args(args@.subrange(0, i + 1), t0) == emit_bytes(
                                args@[i as int],
                                t0,
                            ) + emit_bytes_args(args@.subrange(0, i as int), t0));
                            assert(self.iseq@ + emit_bytes_args(args@.subrange(0, i as int), t0)
                                =~= m.iseq@ + emit_bytes_args(args@.subrange(0, i + 1), t0));
                        }
                    }
                },
                Err(e) => {
                    proof {
                        assert(gen_step(m, *self));
                        lemma_gen_step_trans(g0, m, *self);
                        if syntax_ok_list(args@, flag) {
                            lemma_syntax_ok_list_index(args@, flag, i as int);
                        }
                    }
                    return Err(e);
                },
            }
        }
        let ghost m = *self;
        proof {
            assert(gen_pre(*receiver, self.lvar_table.entries@));
        }
        match self.gen(receiver) {
            Ok(_) => {
                proof {
                    assert(gen_step(m, *self));
                    lemma_gen_step_trans(g0, m, *self);
                    lemma_escapes_grow_trans(g0, m, *self);
                }
            },
            Err(e) => {
                proof {
                    assert(gen_step(m, *self));
                    lemma_gen_step_trans(g0, m, *self);
                }
                return Err(e);
            },
        }
        let ghost m = *self;
        self.gen_send(id, n);
        proof {
            let x = seq![Inst::SEND] + be32(id.0) + be32(n as u32);
            assert(self.iseq@ =~= m.iseq@ + x);
            lemma_gen_step_emit(m, *self, x);
            lemma_gen_step_trans(g0, m, *self);
            lemma_escapes_grow_trans(g0, m, *self);
            lemma_syntax_ok_list_build(args@, flag);
            if plain_tree(*whole) {
                assert(args@.subrange(0, 0) =~= Seq::<Node>::empty());
                assert(self.iseq@ =~= g0.iseq@ + emit_bytes(*whole, t0));
            }
        }
        Ok(())
    }

    /// Compiles `break` or `next`: a `Nil` push and an unpatched jump,
    /// recorded in the innermost loop-escape list; outside every loop the
    /// escape is a syntax error.
    fn gen_escape(&mut self, whole: &Node, kind: EscapeKind) -> (r: Result<(), RubyError>)
        requires
            old(self).inv(),
            kind == EscapeKind::Break ==> whole.kind is Break,
            kind == EscapeKind::Next ==> whole.kind is Next,
            gen_pre(*whole, old(self).lvar_table.entries@),
            old(self).iseq@.len() + emit_size(*whole) < 0x8000_0000,
            old(self).ident_table@.len() + emit_size(*whole) < 0x1_0000_0000,
        ensures
            gen_post(*old(self), *final(self), *whole, r),
        decreases *whole, 0int,
    {
        let ghost g0 = *old(self);
        proof {
            lemma_keeps_prefix_refl(g0.iseq@);
            lemma_keeps_prefix_refl(g0.ident_table@);
            assert(gen_step(g0, *self));
            lemma_escapes_same(g0, *self);
        }
        let ghost m = *self;
        self.iseq.push(Inst::PUSH_NIL);
        let src = self.gen_jmp();
        proof {
            let x = seq![Inst::PUSH_NIL, Inst::JMP, 0u8, 0u8, 0u8, 0u8];
            assert(self.iseq@ =~= m.iseq@ + x);
            lemma_gen_step_emit(m, *self, x);
            lemma_gen_step_trans(g0, m, *self);
            lemma_escapes_grow_trans(g0, m, *self);
        }
        let d = self.loop_stack.len();
        if d == 0 {
            let l = self.loc;
            let msg = match kind {
                EscapeKind::Break => "Can't escape from eval with break.",
                EscapeKind::Next => "Can't escape from eval with next.",
            };
            return Err(self.error_syntax(msg, l));
        }
        let ghost m2 = *self;
        self.loop_stack[d - 1].push((src, kind));
        proof {
            assert(gen_step(g0, *self));
            assert(self.loop_stack@.last()@ =~= m2.loop_stack@.last()@ + seq![(src, kind)]);
            lemma_append_keeps_prefix(m2.loop_stack@.last()@, seq![(src, kind)]);
            lemma_keeps_prefix_trans(
                g0.loop_stack@.last()@,
                m2.loop_stack@.last()@,
                self.loop_stack@.last()@,
            );
            assert(escapes_grow(g0, *self));
        }
        Ok(())
    }

    /// Compiles a counted loop: the loop variable starts at the range's
    /// start, the body runs while the comparison against the range's end
    /// holds, and the variable grows by one each pass.  The loop-escape
    /// list pushed at entry is popped exactly once at the end, each `break`
    /// patched past the loop and each `next` to the increment.
    #[verifier::loop_isolation(false)]
    #[verifier::rlimit(100)]
    fn gen_for_node(&mut self, whole: &Node, var: &Node, iter: &Node, body: &Node) -> (r: Result<
        (),
        RubyError,
    >)
        requires
            old(self).inv(),
            whole.kind matches NodeKind::For(v, it, b) && *v == *var && *it == *iter && *b == *body,
            gen_pre(*whole, old(self).lvar_table.entries@),
            old(self).iseq@.len() + emit_size(*whole) < 0x8000_0000,
            old(self).ident_table@.len() + emit_size(*whole) < 0x1_0000_0000,
        ensures
            gen_post(*old(self), *final(self), *whole, r),
        decreases *whole, 0int,
    {
        let ghost g0 = *old(self);
        proof {
            lemma_keeps_prefix_refl(g0.iseq@);
            lemma_keeps_prefix_refl(g0.ident_table@);
            assert(gen_step(g0, *self));
            lemma_escapes_same(g0, *self);
            assert(locals_ok(*whole, g0.lvar_table.entries@));
        }
        let var_id = match &var.kind {
            NodeKind::Ident(x) => *x,
            _ => {
                let l = var.loc();
                return Err(self.error_syntax("Expected an identifier.", l));
            },
        };
        let (start, end, exclude) = match &iter.kind {
            NodeKind::Range(s2, e2, x2) => (&**s2, &**e2, *x2),
            _ => {
                let l = iter.loc();
                return Err(self.error_syntax("Expected Range.", l));
            },
        };
        proof {
            assert(locals_ok(*start, g0.lvar_table.entries@));
            assert(locals_ok(*end, g0.lvar_table.entries@));
            assert(locals_ok(*body, g0.lvar_table.entries@));
            assert(emit_size(*whole) == emit_size(*start) + emit_size(*end) + emit_size(*body)
                + 41);
        }
        let fresh: Vec<(ISeqPos, EscapeKind)> = Vec::new();
        let ghost gfresh = fresh;
        self.loop_stack.push(fresh);
        let ghost g1 = *self;
        proof {
            assert(gen_step(g0, g1));
            lemma_escapes_same(g1, g1);
        }
        let ghost m = *self;
        proof {
            assert(gen_pre(*start, self.lvar_table.entries@));
        }
        match self.gen(start) {
            Ok(_) => {
                proof {
                    assert(gen_step(m, *self));
                    lemma_gen_step_trans(g0, m, *self);
                }
            },
            Err(e) => {
                proof {
                    assert(gen_step(m, *self));
                    lemma_gen_step_trans(g0, m, *self);
                }
                return Err(e);
            },
        }
        let ghost m = *self;
        self.gen_set_local(var_id);
        proof {
            let x = seq![Inst::SET_LOCAL] + be32(
                (lvar_lookup_at(m.lvar_table.entries@, var_id)->0).0,
            );
            assert(self.iseq@ =~= m.iseq@ + x);
            lemma_gen_step_emit(m, *self, x);
            lemma_gen_step_trans(g0, m, *self);
            lemma_escapes_grow_trans(g1, m, *self);
        }
        let loop_start = self.current();
        let ghost m = *self;
        proof {
            assert(gen_pre(*end, self.lvar_table.entries@));
        }
        match self.gen(end) {
            Ok(_) => {
                proof {
                    assert(gen_step(m, *self));
                    lemma_gen_step_trans(g0, m, *self);
                    lemma_escapes_grow_trans(g1, m, *self);
                }
            },
            Err(e) => {
                proof {
                    assert(gen_step(m, *self));
                    lemma_gen_step_trans(g0, m, *self);
                }
                return Err(e);
            },
        }
        let ghost m = *self;
        self.gen_get_local(var_id);
        let cmp = if exclude {
            Inst::GT
        } else {
            Inst::GE
        };
        self.iseq.push(cmp);
        proof {
            let x = seq![Inst::GET_LOCAL] + be32(
                (lvar_lookup_at(m.lvar_table.entries@, var_id)->0).0,
            ) + seq![cmp];
            assert(self.iseq@ =~= m.iseq@ + x);
            lemma_gen_step_emit(m, *self, x);
            lemma_gen_step_trans(g0, m, *self);
            lemma_escapes_grow_trans(g1, m, *self);
        }
        let ghost m = *self;
        let src = self.gen_jmp_if_false();
        proof {
            let x = seq![Inst::JMP_IF_FALSE, 0u8, 0u8, 0u8, 0u8];
            assert(self.iseq@ =~= m.iseq@ + x);
            lemma_gen_step_emit(m, *self, x);
            lemma_gen_step_trans(g0, m, *self);
            lemma_escapes_grow_trans(g1, m, *self);
        }
        let ghost m = *self;
        proof {
            assert(gen_pre(*body, self.lvar_table.entries@));
        }
        match self.gen(body) {
            Ok(_) => {
                proof {
                    assert(gen_step(m, *self));
                    lemma_gen_step_trans(g0, m, *self);
                    lemma_escapes_grow_trans(g1, m, *self);
                }
            },
            Err(e) => {
                proof {
                    assert(gen_step(m, *self));
                    lemma_gen_step_trans(g0, m, *self);
                }
                return Err(e);
            },
        }
        let loop_continue = self.current();
        let ghost m = *self;
        self.gen_get_local(var_id);
        self.gen_fixnum(1);
        self.iseq.push(Inst::ADD);
        self.gen_set_local(var_id);
        proof {
            let lv = be32((lvar_lookup_at(m.lvar_table.entries@, var_id)->0).0);
            let x = seq![Inst::GET_LOCAL] + lv + (seq![Inst::PUSH_FIXNUM] + be64(u64_of_i64(1)))
                + seq![Inst::ADD] + (seq![Inst::SET_LOCAL] + lv);
            assert(self.iseq@ =~= m.iseq@ + x);
            lemma_gen_step_emit(m, *self, x);
            lemma_gen_step_trans(g0, m, *self);
            lemma_escapes_grow_trans(g1, m, *self);
        }
        let ghost m = *self;
        self.gen_jmp_back(loop_start);
        proof {
            let x = seq![Inst::JMP] + be32(to_word32(loop_start.0 - (m.iseq@.len() + 5)));
            assert(self.iseq@ =~= m.iseq@ + x);
            lemma_gen_step_emit(m, *self, x);
            lemma_gen_step_trans(g0, m, *self);
            lemma_escapes_grow_trans(g1, m, *self);
        }
        let ghost m = *self;
        self.write_disp_from_cur(src);
        proof {
            lemma_patch_keeps_prefix(g0.iseq@, m.iseq@, self.iseq@, src.0 as int);
            assert(gen_step(g0, *self));
            lemma_escapes_same(m, *self);
            lemma_escapes_grow_trans(g1, m, *self);
        }
        let ghost pre_pop = *self;
        let list = match self.loop_stack.pop() {
            Some(l) => l,
            None => unreached(),
        };
        let ghost g2 = *self;
        proof {
            assert(g2.loop_stack@ =~= g0.loop_stack@);
        }
        let mlen = list.len();
        let mut j: usize = 0;
        while j < mlen
            invariant
                j <= mlen,
                gen_step(g0, *self),
                self.loop_stack@ == g2.loop_stack@,
                self.iseq@.len() == g2.iseq@.len(),
                mlen == 0 ==> self.iseq@ == g2.iseq@,
            decreases mlen - j,
        {
            let p = list[j];
            let ghost m = *self;
            match p.1 {
                EscapeKind::Break => {
                    self.write_disp_from_cur(p.0);
                },
                EscapeKind::Next => {
                    self.write_disp(p.0, loop_continue);
                },
            }
            proof {
                lemma_patch_keeps_prefix(g0.iseq@, m.iseq@, self.iseq@, p.0.0 as int);
                assert(gen_step(g0, *self));
            }
            j += 1;
        }
        proof {
            lemma_escapes_same(g0, *self);
            if plain_tree(*whole) {
                assert(pre_pop.loop_stack@ == g1.loop_stack@);
                assert(list == gfresh);
                assert(list@.len() == 0);
                assert(self.iseq@ == g2.iseq@);
                let t0 = g0.lvar_table.entries@;
                let sw = be32((lvar_lookup_at(t0, var_id)->0).0);
                let sb = emit_bytes(*start, t0);
                let eb = emit_bytes(*end, t0);
                let bb = emit_bytes(*body, t0);
                assert(loop_start.0 == g0.iseq@.len() + sb.len() + 5);
                assert(src.0 == loop_start.0 + eb.len() + 11);
                assert(self.iseq@ =~= g0.iseq@ + emit_bytes(*whole, t0));
            }
        }
        Ok(())
    }
}

} // verus!
