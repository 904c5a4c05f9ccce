use vstd::prelude::*;
use crate::error::{RubyErrKind, RubyError};
use crate::ident::IdentId;
use crate::inst::Inst;
use crate::interp::{
    add_result, assert_msg, bitand_result, bitor_result, bitxor_result, chr_result, div_result,
    ge_result, gt_result, i64_of_u64, inspect_pair, mul_result, print_output, puts_output,
    shl_result, shr_result, sub_result, views_of,
};
use crate::node::Loc;
use crate::table::MethodInfoView;
use crate::value::{Value, ValueView, eq_values, neq_values, truthy};
use crate::vm::VM;
use crate::encoding::{signed32, word32};

verus! {

/// The model of an error: its kind, its message and the position it
/// carries.
pub struct ErrView {
    pub kind: RubyErrKind,
    pub message: Seq<char>,
    pub loc: Loc,
}

pub open spec fn err_view(e: RubyError) -> ErrView {
    ErrView { kind: e.kind, message: e.message@, loc: e.loc }
}

/// The model of what execution hands back.
pub open spec fn result_view(r: Result<Value, RubyError>) -> Result<ValueView, ErrView> {
    match r {
        Ok(v) => Ok(v@),
        Err(e) => Err(err_view(e)),
    }
}

/// The dynamic state of the machine between two instructions: the program
/// counter, the execution stack, the active local frame, the constant
/// table and the output collected so far.  Everything else — the program,
/// the identifier and method tables, the stored position — is fixed for
/// the whole run and read from the machine the run started from.
#[verifier::ext_equal]
pub struct StateView {
    pub pc: int,
    pub stack: Seq<ValueView>,
    pub frame: Seq<ValueView>,
    pub consts: Seq<(IdentId, ValueView)>,
    pub output: Seq<u8>,
}

/// The model of a machine's dynamic state at program counter `pc`.
pub open spec fn state_of(vm: VM, pc: int) -> StateView {
    StateView {
        pc,
        stack: views_of(vm.exec_stack@),
        frame: views_of(vm.lvar_stack@.last()@),
        consts: vm.const_table@,
        output: vm.output@,
    }
}

/// What one instruction does: carry the machine to a next state, or end
/// the run with a result or an error.
pub enum StepOutcome {
    Next(StateView),
    Done(Result<ValueView, ErrView>),
}

pub open spec fn fail(kind: RubyErrKind, message: Seq<char>, loc: Loc) -> StepOutcome {
    StepOutcome::Done(Err(ErrView { kind, message, loc }))
}

/// One two-operand instruction: both operands leave the stack and the
/// result enters it, or the pair is outside the operator's matrix and the
/// run ends with a `NoMethod` error whose message `mf` names.
pub open spec fn binop_step(
    base: VM,
    s: StateView,
    f: spec_fn(ValueView, ValueView) -> Option<ValueView>,
    mf: spec_fn(ValueView, ValueView) -> Seq<char>,
) -> StepOutcome {
    if s.stack.len() < 2 {
        fail(RubyErrKind::Unimplemented, "Stack underflow."@, base.loc)
    } else {
        let top = s.stack[s.stack.len() - 1];
        let below = s.stack[s.stack.len() - 2];
        match f(below, top) {
            Some(v) => StepOutcome::Next(
                StateView {
                    pc: s.pc + 1,
                    stack: s.stack.drop_last().drop_last().push(v),
                    ..s
                },
            ),
            None => fail(RubyErrKind::NoMethod, mf(below, top), base.loc),
        }
    }
}

pub open spec fn value_of_bool(o: Option<bool>) -> Option<ValueView> {
    match o {
        Some(b) => Some(ValueView::Bool(b)),
        None => None,
    }
}

/// The dispatch of `SEND` once the receiver, the method id and the
/// arguments are in hand: what each built-in answers and writes.
pub open spec fn send_dispatch(
    base: VM,
    s: StateView,
    rest: Seq<ValueView>,
    receiver: ValueView,
    f: crate::table::BuiltinId,
    argc: int,
) -> StepOutcome {
    let argv = Seq::new(argc as nat, |j: int| rest[rest.len() - 1 - j]);
    let rest2 = rest.subrange(0, rest.len() - argc);
    match f {
        crate::table::BuiltinId::Chr => match chr_result(receiver) {
            Some(c) => StepOutcome::Next(
                StateView { pc: s.pc + 9, stack: rest2.push(ValueView::Char(c)), ..s },
            ),
            None => fail(
                RubyErrKind::Unimplemented,
                "chr is not supported for this receiver."@,
                base.loc,
            ),
        },
        crate::table::BuiltinId::Puts => StepOutcome::Next(
            StateView {
                pc: s.pc + 9,
                stack: rest2.push(ValueView::Nil),
                output: s.output + puts_output(argv),
                ..s
            },
        ),
        crate::table::BuiltinId::Print => StepOutcome::Next(
            StateView {
                pc: s.pc + 9,
                stack: rest2.push(ValueView::Nil),
                output: s.output + print_output(argv),
                ..s
            },
        ),
        crate::table::BuiltinId::AssertEqual => if argc != 2 {
            fail(RubyErrKind::Assertion, "Invalid number of arguments."@, base.loc)
        } else {
            match eq_values(argv[1], argv[0]) {
                None => fail(
                    RubyErrKind::NoMethod,
                    "NoMethodError: "@ + inspect_pair(argv[1], argv[0]),
                    base.loc,
                ),
                Some(true) => StepOutcome::Next(
                    StateView { pc: s.pc + 9, stack: rest2.push(ValueView::Nil), ..s },
                ),
                Some(false) => fail(
                    RubyErrKind::Assertion,
                    assert_msg(argv[0], argv[1]),
                    base.loc,
                ),
            }
        },
    }
}

/// The small-step semantics of the machine: what the instruction under
/// `s.pc` in `base`'s program does to state `s`.  Every way a malformed
/// stream can trap — a counter or operand outside the vector, an unknown
/// opcode, an exhausted stack, an id outside a table — ends the run with
/// an error.
pub open spec fn step(base: VM, s: StateView) -> StepOutcome {
    let code = base.iseq@;
    let loc = base.loc;
    if !(0 <= s.pc < code.len()) {
        fail(RubyErrKind::Unimplemented, "Illegal instruction."@, loc)
    } else {
        let op = code[s.pc];
        if op == Inst::END {
            if s.stack.len() == 0 {
                StepOutcome::Done(Ok(ValueView::Nil))
            } else {
                StepOutcome::Done(Ok(s.stack.last()))
            }
        } else if op == Inst::PUSH_NIL {
            StepOutcome::Next(StateView { pc: s.pc + 1, stack: s.stack.push(ValueView::Nil), ..s })
        } else if op == Inst::PUSH_TRUE {
            StepOutcome::Next(
                StateView { pc: s.pc + 1, stack: s.stack.push(ValueView::Bool(true)), ..s },
            )
        } else if op == Inst::PUSH_FALSE {
            StepOutcome::Next(
                StateView { pc: s.pc + 1, stack: s.stack.push(ValueView::Bool(false)), ..s },
            )
        } else if op == Inst::PUSH_SELF {
            StepOutcome::Next(StateView { pc: s.pc + 1, stack: s.stack.push(ValueView::Nil), ..s })
        } else if op == Inst::PUSH_FIXNUM {
            if s.pc + 9 > code.len() {
                fail(RubyErrKind::Unimplemented, "Illegal instruction."@, loc)
            } else {
                let w = crate::encoding::word64(
                    code[s.pc + 1],
                    code[s.pc + 2],
                    code[s.pc + 3],
                    code[s.pc + 4],
                    code[s.pc + 5],
                    code[s.pc + 6],
                    code[s.pc + 7],
                    code[s.pc + 8],
                );
                StepOutcome::Next(
                    StateView {
                        pc: s.pc + 9,
                        stack: s.stack.push(ValueView::FixNum(i64_of_u64(w))),
                        ..s
                    },
                )
            }
        } else if op == Inst::PUSH_FLONUM {
            if s.pc + 9 > code.len() {
                fail(RubyErrKind::Unimplemented, "Illegal instruction."@, loc)
            } else {
                let w = crate::encoding::word64(
                    code[s.pc + 1],
                    code[s.pc + 2],
                    code[s.pc + 3],
                    code[s.pc + 4],
                    code[s.pc + 5],
                    code[s.pc + 6],
                    code[s.pc + 7],
                    code[s.pc + 8],
                );
                StepOutcome::Next(
                    StateView { pc: s.pc + 9, stack: s.stack.push(ValueView::FloatNum(w)), ..s },
                )
            }
        } else if op == Inst::PUSH_STRING {
            if s.pc + 5 > code.len() {
                fail(RubyErrKind::Unimplemented, "Illegal instruction."@, loc)
            } else {
                let id = word32(code[s.pc + 1], code[s.pc + 2], code[s.pc + 3], code[s.pc + 4]);
                if id >= base.ident_table@.len() {
                    fail(RubyErrKind::Unimplemented, "Illegal instruction."@, loc)
                } else {
                    StepOutcome::Next(
                        StateView {
                            pc: s.pc + 5,
                            stack: s.stack.push(ValueView::Str(base.ident_table@[id as int])),
                            ..s
                        },
                    )
                }
            }
        } else if op == Inst::ADD {
            binop_step(base, s, |a, b| add_result(a, b), |a, b| "NoMethodError: '-'"@)
        } else if op == Inst::SUB {
            binop_step(base, s, |a, b| sub_result(a, b), |a, b| "NoMethodError: '-'"@)
        } else if op == Inst::MUL {
            binop_step(base, s, |a, b| mul_result(a, b), |a, b| "NoMethodError: '*'"@)
        } else if op == Inst::DIV {
            binop_step(base, s, |a, b| div_result(a, b), |a, b| "NoMethodError: '*'"@)
        } else if op == Inst::SHR {
            binop_step(base, s, |a, b| shr_result(a, b), |a, b| "NoMethodError: '>>'"@)
        } else if op == Inst::SHL {
            binop_step(base, s, |a, b| shl_result(a, b), |a, b| "NoMethodError: '<<'"@)
        } else if op == Inst::BIT_AND {
            binop_step(base, s, |a, b| bitand_result(a, b), |a, b| "NoMethodError: '>>'"@)
        } else if op == Inst::BIT_OR {
            binop_step(base, s, |a, b| bitor_result(a, b), |a, b| "NoMethodError: '>>'"@)
        } else if op == Inst::BIT_XOR {
            binop_step(base, s, |a, b| bitxor_result(a, b), |a, b| "NoMethodError: '>>'"@)
        } else if op == Inst::EQ {
            binop_step(
                base,
                s,
                |a, b| value_of_bool(eq_values(a, b)),
                |a, b| "NoMethodError: "@ + inspect_pair(a, b),
            )
        } else if op == Inst::NE {
            binop_step(
                base,
                s,
                |a, b| value_of_bool(neq_values(a, b)),
                |a, b| "NoMethodError: '!='"@,
            )
        } else if op == Inst::GT {
            binop_step(
                base,
                s,
                |a, b| value_of_bool(gt_result(a, b)),
                |a, b| "NoMethodError: '>'"@,
            )
        } else if op == Inst::GE {
            binop_step(
                base,
                s,
                |a, b| value_of_bool(ge_result(a, b)),
                |a, b| "NoMethodError: '>='"@,
            )
        } else if op == Inst::SET_LOCAL {
            if s.pc + 5 > code.len() {
                fail(RubyErrKind::Unimplemented, "Illegal instruction."@, loc)
            } else if s.stack.len() == 0 {
                fail(RubyErrKind::Unimplemented, "Stack underflow."@, loc)
            } else {
                let id = word32(
                    code[s.pc + 1],
                    code[s.pc + 2],
                    code[s.pc + 3],
                    code[s.pc + 4],
                ) as int;
                let grown = if s.frame.len() <= id {
                    s.frame + Seq::new((id + 1 - s.frame.len()) as nat, |j: int| ValueView::Nil)
                } else {
                    s.frame
                };
                StepOutcome::Next(
                    StateView { pc: s.pc + 5, frame: grown.update(id, s.stack.last()), ..s },
                )
            }
        } else if op == Inst::GET_LOCAL {
            if s.pc + 5 > code.len() {
                fail(RubyErrKind::Unimplemented, "Illegal instruction."@, loc)
            } else {
                let id = word32(
                    code[s.pc + 1],
                    code[s.pc + 2],
                    code[s.pc + 3],
                    code[s.pc + 4],
                ) as int;
                if id >= s.frame.len() {
                    fail(RubyErrKind::Unimplemented, "Illegal instruction."@, loc)
                } else {
                    StepOutcome::Next(
                        StateView { pc: s.pc + 5, stack: s.stack.push(s.frame[id]), ..s },
                    )
                }
            }
        } else if op == Inst::SET_CONST {
            if s.pc + 5 > code.len() {
                fail(RubyErrKind::Unimplemented, "Illegal instruction."@, loc)
            } else if s.stack.len() == 0 {
                fail(RubyErrKind::Unimplemented, "Stack underflow."@, loc)
            } else {
                let id = word32(code[s.pc + 1], code[s.pc + 2], code[s.pc + 3], code[s.pc + 4]);
                StepOutcome::Next(
                    StateView {
                        pc: s.pc + 5,
                        consts: s.consts.insert(0, (IdentId(id), s.stack.last())),
                        ..s
                    },
                )
            }
        } else if op == Inst::GET_CONST {
            if s.pc + 5 > code.len() {
                fail(RubyErrKind::Unimplemented, "Illegal instruction."@, loc)
            } else {
                let id = word32(code[s.pc + 1], code[s.pc + 2], code[s.pc + 3], code[s.pc + 4]);
                match crate::table::assoc_lookup(s.consts, IdentId(id)) {
                    Some(v) => StepOutcome::Next(
                        StateView { pc: s.pc + 5, stack: s.stack.push(v), ..s },
                    ),
                    None => if id >= base.ident_table@.len() {
                        fail(RubyErrKind::Unimplemented, "Illegal instruction."@, loc)
                    } else {
                        fail(
                            RubyErrKind::Unimplemented,
                            "Uninitialized constant '"@ + base.ident_table@[id as int] + "'."@,
                            loc,
                        )
                    },
                }
            }
        } else if op == Inst::CREATE_RANGE {
            if s.stack.len() < 3 {
                fail(RubyErrKind::Unimplemented, "Stack underflow."@, loc)
            } else {
                let start = s.stack[s.stack.len() - 1];
                let end = s.stack[s.stack.len() - 2];
                let exclude = s.stack[s.stack.len() - 3];
                let range = ValueView::Range(Box::new(start), Box::new(end), truthy(exclude));
                StepOutcome::Next(
                    StateView {
                        pc: s.pc + 1,
                        stack: s.stack.drop_last().drop_last().drop_last().push(range),
                        ..s
                    },
                )
            }
        } else if op == Inst::JMP {
            if s.pc + 5 > code.len() {
                fail(RubyErrKind::Unimplemented, "Illegal instruction."@, loc)
            } else {
                let disp = signed32(
                    word32(code[s.pc + 1], code[s.pc + 2], code[s.pc + 3], code[s.pc + 4]),
                );
                let target = s.pc + 5 + disp;
                if target < 0 || target > code.len() {
                    fail(RubyErrKind::Unimplemented, "Illegal instruction."@, loc)
                } else {
                    StepOutcome::Next(StateView { pc: target, ..s })
                }
            }
        } else if op == Inst::JMP_IF_FALSE {
            if s.pc + 5 > code.len() {
                fail(RubyErrKind::Unimplemented, "Illegal instruction."@, loc)
            } else if s.stack.len() == 0 {
                fail(RubyErrKind::Unimplemented, "Stack underflow."@, loc)
            } else {
                let rest = s.stack.drop_last();
                if truthy(s.stack.last()) {
                    StepOutcome::Next(StateView { pc: s.pc + 5, stack: rest, ..s })
                } else {
                    let disp = signed32(
                        word32(code[s.pc + 1], code[s.pc + 2], code[s.pc + 3], code[s.pc + 4]),
                    );
                    let target = s.pc + 5 + disp;
                    if target < 0 || target > code.len() {
                        fail(RubyErrKind::Unimplemented, "Illegal instruction."@, loc)
                    } else {
                        StepOutcome::Next(StateView { pc: target, stack: rest, ..s })
                    }
                }
            }
        } else if op == Inst::SEND {
            if s.pc + 9 > code.len() {
                fail(RubyErrKind::Unimplemented, "Illegal instruction."@, loc)
            } else if s.stack.len() == 0 {
                fail(RubyErrKind::Unimplemented, "Stack underflow."@, loc)
            } else {
                let receiver = s.stack.last();
                let rest = s.stack.drop_last();
                let supported = receiver is Nil || receiver is FixNum;
                if !supported {
                    fail(RubyErrKind::Unimplemented, "receiver is not supported."@, loc)
                } else {
                    let mid = IdentId(
                        word32(code[s.pc + 1], code[s.pc + 2], code[s.pc + 3], code[s.pc + 4]),
                    );
                    match crate::table::assoc_lookup(base.method_table@, mid) {
                        None => fail(RubyErrKind::Unimplemented, "method not defined."@, loc),
                        Some(MethodInfoView::Ruby) => fail(
                            RubyErrKind::Unimplemented,
                            "ruby func."@,
                            loc,
                        ),
                        Some(MethodInfoView::Builtin(f)) => {
                            let argc = word32(
                                code[s.pc + 5],
                                code[s.pc + 6],
                                code[s.pc + 7],
                                code[s.pc + 8],
                            ) as int;
                            if rest.len() < argc {
                                fail(RubyErrKind::Unimplemented, "Stack underflow."@, loc)
                            } else {
                                send_dispatch(base, s, rest, receiver, f, argc)
                            }
                        },
                    }
                }
            }
        } else {
            fail(RubyErrKind::Unimplemented, "Illegal instruction."@, loc)
        }
    }
}

/// State `b` lies `n` steps after state `a`.
pub open spec fn reaches(base: VM, a: StateView, b: StateView, n: nat) -> bool
    decreases n,
{
    if n == 0 {
        a == b
    } else {
        match step(base, a) {
            StepOutcome::Next(m) => reaches(base, m, b, (n - 1) as nat),
            StepOutcome::Done(_) => false,
        }
    }
}

/// The run from state `a` ends with `r` within `n` steps.
pub open spec fn runs_to(base: VM, a: StateView, n: nat) -> Option<Result<ValueView, ErrView>>
    decreases n,
{
    if n == 0 {
        None
    } else {
        match step(base, a) {
            StepOutcome::Next(m) => runs_to(base, m, (n - 1) as nat),
            StepOutcome::Done(r) => Some(r),
        }
    }
}

/// Law: a reachable state one step short of the end pins the whole run's
/// result.
pub proof fn lemma_reaches_done(
    base: VM,
    a: StateView,
    b: StateView,
    n: nat,
    r: Result<ValueView, ErrView>,
)
    requires
        reaches(base, a, b, n),
        step(base, b) == StepOutcome::Done(r),
    ensures
        runs_to(base, a, n + 1) == Some(r),
    decreases n,
{
    if n > 0 {
        match step(base, a) {
            StepOutcome::Next(m0) => {
                lemma_reaches_done(base, m0, b, (n - 1) as nat, r);
            },
            StepOutcome::Done(_) => {},
        }
    }
}

/// Law: one more step reaches one state further.
pub proof fn lemma_reaches_extend(base: VM, a: StateView, b: StateView, c: StateView, n: nat)
    requires
        reaches(base, a, b, n),
        step(base, b) == StepOutcome::Next(c),
    ensures
        reaches(base, a, c, n + 1),
    decreases n,
{
    if n == 0 {
        assert(a == b);
        assert(reaches(base, c, c, 0));
        assert(reaches(base, a, c, 1));
    } else {
        match step(base, a) {
            StepOutcome::Next(m0) => {
                lemma_reaches_extend(base, m0, b, c, (n - 1) as nat);
                assert(reaches(base, m0, c, n));
                assert(reaches(base, a, c, n + 1));
            },
            StepOutcome::Done(_) => {},
        }
    }
}

/// Law: the view of a pushed stack is the pushed view.
pub proof fn lemma_views_push(s: Seq<Value>, v: Value)
    ensures
        views_of(s.push(v)) == views_of(s).push(v@),
{
    assert(views_of(s.push(v)) =~= views_of(s).push(v@));
}

/// Law: popping commutes with taking views.
pub proof fn lemma_views_drop_last(s: Seq<Value>)
    requires
        s.len() > 0,
    ensures
        views_of(s.drop_last()) == views_of(s).drop_last(),
        views_of(s).last() == s.last()@,
        views_of(s).len() == s.len(),
{
    assert(views_of(s.drop_last()) =~= views_of(s).drop_last());
}

/// What one helper of the interpreter guarantees: it performed exactly the
/// step the semantics prescribes for the instruction at `pre_pc`, moving
/// to the returned counter or ending the run with the returned error.
pub open spec fn stepped(base: VM, pre: VM, pre_pc: int, post: VM, r: Result<usize, RubyError>) -> bool {
    &&& post.inv()
    &&& crate::interp::exec_keeps(base, post)
    &&& post.lvar_stack@.len() == pre.lvar_stack@.len()
    &&& crate::codegen::keeps_prefix(pre.output@, post.output@)
    &&& match r {
        Ok(new_pc) => new_pc <= base.iseq@.len() && step(base, state_of(pre, pre_pc))
            == StepOutcome::Next(state_of(post, new_pc as int)),
        Err(e) => step(base, state_of(pre, pre_pc)) == StepOutcome::Done(Err(err_view(e))),
    }
}

/// Law: at `END` the machine hands back the top of the execution stack,
/// or `Nil` when the stack is empty; nothing else of the state matters.
pub proof fn lemma_end_yields_top(base: VM, s: StateView)
    requires
        0 <= s.pc < base.iseq@.len(),
        base.iseq@[s.pc] == Inst::END,
    ensures
        step(base, s) == StepOutcome::Done(
            Ok(
                if s.stack.len() == 0 {
                    ValueView::Nil
                } else {
                    s.stack.last()
                },
            ),
        ),
{
}

/// The run from `s0` ends in state `sf` after `n` steps, with outcome `r`.
pub open spec fn ends_at(
    base: VM,
    s0: StateView,
    sf: StateView,
    n: nat,
    r: Result<ValueView, ErrView>,
) -> bool {
    reaches(base, s0, sf, n) && step(base, sf) == StepOutcome::Done(r)
}

/// Law: a state reached through steps alone bounds the run from below:
/// no step count up to that depth ends it.
pub proof fn lemma_reaches_no_early_end(base: VM, a: StateView, b: StateView, n: nat)
    requires
        reaches(base, a, b, n),
    ensures
        forall|m: nat| m <= n ==> runs_to(base, a, m) is None,
    decreases n,
{
    if n > 0 {
        match step(base, a) {
            StepOutcome::Next(mid) => {
                lemma_reaches_no_early_end(base, mid, b, (n - 1) as nat);
                assert forall|m: nat| m <= n implies runs_to(base, a, m) is None by {
                    if m > 0 {
                        assert(runs_to(base, mid, (m - 1) as nat) is None);
                    }
                }
            },
            StepOutcome::Done(_) => {},
        }
    }
}

/// Law: the compiled form of an addition over a product of three number
/// literals — three pushes, `MUL`, `ADD`, `END` — runs to the arithmetic
/// result, from any starting stack.
pub proof fn lemma_sum_product_program_runs(base: VM, s: StateView, a: i64, b: i64, c: i64)
    requires
        base.iseq@ == seq![Inst::PUSH_FIXNUM] + crate::encoding::be64(
            crate::codegen::u64_of_i64(a),
        ) + seq![Inst::PUSH_FIXNUM] + crate::encoding::be64(crate::codegen::u64_of_i64(b)) + seq![
            Inst::PUSH_FIXNUM,
        ] + crate::encoding::be64(crate::codegen::u64_of_i64(c)) + seq![Inst::MUL] + seq![
            Inst::ADD,
        ] + seq![Inst::END],
        s.pc == 0,
    ensures
        runs_to(base, s, 6) == Some(
            Ok::<ValueView, ErrView>(ValueView::FixNum(a.wrapping_add(b.wrapping_mul(c)))),
        ),
{
    let code = base.iseq@;
    let wa = crate::codegen::u64_of_i64(a);
    let wb = crate::codegen::u64_of_i64(b);
    let wc = crate::codegen::u64_of_i64(c);
    crate::encoding::lemma_be64_round_trip(wa);
    crate::encoding::lemma_be64_round_trip(wb);
    crate::encoding::lemma_be64_round_trip(wc);
    lemma_fixnum_word_round_trip(a);
    lemma_fixnum_word_round_trip(b);
    lemma_fixnum_word_round_trip(c);
    assert(code.len() == 30);
    assert(code[0] == Inst::PUSH_FIXNUM && code[9] == Inst::PUSH_FIXNUM && code[18]
        == Inst::PUSH_FIXNUM);
    assert(code[27] == Inst::MUL && code[28] == Inst::ADD && code[29] == Inst::END);
    assert(crate::encoding::word64(
        code[1],
        code[2],
        code[3],
        code[4],
        code[5],
        code[6],
        code[7],
        code[8],
    ) == wa) by {
        assert(forall|j: int| 0 <= j < 8 ==> code[1 + j] == crate::encoding::be64(wa)[j]);
    }
    assert(crate::encoding::word64(
        code[10],
        code[11],
        code[12],
        code[13],
        code[14],
        code[15],
        code[16],
        code[17],
    ) == wb) by {
        assert(forall|j: int| 0 <= j < 8 ==> code[10 + j] == crate::encoding::be64(wb)[j]);
    }
    assert(crate::encoding::word64(
        code[19],
        code[20],
        code[21],
        code[22],
        code[23],
        code[24],
        code[25],
        code[26],
    ) == wc) by {
        assert(forall|j: int| 0 <= j < 8 ==> code[19 + j] == crate::encoding::be64(wc)[j]);
    }
    let s1 = StateView { pc: 9, stack: s.stack.push(ValueView::FixNum(a)), ..s };
    let s2 = StateView { pc: 18, stack: s1.stack.push(ValueView::FixNum(b)), ..s };
    let s3 = StateView { pc: 27, stack: s2.stack.push(ValueView::FixNum(c)), ..s };
    assert(step(base, s) == StepOutcome::Next(s1));
    assert(step(base, s1) == StepOutcome::Next(s2));
    assert(step(base, s2) == StepOutcome::Next(s3));
    let s4 = StateView {
        pc: 28,
        stack: s3.stack.drop_last().drop_last().push(ValueView::FixNum(b.wrapping_mul(c))),
        ..s
    };
    assert(s3.stack[s3.stack.len() - 1] == ValueView::FixNum(c));
    assert(s3.stack[s3.stack.len() - 2] == ValueView::FixNum(b));
    assert(step(base, s3) == StepOutcome::Next(s4));
    let s5 = StateView {
        pc: 29,
        stack: s4.stack.drop_last().drop_last().push(
            ValueView::FixNum(a.wrapping_add(b.wrapping_mul(c))),
        ),
        ..s
    };
    assert(s4.stack[s4.stack.len() - 1] == ValueView::FixNum(b.wrapping_mul(c)));
    assert(s4.stack.drop_last().drop_last() =~= s.stack);
    assert(s4.stack[s4.stack.len() - 2] == ValueView::FixNum(a));
    assert(step(base, s4) == StepOutcome::Next(s5));
    assert(s5.stack.last() == ValueView::FixNum(a.wrapping_add(b.wrapping_mul(c))));
    assert(step(base, s5) == StepOutcome::Done(
        Ok::<ValueView, ErrView>(ValueView::FixNum(a.wrapping_add(b.wrapping_mul(c)))),
    ));
    assert(runs_to(base, s5, 1) == Some(
        Ok::<ValueView, ErrView>(ValueView::FixNum(a.wrapping_add(b.wrapping_mul(c)))),
    ));
    assert(runs_to(base, s4, 2) == runs_to(base, s5, 1));
    assert(runs_to(base, s3, 3) == runs_to(base, s4, 2));
    assert(runs_to(base, s2, 4) == runs_to(base, s3, 3));
    assert(runs_to(base, s1, 5) == runs_to(base, s2, 4));
    assert(runs_to(base, s, 6) == runs_to(base, s1, 5));
}

/// Law: a step reads only the program, the two tables and the stored
/// position of the machine it runs against; machines agreeing on those
/// step alike.
pub proof fn lemma_step_base_agrees(b1: VM, b2: VM, s: StateView)
    requires
        b1.iseq == b2.iseq,
        b1.ident_table == b2.ident_table,
        b1.method_table == b2.method_table,
        b1.loc == b2.loc,
    ensures
        step(b1, s) == step(b2, s),
{
}

/// Law: whole runs agree likewise.
pub proof fn lemma_runs_to_base_agrees(b1: VM, b2: VM, s: StateView, n: nat)
    requires
        b1.iseq == b2.iseq,
        b1.ident_table == b2.ident_table,
        b1.method_table == b2.method_table,
        b1.loc == b2.loc,
    ensures
        runs_to(b1, s, n) == runs_to(b2, s, n),
    decreases n,
{
    if n > 0 {
        lemma_step_base_agrees(b1, b2, s);
        match step(b1, s) {
            StepOutcome::Next(m) => {
                lemma_runs_to_base_agrees(b1, b2, m, (n - 1) as nat);
            },
            StepOutcome::Done(_) => {},
        }
    }
}

/// Law: a fixnum survives the round trip through its immediate word.
pub proof fn lemma_fixnum_word_round_trip(k: i64)
    ensures
        i64_of_u64(crate::codegen::u64_of_i64(k)) == k,
{
}

/// Law: two bounds under which a run ends agree on how it ends.
pub proof fn lemma_runs_to_agree(base: VM, s: StateView, n1: nat, n2: nat)
    requires
        runs_to(base, s, n1) is Some,
        runs_to(base, s, n2) is Some,
    ensures
        runs_to(base, s, n1) == runs_to(base, s, n2),
    decreases n1,
{
    match step(base, s) {
        StepOutcome::Next(m) => {
            lemma_runs_to_agree(base, m, (n1 - 1) as nat, (n2 - 1) as nat);
        },
        StepOutcome::Done(_) => {},
    }
}

/// Law: the compiled form of a number literal — its push followed by
/// `END` — runs to exactly that fixnum, from any starting stack.
pub proof fn lemma_literal_program_runs(base: VM, s: StateView, k: i64)
    requires
        base.iseq@ == seq![Inst::PUSH_FIXNUM] + crate::encoding::be64(
            crate::codegen::u64_of_i64(k),
        ) + seq![Inst::END],
        s.pc == 0,
    ensures
        runs_to(base, s, 2) == Some(Ok::<ValueView, ErrView>(ValueView::FixNum(k))),
{
    let w = crate::codegen::u64_of_i64(k);
    crate::encoding::lemma_be64_round_trip(w);
    lemma_fixnum_word_round_trip(k);
    let code = base.iseq@;
    assert(code.len() == 10);
    assert(code[0] == Inst::PUSH_FIXNUM);
    assert(code[9] == Inst::END);
    assert(code[1] == crate::encoding::be64(w)[0]);
    assert(code[2] == crate::encoding::be64(w)[1]);
    assert(code[3] == crate::encoding::be64(w)[2]);
    assert(code[4] == crate::encoding::be64(w)[3]);
    assert(code[5] == crate::encoding::be64(w)[4]);
    assert(code[6] == crate::encoding::be64(w)[5]);
    assert(code[7] == crate::encoding::be64(w)[6]);
    assert(code[8] == crate::encoding::be64(w)[7]);
    assert(crate::encoding::word64(
        code[1],
        code[2],
        code[3],
        code[4],
        code[5],
        code[6],
        code[7],
        code[8],
    ) == w);
    let s1 = StateView { pc: 9, stack: s.stack.push(ValueView::FixNum(k)), ..s };
    assert(step(base, s) == StepOutcome::Next(s1));
    assert(s1.stack.last() == ValueView::FixNum(k));
    assert(step(base, s1) == StepOutcome::Done(Ok::<ValueView, ErrView>(ValueView::FixNum(k))));
    assert(runs_to(base, s1, 1) == Some(Ok::<ValueView, ErrView>(ValueView::FixNum(k))));
}

} // verus!
