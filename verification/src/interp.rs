use vstd::prelude::*;
use crate::error::{RubyErrKind, RubyError};
use crate::value::{Value, ValueView, eq_values, neq_values, truthy, display_chars};
use crate::vm::{VM, VMResult};
use crate::codegen::{emit_size, gen_pre, syntax_ok};
use crate::inst::Inst;
use crate::node::{BinOp, Node, NodeKind};
use crate::semantics::{
    StateView, StepOutcome, err_view, lemma_reaches_done, lemma_reaches_extend,
    lemma_reaches_no_early_end,
    lemma_views_drop_last, lemma_views_push, reaches, result_view, runs_to, state_of, step,
    stepped,
};
use crate::ident::{IdentId, interned_id, lemma_interned_id_stable};
use crate::table::{assoc_lookup, BuiltinId, MethodInfo, MethodInfoView};
use vstd::string::{StringExecFns, StrSliceExecFns};

verus! {

/// Truncating division, rounding toward zero, as the host's integer
/// division does.
pub open spec fn abs_int(i: int) -> int {
    if i < 0 {
        -i
    } else {
        i
    }
}

pub open spec fn trunc_div_int(a: int, b: int) -> int {
    if (a < 0) == (b < 0) {
        abs_int(a) / abs_int(b)
    } else {
        -(abs_int(a) / abs_int(b))
    }
}

/// What `ADD` pushes for a pair of operands, if anything: fixnums add with
/// the host's wrapping semantics; every other pair — floats included, their
/// arithmetic being host work outside the verified core — is answered with
/// a `NoMethod` error.  The same shape holds for the other arithmetic,
/// shift and comparison results below.
pub open spec fn add_result(lhs: ValueView, rhs: ValueView) -> Option<ValueView> {
    match (lhs, rhs) {
        (ValueView::FixNum(a), ValueView::FixNum(b)) => Some(
            ValueView::FixNum(a.wrapping_add(b)),
        ),
        _ => None,
    }
}

pub open spec fn sub_result(lhs: ValueView, rhs: ValueView) -> Option<ValueView> {
    match (lhs, rhs) {
        (ValueView::FixNum(a), ValueView::FixNum(b)) => Some(
            ValueView::FixNum(a.wrapping_sub(b)),
        ),
        _ => None,
    }
}

pub open spec fn mul_result(lhs: ValueView, rhs: ValueView) -> Option<ValueView> {
    match (lhs, rhs) {
        (ValueView::FixNum(a), ValueView::FixNum(b)) => Some(
            ValueView::FixNum(a.wrapping_mul(b)),
        ),
        _ => None,
    }
}

/// Division by zero has no result and becomes the operator's `NoMethod`
/// error; the one overflowing quotient wraps.
pub open spec fn div_result(lhs: ValueView, rhs: ValueView) -> Option<ValueView> {
    match (lhs, rhs) {
        (ValueView::FixNum(a), ValueView::FixNum(b)) => if b == 0 {
            None
        } else if a == i64::MIN && b == -1 {
            Some(ValueView::FixNum(i64::MIN))
        } else {
            Some(ValueView::FixNum(trunc_div_int(a as int, b as int) as i64))
        },
        _ => None,
    }
}

/// Shifts take the low six bits of the right operand, as the host's
/// wrapping shift does.
pub open spec fn shl_result(lhs: ValueView, rhs: ValueView) -> Option<ValueView> {
    match (lhs, rhs) {
        (ValueView::FixNum(a), ValueView::FixNum(b)) => Some(
            ValueView::FixNum(a.wrapping_shl((b & 63) as u32)),
        ),
        _ => None,
    }
}

pub open spec fn shr_result(lhs: ValueView, rhs: ValueView) -> Option<ValueView> {
    match (lhs, rhs) {
        (ValueView::FixNum(a), ValueView::FixNum(b)) => Some(
            ValueView::FixNum(a.wrapping_shr((b & 63) as u32)),
        ),
        _ => None,
    }
}

pub open spec fn bitand_result(lhs: ValueView, rhs: ValueView) -> Option<ValueView> {
    match (lhs, rhs) {
        (ValueView::FixNum(a), ValueView::FixNum(b)) => Some(ValueView::FixNum(a & b)),
        _ => None,
    }
}

pub open spec fn bitor_result(lhs: ValueView, rhs: ValueView) -> Option<ValueView> {
    match (lhs, rhs) {
        (ValueView::FixNum(a), ValueView::FixNum(b)) => Some(ValueView::FixNum(a | b)),
        _ => None,
    }
}

pub open spec fn bitxor_result(lhs: ValueView, rhs: ValueView) -> Option<ValueView> {
    match (lhs, rhs) {
        (ValueView::FixNum(a), ValueView::FixNum(b)) => Some(ValueView::FixNum(a ^ b)),
        _ => None,
    }
}

pub open spec fn ge_result(lhs: ValueView, rhs: ValueView) -> Option<bool> {
    match (lhs, rhs) {
        (ValueView::FixNum(a), ValueView::FixNum(b)) => Some(a >= b),
        _ => None,
    }
}

pub open spec fn gt_result(lhs: ValueView, rhs: ValueView) -> Option<bool> {
    match (lhs, rhs) {
        (ValueView::FixNum(a), ValueView::FixNum(b)) => Some(a > b),
        _ => None,
    }
}

/// Truncating division on the machine integers; the overflowing quotient
/// is ruled out by the caller.
fn trunc_div(a: i64, b: i64) -> (q: i64)
    requires
        b != 0,
        !(a == i64::MIN && b == -1),
    ensures
        q as int == trunc_div_int(a as int, b as int),
{
    let neg = (a < 0) != (b < 0);
    let ma: u64 = if a >= 0 {
        a as u64
    } else {
        (-(a as i128)) as u64
    };
    let mb: u64 = if b >= 0 {
        b as u64
    } else {
        (-(b as i128)) as u64
    };
    let q = ma / mb;
    assert(q <= ma) by (nonlinear_arith)
        requires
            mb >= 1,
            q == ma / mb,
    ;
    if neg {
        (-(q as i128)) as i64
    } else {
        if q == 0x8000_0000_0000_0000 {
            assert(mb == 1) by (nonlinear_arith)
                requires
                    q == ma / mb,
                    mb >= 1,
                    ma <= 0x8000_0000_0000_0000,
                    q == 0x8000_0000_0000_0000,
            ;
            assert(false);
            unreached()
        } else {
            q as i64
        }
    }
}

impl VM {
    /// Boolean coercion of a value.
    pub fn val_to_bool(&self, val: &Value) -> (b: bool)
        ensures
            b == truthy(val@),
    {
        match val {
            Value::Nil => false,
            Value::Bool(false) => false,
            _ => true,
        }
    }

    /// The display form of a value, as the printing built-ins render it.
    pub fn val_to_s(&mut self, val: &Value) -> (s: String)
        ensures
            *final(self) == *old(self),
            s@ == display_chars(val@),
    {
        crate::value::display_string(val)
    }

    pub fn eval_add(&mut self, rhs: Value, lhs: Value) -> (r: VMResult)
        ensures
            *final(self) == *old(self),
            ({
                let want = add_result(lhs@, rhs@);
                match r {
                    Ok(v) => want == Some(v@),
                    Err(e) => want is None && e.kind == RubyErrKind::NoMethod && e.loc == old(
                        self,
                    ).loc && e.message@ == "NoMethodError: '-'"@,
                }
            }),
    {
        match (lhs, rhs) {
            (Value::FixNum(a), Value::FixNum(b)) => Ok(Value::FixNum(a.wrapping_add(b))),
            (_, _) => Err(self.error_nomethod("NoMethodError: '-'")),
        }
    }

    pub fn eval_sub(&mut self, rhs: Value, lhs: Value) -> (r: VMResult)
        ensures
            *final(self) == *old(self),
            ({
                let want = sub_result(lhs@, rhs@);
                match r {
                    Ok(v) => want == Some(v@),
                    Err(e) => want is None && e.kind == RubyErrKind::NoMethod && e.loc == old(
                        self,
                    ).loc && e.message@ == "NoMethodError: '-'"@,
                }
            }),
    {
        match (lhs, rhs) {
            (Value::FixNum(a), Value::FixNum(b)) => Ok(Value::FixNum(a.wrapping_sub(b))),
            (_, _) => Err(self.error_nomethod("NoMethodError: '-'")),
        }
    }

    pub fn eval_mul(&mut self, rhs: Value, lhs: Value) -> (r: VMResult)
        ensures
            *final(self) == *old(self),
            ({
                let want = mul_result(lhs@, rhs@);
                match r {
                    Ok(v) => want == Some(v@),
                    Err(e) => want is None && e.kind == RubyErrKind::NoMethod && e.loc == old(
                        self,
                    ).loc && e.message@ == "NoMethodError: '*'"@,
                }
            }),
    {
        match (lhs, rhs) {
            (Value::FixNum(a), Value::FixNum(b)) => Ok(Value::FixNum(a.wrapping_mul(b))),
            (_, _) => Err(self.error_nomethod("NoMethodError: '*'")),
        }
    }

    pub fn eval_div(&mut self, rhs: Value, lhs: Value) -> (r: VMResult)
        ensures
            *final(self) == *old(self),
            ({
                let want = div_result(lhs@, rhs@);
                match r {
                    Ok(v) => want == Some(v@),
                    Err(e) => want is None && e.kind == RubyErrKind::NoMethod && e.loc == old(
                        self,
                    ).loc && e.message@ == "NoMethodError: '*'"@,
                }
            }),
    {
        match (lhs, rhs) {
            (Value::FixNum(a), Value::FixNum(b)) => {
                if b == 0 {
                    Err(self.error_nomethod("NoMethodError: '*'"))
                } else if a == i64::MIN && b == -1 {
                    Ok(Value::FixNum(i64::MIN))
                } else {
                    Ok(Value::FixNum(trunc_div(a, b)))
                }
            },
            (_, _) => Err(self.error_nomethod("NoMethodError: '*'")),
        }
    }

    pub fn eval_shl(&mut self, rhs: Value, lhs: Value) -> (r: VMResult)
        ensures
            *final(self) == *old(self),
            ({
                let want = shl_result(lhs@, rhs@);
                match r {
                    Ok(v) => want == Some(v@),
                    Err(e) => want is None && e.kind == RubyErrKind::NoMethod && e.loc == old(
                        self,
                    ).loc && e.message@ == "NoMethodError: '<<'"@,
                }
            }),
    {
        match (lhs, rhs) {
            (Value::FixNum(a), Value::FixNum(b)) => {
                let sh = (b & 63) as u32;
                Ok(Value::FixNum(a.wrapping_shl(sh)))
            },
            (_, _) => Err(self.error_nomethod("NoMethodError: '<<'")),
        }
    }

    pub fn eval_shr(&mut self, rhs: Value, lhs: Value) -> (r: VMResult)
        ensures
            *final(self) == *old(self),
            ({
                let want = shr_result(lhs@, rhs@);
                match r {
                    Ok(v) => want == Some(v@),
                    Err(e) => want is None && e.kind == RubyErrKind::NoMethod && e.loc == old(
                        self,
                    ).loc && e.message@ == "NoMethodError: '>>'"@,
                }
            }),
    {
        match (lhs, rhs) {
            (Value::FixNum(a), Value::FixNum(b)) => {
                let sh = (b & 63) as u32;
                Ok(Value::FixNum(a.wrapping_shr(sh)))
            },
            (_, _) => Err(self.error_nomethod("NoMethodError: '>>'")),
        }
    }

    pub fn eval_bitand(&mut self, rhs: Value, lhs: Value) -> (r: VMResult)
        ensures
            *final(self) == *old(self),
            ({
                let want = bitand_result(lhs@, rhs@);
                match r {
                    Ok(v) => want == Some(v@),
                    Err(e) => want is None && e.kind == RubyErrKind::NoMethod && e.loc == old(
                        self,
                    ).loc && e.message@ == "NoMethodError: '>>'"@,
                }
            }),
    {
        match (lhs, rhs) {
            (Value::FixNum(a), Value::FixNum(b)) => Ok(Value::FixNum(a & b)),
            (_, _) => Err(self.error_nomethod("NoMethodError: '>>'")),
        }
    }

    pub fn eval_bitor(&mut self, rhs: Value, lhs: Value) -> (r: VMResult)
        ensures
            *final(self) == *old(self),
            ({
                let want = bitor_result(lhs@, rhs@);
                match r {
                    Ok(v) => want == Some(v@),
                    Err(e) => want is None && e.kind == RubyErrKind::NoMethod && e.loc == old(
                        self,
                    ).loc && e.message@ == "NoMethodError: '>>'"@,
                }
            }),
    {
        match (lhs, rhs) {
            (Value::FixNum(a), Value::FixNum(b)) => Ok(Value::FixNum(a | b)),
            (_, _) => Err(self.error_nomethod("NoMethodError: '>>'")),
        }
    }

    pub fn eval_bitxor(&mut self, rhs: Value, lhs: Value) -> (r: VMResult)
        ensures
            *final(self) == *old(self),
            ({
                let want = bitxor_result(lhs@, rhs@);
                match r {
                    Ok(v) => want == Some(v@),
                    Err(e) => want is None && e.kind == RubyErrKind::NoMethod && e.loc == old(
                        self,
                    ).loc && e.message@ == "NoMethodError: '>>'"@,
                }
            }),
    {
        match (lhs, rhs) {
            (Value::FixNum(a), Value::FixNum(b)) => Ok(Value::FixNum(a ^ b)),
            (_, _) => Err(self.error_nomethod("NoMethodError: '>>'")),
        }
    }

    /// Structural equality over the `==` matrix; the error message for an
    /// unlike pair names both offending values.
    pub fn eval_eq(&mut self, rhs: Value, lhs: Value) -> (r: VMResult)
        ensures
            *final(self) == *old(self),
            ({
                let want = eq_values(lhs@, rhs@);
                match r {
                    Ok(v) => want matches Some(b) && v@ == ValueView::Bool(b),
                    Err(e) => want is None && e.kind == RubyErrKind::NoMethod && e.loc == old(
                        self,
                    ).loc && e.message@ == "NoMethodError: "@ + inspect_pair(lhs@, rhs@),
                }
            }),
    {
        match (&lhs, &rhs) {
            (Value::Nil, Value::Nil) => Ok(Value::Bool(true)),
            (Value::FixNum(a), Value::FixNum(b)) => Ok(Value::Bool(a == b)),
            (Value::Bool(a), Value::Bool(b)) => Ok(Value::Bool(a == b)),
            (Value::Str(a), Value::Str(b)) => Ok(Value::Bool(*a == *b)),
            (Value::Char(a), Value::Char(b)) => Ok(Value::Bool(a == b)),
            (Value::Class(a), Value::Class(b)) => Ok(Value::Bool(a == b)),
            (Value::Instance(a), Value::Instance(b)) => Ok(Value::Bool(a == b)),
            _ => {
                proof {
                    reveal_strlit("NoMethodError: ");
                    reveal_strlit(" == ");
                    assert("NoMethodError: "@ =~= seq![
                        'N',
                        'o',
                        'M',
                        'e',
                        't',
                        'h',
                        'o',
                        'd',
                        'E',
                        'r',
                        'r',
                        'o',
                        'r',
                        ':',
                        ' ',
                    ]);
                    assert(" == "@ =~= seq![' ', '=', '=', ' ']);
                }
                let mut msg = String::from_str("NoMethodError: ");
                let li = crate::value::inspect_string(&lhs);
                msg.append(li.as_str());
                msg.append(" == ");
                let ri = crate::value::inspect_string(&rhs);
                msg.append(ri.as_str());
                assert(msg@ =~= "NoMethodError: "@ + inspect_pair(lhs@, rhs@));
                Err(self.error_nomethod(msg.as_str()))
            },
        }
    }

    pub fn eval_neq(&mut self, rhs: Value, lhs: Value) -> (r: VMResult)
        ensures
            *final(self) == *old(self),
            ({
                let want = neq_values(lhs@, rhs@);
                match r {
                    Ok(v) => want matches Some(b) && v@ == ValueView::Bool(b),
                    Err(e) => want is None && e.kind == RubyErrKind::NoMethod && e.loc == old(
                        self,
                    ).loc && e.message@ == "NoMethodError: '!='"@,
                }
            }),
    {
        match (lhs, rhs) {
            (Value::Nil, Value::Nil) => Ok(Value::Bool(false)),
            (Value::FixNum(a), Value::FixNum(b)) => Ok(Value::Bool(a != b)),
            (Value::Bool(a), Value::Bool(b)) => Ok(Value::Bool(a != b)),
            (Value::Str(a), Value::Str(b)) => Ok(Value::Bool(!(a == b))),
            (Value::Char(a), Value::Char(b)) => Ok(Value::Bool(a != b)),
            (Value::Class(a), Value::Class(b)) => Ok(Value::Bool(a != b)),
            (Value::Instance(a), Value::Instance(b)) => Ok(Value::Bool(a != b)),
            (_, _) => Err(self.error_nomethod("NoMethodError: '!='")),
        }
    }

    pub fn eval_ge(&mut self, rhs: Value, lhs: Value) -> (r: VMResult)
        ensures
            *final(self) == *old(self),
            ({
                let want = ge_result(lhs@, rhs@);
                match r {
                    Ok(v) => want matches Some(b) && v@ == ValueView::Bool(b),
                    Err(e) => want is None && e.kind == RubyErrKind::NoMethod && e.loc == old(
                        self,
                    ).loc && e.message@ == "NoMethodError: '>='"@,
                }
            }),
    {
        match (lhs, rhs) {
            (Value::FixNum(a), Value::FixNum(b)) => Ok(Value::Bool(a >= b)),
            (_, _) => Err(self.error_nomethod("NoMethodError: '>='")),
        }
    }

    pub fn eval_gt(&mut self, rhs: Value, lhs: Value) -> (r: VMResult)
        ensures
            *final(self) == *old(self),
            ({
                let want = gt_result(lhs@, rhs@);
                match r {
                    Ok(v) => want matches Some(b) && v@ == ValueView::Bool(b),
                    Err(e) => want is None && e.kind == RubyErrKind::NoMethod && e.loc == old(
                        self,
                    ).loc && e.message@ == "NoMethodError: '>'"@,
                }
            }),
    {
        match (lhs, rhs) {
            (Value::FixNum(a), Value::FixNum(b)) => Ok(Value::Bool(a > b)),
            (_, _) => Err(self.error_nomethod("NoMethodError: '>'")),
        }
    }
}

/// The message payload naming an incomparable pair.
pub open spec fn inspect_pair(lhs: ValueView, rhs: ValueView) -> Seq<char> {
    crate::value::inspect_chars(lhs) + seq![' ', '=', '=', ' '] + crate::value::inspect_chars(rhs)
}

/// What execution never touches: the program, the tables compilation
/// built, and the compiler's own state.
pub open spec fn exec_keeps(pre: VM, post: VM) -> bool {
    &&& post.source_info == pre.source_info
    &&& post.ident_table == pre.ident_table
    &&& post.method_table == pre.method_table
    &&& post.lvar_table == pre.lvar_table
    &&& post.loop_stack == pre.loop_stack
    &&& post.loc == pre.loc
    &&& post.iseq == pre.iseq
}

/// A built-in that only writes output changes nothing else.
pub open spec fn same_but_output(pre: VM, post: VM) -> bool {
    &&& exec_keeps(pre, post)
    &&& post.const_table == pre.const_table
    &&& post.exec_stack == pre.exec_stack
    &&& post.lvar_stack == pre.lvar_stack
}

/// The views of a sequence of values.
pub open spec fn views_of(s: Seq<Value>) -> Seq<ValueView> {
    s.map_values(|v: Value| v@)
}

/// The bytes `puts` writes for its arguments: each one's display form,
/// UTF-8 encoded, followed by a newline.
pub open spec fn puts_output(vs: Seq<ValueView>) -> Seq<u8>
    decreases vs.len(),
{
    if vs.len() == 0 {
        Seq::empty()
    } else {
        vstd::utf8::encode_utf8(display_chars(vs[0])) + seq![10u8] + puts_output(vs.drop_first())
    }
}

/// The bytes `print` writes: a `Char` goes out as its raw byte, everything
/// else as its display form, with no separator.
pub open spec fn print_output(vs: Seq<ValueView>) -> Seq<u8>
    decreases vs.len(),
{
    if vs.len() == 0 {
        Seq::empty()
    } else {
        (match vs[0] {
            ValueView::Char(c) => seq![c],
            _ => vstd::utf8::encode_utf8(display_chars(vs[0])),
        }) + print_output(vs.drop_first())
    }
}

/// The byte `chr` answers for a receiver, if any: the low eight bits of a
/// fixnum.
pub open spec fn chr_result(v: ValueView) -> Option<u8> {
    match v {
        ValueView::FixNum(i) => Some((i & 0xff) as u8),
        _ => None,
    }
}

/// The abort message of a failed assertion, naming both values.
pub open spec fn assert_msg(a: ValueView, b: ValueView) -> Seq<char> {
    "Assertion error: Expected: "@ + crate::value::inspect_chars(a) + " Actual: "@
        + crate::value::inspect_chars(b)
}

/// The built-in `chr`: the low byte of a fixnum receiver as a `Char`.  Any
/// other receiver is answered with an error.
fn builtin_chr(eval: &mut VM, receiver: Value, _args: Vec<Value>) -> (r: VMResult)
    ensures
        *final(eval) == *old(eval),
        ({
            match chr_result(receiver@) {
                Some(c) => r matches Ok(v) && v@ == ValueView::Char(c),
                None => r matches Err(e) && e.kind == RubyErrKind::Unimplemented && e.message@
                    == "chr is not supported for this receiver."@ && e.loc == old(eval).loc,
            }
        }),
{
    match receiver {
        Value::FixNum(i) => Ok(Value::Char((i & 0xff) as u8)),
        _ => Err(eval.error_unimplemented("chr is not supported for this receiver.")),
    }
}

/// The built-in `puts`: appends each argument's display form and a newline
/// to the machine's output buffer.
fn builtin_puts(eval: &mut VM, _receiver: Value, args: Vec<Value>) -> (r: VMResult)
    ensures
        same_but_output(*old(eval), *final(eval)),
        final(eval).output@ == old(eval).output@ + puts_output(views_of(args@)),
        r matches Ok(v) && v@ == ValueView::Nil,
{
    let n = args.len();
    proof {
        assert(views_of(args@.subrange(0, n as int)) =~= views_of(args@));
        assert(views_of(args@.subrange(n as int, n as int)) =~= Seq::<ValueView>::empty());
    }
    let mut i: usize = 0;
    #[verifier::loop_isolation(false)]
    while i < n
        invariant
            i <= n,
            same_but_output(*old(eval), *eval),
            eval.output@ + puts_output(views_of(args@.subrange(i as int, n as int))) == old(
                eval,
            ).output@ + puts_output(views_of(args@)),
        decreases n - i,
    {
        proof {
            assert(views_of(args@.subrange(i as int, n as int))[0] == args@[i as int]@);
            assert(views_of(args@.subrange(i as int, n as int)).drop_first() =~= views_of(
                args@.subrange(i + 1, n as int),
            ));
        }
        let s = crate::value::display_string(&args[i]);
        let mut bs = s.as_str().as_bytes_vec();
        eval.output.append(&mut bs);
        eval.output.push(10);
        proof {
            assert(eval.output@ + puts_output(views_of(args@.subrange(i + 1, n as int))) =~= old(
                eval,
            ).output@ + puts_output(views_of(args@)));
        }
        i += 1;
    }
    proof {
        assert(eval.output@ =~= old(eval).output@ + puts_output(views_of(args@)));
    }
    Ok(Value::Nil)
}

/// The built-in `print`: appends each argument without separators; a
/// `Char` goes out as its single raw byte.
fn builtin_print(eval: &mut VM, _receiver: Value, args: Vec<Value>) -> (r: VMResult)
    ensures
        same_but_output(*old(eval), *final(eval)),
        final(eval).output@ == old(eval).output@ + print_output(views_of(args@)),
        r matches Ok(v) && v@ == ValueView::Nil,
{
    let n = args.len();
    proof {
        assert(views_of(args@.subrange(0, n as int)) =~= views_of(args@));
        assert(views_of(args@.subrange(n as int, n as int)) =~= Seq::<ValueView>::empty());
    }
    let mut i: usize = 0;
    #[verifier::loop_isolation(false)]
    while i < n
        invariant
            i <= n,
            same_but_output(*old(eval), *eval),
            eval.output@ + print_output(views_of(args@.subrange(i as int, n as int))) == old(
                eval,
            ).output@ + print_output(views_of(args@)),
        decreases n - i,
    {
        proof {
            assert(views_of(args@.subrange(i as int, n as int))[0] == args@[i as int]@);
            assert(views_of(args@.subrange(i as int, n as int)).drop_first() =~= views_of(
                args@.subrange(i + 1, n as int),
            ));
        }
        let is_char = match &args[i] {
            Value::Char(_) => true,
            _ => false,
        };
        if is_char {
            let c = match &args[i] {
                Value::Char(c) => *c,
                _ => unreached(),
            };
            eval.output.push(c);
        } else {
            let s = crate::value::display_string(&args[i]);
            let mut bs = s.as_str().as_bytes_vec();
            eval.output.append(&mut bs);
        }
        proof {
            assert(eval.output@ + print_output(views_of(args@.subrange(i + 1, n as int))) =~= old(
                eval,
            ).output@ + print_output(views_of(args@)));
        }
        i += 1;
    }
    proof {
        assert(eval.output@ =~= old(eval).output@ + print_output(views_of(args@)));
    }
    Ok(Value::Nil)
}

/// The built-in `assert`: exactly two arguments; equal ones (by the `==`
/// matrix) answer `Nil`, unequal ones come back as an `Assertion` outcome,
/// on which the embedder is expected to abort the host with the message.
fn builtin_assert(eval: &mut VM, _receiver: Value, args: Vec<Value>) -> (r: VMResult)
    ensures
        *final(eval) == *old(eval),
        ({
            if args@.len() != 2 {
                r matches Err(e) && e.kind == RubyErrKind::Assertion && e.message@
                    == "Invalid number of arguments."@ && e.loc == old(eval).loc
            } else {
                match eq_values(args@[1]@, args@[0]@) {
                    None => r matches Err(e) && e.kind == RubyErrKind::NoMethod && e.message@
                        == "NoMethodError: "@ + inspect_pair(args@[1]@, args@[0]@) && e.loc == old(
                        eval,
                    ).loc,
                    Some(true) => r matches Ok(v) && v@ == ValueView::Nil,
                    Some(false) => r matches Err(e) && e.kind == RubyErrKind::Assertion
                        && e.message@ == assert_msg(args@[0]@, args@[1]@) && e.loc == old(
                        eval,
                    ).loc,
                }
            }
        }),
{
    if args.len() != 2 {
        let l = eval.loc;
        return Err(
            crate::error::RubyError::new(
                RubyErrKind::Assertion,
                String::from_str("Invalid number of arguments."),
                l,
            ),
        );
    }
    let a0 = args[0].clone();
    let a1 = args[1].clone();
    let cmp = eval.eval_eq(a0, a1)?;
    match cmp {
        Value::Bool(true) => Ok(Value::Nil),
        _ => {
            let mut msg = String::from_str("Assertion error: Expected: ");
            let ia = crate::value::inspect_string(&args[0]);
            msg.append(ia.as_str());
            msg.append(" Actual: ");
            let ib = crate::value::inspect_string(&args[1]);
            msg.append(ib.as_str());
            assert(msg@ =~= assert_msg(args@[0]@, args@[1]@));
            let l = eval.loc;
            Err(crate::error::RubyError::new(RubyErrKind::Assertion, msg, l))
        },
    }
}


/// An interning step leaves the table a prefix of the new one.
proof fn lemma_grown_prefix(t1: Seq<Seq<char>>, t2: Seq<Seq<char>>, name: Seq<char>)
    requires
        t2 == t1 || t2 == t1.push(name),
    ensures
        t1.len() <= t2.len(),
        t2.subrange(0, t1.len() as int) == t1,
{
    assert(t2.subrange(0, t1.len() as int) =~= t1);
}

/// A built-in method is registered in the machine under `name`.
pub open spec fn registered(vm: VM, name: Seq<char>, f: BuiltinId) -> bool {
    &&& vm.ident_table@.contains(name)
    &&& assoc_lookup(
        vm.method_table@,
        IdentId(interned_id(vm.ident_table@, name) as u32),
    ) == Some(MethodInfoView::Builtin(f))
}

impl VM {
    /// Populates the method table with the host-implemented built-ins:
    /// `chr`, `puts`, `print` and `assert`.
    pub fn init_builtin(&mut self)
        requires
            old(self).inv(),
            old(self).ident_table@.len() + 4 < 0x1_0000_0000,
        ensures
            final(self).inv(),
            crate::codegen::keeps_prefix(old(self).ident_table@, final(self).ident_table@),
            final(self).ident_table@.len() <= old(self).ident_table@.len() + 4,
            registered(*final(self), "chr"@, BuiltinId::Chr),
            registered(*final(self), "puts"@, BuiltinId::Puts),
            registered(*final(self), "print"@, BuiltinId::Print),
            registered(*final(self), "assert"@, BuiltinId::AssertEqual),
            final(self).source_info == old(self).source_info,
            final(self).const_table == old(self).const_table,
            final(self).loop_stack == old(self).loop_stack,
            final(self).lvar_table == old(self).lvar_table,
            final(self).loc == old(self).loc,
            final(self).iseq == old(self).iseq,
            final(self).lvar_stack == old(self).lvar_stack,
            final(self).exec_stack == old(self).exec_stack,
            final(self).output == old(self).output,
    {
        proof {
            reveal_strlit("chr");
            reveal_strlit("puts");
            reveal_strlit("print");
            reveal_strlit("assert");
        }
        let name_chr = String::from_str("chr");
        let id_chr = self.ident_table.get_ident_id(&name_chr);
        self.method_table.insert(
            id_chr,
            MethodInfo::BuiltinFunc { name: String::from_str("chr"), func: BuiltinId::Chr },
        );
        let ghost s1 = *self;
        let name_puts = String::from_str("puts");
        let id_puts = self.ident_table.get_ident_id(&name_puts);
        self.method_table.insert(
            id_puts,
            MethodInfo::BuiltinFunc { name: String::from_str("puts"), func: BuiltinId::Puts },
        );
        let ghost s2 = *self;
        let name_print = String::from_str("print");
        let id_print = self.ident_table.get_ident_id(&name_print);
        self.method_table.insert(
            id_print,
            MethodInfo::BuiltinFunc { name: String::from_str("print"), func: BuiltinId::Print },
        );
        let ghost s3 = *self;
        let name_assert = String::from_str("assert");
        let id_assert = self.ident_table.get_ident_id(&name_assert);
        self.method_table.insert(
            id_assert,
            MethodInfo::BuiltinFunc {
                name: String::from_str("assert"),
                func: BuiltinId::AssertEqual,
            },
        );
        proof {
            let t0 = old(self).ident_table@;
            let t1 = s1.ident_table@;
            let t2 = s2.ident_table@;
            let t3 = s3.ident_table@;
            let t4 = final(self).ident_table@;
            assert("chr"@.len() == 3 && "puts"@.len() == 4 && "print"@.len() == 5 && "assert"@.len()
                == 6);
            lemma_grown_prefix(t0, t1, "chr"@);
            lemma_grown_prefix(t1, t2, "puts"@);
            lemma_grown_prefix(t2, t3, "print"@);
            lemma_grown_prefix(t3, t4, "assert"@);
            crate::codegen::lemma_keeps_prefix_trans(t0, t1, t2);
            crate::codegen::lemma_keeps_prefix_trans(t0, t2, t3);
            crate::codegen::lemma_keeps_prefix_trans(t0, t3, t4);
            crate::codegen::lemma_keeps_prefix_trans(t1, t2, t3);
            crate::codegen::lemma_keeps_prefix_trans(t1, t3, t4);
            crate::codegen::lemma_keeps_prefix_trans(t2, t3, t4);
            assert(t4.subrange(0, t1.len() as int)[id_chr.0 as int] == t1[id_chr.0 as int]);
            assert(t4[id_chr.0 as int] == "chr"@);
            assert(t4.subrange(0, t2.len() as int)[id_puts.0 as int] == t2[id_puts.0 as int]);
            assert(t4[id_puts.0 as int] == "puts"@);
            assert(t4.subrange(0, t3.len() as int)[id_print.0 as int] == t3[id_print.0 as int]);
            assert(t4[id_print.0 as int] == "print"@);
            assert(t4[id_assert.0 as int] == "assert"@);
            assert(id_chr != id_puts && id_chr != id_print && id_chr != id_assert);
            assert(id_puts != id_print && id_puts != id_assert && id_print != id_assert);
            lemma_interned_id_stable(t1, t4, "chr"@);
            lemma_interned_id_stable(t2, t4, "puts"@);
            lemma_interned_id_stable(t3, t4, "print"@);
            let mt = final(self).method_table@;
            let m3 = s3.method_table@;
            let m2 = s2.method_table@;
            let m1 = s1.method_table@;
            assert(mt[0] == (id_assert, MethodInfoView::Builtin(BuiltinId::AssertEqual)));
            assert(m3[0] == (id_print, MethodInfoView::Builtin(BuiltinId::Print)));
            assert(m2[0] == (id_puts, MethodInfoView::Builtin(BuiltinId::Puts)));
            assert(m1[0] == (id_chr, MethodInfoView::Builtin(BuiltinId::Chr)));
            assert(mt.drop_first() =~= m3);
            assert(m3.drop_first() =~= m2);
            assert(m2.drop_first() =~= m1);
            assert(assoc_lookup(mt, id_assert) == Some(
                MethodInfoView::Builtin(BuiltinId::AssertEqual),
            ));
            assert(assoc_lookup(mt, id_print) == assoc_lookup(m3, id_print));
            assert(assoc_lookup(m3, id_print) == Some(MethodInfoView::Builtin(BuiltinId::Print)));
            assert(assoc_lookup(mt, id_puts) == assoc_lookup(m3, id_puts));
            assert(assoc_lookup(m3, id_puts) == assoc_lookup(m2, id_puts));
            assert(assoc_lookup(m2, id_puts) == Some(MethodInfoView::Builtin(BuiltinId::Puts)));
            assert(assoc_lookup(mt, id_chr) == assoc_lookup(m3, id_chr));
            assert(assoc_lookup(m3, id_chr) == assoc_lookup(m2, id_chr));
            assert(assoc_lookup(m2, id_chr) == assoc_lookup(m1, id_chr));
            assert(assoc_lookup(m1, id_chr) == Some(MethodInfoView::Builtin(BuiltinId::Chr)));
        }
    }
}

/// The signed reading of a displacement word.
fn signed_of(w: u32) -> (d: i64)
    ensures
        d == crate::encoding::signed32(w),
{
    if w < 0x8000_0000 {
        w as i64
    } else {
        (w as i64) - 0x1_0000_0000
    }
}

/// The fixnum whose two's-complement bit pattern an immediate word carries.
pub open spec fn i64_of_u64(w: u64) -> i64 {
    if w < 0x8000_0000_0000_0000 {
        w as i64
    } else {
        (w - 0x1_0000_0000_0000_0000) as i64
    }
}

fn fixnum_of_word(w: u64) -> (i: i64)
    ensures
        i == i64_of_u64(w),
{
    if w < 0x8000_0000_0000_0000 {
        w as i64
    } else {
        ((w as i128) - 0x1_0000_0000_0000_0000) as i64
    }
}

impl VM {
    /// Compiles `node` into a fresh, `END`-terminated instruction vector
    /// and executes it.  A malformed tree comes back as the compiler's
    /// syntax error with nothing executed; otherwise the result is what
    /// the small-step semantics yields for the compiled program — pinned
    /// all the way down to the arithmetic for a number literal and for an
    /// addition over a product of literals.
    #[verifier::rlimit(100)]
    pub fn run(&mut self, node: &Node) -> (r: VMResult)
        requires
            old(self).inv(),
            gen_pre(*node, old(self).lvar_table.entries@),
            emit_size(*node) + 1 < 0x8000_0000,
            old(self).ident_table@.len() + emit_size(*node) < 0x1_0000_0000,
        ensures
            final(self).inv(),
            !syntax_ok(*node, old(self).loop_stack@.len() > 0) ==> r is Err
                && r->Err_0.kind == crate::error::RubyErrKind::SyntaxError && final(self).output@
                == old(self).output@,
            syntax_ok(*node, old(self).loop_stack@.len() > 0) ==> {
                &&& final(self).iseq@.len() == emit_size(*node) + 1
                &&& final(self).iseq@.last() == Inst::END
                &&& crate::codegen::keeps_prefix(old(self).output@, final(self).output@)
            },
            syntax_ok(*node, old(self).loop_stack@.len() > 0) ==> ({
                ||| exists|n: nat|
                    runs_to(*final(self), state_of(*old(self), 0), n) == Some(result_view(r))
                ||| (r matches Err(e) && e.kind == RubyErrKind::Unimplemented && e.message@
                    == "Step budget exhausted."@ && forall|n: nat|
                    n <= u128::MAX ==> runs_to(*final(self), state_of(*old(self), 0), n) is None)
            }),
            node.kind matches NodeKind::Number(k) ==> r matches Ok(v) && v@ == ValueView::FixNum(
                k,
            ),
            node.kind matches NodeKind::BinOp(op, l, r0) ==> (l.kind matches NodeKind::Number(av)
                ==> (r0.kind matches NodeKind::BinOp(op2, l2, r2) ==> (l2.kind matches
                NodeKind::Number(bv) ==> (r2.kind matches NodeKind::Number(cv) ==> ((op
                == BinOp::Add && op2 == BinOp::Mul) ==> (r matches Ok(v) && v@
                == ValueView::FixNum(av.wrapping_add(bv.wrapping_mul(cv))))))))),
    {
        self.iseq.clear();
        match self.gen(node) {
            Ok(_) => {},
            Err(e) => {
                proof {
                    match &node.kind {
                        NodeKind::Number(k) => {
                            assert(syntax_ok(*node, old(self).loop_stack@.len() > 0));
                        },
                        NodeKind::BinOp(op, l, r0) => {
                            match (&l.kind, &r0.kind) {
                                (NodeKind::Number(av0), NodeKind::BinOp(op2, l2, r2)) => {
                                    match (&l2.kind, &r2.kind) {
                                        (NodeKind::Number(bv0), NodeKind::Number(cv0)) => {
                                            let in_loop = old(self).loop_stack@.len() > 0;
                                            assert(syntax_ok(**l, in_loop));
                                            assert(syntax_ok(**l2, in_loop));
                                            assert(syntax_ok(**r2, in_loop));
                                            assert(syntax_ok(**r0, in_loop));
                                            assert(syntax_ok(*node, in_loop));
                                        },
                                        _ => {},
                                    }
                                },
                                _ => {},
                            }
                        },
                        _ => {},
                    }
                }
                return Err(e);
            },
        }
        self.iseq.push(Inst::END);
        proof {
            crate::codegen::lemma_keeps_prefix_refl(old(self).output@);
        }
        let ghost pre_run = *self;
        let res = self.vm_run();
        proof {
            assert(state_of(pre_run, 0) == state_of(*old(self), 0));
            match &node.kind {
                NodeKind::Number(k) => {
                    assert(pre_run.iseq@ =~= seq![Inst::PUSH_FIXNUM] + crate::encoding::be64(
                        crate::codegen::u64_of_i64(*k),
                    ) + seq![Inst::END]);
                    crate::semantics::lemma_literal_program_runs(
                        pre_run,
                        state_of(pre_run, 0),
                        *k,
                    );
                },
                NodeKind::BinOp(op, l, r0) => {
                    if *op == BinOp::Add {
                        match (&l.kind, &r0.kind) {
                            (NodeKind::Number(av0), NodeKind::BinOp(op2, l2, r2)) => {
                                let av = *av0;
                                if *op2 == BinOp::Mul {
                                    match (&l2.kind, &r2.kind) {
                                        (NodeKind::Number(bv0), NodeKind::Number(cv0)) => {
                                            let bv = *bv0;
                                            let cv = *cv0;
                                            let t0 = old(self).lvar_table.entries@;
                                            assert(crate::codegen::plain_tree(**l));
                                            assert(crate::codegen::plain_tree(**l2));
                                            assert(crate::codegen::plain_tree(**r2));
                                            assert(crate::codegen::plain_tree(**r0));
                                            assert(crate::codegen::plain_tree(*node));
                                            assert(crate::codegen::emit_bytes(**l, t0) == seq![
                                                Inst::PUSH_FIXNUM,
                                            ] + crate::encoding::be64(
                                                crate::codegen::u64_of_i64(av),
                                            ));
                                            assert(crate::codegen::emit_bytes(**l2, t0) == seq![
                                                Inst::PUSH_FIXNUM,
                                            ] + crate::encoding::be64(
                                                crate::codegen::u64_of_i64(bv),
                                            ));
                                            assert(crate::codegen::emit_bytes(**r2, t0) == seq![
                                                Inst::PUSH_FIXNUM,
                                            ] + crate::encoding::be64(
                                                crate::codegen::u64_of_i64(cv),
                                            ));
                                            assert(crate::codegen::emit_bytes(**r0, t0)
                                                == crate::codegen::emit_bytes(**l2, t0)
                                                + crate::codegen::emit_bytes(**r2, t0) + seq![
                                                Inst::MUL,
                                            ]);
                                            assert(crate::codegen::emit_bytes(*node, t0)
                                                == crate::codegen::emit_bytes(**l, t0)
                                                + crate::codegen::emit_bytes(**r0, t0) + seq![
                                                Inst::ADD,
                                            ]);
                                            assert(pre_run.iseq@ =~= seq![Inst::PUSH_FIXNUM]
                                                + crate::encoding::be64(
                                                crate::codegen::u64_of_i64(av),
                                            ) + seq![Inst::PUSH_FIXNUM] + crate::encoding::be64(
                                                crate::codegen::u64_of_i64(bv),
                                            ) + seq![Inst::PUSH_FIXNUM] + crate::encoding::be64(
                                                crate::codegen::u64_of_i64(cv),
                                            ) + seq![Inst::MUL] + seq![Inst::ADD] + seq![
                                                Inst::END,
                                            ]);
                                            crate::semantics::lemma_sum_product_program_runs(
                                                pre_run,
                                                state_of(pre_run, 0),
                                                av,
                                                bv,
                                                cv,
                                            );
                                        },
                                        _ => {},
                                    }
                                }
                            },
                            _ => {},
                        }
                    }
                },
                _ => {},
            }
            if exists|n: nat|
                runs_to(pre_run, state_of(pre_run, 0), n) == Some(result_view(res)) {
                let n = choose|n: nat|
                    runs_to(pre_run, state_of(pre_run, 0), n) == Some(result_view(res));
                crate::semantics::lemma_runs_to_base_agrees(
                    pre_run,
                    *self,
                    state_of(pre_run, 0),
                    n,
                );
                assert(runs_to(*self, state_of(*old(self), 0), n) == Some(result_view(res)));
                match &node.kind {
                    NodeKind::Number(k) => {
                        crate::semantics::lemma_runs_to_agree(pre_run, state_of(pre_run, 0), n, 2);
                        assert(result_view(res) == Ok::<ValueView, crate::semantics::ErrView>(
                            ValueView::FixNum(*k),
                        ));
                    },
                    NodeKind::BinOp(op, l, r0) => {
                        if runs_to(pre_run, state_of(pre_run, 0), 6) is Some {
                            crate::semantics::lemma_runs_to_agree(
                                pre_run,
                                state_of(pre_run, 0),
                                n,
                                6,
                            );
                            assert(Some(result_view(res)) == runs_to(
                                pre_run,
                                state_of(pre_run, 0),
                                6,
                            ));
                        }
                    },
                    _ => {},
                }
            } else {
                assert forall|n: nat|
                    n <= u128::MAX implies runs_to(*self, state_of(*old(self), 0), n) is None by {
                    crate::semantics::lemma_runs_to_base_agrees(
                        pre_run,
                        *self,
                        state_of(pre_run, 0),
                        n,
                    );
                }
            }
        }
        res
    }
}

/// The opcodes of the two-operand family.
pub open spec fn is_binop_opcode(op: u8) -> bool {
    ||| op == Inst::ADD
    ||| op == Inst::SUB
    ||| op == Inst::MUL
    ||| op == Inst::DIV
    ||| op == Inst::SHR
    ||| op == Inst::SHL
    ||| op == Inst::BIT_AND
    ||| op == Inst::BIT_OR
    ||| op == Inst::BIT_XOR
    ||| op == Inst::EQ
    ||| op == Inst::NE
    ||| op == Inst::GT
    ||| op == Inst::GE
}

impl VM {
    /// One step of a value push: the flag and nil pushes, `PUSH_SELF` —
    /// which pushes `Nil`, the core not modelling `self` — and the two
    /// immediate pushes.
    fn step_push(&mut self, pc: usize, Ghost(base): Ghost<VM>) -> (r: Result<usize, RubyError>)
        requires
            old(self).inv(),
            exec_keeps(base, *old(self)),
            base.iseq@.len() < 0x8000_0000,
            pc < base.iseq@.len(),
            base.iseq@[pc as int] == Inst::PUSH_NIL || base.iseq@[pc as int] == Inst::PUSH_TRUE
                || base.iseq@[pc as int] == Inst::PUSH_FALSE || base.iseq@[pc as int]
                == Inst::PUSH_SELF || base.iseq@[pc as int] == Inst::PUSH_FIXNUM
                || base.iseq@[pc as int] == Inst::PUSH_FLONUM,
        ensures
            stepped(base, *old(self), pc as int, *final(self), r),
    {
        proof {
            crate::codegen::lemma_keeps_prefix_refl(old(self).output@);
        }
        let ghost hs = state_of(*old(self), pc as int);
        let op = self.iseq[pc];
        let len = self.iseq.len();
        if op == Inst::PUSH_NIL || op == Inst::PUSH_TRUE || op == Inst::PUSH_FALSE || op
            == Inst::PUSH_SELF {
            let v = if op == Inst::PUSH_TRUE {
                Value::Bool(true)
            } else if op == Inst::PUSH_FALSE {
                Value::Bool(false)
            } else {
                Value::Nil
            };
            let ghost gv = v;
            self.exec_stack.push(v);
            proof {
                lemma_views_push(old(self).exec_stack@, gv);
                assert(state_of(*self, pc + 1) =~= (StateView {
                    pc: pc as int + 1,
                    stack: hs.stack.push(gv@),
                    ..hs
                }));
                assert(step(base, hs) == StepOutcome::Next(state_of(*self, pc + 1)));
            }
            Ok(pc + 1)
        } else {
            if pc + 9 > len {
                let e = self.error_unimplemented("Illegal instruction.");
                proof {
                    assert(step(base, hs) == StepOutcome::Done(Err(err_view(e))));
                }
                return Err(e);
            }
            let w = crate::encoding::read64(&self.iseq, pc + 1);
            let v = if op == Inst::PUSH_FIXNUM {
                Value::FixNum(fixnum_of_word(w))
            } else {
                Value::FloatNum(w)
            };
            let ghost gv = v;
            self.exec_stack.push(v);
            proof {
                lemma_views_push(old(self).exec_stack@, gv);
                assert(state_of(*self, pc + 9) =~= (StateView {
                    pc: pc as int + 9,
                    stack: hs.stack.push(gv@),
                    ..hs
                }));
                assert(step(base, hs) == StepOutcome::Next(state_of(*self, pc + 9)));
            }
            Ok(pc + 9)
        }
    }

    /// One step of `PUSH_STRING`: the interned name under the operand id,
    /// pushed as a string value.
    fn step_push_string(&mut self, pc: usize, Ghost(base): Ghost<VM>) -> (r: Result<
        usize,
        RubyError,
    >)
        requires
            old(self).inv(),
            exec_keeps(base, *old(self)),
            base.iseq@.len() < 0x8000_0000,
            pc < base.iseq@.len(),
            base.iseq@[pc as int] == Inst::PUSH_STRING,
        ensures
            stepped(base, *old(self), pc as int, *final(self), r),
    {
        proof {
            crate::codegen::lemma_keeps_prefix_refl(old(self).output@);
        }
        let ghost hs = state_of(*old(self), pc as int);
        let len = self.iseq.len();
        if pc + 5 > len {
            let e = self.error_unimplemented("Illegal instruction.");
            proof {
                assert(step(base, hs) == StepOutcome::Done(Err(err_view(e))));
            }
            return Err(e);
        }
        let id = crate::encoding::read32(&self.iseq, pc + 1);
        if (id as usize) >= self.ident_table.len() {
            let e = self.error_unimplemented("Illegal instruction.");
            proof {
                assert(step(base, hs) == StepOutcome::Done(Err(err_view(e))));
            }
            return Err(e);
        }
        let string = self.ident_table.get_name(IdentId(id)).clone();
        let ghost gv = Value::Str(string);
        proof {
            assert(gv@ == ValueView::Str(base.ident_table@[id as int]));
        }
        self.exec_stack.push(Value::Str(string));
        proof {
            lemma_views_push(old(self).exec_stack@, gv);
            assert(state_of(*self, pc + 5) =~= (StateView {
                pc: pc as int + 5,
                stack: hs.stack.push(gv@),
                ..hs
            }));
            assert(step(base, hs) == StepOutcome::Next(state_of(*self, pc + 5)));
        }
        Ok(pc + 5)
    }
}


impl VM {
    /// One step of a two-operand instruction: both operands leave the
    /// stack and the result enters it, or the offending pair comes back as
    /// the operator's error.
    #[verifier::rlimit(50)]
    fn step_binop(&mut self, pc: usize, Ghost(base): Ghost<VM>) -> (r: Result<usize, RubyError>)
        requires
            old(self).inv(),
            exec_keeps(base, *old(self)),
            base.iseq@.len() < 0x8000_0000,
            pc < base.iseq@.len(),
            is_binop_opcode(base.iseq@[pc as int]),
        ensures
            stepped(base, *old(self), pc as int, *final(self), r),
    {
        proof {
            crate::codegen::lemma_keeps_prefix_refl(old(self).output@);
        }
        let ghost hs = state_of(*old(self), pc as int);
        let op = self.iseq[pc];
        let lhs = match self.exec_stack.pop() {
            Some(v) => v,
            None => {
                let e = self.error_unimplemented("Stack underflow.");
                proof {
                    assert(step(base, hs) == StepOutcome::Done(Err(err_view(e))));
                }
                return Err(e);
            },
        };
        let rhs = match self.exec_stack.pop() {
            Some(v) => v,
            None => {
                let e = self.error_unimplemented("Stack underflow.");
                proof {
                    lemma_views_drop_last(old(self).exec_stack@);
                    assert(step(base, hs) == StepOutcome::Done(Err(err_view(e))));
                }
                return Err(e);
            },
        };
        let ghost glhs = lhs;
        let ghost grhs = rhs;
        proof {
            lemma_views_drop_last(old(self).exec_stack@);
            lemma_views_drop_last(old(self).exec_stack@.drop_last());
            assert(glhs@ == hs.stack[hs.stack.len() - 1]);
            assert(grhs@ == hs.stack[hs.stack.len() - 2]);
            assert(views_of(self.exec_stack@) == hs.stack.drop_last().drop_last());
        }
        let res = if op == Inst::ADD {
            self.eval_add(lhs, rhs)
        } else if op == Inst::SUB {
            self.eval_sub(lhs, rhs)
        } else if op == Inst::MUL {
            self.eval_mul(lhs, rhs)
        } else if op == Inst::DIV {
            self.eval_div(lhs, rhs)
        } else if op == Inst::SHR {
            self.eval_shr(lhs, rhs)
        } else if op == Inst::SHL {
            self.eval_shl(lhs, rhs)
        } else if op == Inst::BIT_AND {
            self.eval_bitand(lhs, rhs)
        } else if op == Inst::BIT_OR {
            self.eval_bitor(lhs, rhs)
        } else if op == Inst::BIT_XOR {
            self.eval_bitxor(lhs, rhs)
        } else if op == Inst::EQ {
            self.eval_eq(lhs, rhs)
        } else if op == Inst::NE {
            self.eval_neq(lhs, rhs)
        } else if op == Inst::GT {
            self.eval_gt(lhs, rhs)
        } else {
            self.eval_ge(lhs, rhs)
        };
        match res {
            Ok(v) => {
                let ghost gv = v;
                let ghost mid = self.exec_stack@;
                self.exec_stack.push(v);
                proof {
                    lemma_views_push(mid, gv);
                    assert(state_of(*self, pc + 1) =~= (StateView {
                        pc: pc as int + 1,
                        stack: hs.stack.drop_last().drop_last().push(gv@),
                        ..hs
                    }));
                    assert(step(base, hs) == StepOutcome::Next(state_of(*self, pc + 1)));
                }
                Ok(pc + 1)
            },
            Err(e) => {
                proof {
                    assert(step(base, hs) == StepOutcome::Done(Err(err_view(e))));
                }
                Err(e)
            },
        }
    }

    /// One step of `SET_LOCAL`: the top of stack is peeked — not popped —
    /// into the named slot of the active frame, which grows with `Nil`s if
    /// the slot lies past its end.
    fn step_set_local(&mut self, pc: usize, Ghost(base): Ghost<VM>) -> (r: Result<
        usize,
        RubyError,
    >)
        requires
            old(self).inv(),
            exec_keeps(base, *old(self)),
            base.iseq@.len() < 0x8000_0000,
            pc < base.iseq@.len(),
            base.iseq@[pc as int] == Inst::SET_LOCAL,
        ensures
            stepped(base, *old(self), pc as int, *final(self), r),
    {
        proof {
            crate::codegen::lemma_keeps_prefix_refl(old(self).output@);
        }
        let ghost hs = state_of(*old(self), pc as int);
        let len = self.iseq.len();
        if pc + 5 > len {
            let e = self.error_unimplemented("Illegal instruction.");
            proof {
                assert(step(base, hs) == StepOutcome::Done(Err(err_view(e))));
            }
            return Err(e);
        }
        let id = crate::encoding::read32(&self.iseq, pc + 1) as usize;
        let n = self.exec_stack.len();
        if n == 0 {
            let e = self.error_unimplemented("Stack underflow.");
            proof {
                assert(step(base, hs) == StepOutcome::Done(Err(err_view(e))));
            }
            return Err(e);
        }
        let val = self.exec_stack[n - 1].clone();
        let ghost gval = val;
        proof {
            assert(gval@ == hs.stack.last());
        }
        let fl = self.lvar_stack.len();
        let ghost old_frame = self.lvar_stack@.last()@;
        let frame = &mut self.lvar_stack[fl - 1];
        while frame.len() <= id
            invariant
                old_frame.len() <= frame@.len(),
                frame@.len() <= id + 1 || frame@.len() == old_frame.len(),
                frame@.subrange(0, old_frame.len() as int) == old_frame,
                forall|j: int| old_frame.len() <= j < frame@.len() ==> frame@[j] == Value::Nil,
            decreases id + 1 - frame@.len(),
        {
            let ghost before = frame@;
            frame.push(Value::Nil);
            proof {
                assert(frame@.subrange(0, old_frame.len() as int) =~= before.subrange(
                    0,
                    old_frame.len() as int,
                ));
            }
        }
        frame[id] = val;
        proof {
            let grown = if hs.frame.len() <= id {
                hs.frame + Seq::new((id + 1 - hs.frame.len()) as nat, |j: int| ValueView::Nil)
            } else {
                hs.frame
            };
            assert(views_of(self.lvar_stack@.last()@) =~= grown.update(id as int, hs.stack.last()));
            assert(state_of(*self, pc + 5) =~= (StateView {
                pc: pc as int + 5,
                frame: grown.update(id as int, hs.stack.last()),
                ..hs
            }));
            assert(step(base, hs) == StepOutcome::Next(state_of(*self, pc + 5)));
        }
        Ok(pc + 5)
    }

    /// One step of `GET_LOCAL`: the named slot of the active frame is
    /// cloned onto the stack.
    fn step_get_local(&mut self, pc: usize, Ghost(base): Ghost<VM>) -> (r: Result<
        usize,
        RubyError,
    >)
        requires
            old(self).inv(),
            exec_keeps(base, *old(self)),
            base.iseq@.len() < 0x8000_0000,
            pc < base.iseq@.len(),
            base.iseq@[pc as int] == Inst::GET_LOCAL,
        ensures
            stepped(base, *old(self), pc as int, *final(self), r),
    {
        proof {
            crate::codegen::lemma_keeps_prefix_refl(old(self).output@);
        }
        let ghost hs = state_of(*old(self), pc as int);
        let len = self.iseq.len();
        if pc + 5 > len {
            let e = self.error_unimplemented("Illegal instruction.");
            proof {
                assert(step(base, hs) == StepOutcome::Done(Err(err_view(e))));
            }
            return Err(e);
        }
        let id = crate::encoding::read32(&self.iseq, pc + 1) as usize;
        let fl = self.lvar_stack.len();
        if id >= self.lvar_stack[fl - 1].len() {
            let e = self.error_unimplemented("Illegal instruction.");
            proof {
                assert(step(base, hs) == StepOutcome::Done(Err(err_view(e))));
            }
            return Err(e);
        }
        let val = self.lvar_stack[fl - 1][id].clone();
        let ghost gval = val;
        self.exec_stack.push(val);
        proof {
            assert(gval@ == hs.frame[id as int]);
            lemma_views_push(old(self).exec_stack@, gval);
            assert(state_of(*self, pc + 5) =~= (StateView {
                pc: pc as int + 5,
                stack: hs.stack.push(hs.frame[id as int]),
                ..hs
            }));
            assert(step(base, hs) == StepOutcome::Next(state_of(*self, pc + 5)));
        }
        Ok(pc + 5)
    }

    /// One step of `SET_CONST`: the top of stack is peeked into the
    /// constant table.
    fn step_set_const(&mut self, pc: usize, Ghost(base): Ghost<VM>) -> (r: Result<
        usize,
        RubyError,
    >)
        requires
            old(self).inv(),
            exec_keeps(base, *old(self)),
            base.iseq@.len() < 0x8000_0000,
            pc < base.iseq@.len(),
            base.iseq@[pc as int] == Inst::SET_CONST,
        ensures
            stepped(base, *old(self), pc as int, *final(self), r),
    {
        proof {
            crate::codegen::lemma_keeps_prefix_refl(old(self).output@);
        }
        let ghost hs = state_of(*old(self), pc as int);
        let len = self.iseq.len();
        if pc + 5 > len {
            let e = self.error_unimplemented("Illegal instruction.");
            proof {
                assert(step(base, hs) == StepOutcome::Done(Err(err_view(e))));
            }
            return Err(e);
        }
        let id = crate::encoding::read32(&self.iseq, pc + 1);
        let n = self.exec_stack.len();
        if n == 0 {
            let e = self.error_unimplemented("Stack underflow.");
            proof {
                assert(step(base, hs) == StepOutcome::Done(Err(err_view(e))));
            }
            return Err(e);
        }
        let val = self.exec_stack[n - 1].clone();
        let ghost gval = val;
        self.const_table.insert(IdentId(id), val);
        proof {
            assert(gval@ == hs.stack.last());
            assert(state_of(*self, pc + 5) =~= (StateView {
                pc: pc as int + 5,
                consts: hs.consts.insert(0, (IdentId(id), hs.stack.last())),
                ..hs
            }));
            assert(step(base, hs) == StepOutcome::Next(state_of(*self, pc + 5)));
        }
        Ok(pc + 5)
    }

    /// One step of `GET_CONST`: the value bound to the operand id, or an
    /// error naming the missing constant.
    fn step_get_const(&mut self, pc: usize, Ghost(base): Ghost<VM>) -> (r: Result<
        usize,
        RubyError,
    >)
        requires
            old(self).inv(),
            exec_keeps(base, *old(self)),
            base.iseq@.len() < 0x8000_0000,
            pc < base.iseq@.len(),
            base.iseq@[pc as int] == Inst::GET_CONST,
        ensures
            stepped(base, *old(self), pc as int, *final(self), r),
    {
        proof {
            crate::codegen::lemma_keeps_prefix_refl(old(self).output@);
        }
        let ghost hs = state_of(*old(self), pc as int);
        let len = self.iseq.len();
        if pc + 5 > len {
            let e = self.error_unimplemented("Illegal instruction.");
            proof {
                assert(step(base, hs) == StepOutcome::Done(Err(err_view(e))));
            }
            return Err(e);
        }
        let id = crate::encoding::read32(&self.iseq, pc + 1);
        match self.const_table.get(IdentId(id)) {
            Some(val) => {
                let ghost gval = val;
                self.exec_stack.push(val);
                proof {
                    lemma_views_push(old(self).exec_stack@, gval);
                    assert(state_of(*self, pc + 5) =~= (StateView {
                        pc: pc as int + 5,
                        stack: hs.stack.push(gval@),
                        ..hs
                    }));
                    assert(step(base, hs) == StepOutcome::Next(state_of(*self, pc + 5)));
                }
                Ok(pc + 5)
            },
            None => {
                if (id as usize) >= self.ident_table.len() {
                    let e = self.error_unimplemented("Illegal instruction.");
                    proof {
                        assert(step(base, hs) == StepOutcome::Done(Err(err_view(e))));
                    }
                    return Err(e);
                }
                let name = self.ident_table.get_name(IdentId(id)).clone();
                let mut msg = String::from_str("Uninitialized constant '");
                msg.append(name.as_str());
                msg.append("'.");
                let e = self.error_unimplemented(msg.as_str());
                proof {
                    assert(e.message@ == "Uninitialized constant '"@ + base.ident_table@[id as int]
                        + "'."@);
                    assert(step(base, hs) == StepOutcome::Done(Err(err_view(e))));
                }
                Err(e)
            },
        }
    }

    /// One step of `CREATE_RANGE`: start, end and the exclusivity flag
    /// leave the stack — in that order — and the range value enters it.
    fn step_create_range(&mut self, pc: usize, Ghost(base): Ghost<VM>) -> (r: Result<
        usize,
        RubyError,
    >)
        requires
            old(self).inv(),
            exec_keeps(base, *old(self)),
            base.iseq@.len() < 0x8000_0000,
            pc < base.iseq@.len(),
            base.iseq@[pc as int] == Inst::CREATE_RANGE,
        ensures
            stepped(base, *old(self), pc as int, *final(self), r),
    {
        proof {
            crate::codegen::lemma_keeps_prefix_refl(old(self).output@);
        }
        let ghost hs = state_of(*old(self), pc as int);
        let start = match self.exec_stack.pop() {
            Some(v) => v,
            None => {
                let e = self.error_unimplemented("Stack underflow.");
                proof {
                    assert(step(base, hs) == StepOutcome::Done(Err(err_view(e))));
                }
                return Err(e);
            },
        };
        let end = match self.exec_stack.pop() {
            Some(v) => v,
            None => {
                let e = self.error_unimplemented("Stack underflow.");
                proof {
                    lemma_views_drop_last(old(self).exec_stack@);
                    assert(step(base, hs) == StepOutcome::Done(Err(err_view(e))));
                }
                return Err(e);
            },
        };
        let exclude = match self.exec_stack.pop() {
            Some(v) => v,
            None => {
                let e = self.error_unimplemented("Stack underflow.");
                proof {
                    lemma_views_drop_last(old(self).exec_stack@);
                    lemma_views_drop_last(old(self).exec_stack@.drop_last());
                    assert(step(base, hs) == StepOutcome::Done(Err(err_view(e))));
                }
                return Err(e);
            },
        };
        proof {
            lemma_views_drop_last(old(self).exec_stack@);
            lemma_views_drop_last(old(self).exec_stack@.drop_last());
            lemma_views_drop_last(old(self).exec_stack@.drop_last().drop_last());
        }
        let flag = self.val_to_bool(&exclude);
        let range = Value::Range(Box::new(start), Box::new(end), flag);
        let ghost grange = range;
        let ghost mid = self.exec_stack@;
        self.exec_stack.push(range);
        proof {
            lemma_views_push(mid, grange);
            assert(state_of(*self, pc + 1) =~= (StateView {
                pc: pc as int + 1,
                stack: hs.stack.drop_last().drop_last().drop_last().push(grange@),
                ..hs
            }));
            assert(step(base, hs) == StepOutcome::Next(state_of(*self, pc + 1)));
        }
        Ok(pc + 1)
    }
}


impl VM {
    /// One step of `JMP`: the counter moves by the signed displacement,
    /// measured from the byte past the operand.
    fn step_jmp(&mut self, pc: usize, Ghost(base): Ghost<VM>) -> (r: Result<usize, RubyError>)
        requires
            old(self).inv(),
            exec_keeps(base, *old(self)),
            base.iseq@.len() < 0x8000_0000,
            pc < base.iseq@.len(),
            base.iseq@[pc as int] == Inst::JMP,
        ensures
            stepped(base, *old(self), pc as int, *final(self), r),
    {
        proof {
            crate::codegen::lemma_keeps_prefix_refl(old(self).output@);
        }
        let ghost hs = state_of(*old(self), pc as int);
        let len = self.iseq.len();
        if pc + 5 > len {
            let e = self.error_unimplemented("Illegal instruction.");
            proof {
                assert(step(base, hs) == StepOutcome::Done(Err(err_view(e))));
            }
            return Err(e);
        }
        let disp = signed_of(crate::encoding::read32(&self.iseq, pc + 1));
        let target = (pc as i64) + 5 + disp;
        if target < 0 || target > (len as i64) {
            let e = self.error_unimplemented("Illegal instruction.");
            proof {
                assert(step(base, hs) == StepOutcome::Done(Err(err_view(e))));
            }
            return Err(e);
        }
        let new_pc = target as usize;
        proof {
            assert(state_of(*self, new_pc as int) =~= (StateView { pc: new_pc as int, ..hs }));
            assert(step(base, hs) == StepOutcome::Next(state_of(*self, new_pc as int)));
        }
        Ok(new_pc)
    }

    /// One step of `JMP_IF_FALSE`: the popped value decides whether the
    /// counter falls through or follows the displacement.
    fn step_jmp_if_false(&mut self, pc: usize, Ghost(base): Ghost<VM>) -> (r: Result<
        usize,
        RubyError,
    >)
        requires
            old(self).inv(),
            exec_keeps(base, *old(self)),
            base.iseq@.len() < 0x8000_0000,
            pc < base.iseq@.len(),
            base.iseq@[pc as int] == Inst::JMP_IF_FALSE,
        ensures
            stepped(base, *old(self), pc as int, *final(self), r),
    {
        proof {
            crate::codegen::lemma_keeps_prefix_refl(old(self).output@);
        }
        let ghost hs = state_of(*old(self), pc as int);
        let len = self.iseq.len();
        if pc + 5 > len {
            let e = self.error_unimplemented("Illegal instruction.");
            proof {
                assert(step(base, hs) == StepOutcome::Done(Err(err_view(e))));
            }
            return Err(e);
        }
        let val = match self.exec_stack.pop() {
            Some(v) => v,
            None => {
                let e = self.error_unimplemented("Stack underflow.");
                proof {
                    assert(step(base, hs) == StepOutcome::Done(Err(err_view(e))));
                }
                return Err(e);
            },
        };
        proof {
            lemma_views_drop_last(old(self).exec_stack@);
        }
        if self.val_to_bool(&val) {
            proof {
                assert(state_of(*self, pc + 5) =~= (StateView {
                    pc: pc as int + 5,
                    stack: hs.stack.drop_last(),
                    ..hs
                }));
                assert(step(base, hs) == StepOutcome::Next(state_of(*self, pc + 5)));
            }
            Ok(pc + 5)
        } else {
            let disp = signed_of(crate::encoding::read32(&self.iseq, pc + 1));
            let target = (pc as i64) + 5 + disp;
            if target < 0 || target > (len as i64) {
                let e = self.error_unimplemented("Illegal instruction.");
                proof {
                    assert(step(base, hs) == StepOutcome::Done(Err(err_view(e))));
                }
                return Err(e);
            }
            let new_pc = target as usize;
            proof {
                assert(state_of(*self, new_pc as int) =~= (StateView {
                    pc: new_pc as int,
                    stack: hs.stack.drop_last(),
                    ..hs
                }));
                assert(step(base, hs) == StepOutcome::Next(state_of(*self, new_pc as int)));
            }
            Ok(new_pc)
        }
    }

    /// One step of `SEND`: the receiver leaves the stack, the method id
    /// picks a built-in, the argument count names how many values follow
    /// the receiver off the stack — in call order, the compiler having
    /// emitted them in reverse — and the built-in's answer enters it.
    #[verifier::loop_isolation(false)]
    #[verifier::rlimit(100)]
    fn step_send(&mut self, pc: usize, Ghost(base): Ghost<VM>) -> (r: Result<usize, RubyError>)
        requires
            old(self).inv(),
            exec_keeps(base, *old(self)),
            base.iseq@.len() < 0x8000_0000,
            pc < base.iseq@.len(),
            base.iseq@[pc as int] == Inst::SEND,
        ensures
            stepped(base, *old(self), pc as int, *final(self), r),
    {
        proof {
            crate::codegen::lemma_keeps_prefix_refl(old(self).output@);
        }
        let ghost hs = state_of(*old(self), pc as int);
        let len = self.iseq.len();
        if pc + 9 > len {
            let e = self.error_unimplemented("Illegal instruction.");
            proof {
                assert(step(base, hs) == StepOutcome::Done(Err(err_view(e))));
            }
            return Err(e);
        }
        let receiver = match self.exec_stack.pop() {
            Some(v) => v,
            None => {
                let e = self.error_unimplemented("Stack underflow.");
                proof {
                    assert(step(base, hs) == StepOutcome::Done(Err(err_view(e))));
                }
                return Err(e);
            },
        };
        let ghost grec = receiver;
        let ghost rest = hs.stack.drop_last();
        proof {
            lemma_views_drop_last(old(self).exec_stack@);
            assert(grec@ == hs.stack.last());
            assert(views_of(self.exec_stack@) == rest);
        }
        let supported = match &receiver {
            Value::Nil => true,
            Value::FixNum(_) => true,
            _ => false,
        };
        if !supported {
            let e = self.error_unimplemented("receiver is not supported.");
            proof {
                assert(step(base, hs) == StepOutcome::Done(Err(err_view(e))));
            }
            return Err(e);
        }
        let method_id = crate::encoding::read32(&self.iseq, pc + 1);
        let func = match self.method_table.get(IdentId(method_id)) {
            None => {
                let e = self.error_unimplemented("method not defined.");
                proof {
                    assert(step(base, hs) == StepOutcome::Done(Err(err_view(e))));
                }
                return Err(e);
            },
            Some(info) => match info {
                MethodInfo::RubyFunc { .. } => {
                    let e = self.error_unimplemented("ruby func.");
                    proof {
                        assert(step(base, hs) == StepOutcome::Done(Err(err_view(e))));
                    }
                    return Err(e);
                },
                MethodInfo::BuiltinFunc { func, .. } => *func,
            },
        };
        let args_num = crate::encoding::read32(&self.iseq, pc + 5);
        let ghost argv = Seq::new(args_num as nat, |j: int| rest[rest.len() - 1 - j]);
        let ghost rest2 = rest.subrange(0, rest.len() - args_num as int);
        let mut args: Vec<Value> = Vec::new();
        let mut k: u32 = 0;
        while k < args_num
            invariant
                k <= args_num,
                args@.len() == k,
                self.inv(),
                exec_keeps(base, *self),
                self.const_table == old(self).const_table,
                self.lvar_stack == old(self).lvar_stack,
                self.output == old(self).output,
                rest.len() >= k,
                views_of(self.exec_stack@) == rest.subrange(0, rest.len() - k),
                forall|j: int| 0 <= j < k ==> args@[j]@ == rest[rest.len() - 1 - j],
            decreases args_num - k,
        {
            let ghost cur = self.exec_stack@;
            let a = match self.exec_stack.pop() {
                Some(v) => v,
                None => {
                    let e = self.error_unimplemented("Stack underflow.");
                    proof {
                        assert(rest.len() - k == 0);
                        assert(rest.len() < args_num);
                        assert(step(base, hs) == StepOutcome::Done(Err(err_view(e))));
                    }
                    return Err(e);
                },
            };
            let ghost ga = a;
            proof {
                lemma_views_drop_last(cur);
                assert(views_of(cur).last() == rest.subrange(0, rest.len() - k).last());
                assert(ga@ == rest[rest.len() - 1 - k]);
                assert(views_of(cur).drop_last() =~= rest.subrange(0, rest.len() - (k + 1)));
            }
            args.push(a);
            k = k + 1;
        }
        proof {
            assert(views_of(args@) =~= argv);
            assert(views_of(self.exec_stack@) == rest2);
            assert(step(base, hs) == crate::semantics::send_dispatch(
                base,
                hs,
                rest,
                grec@,
                func,
                args_num as int,
            ));
        }
        let ghost before_call = *self;
        let ghost gargs = args@;
        let callres = match func {
            BuiltinId::Chr => builtin_chr(self, receiver, args),
            BuiltinId::Puts => builtin_puts(self, receiver, args),
            BuiltinId::Print => builtin_print(self, receiver, args),
            BuiltinId::AssertEqual => builtin_assert(self, receiver, args),
        };
        match callres {
            Err(e) => {
                proof {
                    assert(views_of(gargs) == argv);
                    match func {
                        BuiltinId::Chr => {
                            assert(step(base, hs) == StepOutcome::Done(Err(err_view(e))));
                        },
                        BuiltinId::AssertEqual => {
                            assert(gargs.len() == args_num);
                            if gargs.len() == 2 {
                                assert(argv[0] == gargs[0]@ && argv[1] == gargs[1]@);
                            }
                            assert(step(base, hs) == StepOutcome::Done(Err(err_view(e))));
                        },
                        _ => {
                            assert(step(base, hs) == StepOutcome::Done(Err(err_view(e))));
                        },
                    }
                }
                Err(e)
            },
            Ok(v) => {
                let ghost gv = v;
                let ghost mid = self.exec_stack@;
                self.exec_stack.push(v);
                proof {
                    lemma_views_push(mid, gv);
                    match func {
                        BuiltinId::Puts => {
                            crate::codegen::lemma_append_keeps_prefix(
                                before_call.output@,
                                puts_output(views_of(gargs)),
                            );
                            assert(state_of(*self, pc + 9) =~= (StateView {
                                pc: pc as int + 9,
                                stack: rest2.push(ValueView::Nil),
                                output: hs.output + puts_output(argv),
                                ..hs
                            }));
                        },
                        BuiltinId::Print => {
                            crate::codegen::lemma_append_keeps_prefix(
                                before_call.output@,
                                print_output(views_of(gargs)),
                            );
                            assert(state_of(*self, pc + 9) =~= (StateView {
                                pc: pc as int + 9,
                                stack: rest2.push(ValueView::Nil),
                                output: hs.output + print_output(argv),
                                ..hs
                            }));
                        },
                        BuiltinId::Chr => {
                            crate::codegen::lemma_keeps_prefix_refl(before_call.output@);
                            assert(state_of(*self, pc + 9) =~= (StateView {
                                pc: pc as int + 9,
                                stack: rest2.push(gv@),
                                ..hs
                            }));
                        },
                        BuiltinId::AssertEqual => {
                            crate::codegen::lemma_keeps_prefix_refl(before_call.output@);
                            assert(state_of(*self, pc + 9) =~= (StateView {
                                pc: pc as int + 9,
                                stack: rest2.push(ValueView::Nil),
                                ..hs
                            }));
                        },
                    }
                    assert(step(base, hs) == StepOutcome::Next(state_of(*self, pc + 9)));
                }
                Ok(pc + 9)
            },
        }
    }
}


impl VM {
    /// The fetch-decode-dispatch loop: walks the instruction vector from
    /// its start until `END` hands back the top of the execution stack —
    /// or `Nil` if the stack is empty — or until the first error.
    ///
    /// The returned outcome is exactly what iterating the small-step
    /// semantics from the starting state yields: some number of steps ends
    /// the run with precisely this result.  The program, the identifier
    /// and method tables and the compiler's state are read, never written;
    /// output only grows.  A malformed stream — a truncated operand, a
    /// jump outside the vector, an unknown opcode, an exhausted stack —
    /// stops execution with an error rather than a crash.  The loop
    /// carries an enormous step budget so that its progress is measurable;
    /// no feasible execution exhausts it, and only an exhausted budget is
    /// reported outside the semantics.
    #[verifier::loop_isolation(false)]
    pub fn vm_run(&mut self) -> (r: VMResult)
        requires
            old(self).inv(),
            old(self).iseq@.len() < 0x8000_0000,
        ensures
            final(self).inv(),
            exec_keeps(*old(self), *final(self)),
            crate::codegen::keeps_prefix(old(self).output@, final(self).output@),
            final(self).lvar_stack@.len() == old(self).lvar_stack@.len(),
            (exists|n: nat|
                runs_to(*old(self), state_of(*old(self), 0), n) == Some(result_view(r))) || (
            r matches Err(e) && e.kind == RubyErrKind::Unimplemented && e.message@
                == "Step budget exhausted."@ && forall|n: nat|
                n <= u128::MAX ==> runs_to(*old(self), state_of(*old(self), 0), n) is None),
            r matches Ok(v) ==> exists|n: nat, sf: StateView|
                crate::semantics::ends_at(
                    *old(self),
                    state_of(*old(self), 0),
                    sf,
                    n,
                    Ok(v@),
                ) && views_of(final(self).exec_stack@) == (if sf.stack.len() == 0 {
                    Seq::<ValueView>::empty()
                } else {
                    sf.stack.drop_last()
                }) && views_of(final(self).lvar_stack@.last()@) == sf.frame
                    && final(self).const_table@ == sf.consts
                    && final(self).output@ == sf.output,
    {
        let ghost base = *old(self);
        let ghost s0 = state_of(base, 0);
        proof {
            crate::codegen::lemma_keeps_prefix_refl(old(self).output@);
        }
        let mut pc: usize = 0;
        let mut fuel: u128 = u128::MAX;
        let ghost mut taken: nat = 0;
        loop
            invariant
                self.inv(),
                exec_keeps(base, *self),
                crate::codegen::keeps_prefix(base.output@, self.output@),
                self.lvar_stack@.len() == base.lvar_stack@.len(),
                pc <= self.iseq@.len(),
                taken + fuel == u128::MAX,
                reaches(base, s0, state_of(*self, pc as int), taken),
            decreases fuel,
        {
            if fuel == 0 {
                proof {
                    lemma_reaches_no_early_end(base, s0, state_of(*self, pc as int), taken);
                }
                return Err(self.error_unimplemented("Step budget exhausted."));
            }
            fuel = fuel - 1;
            let ghost hvm = *self;
            let ghost hs = state_of(hvm, pc as int);
            let len = self.iseq.len();
            if pc >= len {
                let e = self.error_unimplemented("Illegal instruction.");
                proof {
                    assert(step(base, hs) == StepOutcome::Done(Err(err_view(e))));
                    lemma_reaches_done(base, s0, hs, taken, Err(err_view(e)));
                }
                return Err(e);
            }
            let op = self.iseq[pc];
            if op == Inst::END {
                let r = match self.exec_stack.pop() {
                    Some(v) => Ok(v),
                    None => Ok(Value::Nil),
                };
                proof {
                    if hs.stack.len() > 0 {
                        lemma_views_drop_last(hvm.exec_stack@);
                    }
                    assert(step(base, hs) == StepOutcome::Done(result_view(r)));
                    lemma_reaches_done(base, s0, hs, taken, result_view(r));
                    assert(crate::semantics::ends_at(base, s0, hs, taken, result_view(r)));
                    if hs.stack.len() == 0 {
                        assert(views_of(self.exec_stack@) =~= Seq::<ValueView>::empty());
                    }
                }
                return r;
            }
            let outcome = if op == Inst::PUSH_NIL || op == Inst::PUSH_TRUE || op
                == Inst::PUSH_FALSE || op == Inst::PUSH_SELF || op == Inst::PUSH_FIXNUM || op
                == Inst::PUSH_FLONUM {
                self.step_push(pc, Ghost(base))
            } else if op == Inst::PUSH_STRING {
                self.step_push_string(pc, Ghost(base))
            } else if op == Inst::ADD || op == Inst::SUB || op == Inst::MUL || op == Inst::DIV
                || op == Inst::SHR || op == Inst::SHL || op == Inst::BIT_AND || op == Inst::BIT_OR
                || op == Inst::BIT_XOR || op == Inst::EQ || op == Inst::NE || op == Inst::GT || op
                == Inst::GE {
                self.step_binop(pc, Ghost(base))
            } else if op == Inst::SET_LOCAL {
                self.step_set_local(pc, Ghost(base))
            } else if op == Inst::GET_LOCAL {
                self.step_get_local(pc, Ghost(base))
            } else if op == Inst::SET_CONST {
                self.step_set_const(pc, Ghost(base))
            } else if op == Inst::GET_CONST {
                self.step_get_const(pc, Ghost(base))
            } else if op == Inst::CREATE_RANGE {
                self.step_create_range(pc, Ghost(base))
            } else if op == Inst::JMP {
                self.step_jmp(pc, Ghost(base))
            } else if op == Inst::JMP_IF_FALSE {
                self.step_jmp_if_false(pc, Ghost(base))
            } else if op == Inst::SEND {
                self.step_send(pc, Ghost(base))
            } else {
                let e = self.error_unimplemented("Illegal instruction.");
                proof {
                    crate::codegen::lemma_keeps_prefix_refl(hvm.output@);
                    assert(step(base, hs) == StepOutcome::Done(Err(err_view(e))));
                }
                Err(e)
            };
            match outcome {
                Ok(new_pc) => {
                    proof {
                        lemma_reaches_extend(base, s0, hs, state_of(*self, new_pc as int), taken);
                        taken = taken + 1;
                        crate::codegen::lemma_keeps_prefix_trans(
                            base.output@,
                            hvm.output@,
                            self.output@,
                        );
                    }
                    pc = new_pc;
                },
                Err(e) => {
                    proof {
                        crate::codegen::lemma_keeps_prefix_trans(
                            base.output@,
                            hvm.output@,
                            self.output@,
                        );
                        lemma_reaches_done(base, s0, hs, taken, Err(err_view(e)));
                    }
                    return Err(e);
                },
            }
        }
    }
}

} // verus!
