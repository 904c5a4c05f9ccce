use rubyvm::error::RubyErrKind;
use rubyvm::ident::{IdentId, IdentifierTable};
use rubyvm::node::{BinOp, Loc, LvarCollector, LvarId, LvarTable, Node, NodeKind};
use rubyvm::value::Value;
use rubyvm::vm::{SourceInfo, VM};

fn node(kind: NodeKind) -> Node {
    Node::new(kind, Loc(0, 0))
}

fn num(i: i64) -> Node {
    node(NodeKind::Number(i))
}

fn ident(id: IdentId) -> Node {
    node(NodeKind::Ident(id))
}

fn binop(op: BinOp, lhs: Node, rhs: Node) -> Node {
    node(NodeKind::BinOp(op, Box::new(lhs), Box::new(rhs)))
}

fn stmts(list: Vec<Node>) -> Node {
    node(NodeKind::CompStmt(list))
}

fn send(receiver: Node, method: Node, args: Vec<Node>) -> Node {
    node(NodeKind::Send(Box::new(receiver), Box::new(method), args))
}

fn new_vm() -> VM {
    let mut vm = VM::new(
        SourceInfo { code: String::new() },
        IdentifierTable::new(),
    );
    vm.init_builtin();
    vm
}

fn collector(entries: Vec<(IdentId, LvarId)>) -> LvarCollector {
    LvarCollector { table: LvarTable { entries } }
}

#[test]
fn arithmetic_precedence() {
    let mut vm = new_vm();
    let ast = stmts(vec![binop(BinOp::Add, num(1), binop(BinOp::Mul, num(2), num(3)))]);
    assert_eq!(vm.run(&ast).unwrap(), Value::FixNum(7));
}

#[test]
fn local_assignment_and_use() {
    let mut vm = new_vm();
    let id_a = vm.ident_table.get_ident_id(&"a".to_string());
    let body = stmts(vec![
        node(NodeKind::Assign(Box::new(ident(id_a)), Box::new(num(10)))),
        binop(BinOp::Sub, ident(id_a), num(4)),
    ]);
    let ast = node(NodeKind::TopLevel(
        Box::new(body),
        collector(vec![(id_a, LvarId(0))]),
    ));
    assert_eq!(vm.run(&ast).unwrap(), Value::FixNum(6));
}

#[test]
fn if_with_equal_condition() {
    let mut vm = new_vm();
    let ast = stmts(vec![node(NodeKind::If(
        Box::new(binop(BinOp::Eq, num(1), num(1))),
        Box::new(num(42)),
        Box::new(num(0)),
    ))]);
    assert_eq!(vm.run(&ast).unwrap(), Value::FixNum(42));
}

fn for_loop_ast(vm: &mut VM, exclude: bool) -> Node {
    let id_i = vm.ident_table.get_ident_id(&"i".to_string());
    let id_puts = vm.ident_table.get_ident_id(&"puts".to_string());
    let body = stmts(vec![send(
        node(NodeKind::SelfValue),
        ident(id_puts),
        vec![ident(id_i)],
    )]);
    let for_node = node(NodeKind::For(
        Box::new(ident(id_i)),
        Box::new(node(NodeKind::Range(Box::new(num(0)), Box::new(num(3)), exclude))),
        Box::new(body),
    ));
    node(NodeKind::TopLevel(
        Box::new(stmts(vec![for_node])),
        collector(vec![(id_i, LvarId(0))]),
    ))
}

#[test]
fn for_loop_inclusive_prints_all_bounds() {
    let mut vm = new_vm();
    let ast = for_loop_ast(&mut vm, false);
    let result = vm.run(&ast).unwrap();
    assert_eq!(vm.output, b"0\n1\n2\n3\n".to_vec());
    // The loop counter's increment peeks its value onto the stack, so the
    // counted loop's own value is the first counter value past the bound.
    assert_eq!(result, Value::FixNum(4));
}

#[test]
fn for_loop_exclusive_stops_before_end() {
    let mut vm = new_vm();
    let ast = for_loop_ast(&mut vm, true);
    let result = vm.run(&ast).unwrap();
    assert_eq!(vm.output, b"0\n1\n2\n".to_vec());
    assert_eq!(result, Value::FixNum(3));
}

#[test]
fn chr_and_print_write_raw_byte() {
    let mut vm = new_vm();
    let id_chr = vm.ident_table.get_ident_id(&"chr".to_string());
    let id_print = vm.ident_table.get_ident_id(&"print".to_string());
    let chr_call = send(num(65), ident(id_chr), vec![]);
    assert_eq!(vm.run(&stmts(vec![chr_call])).unwrap(), Value::Char(65));

    let chr_call = send(num(65), ident(id_chr), vec![]);
    let print_call = send(node(NodeKind::SelfValue), ident(id_print), vec![chr_call]);
    assert_eq!(vm.run(&stmts(vec![print_call])).unwrap(), Value::Nil);
    assert_eq!(vm.output, b"A".to_vec());
}

#[test]
fn assert_builtin_accepts_equal_values() {
    let mut vm = new_vm();
    let id_assert = vm.ident_table.get_ident_id(&"assert".to_string());
    let call = send(
        node(NodeKind::SelfValue),
        ident(id_assert),
        vec![binop(BinOp::Add, num(1), num(1)), num(2)],
    );
    assert_eq!(vm.run(&stmts(vec![call])).unwrap(), Value::Nil);
}

#[test]
fn assert_builtin_rejects_unequal_values() {
    let mut vm = new_vm();
    let id_assert = vm.ident_table.get_ident_id(&"assert".to_string());
    let call = send(
        node(NodeKind::SelfValue),
        ident(id_assert),
        vec![binop(BinOp::Add, num(1), num(1)), num(3)],
    );
    let err = vm.run(&stmts(vec![call])).unwrap_err();
    assert_eq!(err.kind, RubyErrKind::Assertion);
    assert!(err.message.contains("FixNum(2)"));
    assert!(err.message.contains("FixNum(3)"));
}

#[test]
fn assert_builtin_needs_two_arguments() {
    let mut vm = new_vm();
    let id_assert = vm.ident_table.get_ident_id(&"assert".to_string());
    let call = send(node(NodeKind::SelfValue), ident(id_assert), vec![num(1)]);
    let err = vm.run(&stmts(vec![call])).unwrap_err();
    assert_eq!(err.kind, RubyErrKind::Assertion);
    assert_eq!(err.message, "Invalid number of arguments.");
}

#[test]
fn land_short_circuit_skips_division() {
    let mut vm = new_vm();
    let ast = stmts(vec![binop(
        BinOp::LAnd,
        node(NodeKind::Bool(false)),
        binop(BinOp::Div, num(1), num(0)),
    )]);
    assert_eq!(vm.run(&ast).unwrap(), Value::Bool(false));
}

#[test]
fn division_by_zero_is_reported_when_reached() {
    let mut vm = new_vm();
    let ast = stmts(vec![binop(BinOp::Div, num(1), num(0))]);
    let err = vm.run(&ast).unwrap_err();
    assert_eq!(err.kind, RubyErrKind::NoMethod);
}

#[test]
fn lor_leaves_true_for_truthy_left() {
    let mut vm = new_vm();
    let ast = stmts(vec![binop(BinOp::LOr, num(1), num(5))]);
    assert_eq!(vm.run(&ast).unwrap(), Value::Bool(true));
}

#[test]
fn lor_falls_through_to_right() {
    let mut vm = new_vm();
    let ast = stmts(vec![binop(BinOp::LOr, node(NodeKind::Bool(false)), num(5))]);
    assert_eq!(vm.run(&ast).unwrap(), Value::FixNum(5));
}

#[test]
fn range_keeps_exclusivity_and_displays_it() {
    let mut vm = new_vm();
    let inclusive = stmts(vec![node(NodeKind::Range(
        Box::new(num(0)),
        Box::new(num(3)),
        false,
    ))]);
    let val = vm.run(&inclusive).unwrap();
    assert_eq!(
        val,
        Value::Range(Box::new(Value::FixNum(0)), Box::new(Value::FixNum(3)), false)
    );
    assert_eq!(vm.val_to_s(&val), "(0..3)");

    let exclusive = stmts(vec![node(NodeKind::Range(
        Box::new(num(0)),
        Box::new(num(3)),
        true,
    ))]);
    let val = vm.run(&exclusive).unwrap();
    assert_eq!(
        val,
        Value::Range(Box::new(Value::FixNum(0)), Box::new(Value::FixNum(3)), true)
    );
    assert_eq!(vm.val_to_s(&val), "(0...3)");
}

#[test]
fn constants_are_stored_and_read_back() {
    let mut vm = new_vm();
    let id_x = vm.ident_table.get_ident_id(&"X".to_string());
    let ast = stmts(vec![
        node(NodeKind::Assign(
            Box::new(node(NodeKind::Const(id_x))),
            Box::new(num(5)),
        )),
        node(NodeKind::Const(id_x)),
    ]);
    assert_eq!(vm.run(&ast).unwrap(), Value::FixNum(5));
}

#[test]
fn unknown_constant_is_an_error_naming_it() {
    let mut vm = new_vm();
    let id_x = vm.ident_table.get_ident_id(&"Missing".to_string());
    let ast = stmts(vec![node(NodeKind::Const(id_x))]);
    let err = vm.run(&ast).unwrap_err();
    assert_eq!(err.kind, RubyErrKind::Unimplemented);
    assert_eq!(err.message, "Uninitialized constant 'Missing'.");
}

#[test]
fn unknown_method_is_an_error() {
    let mut vm = new_vm();
    let id_m = vm.ident_table.get_ident_id(&"nope".to_string());
    let ast = stmts(vec![send(node(NodeKind::SelfValue), ident(id_m), vec![])]);
    let err = vm.run(&ast).unwrap_err();
    assert_eq!(err.kind, RubyErrKind::Unimplemented);
    assert_eq!(err.message, "method not defined.");
}

#[test]
fn send_to_non_identifier_method_is_a_syntax_error() {
    let mut vm = new_vm();
    let ast = stmts(vec![send(node(NodeKind::SelfValue), num(1), vec![])]);
    let err = vm.run(&ast).unwrap_err();
    assert_eq!(err.kind, RubyErrKind::SyntaxError);
    assert_eq!(err.message, "Expected identifier.");
}

#[test]
fn break_outside_loop_is_a_syntax_error() {
    let mut vm = new_vm();
    let ast = stmts(vec![node(NodeKind::Break)]);
    let err = vm.run(&ast).unwrap_err();
    assert_eq!(err.kind, RubyErrKind::SyntaxError);
    assert_eq!(err.message, "Can't escape from eval with break.");
}

#[test]
fn for_over_non_range_is_a_syntax_error() {
    let mut vm = new_vm();
    let id_i = vm.ident_table.get_ident_id(&"i".to_string());
    let for_node = node(NodeKind::For(
        Box::new(ident(id_i)),
        Box::new(num(3)),
        Box::new(stmts(vec![])),
    ));
    let ast = node(NodeKind::TopLevel(
        Box::new(for_node),
        collector(vec![(id_i, LvarId(0))]),
    ));
    let err = vm.run(&ast).unwrap_err();
    assert_eq!(err.kind, RubyErrKind::SyntaxError);
    assert_eq!(err.message, "Expected Range.");
}

#[test]
fn break_leaves_loop_with_nil() {
    let mut vm = new_vm();
    let id_i = vm.ident_table.get_ident_id(&"i".to_string());
    let body = stmts(vec![node(NodeKind::Break)]);
    let for_node = node(NodeKind::For(
        Box::new(ident(id_i)),
        Box::new(node(NodeKind::Range(Box::new(num(0)), Box::new(num(9)), false))),
        Box::new(body),
    ));
    let ast = node(NodeKind::TopLevel(
        Box::new(stmts(vec![for_node])),
        collector(vec![(id_i, LvarId(0))]),
    ));
    assert_eq!(vm.run(&ast).unwrap(), Value::Nil);
}

#[test]
fn puts_renders_strings_verbatim() {
    let mut vm = new_vm();
    let id_puts = vm.ident_table.get_ident_id(&"puts".to_string());
    let call = send(
        node(NodeKind::SelfValue),
        ident(id_puts),
        vec![node(NodeKind::Str("hello".to_string()))],
    );
    assert_eq!(vm.run(&stmts(vec![call])).unwrap(), Value::Nil);
    assert_eq!(vm.output, b"hello\n".to_vec());
}

#[test]
fn wrapping_addition_follows_the_host() {
    let mut vm = new_vm();
    let ast = stmts(vec![binop(BinOp::Add, num(i64::MAX), num(1))]);
    assert_eq!(vm.run(&ast).unwrap(), Value::FixNum(i64::MIN));
}

#[test]
fn comparison_rewrites_keep_their_sense() {
    let mut vm = new_vm();
    let ast = stmts(vec![binop(BinOp::Lt, num(1), num(2))]);
    assert_eq!(vm.run(&ast).unwrap(), Value::Bool(true));
    let ast = stmts(vec![binop(BinOp::Le, num(2), num(2))]);
    assert_eq!(vm.run(&ast).unwrap(), Value::Bool(true));
    let ast = stmts(vec![binop(BinOp::Gt, num(1), num(2))]);
    assert_eq!(vm.run(&ast).unwrap(), Value::Bool(false));
}

#[test]
fn shifts_and_bit_operators() {
    let mut vm = new_vm();
    let ast = stmts(vec![binop(BinOp::Shl, num(1), num(3))]);
    assert_eq!(vm.run(&ast).unwrap(), Value::FixNum(8));
    let ast = stmts(vec![binop(BinOp::Shr, num(-8), num(1))]);
    assert_eq!(vm.run(&ast).unwrap(), Value::FixNum(-4));
    let ast = stmts(vec![binop(BinOp::BitAnd, num(6), num(3))]);
    assert_eq!(vm.run(&ast).unwrap(), Value::FixNum(2));
    let ast = stmts(vec![binop(BinOp::BitOr, num(6), num(3))]);
    assert_eq!(vm.run(&ast).unwrap(), Value::FixNum(7));
    let ast = stmts(vec![binop(BinOp::BitXor, num(6), num(3))]);
    assert_eq!(vm.run(&ast).unwrap(), Value::FixNum(5));
}

#[test]
fn mismatched_operands_are_a_no_method_error() {
    let mut vm = new_vm();
    let ast = stmts(vec![binop(BinOp::Add, node(NodeKind::Nil), num(1))]);
    let err = vm.run(&ast).unwrap_err();
    assert_eq!(err.kind, RubyErrKind::NoMethod);
    assert_eq!(err.message, "NoMethodError: '-'");
}

#[test]
fn land_falls_through_to_right_for_truthy_left() {
    let mut vm = new_vm();
    let ast = stmts(vec![binop(BinOp::LAnd, num(1), num(5))]);
    assert_eq!(vm.run(&ast).unwrap(), Value::FixNum(5));
}

#[test]
fn a_machine_can_run_two_programs() {
    let mut vm = new_vm();
    let first = stmts(vec![binop(BinOp::Add, num(1), num(2))]);
    assert_eq!(vm.run(&first).unwrap(), Value::FixNum(3));
    let second = stmts(vec![binop(BinOp::Mul, num(4), num(5))]);
    assert_eq!(vm.run(&second).unwrap(), Value::FixNum(20));
}

#[test]
fn a_literal_program_yields_its_literal() {
    let mut vm = new_vm();
    assert_eq!(vm.run(&num(123456789)).unwrap(), Value::FixNum(123456789));
    assert_eq!(vm.run(&num(-7)).unwrap(), Value::FixNum(-7));
    assert_eq!(vm.run(&num(i64::MIN)).unwrap(), Value::FixNum(i64::MIN));
}

#[test]
fn string_equality_is_structural() {
    let mut vm = new_vm();
    let ast = stmts(vec![binop(
        BinOp::Eq,
        node(NodeKind::Str("abc".to_string())),
        node(NodeKind::Str("abc".to_string())),
    )]);
    assert_eq!(vm.run(&ast).unwrap(), Value::Bool(true));
    let ast = stmts(vec![binop(
        BinOp::Ne,
        node(NodeKind::Str("abc".to_string())),
        node(NodeKind::Str("abd".to_string())),
    )]);
    assert_eq!(vm.run(&ast).unwrap(), Value::Bool(true));
}

#[test]
fn nil_is_not_unequal_to_nil() {
    let mut vm = new_vm();
    let ast = stmts(vec![binop(BinOp::Ne, node(NodeKind::Nil), node(NodeKind::Nil))]);
    assert_eq!(vm.run(&ast).unwrap(), Value::Bool(false));
}
