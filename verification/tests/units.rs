use rubyvm::encoding::{read32, read64};
use rubyvm::ident::IdentifierTable;
use rubyvm::value::Value;
use rubyvm::vm::{ISeqPos, SourceInfo, VM};
use rubyvm::error::RubyErrKind;

fn new_vm() -> VM {
    VM::new(SourceInfo { code: String::new() }, IdentifierTable::new())
}

#[test]
fn word32_round_trip_through_the_vector() {
    let mut vm = new_vm();
    vm.push32(0xdead_beef);
    assert_eq!(vm.iseq, vec![0xde, 0xad, 0xbe, 0xef]);
    assert_eq!(read32(&vm.iseq, 0), 0xdead_beef);
}

#[test]
fn word64_round_trip_through_the_vector() {
    let mut vm = new_vm();
    vm.push64(0x0102_0304_0506_0708);
    assert_eq!(vm.iseq, vec![1, 2, 3, 4, 5, 6, 7, 8]);
    assert_eq!(read64(&vm.iseq, 0), 0x0102_0304_0506_0708);
}

#[test]
fn displacement_is_self_relative() {
    assert_eq!(ISeqPos(10).disp(ISeqPos(25)), 15);
    assert_eq!(ISeqPos(25).disp(ISeqPos(10)), -15);
}

#[test]
fn interning_is_idempotent_and_invertible() {
    let mut table = IdentifierTable::new();
    let a = table.get_ident_id(&"foo".to_string());
    let b = table.get_ident_id(&"bar".to_string());
    let a2 = table.get_ident_id(&"foo".to_string());
    assert_eq!(a, a2);
    assert_ne!(a, b);
    assert_eq!(table.get_name(a), "foo");
    assert_eq!(table.get_name(b), "bar");
    let c = table.get_ident_id(&table.get_name(a).clone());
    assert_eq!(a, c);
}

#[test]
fn display_forms() {
    let mut vm = new_vm();
    assert_eq!(vm.val_to_s(&Value::Nil), "");
    assert_eq!(vm.val_to_s(&Value::Bool(true)), "true");
    assert_eq!(vm.val_to_s(&Value::Bool(false)), "false");
    assert_eq!(vm.val_to_s(&Value::FixNum(0)), "0");
    assert_eq!(vm.val_to_s(&Value::FixNum(-17)), "-17");
    assert_eq!(vm.val_to_s(&Value::FixNum(i64::MIN)), "-9223372036854775808");
    assert_eq!(vm.val_to_s(&Value::Str("abc".to_string())), "abc");
    assert_eq!(vm.val_to_s(&Value::Char(65)), "41");
    assert_eq!(vm.val_to_s(&Value::Char(5)), "5");
    let range = Value::Range(
        Box::new(Value::FixNum(1)),
        Box::new(Value::FixNum(9)),
        false,
    );
    assert_eq!(vm.val_to_s(&range), "(1..9)");
}

#[test]
fn truthiness_matches_the_coercion_rule() {
    let vm = new_vm();
    assert!(!vm.val_to_bool(&Value::Nil));
    assert!(!vm.val_to_bool(&Value::Bool(false)));
    assert!(vm.val_to_bool(&Value::Bool(true)));
    assert!(vm.val_to_bool(&Value::FixNum(0)));
    assert!(vm.val_to_bool(&Value::Str(String::new())));
}

#[test]
fn equality_matrix() {
    let mut vm = new_vm();
    assert_eq!(
        vm.eval_eq(Value::Nil, Value::Nil).unwrap(),
        Value::Bool(true)
    );
    assert_eq!(
        vm.eval_eq(Value::FixNum(3), Value::FixNum(3)).unwrap(),
        Value::Bool(true)
    );
    assert_eq!(
        vm.eval_eq(Value::FixNum(3), Value::FixNum(4)).unwrap(),
        Value::Bool(false)
    );
    assert_eq!(
        vm.eval_eq(Value::Bool(true), Value::Bool(false)).unwrap(),
        Value::Bool(false)
    );
    let err = vm.eval_eq(Value::FixNum(1), Value::Nil).unwrap_err();
    assert_eq!(err.kind, RubyErrKind::NoMethod);
    assert!(err.message.contains("Nil"));
    assert!(err.message.contains("FixNum(1)"));
}

#[test]
fn errors_carry_their_kind_and_location() {
    let vm = new_vm();
    let e = vm.error_nomethod("boom");
    assert_eq!(e.kind, RubyErrKind::NoMethod);
    assert_eq!(e.message, "boom");
    let e = vm.error_unimplemented("later");
    assert_eq!(e.kind, RubyErrKind::Unimplemented);
    let e = vm.error_name("bad");
    assert_eq!(e.kind, RubyErrKind::Name);
    let e = vm.error_syntax("shape", rubyvm::node::Loc(3, 7));
    assert_eq!(e.kind, RubyErrKind::SyntaxError);
    assert_eq!(e.loc, rubyvm::node::Loc(3, 7));
}

#[test]
fn equality_of_strings_and_chars() {
    let mut vm = new_vm();
    assert_eq!(
        vm.eval_eq(Value::Str("a".to_string()), Value::Str("a".to_string()))
            .unwrap(),
        Value::Bool(true)
    );
    assert_eq!(
        vm.eval_eq(Value::Str("a".to_string()), Value::Str("b".to_string()))
            .unwrap(),
        Value::Bool(false)
    );
    assert_eq!(
        vm.eval_eq(Value::Char(65), Value::Char(65)).unwrap(),
        Value::Bool(true)
    );
}
