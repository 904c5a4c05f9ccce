use vstd::prelude::*;
use vstd::string::{StringExecFns, StrSliceExecFns};

verus! {

/// A tagged dynamic value of the scripting language.
///
/// Every value is self-contained.  Floating-point literals are carried as
/// their IEEE-754 bit pattern: the machine stores and moves them, while the
/// arithmetic on them lives outside the verified core.  `Class` and
/// `Instance` hold opaque reference handles and exist only to complete the
/// equality matrix; nothing in the core constructs them.
#[derive(Debug, PartialEq)]
pub enum Value {
    Nil,
    Bool(bool),
    FixNum(i64),
    FloatNum(u64),
    Str(String),
    Char(u8),
    Range(Box<Value>, Box<Value>, bool),
    Class(u64),
    Instance(u64),
}

/// The mathematical model of a [`Value`]: the same shape, with text as a
/// sequence of characters.
pub enum ValueView {
    Nil,
    Bool(bool),
    FixNum(i64),
    FloatNum(u64),
    Str(Seq<char>),
    Char(u8),
    Range(Box<ValueView>, Box<ValueView>, bool),
    Class(u64),
    Instance(u64),
}

impl Clone for Value {
    fn clone(&self) -> (r: Self)
        ensures
            r == *self,
        decreases *self,
    {
        match self {
            Value::Nil => Value::Nil,
            Value::Bool(b) => Value::Bool(*b),
            Value::FixNum(i) => Value::FixNum(*i),
            Value::FloatNum(bits) => Value::FloatNum(*bits),
            Value::Str(s) => Value::Str(s.clone()),
            Value::Char(c) => Value::Char(*c),
            Value::Range(start, end, exclude) => Value::Range(
                Box::new((**start).clone()),
                Box::new((**end).clone()),
                *exclude,
            ),
            Value::Class(r) => Value::Class(*r),
            Value::Instance(r) => Value::Instance(*r),
        }
    }
}

impl View for Value {
    type V = ValueView;

    open spec fn view(&self) -> ValueView
        decreases self,
    {
        match self {
            Value::Nil => ValueView::Nil,
            Value::Bool(b) => ValueView::Bool(*b),
            Value::FixNum(i) => ValueView::FixNum(*i),
            Value::FloatNum(bits) => ValueView::FloatNum(*bits),
            Value::Str(s) => ValueView::Str(s@),
            Value::Char(c) => ValueView::Char(*c),
            Value::Range(start, end, exclude) => ValueView::Range(
                Box::new((**start)@),
                Box::new((**end)@),
                *exclude,
            ),
            Value::Class(r) => ValueView::Class(*r),
            Value::Instance(r) => ValueView::Instance(*r),
        }
    }
}

/// Boolean coercion: `Nil` and `Bool(false)` are falsy, every other value is
/// truthy.
pub open spec fn truthy(v: ValueView) -> bool {
    !(v == ValueView::Nil || v == ValueView::Bool(false))
}

/// The character for one digit value below 16, lower case.
pub open spec fn digit_char(d: int) -> char {
    if d == 0 { '0' }
    else if d == 1 { '1' }
    else if d == 2 { '2' }
    else if d == 3 { '3' }
    else if d == 4 { '4' }
    else if d == 5 { '5' }
    else if d == 6 { '6' }
    else if d == 7 { '7' }
    else if d == 8 { '8' }
    else if d == 9 { '9' }
    else if d == 10 { 'a' }
    else if d == 11 { 'b' }
    else if d == 12 { 'c' }
    else if d == 13 { 'd' }
    else if d == 14 { 'e' }
    else { 'f' }
}

/// Decimal rendering of a non-negative integer, most significant digit first.
pub open spec fn dec_nat_chars(n: nat) -> Seq<char>
    decreases n,
{
    if n < 10 {
        seq![digit_char(n as int)]
    } else {
        dec_nat_chars(n / 10).push(digit_char((n % 10) as int))
    }
}

/// Decimal rendering of a signed integer.
pub open spec fn dec_int_chars(i: int) -> Seq<char> {
    if i < 0 {
        seq!['-'] + dec_nat_chars((-i) as nat)
    } else {
        dec_nat_chars(i as nat)
    }
}

/// Hexadecimal rendering of a byte, lower case, without leading zeroes.
pub open spec fn hex_byte_chars(c: u8) -> Seq<char> {
    if c < 16 {
        seq![digit_char(c as int)]
    } else {
        seq![digit_char(c as int / 16), digit_char(c as int % 16)]
    }
}

/// The display form of a value: `Nil` renders as nothing, booleans as their
/// words, fixnums in decimal, strings verbatim, a `Char` as its lowercase hex
/// byte, ranges with two or three dots after their exclusivity flag.  A
/// float's textual form is host arithmetic and stays outside the core, so it
/// renders as nothing, as the opaque reference handles do.
pub open spec fn display_chars(v: ValueView) -> Seq<char>
    decreases v,
{
    match v {
        ValueView::Nil => Seq::empty(),
        ValueView::Bool(b) => if b { seq!['t', 'r', 'u', 'e'] } else {
            seq!['f', 'a', 'l', 's', 'e']
        },
        ValueView::FixNum(i) => dec_int_chars(i as int),
        ValueView::FloatNum(_) => Seq::empty(),
        ValueView::Str(s) => s,
        ValueView::Char(c) => hex_byte_chars(c),
        ValueView::Range(start, end, exclude) => {
            let dots = if exclude { seq!['.', '.', '.'] } else { seq!['.', '.'] };
            seq!['('] + display_chars(*start) + dots + display_chars(*end) + seq![')']
        },
        ValueView::Class(_) => Seq::empty(),
        ValueView::Instance(_) => Seq::empty(),
    }
}

/// A diagnostic rendering of a value, naming its variant; used in error and
/// assertion messages so that they identify the offending values.
pub open spec fn inspect_chars(v: ValueView) -> Seq<char>
    decreases v,
{
    match v {
        ValueView::Nil => seq!['N', 'i', 'l'],
        ValueView::Bool(b) => seq!['B', 'o', 'o', 'l', '('] + (if b {
            seq!['t', 'r', 'u', 'e']
        } else {
            seq!['f', 'a', 'l', 's', 'e']
        }) + seq![')'],
        ValueView::FixNum(i) => seq!['F', 'i', 'x', 'N', 'u', 'm', '('] + dec_int_chars(i as int)
            + seq![')'],
        ValueView::FloatNum(bits) => seq!['F', 'l', 'o', 'a', 't', 'N', 'u', 'm', '(']
            + dec_nat_chars(bits as nat) + seq![')'],
        ValueView::Str(s) => seq!['S', 't', 'r', 'i', 'n', 'g', '(', '"'] + s + seq!['"', ')'],
        ValueView::Char(c) => seq!['C', 'h', 'a', 'r', '('] + dec_nat_chars(c as nat) + seq![')'],
        ValueView::Range(start, end, exclude) => seq!['R', 'a', 'n', 'g', 'e', '(']
            + inspect_chars(*start) + seq![',', ' '] + inspect_chars(*end) + seq![',', ' ']
            + (if exclude { seq!['t', 'r', 'u', 'e'] } else { seq!['f', 'a', 'l', 's', 'e'] })
            + seq![')'],
        ValueView::Class(r) => seq!['C', 'l', 'a', 's', 's', '('] + dec_nat_chars(r as nat)
            + seq![')'],
        ValueView::Instance(r) => seq!['I', 'n', 's', 't', 'a', 'n', 'c', 'e', '(']
            + dec_nat_chars(r as nat) + seq![')'],
    }
}

/// The structural equality matrix of the `==` operator: `Nil` equals
/// `Nil`, like primitives — fixnums, booleans, strings by their
/// characters, chars by their byte — compare structurally, class and
/// instance handles by reference.  Unlike pairs have no answer and are
/// reported as an error, as are floats, whose comparison is host
/// arithmetic outside the verified core.
pub open spec fn eq_values(lhs: ValueView, rhs: ValueView) -> Option<bool> {
    match (lhs, rhs) {
        (ValueView::Nil, ValueView::Nil) => Some(true),
        (ValueView::FixNum(a), ValueView::FixNum(b)) => Some(a == b),
        (ValueView::Bool(a), ValueView::Bool(b)) => Some(a == b),
        (ValueView::Str(a), ValueView::Str(b)) => Some(a == b),
        (ValueView::Char(a), ValueView::Char(b)) => Some(a == b),
        (ValueView::Class(a), ValueView::Class(b)) => Some(a == b),
        (ValueView::Instance(a), ValueView::Instance(b)) => Some(a == b),
        _ => None,
    }
}

/// The matrix of `!=`: the pointwise negation of `==` on every like pair,
/// errors on the same unlike pairs.
pub open spec fn neq_values(lhs: ValueView, rhs: ValueView) -> Option<bool> {
    match (lhs, rhs) {
        (ValueView::Nil, ValueView::Nil) => Some(false),
        (ValueView::FixNum(a), ValueView::FixNum(b)) => Some(a != b),
        (ValueView::Bool(a), ValueView::Bool(b)) => Some(a != b),
        (ValueView::Str(a), ValueView::Str(b)) => Some(a != b),
        (ValueView::Char(a), ValueView::Char(b)) => Some(a != b),
        (ValueView::Class(a), ValueView::Class(b)) => Some(a != b),
        (ValueView::Instance(a), ValueView::Instance(b)) => Some(a != b),
        _ => None,
    }
}

/// Relies on `String::push`: appends exactly the given character.
#[verifier::external_body]
fn string_push(s: &mut String, c: char)
    ensures
        final(s)@ == old(s)@.push(c),
{
    s.push(c);
}

/// The character for a digit value below 16.
fn digit_exec(d: u8) -> (c: char)
    requires
        d < 16,
    ensures
        c == digit_char(d as int),
{
    match d {
        0 => '0',
        1 => '1',
        2 => '2',
        3 => '3',
        4 => '4',
        5 => '5',
        6 => '6',
        7 => '7',
        8 => '8',
        9 => '9',
        10 => 'a',
        11 => 'b',
        12 => 'c',
        13 => 'd',
        14 => 'e',
        15 => 'f',
        _ => unreached(),
    }
}

/// Appends the decimal digits of `n`, most significant first.
fn push_dec(s: &mut String, n: u64)
    ensures
        final(s)@ == old(s)@ + dec_nat_chars(n as nat),
    decreases n,
{
    if n >= 10 {
        push_dec(s, n / 10);
    }
    string_push(s, digit_exec((n % 10) as u8));
    proof {
        if n < 10 {
            assert(final(s)@ =~= old(s)@ + dec_nat_chars(n as nat));
        } else {
            assert(old(s)@ + dec_nat_chars((n / 10) as nat).push(digit_char((n % 10) as int))
                =~= (old(s)@ + dec_nat_chars((n / 10) as nat)).push(digit_char((n % 10) as int)));
        }
    }
}

/// The decimal rendering of an unsigned 64-bit value.
pub fn dec_u64_string(n: u64) -> (r: String)
    ensures
        r@ == dec_nat_chars(n as nat),
{
    let mut s = String::new();
    push_dec(&mut s, n);
    s
}

/// The decimal rendering of a signed 64-bit value.
pub fn i64_to_string(i: i64) -> (r: String)
    ensures
        r@ == dec_int_chars(i as int),
{
    let mut s = String::new();
    if i >= 0 {
        push_dec(&mut s, i as u64);
    } else {
        string_push(&mut s, '-');
        let wide: i128 = -(i as i128);
        push_dec(&mut s, wide as u64);
        assert(s@ =~= seq!['-'] + dec_nat_chars((-(i as int)) as nat));
    }
    s
}

/// The lowercase hexadecimal rendering of a byte, without a leading zero.
fn hex_byte_string(c: u8) -> (r: String)
    ensures
        r@ == hex_byte_chars(c),
{
    let mut s = String::new();
    if c < 16 {
        string_push(&mut s, digit_exec(c));
    } else {
        string_push(&mut s, digit_exec(c / 16));
        string_push(&mut s, digit_exec(c % 16));
    }
    s
}

/// The display form of a value; see [`display_chars`].
pub fn display_string(v: &Value) -> (r: String)
    ensures
        r@ == display_chars(v@),
    decreases *v,
{
    match v {
        Value::Nil => String::new(),
        Value::Bool(b) => {
            proof {
                reveal_strlit("true");
                reveal_strlit("false");
                assert("true"@ =~= seq!['t', 'r', 'u', 'e']);
                assert("false"@ =~= seq!['f', 'a', 'l', 's', 'e']);
            }
            if *b {
                String::from_str("true")
            } else {
                String::from_str("false")
            }
        },
        Value::FixNum(i) => i64_to_string(*i),
        Value::FloatNum(_) => String::new(),
        Value::Str(text) => text.clone(),
        Value::Char(c) => hex_byte_string(*c),
        Value::Range(start, end, exclude) => {
            proof {
                reveal_strlit("(");
                reveal_strlit(")");
                reveal_strlit("..");
                reveal_strlit("...");
                assert("("@ =~= seq!['(']);
                assert(")"@ =~= seq![')']);
                assert(".."@ =~= seq!['.', '.']);
                assert("..."@ =~= seq!['.', '.', '.']);
            }
            let mut s = String::from_str("(");
            let sa = display_string(&**start);
            s.append(sa.as_str());
            s.append(if *exclude { "..." } else { ".." });
            let sb = display_string(&**end);
            s.append(sb.as_str());
            s.append(")");
            assert(s@ =~= display_chars(v@));
            s
        },
        Value::Class(_) => String::new(),
        Value::Instance(_) => String::new(),
    }
}

/// The diagnostic form of a value; see [`inspect_chars`].
pub fn inspect_string(v: &Value) -> (r: String)
    ensures
        r@ == inspect_chars(v@),
    decreases *v,
{
    match v {
        Value::Nil => {
            proof {
                reveal_strlit("Nil");
                assert("Nil"@ =~= seq!['N', 'i', 'l']);
            }
            String::from_str("Nil")
        },
        Value::Bool(b) => {
            proof {
                reveal_strlit("Bool(true)");
                reveal_strlit("Bool(false)");
                assert("Bool(true)"@ =~= seq!['B', 'o', 'o', 'l', '('] + seq!['t', 'r', 'u', 'e']
                    + seq![')']);
                assert("Bool(false)"@ =~= seq!['B', 'o', 'o', 'l', '('] + seq![
                    'f',
                    'a',
                    'l',
                    's',
                    'e',
                ] + seq![')']);
            }
            if *b {
                String::from_str("Bool(true)")
            } else {
                String::from_str("Bool(false)")
            }
        },
        Value::FixNum(i) => {
            proof {
                reveal_strlit("FixNum(");
                reveal_strlit(")");
                assert("FixNum("@ =~= seq!['F', 'i', 'x', 'N', 'u', 'm', '(']);
                assert(")"@ =~= seq![')']);
            }
            let mut s = String::from_str("FixNum(");
            let digits = i64_to_string(*i);
            s.append(digits.as_str());
            s.append(")");
            assert(s@ =~= inspect_chars(v@));
            s
        },
        Value::FloatNum(bits) => {
            proof {
                reveal_strlit("FloatNum(");
                reveal_strlit(")");
                assert("FloatNum("@ =~= seq!['F', 'l', 'o', 'a', 't', 'N', 'u', 'm', '(']);
                assert(")"@ =~= seq![')']);
            }
            let mut s = String::from_str("FloatNum(");
            let digits = dec_u64_string(*bits);
            s.append(digits.as_str());
            s.append(")");
            assert(s@ =~= inspect_chars(v@));
            s
        },
        Value::Str(text) => {
            proof {
                reveal_strlit("String(\"");
                reveal_strlit("\")");
                assert("String(\""@ =~= seq!['S', 't', 'r', 'i', 'n', 'g', '(', '"']);
                assert("\")"@ =~= seq!['"', ')']);
            }
            let mut s = String::from_str("String(\"");
            s.append(text.as_str());
            s.append("\")");
            assert(s@ =~= inspect_chars(v@));
            s
        },
        Value::Char(c) => {
            proof {
                reveal_strlit("Char(");
                reveal_strlit(")");
                assert("Char("@ =~= seq!['C', 'h', 'a', 'r', '(']);
                assert(")"@ =~= seq![')']);
            }
            let mut s = String::from_str("Char(");
            let digits = dec_u64_string(*c as u64);
            s.append(digits.as_str());
            s.append(")");
            assert(s@ =~= inspect_chars(v@));
            s
        },
        Value::Range(start, end, exclude) => {
            proof {
                reveal_strlit("Range(");
                reveal_strlit(", ");
                reveal_strlit("true");
                reveal_strlit("false");
                reveal_strlit(")");
                assert("Range("@ =~= seq!['R', 'a', 'n', 'g', 'e', '(']);
                assert(", "@ =~= seq![',', ' ']);
                assert("true"@ =~= seq!['t', 'r', 'u', 'e']);
                assert("false"@ =~= seq!['f', 'a', 'l', 's', 'e']);
                assert(")"@ =~= seq![')']);
            }
            let mut s = String::from_str("Range(");
            let sa = inspect_string(&**start);
            s.append(sa.as_str());
            s.append(", ");
            let sb = inspect_string(&**end);
            s.append(sb.as_str());
            s.append(", ");
            s.append(if *exclude { "true" } else { "false" });
            s.append(")");
            assert(s@ =~= inspect_chars(v@));
            s
        },
        Value::Class(r0) => {
            proof {
                reveal_strlit("Class(");
                reveal_strlit(")");
                assert("Class("@ =~= seq!['C', 'l', 'a', 's', 's', '(']);
                assert(")"@ =~= seq![')']);
            }
            let mut s = String::from_str("Class(");
            let digits = dec_u64_string(*r0);
            s.append(digits.as_str());
            s.append(")");
            assert(s@ =~= inspect_chars(v@));
            s
        },
        Value::Instance(r0) => {
            proof {
                reveal_strlit("Instance(");
                reveal_strlit(")");
                assert("Instance("@ =~= seq!['I', 'n', 's', 't', 'a', 'n', 'c', 'e', '(']);
                assert(")"@ =~= seq![')']);
            }
            let mut s = String::from_str("Instance(");
            let digits = dec_u64_string(*r0);
            s.append(digits.as_str());
            s.append(")");
            assert(s@ =~= inspect_chars(v@));
            s
        },
    }
}

} // verus!
