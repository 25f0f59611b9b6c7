//! The work of the host functions that WebAssembly calls: arithmetic on
//! Clarity integers, reached through a value table, a stack frame, or wide
//! integers passed as halves and bytes.
use vstd::prelude::*;

use crate::bytes::{
    i128_bits, i128_from_bits, i128_of_bits, i128_to_bits, le_bytes, le_value, lemma_i128_bits, lemma_le_bytes_len, lemma_le_roundtrip,
    lemma_pow256_16, push_u128_le, read_u128_le,
};
use crate::stack::{Stack, StackFrame, StackModel, frame_kept, lemma_opened_wf};
use crate::value::{Value, ValueModel, models};
use crate::values::{ValuesContext, ValuesModel};
use crate::serialization::{TypeIndicator, get_type_indicator_from_serialized_value, indicator_of, ser};
use crate::allocator::WasmAllocator;
use crate::ptr::Ptr;

verus! {

/// An operation of the host functions on two Clarity values.
#[derive(Debug, Clone, Copy, PartialEq, Eq, Structural)]
pub enum HostOp {
    Add,
    Mul,
    Div,
    Gte,
}

/// Division rounded toward zero, as Rust's integer division does.
pub open spec fn trunc_div(x: int, y: int) -> int {
    if x >= 0 && y > 0 {
        x / y
    } else if x >= 0 {
        -(x / -y)
    } else if y > 0 {
        -((-x) / y)
    } else {
        (-x) / (-y)
    }
}

/// The sum of two integers of the same kind, where it fits.
pub open spec fn sum_of(a: ValueModel, b: ValueModel) -> Option<ValueModel> {
    match (a, b) {
        (ValueModel::Int(x), ValueModel::Int(y)) => if i128::MIN <= x + y <= i128::MAX {
            Some(ValueModel::Int((x + y) as i128))
        } else {
            None
        },
        (ValueModel::UInt(x), ValueModel::UInt(y)) => if x + y <= u128::MAX {
            Some(ValueModel::UInt((x + y) as u128))
        } else {
            None
        },
        _ => None,
    }
}

/// The product of two integers of the same kind, where it fits.
pub open spec fn product_of(a: ValueModel, b: ValueModel) -> Option<ValueModel> {
    match (a, b) {
        (ValueModel::Int(x), ValueModel::Int(y)) => if i128::MIN <= x * y <= i128::MAX {
            Some(ValueModel::Int((x * y) as i128))
        } else {
            None
        },
        (ValueModel::UInt(x), ValueModel::UInt(y)) => if x * y <= u128::MAX {
            Some(ValueModel::UInt((x * y) as u128))
        } else {
            None
        },
        _ => None,
    }
}

/// The quotient, rounded toward zero, of two integers of the same kind, where
/// the divisor is not zero and the quotient fits.
pub open spec fn quotient_of(a: ValueModel, b: ValueModel) -> Option<ValueModel> {
    match (a, b) {
        (ValueModel::Int(x), ValueModel::Int(y)) => if y != 0 && i128::MIN <= trunc_div(
            x as int,
            y as int,
        ) <= i128::MAX {
            Some(ValueModel::Int(trunc_div(x as int, y as int) as i128))
        } else {
            None
        },
        (ValueModel::UInt(x), ValueModel::UInt(y)) => if y != 0 {
            Some(ValueModel::UInt((x / y) as u128))
        } else {
            None
        },
        _ => None,
    }
}

/// Whether the first of two integers of the same kind is at least the second.
pub open spec fn at_least_of(a: ValueModel, b: ValueModel) -> Option<ValueModel> {
    match (a, b) {
        (ValueModel::Int(x), ValueModel::Int(y)) => Some(ValueModel::Bool(x >= y)),
        (ValueModel::UInt(x), ValueModel::UInt(y)) => Some(ValueModel::Bool(x >= y)),
        _ => None,
    }
}

/// The result of `op` on `a` and `b`: `None` where the operands are not two
/// integers of the same kind or the result does not exist or fit.
pub open spec fn op_result(op: HostOp, a: ValueModel, b: ValueModel) -> Option<ValueModel> {
    match op {
        HostOp::Add => sum_of(a, b),
        HostOp::Mul => product_of(a, b),
        HostOp::Div => quotient_of(a, b),
        HostOp::Gte => at_least_of(a, b),
    }
}

/// Adds two integers of the same kind.
pub fn add_values(a: &Value, b: &Value) -> (r: Value)
    requires
        sum_of(a@, b@) is Some,
    ensures
        Some(r@) == sum_of(a@, b@),
{
    match (a, b) {
        (Value::Int(x), Value::Int(y)) => Value::Int(*x + *y),
        (Value::UInt(x), Value::UInt(y)) => Value::UInt(*x + *y),
        _ => {
            assert(false);
            Value::Bool(false)
        },
    }
}

/// Multiplies two integers of the same kind.
pub fn mul_values(a: &Value, b: &Value) -> (r: Value)
    requires
        product_of(a@, b@) is Some,
    ensures
        Some(r@) == product_of(a@, b@),
{
    match (a, b) {
        (Value::Int(x), Value::Int(y)) => Value::Int(x.checked_mul(*y).unwrap()),
        (Value::UInt(x), Value::UInt(y)) => Value::UInt(x.checked_mul(*y).unwrap()),
        _ => {
            assert(false);
            Value::Bool(false)
        },
    }
}

/// Divides two integers of the same kind, rounding toward zero.
pub fn div_values(a: &Value, b: &Value) -> (r: Value)
    requires
        quotient_of(a@, b@) is Some,
    ensures
        Some(r@) == quotient_of(a@, b@),
{
    match (a, b) {
        (Value::Int(x), Value::Int(y)) => Value::Int(x.checked_div(*y).unwrap()),
        (Value::UInt(x), Value::UInt(y)) => Value::UInt(x.checked_div(*y).unwrap()),
        _ => {
            assert(false);
            Value::Bool(false)
        },
    }
}

/// Whether the first of two integers of the same kind is at least the second.
pub fn gte_values(a: &Value, b: &Value) -> (r: Value)
    requires
        at_least_of(a@, b@) is Some,
    ensures
        Some(r@) == at_least_of(a@, b@),
{
    match (a, b) {
        (Value::Int(x), Value::Int(y)) => Value::Bool(*x >= *y),
        (Value::UInt(x), Value::UInt(y)) => Value::Bool(*x >= *y),
        _ => {
            assert(false);
            Value::Bool(false)
        },
    }
}

/// Applies `op` to `a` and `b`.
pub fn apply_op(op: HostOp, a: &Value, b: &Value) -> (r: Value)
    requires
        op_result(op, a@, b@) is Some,
    ensures
        Some(r@) == op_result(op, a@, b@),
{
    match op {
        HostOp::Add => add_values(a, b),
        HostOp::Mul => mul_values(a, b),
        HostOp::Div => div_values(a, b),
        HostOp::Gte => gte_values(a, b),
    }
}

/// Applies `op` to `a` and `b`, or returns `None` where `op` has no result on
/// them: they are not two integers of the same kind, or the result does not
/// exist or fit.
pub fn try_apply_op(op: HostOp, a: &Value, b: &Value) -> (r: Option<Value>)
    ensures
        match r {
            Some(v) => op_result(op, a@, b@) == Some(v@),
            None => op_result(op, a@, b@) is None,
        },
{
    let ok = match (op, a, b) {
        (HostOp::Add, Value::Int(x), Value::Int(y)) => x.checked_add(*y).is_some(),
        (HostOp::Add, Value::UInt(x), Value::UInt(y)) => x.checked_add(*y).is_some(),
        (HostOp::Mul, Value::Int(x), Value::Int(y)) => x.checked_mul(*y).is_some(),
        (HostOp::Mul, Value::UInt(x), Value::UInt(y)) => x.checked_mul(*y).is_some(),
        (HostOp::Div, Value::Int(x), Value::Int(y)) => x.checked_div(*y).is_some(),
        (HostOp::Div, Value::UInt(x), Value::UInt(y)) => *y != 0,
        (HostOp::Gte, Value::Int(_), Value::Int(_)) => true,
        (HostOp::Gte, Value::UInt(_), Value::UInt(_)) => true,
        _ => false,
    };
    if ok {
        Some(apply_op(op, a, b))
    } else {
        None
    }
}

/// Whether the locals `a_ptr` and `b_ptr` of a stack hold operands on which
/// `op` has a result.
pub open spec fn stack_operands_ok(m: StackModel, a_ptr: i32, b_ptr: i32, op: HostOp) -> bool {
    &&& 0 <= a_ptr < m.locals.len()
    &&& 0 <= b_ptr < m.locals.len()
    &&& m.local(a_ptr as int) is Some
    &&& m.local(b_ptr as int) is Some
    &&& op_result(op, m.local(a_ptr as int)->0, m.local(b_ptr as int)->0) is Some
}

/// The result of `op` on the locals `a_ptr` and `b_ptr` of a stack.
pub open spec fn stack_op_result(m: StackModel, a_ptr: i32, b_ptr: i32, op: HostOp) -> ValueModel {
    op_result(op, m.local(a_ptr as int)->0, m.local(b_ptr as int)->0)->0
}

/// The sequence of the one value `v`.
pub open spec fn single(v: ValueModel) -> Seq<ValueModel> {
    seq![v]
}

/// Runs `op` on the locals `a_ptr` and `b_ptr` in a new frame of `stack`; the
/// result is the frame's one result. Returns `false`, and leaves the stack as
/// it was, where the locals do not hold operands on which `op` has a result.
pub fn op_on_stack(stack: &mut Stack, a_ptr: i32, b_ptr: i32, op: HostOp) -> (done: bool)
    requires
        old(stack)@.wf(),
        old(stack)@.next_frame < usize::MAX,
    ensures
        done == stack_operands_ok(old(stack)@, a_ptr, b_ptr, op),
        done ==> final(stack)@ == old(stack)@.with_results(
            single(stack_op_result(old(stack)@, a_ptr, b_ptr, op)),
        ),
        !done ==> final(stack)@ == old(stack)@,
{
    let ok = match (stack.local_try_get(a_ptr), stack.local_try_get(b_ptr)) {
        (Some(a), Some(b)) => try_apply_op(op, a, b).is_some(),
        _ => false,
    };
    if !ok {
        return false;
    }
    let ghost start = stack@;
    proof {
        lemma_opened_wf(start);
    }
    let body = (
        |frame: &mut StackFrame| -> (r: Vec<Value>)
            requires
                old(frame)@ == start.opened(),
                start.opened().wf(),
            ensures
                final(frame)@ == old(frame)@,
                frame_kept(old(frame)@, final(frame)@),
                models(r@) == single(stack_op_result(start, a_ptr, b_ptr, op)),
            {
                let a = frame.get_unchecked(a_ptr).unwrap();
                let b = frame.get_unchecked(b_ptr).unwrap();
                let result = apply_op(op, a, b);
                let mut r: Vec<Value> = Vec::new();
                r.push(result);
                assert(models(r@) =~= single(stack_op_result(start, a_ptr, b_ptr, op)));
                r
            }
    );
    stack.exec(body);
    assert(stack@ =~= start.with_results(single(stack_op_result(start, a_ptr, b_ptr, op))));
    true
}

/// Whether the slots `a_ptr` and `b_ptr` of a value table hold operands on
/// which `op` has a result.
pub open spec fn table_operands_ok(m: ValuesModel, a_ptr: i32, b_ptr: i32, op: HostOp) -> bool {
    &&& m.valid(a_ptr)
    &&& m.valid(b_ptr)
    &&& m.values[a_ptr as int] is Some
    &&& m.values[b_ptr as int] is Some
    &&& op_result(op, m.values[a_ptr as int]->0, m.values[b_ptr as int]->0) is Some
}

/// The result of `op` on the slots `a_ptr` and `b_ptr` of a value table.
pub open spec fn table_op_result(m: ValuesModel, a_ptr: i32, b_ptr: i32, op: HostOp) -> ValueModel {
    op_result(op, m.values[a_ptr as int]->0, m.values[b_ptr as int]->0)->0
}

/// Runs `op` on the values in the slots `a_ptr` and `b_ptr` of `values`,
/// pushes the result into the table and returns its pointer. Returns `None`,
/// and leaves the table as it was, where the slots do not hold operands on
/// which `op` has a result.
pub fn op_on_values(values: &mut ValuesContext, a_ptr: i32, b_ptr: i32, op: HostOp) -> (r: Option<i32>)
    requires
        old(values)@.wf(),
    ensures
        final(values)@.wf(),
        r is Some == table_operands_ok(old(values)@, a_ptr, b_ptr, op),
        r matches Some(ptr) ==> ptr == old(values)@.next_slot() && final(values)@
            == old(values)@.after_take_slot(Some(table_op_result(old(values)@, a_ptr, b_ptr, op))),
        r is None ==> final(values)@ == old(values)@,
{
    let n = values.count();
    if a_ptr < 0 || b_ptr < 0 || a_ptr as usize >= n || b_ptr as usize >= n {
        return None;
    }
    let result = match (values.borrow(a_ptr), values.borrow(b_ptr)) {
        (Some(a), Some(b)) => try_apply_op(op, a, b),
        _ => None,
    };
    match result {
        Some(v) => Some(values.push(v)),
        None => None,
    }
}

/// The `i128` whose sixteen little-endian two's-complement bytes are `s`.
pub open spec fn i128_le(s: Seq<u8>) -> int {
    i128_of_bits(le_value(s))
}

/// Adds two `i128`s given as sixteen little-endian bytes each and returns the
/// sixteen little-endian bytes of the sum, or `None` where the sum does not
/// fit.
pub fn add_int128_le_bytes(a: &[u8], b: &[u8]) -> (r: Option<Vec<u8>>)
    requires
        a@.len() == 16,
        b@.len() == 16,
    ensures
        r is Some == (i128::MIN <= i128_le(a@) + i128_le(b@) <= i128::MAX),
        r matches Some(bytes) ==> bytes@ == le_bytes(i128_bits((i128_le(a@) + i128_le(b@)) as i128), 16)
            && i128_le(bytes@) == i128_le(a@) + i128_le(b@),
{
    assert(a@.subrange(0, 16) =~= a@);
    assert(b@.subrange(0, 16) =~= b@);
    let x = i128_from_bits(read_u128_le(a));
    let y = i128_from_bits(read_u128_le(b));
    let sum = match x.checked_add(y) {
        Some(sum) => sum,
        None => return None,
    };
    let mut out: Vec<u8> = Vec::with_capacity(16);
    push_u128_le(&mut out, i128_to_bits(sum));
    proof {
        assert(out@ =~= le_bytes(i128_bits(sum) as nat, 16));
        lemma_i128_bits(sum);
        lemma_le_roundtrip(i128_bits(sum), 16);
        lemma_pow256_16();
    }
    Some(out)
}

/// Why adding two integers read from memory fails.
#[derive(Debug, Clone, Copy, PartialEq, Eq, Structural)]
pub enum MemoryOpError {
    /// An operand is not an integer.
    FunctionOnlySupportsIntegralValues,
    /// The operands are integers of different kinds.
    ArgumentTypeMismatch,
    /// The sum does not fit.
    ArithmeticOverflow,
}

/// The type of a serialized operand, read from its first byte (the type
/// indicator of its header), where it is an integer type.
pub open spec fn operand_type(bytes: Seq<u8>) -> Result<TypeIndicator, MemoryOpError> {
    match indicator_of(bytes[0])->0 {
        TypeIndicator::Int => Ok(TypeIndicator::Int),
        TypeIndicator::UInt => Ok(TypeIndicator::UInt),
        _ => Err(MemoryOpError::FunctionOnlySupportsIntegralValues),
    }
}

/// Reads the type of a serialized operand from its first byte, which must be
/// a type indicator, and checks that it is an integer type.
pub fn integer_operand_type(bytes: &[u8]) -> (r: Result<TypeIndicator, MemoryOpError>)
    requires
        bytes@.len() > 0,
        indicator_of(bytes@[0]) is Some,
    ensures
        r == operand_type(bytes@),
{
    let ty = get_type_indicator_from_serialized_value(bytes).unwrap();
    if !ty.is_integer() {
        return Err(MemoryOpError::FunctionOnlySupportsIntegralValues);
    }
    Ok(ty)
}

/// The sum of two integer operands of the types `a_ty` and `b_ty`, each given
/// as sixteen little-endian bytes, as sixteen little-endian bytes.
pub open spec fn memory_sum(a_ty: TypeIndicator, a: Seq<u8>, b_ty: TypeIndicator, b: Seq<u8>) -> Result<
    Seq<u8>,
    MemoryOpError,
> {
    if a_ty != b_ty {
        Err(MemoryOpError::ArgumentTypeMismatch)
    } else if a_ty == TypeIndicator::Int {
        let sum = i128_le(a) + i128_le(b);
        if i128::MIN <= sum <= i128::MAX {
            Ok(le_bytes(i128_bits(sum as i128), 16))
        } else {
            Err(MemoryOpError::ArithmeticOverflow)
        }
    } else {
        let sum = le_value(a) + le_value(b);
        if sum <= u128::MAX {
            Ok(le_bytes(sum, 16))
        } else {
            Err(MemoryOpError::ArithmeticOverflow)
        }
    }
}

/// Adds two integer operands of the types `a_ty` and `b_ty`, each given as
/// sixteen little-endian bytes.
pub fn add_integer_operands(a_ty: TypeIndicator, a: &[u8], b_ty: TypeIndicator, b: &[u8]) -> (r: Result<
    Vec<u8>,
    MemoryOpError,
>)
    requires
        a_ty == TypeIndicator::Int || a_ty == TypeIndicator::UInt,
        b_ty == TypeIndicator::Int || b_ty == TypeIndicator::UInt,
        a@.len() == 16,
        b@.len() == 16,
    ensures
        match r {
            Ok(bytes) => memory_sum(a_ty, a@, b_ty, b@) == Ok::<Seq<u8>, MemoryOpError>(bytes@),
            Err(e) => memory_sum(a_ty, a@, b_ty, b@) == Err::<Seq<u8>, MemoryOpError>(e),
        },
{
    if a_ty != b_ty {
        return Err(MemoryOpError::ArgumentTypeMismatch);
    }
    assert(a@.subrange(0, 16) =~= a@);
    assert(b@.subrange(0, 16) =~= b@);
    let mut out: Vec<u8> = Vec::with_capacity(16);
    if a_ty == TypeIndicator::Int {
        let x = i128_from_bits(read_u128_le(a));
        let y = i128_from_bits(read_u128_le(b));
        match x.checked_add(y) {
            Some(sum) => {
                push_u128_le(&mut out, i128_to_bits(sum));
                assert(out@ =~= le_bytes(i128_bits(sum) as nat, 16));
            },
            None => {
                return Err(MemoryOpError::ArithmeticOverflow);
            },
        }
    } else {
        let x = read_u128_le(a);
        let y = read_u128_le(b);
        match x.checked_add(y) {
            Some(sum) => {
                push_u128_le(&mut out, sum);
                assert(out@ =~= le_bytes(sum as nat, 16));
            },
            None => {
                return Err(MemoryOpError::ArithmeticOverflow);
            },
        }
    }
    Ok(out)
}

/// The sixteen body bytes of a serialized integer operand (after its
/// three-byte header).
pub open spec fn operand_body(bytes: Seq<u8>) -> Seq<u8> {
    bytes.subrange(3, 19)
}

/// Adds two integers serialized in memory, each as its three-byte header (type
/// indicator and length) and sixteen body bytes: checks that both are integers
/// of one kind (the type is read from each header), adds their bodies,
/// reserves memory for the sum with `alloc` and returns where it goes and its
/// sixteen little-endian bytes. On an error nothing is reserved.
pub fn add_memory_operands(a: &[u8], b: &[u8], alloc: &mut WasmAllocator) -> (r: Result<
    (Ptr, Vec<u8>),
    MemoryOpError,
>)
    requires
        a@.len() == 19,
        indicator_of(a@[0]) is Some,
        operand_type(a@) is Ok ==> b@.len() == 19 && indicator_of(b@[0]) is Some,
        old(alloc).next_offset + 16 <= u32::MAX,
    ensures
        match operand_type(a@) {
            Err(e) => r == Err::<(Ptr, Vec<u8>), MemoryOpError>(e) && *final(alloc) == *old(alloc),
            Ok(ta) => match operand_type(b@) {
                Err(e) => r == Err::<(Ptr, Vec<u8>), MemoryOpError>(e) && *final(alloc) == *old(alloc),
                Ok(tb) => match memory_sum(ta, operand_body(a@), tb, operand_body(b@)) {
                    Err(e) => r == Err::<(Ptr, Vec<u8>), MemoryOpError>(e) && *final(alloc) == *old(alloc),
                    Ok(bytes) => r matches Ok((p, v)) && v@ == bytes && p == (Ptr {
                        offset: old(alloc).next_offset,
                        len: 16,
                    }) && final(alloc).next_offset == old(alloc).next_offset + 16,
                },
            },
        },
{
    let a_ty = match integer_operand_type(a) {
        Ok(t) => t,
        Err(e) => return Err(e),
    };
    let b_ty = match integer_operand_type(b) {
        Ok(t) => t,
        Err(e) => return Err(e),
    };
    let a_body = slice_range(a, 3, 19);
    let b_body = slice_range(b, 3, 19);
    let sum = match add_integer_operands(a_ty, a_body.as_slice(), b_ty, b_body.as_slice()) {
        Ok(sum) => sum,
        Err(e) => return Err(e),
    };
    proof {
        lemma_le_bytes_len(if a_ty == TypeIndicator::Int {
            i128_bits((i128_le(a_body@) + i128_le(b_body@)) as i128)
        } else {
            le_value(a_body@) + le_value(b_body@)
        }, 16);
    }
    let ptr = alloc.alloc_for_buffer(sum.as_slice());
    Ok((ptr, sum))
}

/// The bytes of `s` from `start` to `end`.
fn slice_range(s: &[u8], start: usize, end: usize) -> (r: Vec<u8>)
    requires
        start <= end <= s@.len(),
    ensures
        r@ == s@.subrange(start as int, end as int),
{
    let mut r: Vec<u8> = Vec::with_capacity(end - start);
    let mut i = start;
    while i < end
        invariant
            start <= i <= end <= s@.len(),
            r@ == s@.subrange(start as int, i as int),
        decreases end - i,
    {
        r.push(s[i]);
        i = i + 1;
    }
    r
}

/// Adding two serialized signed integers whose sum fits gives the sixteen
/// little-endian bytes of the sum; two unsigned ones likewise.
pub proof fn law_memory_sum_of_serialized_integers(x: ValueModel, y: ValueModel)
    requires
        (x is Int && y is Int && i128::MIN <= x->Int_0 + y->Int_0 <= i128::MAX) || (x is UInt && y is UInt
            && x->UInt_0 + y->UInt_0 <= u128::MAX),
    ensures
        ser(x).len() == 19,
        ser(y).len() == 19,
        operand_type(ser(x)) is Ok,
        operand_type(ser(y)) is Ok,
        x is Int ==> memory_sum(operand_type(ser(x))->Ok_0, operand_body(ser(x)), operand_type(ser(y))->Ok_0,
            operand_body(ser(y))) == Ok::<Seq<u8>, MemoryOpError>(
            le_bytes(i128_bits((x->Int_0 + y->Int_0) as i128), 16),
        ),
        x is UInt ==> memory_sum(operand_type(ser(x))->Ok_0, operand_body(ser(x)), operand_type(ser(y))->Ok_0,
            operand_body(ser(y))) == Ok::<Seq<u8>, MemoryOpError>(le_bytes((x->UInt_0 + y->UInt_0) as nat, 16)),
{
    lemma_serialized_integer(x);
    lemma_serialized_integer(y);
}

/// A serialized integer is nineteen bytes: its type, then its sixteen
/// little-endian bytes after the header.
proof fn lemma_serialized_integer(x: ValueModel)
    requires
        x is Int || x is UInt,
    ensures
        ser(x).len() == 19,
        indicator_of(ser(x)[0]) == Some(if x is Int { TypeIndicator::Int } else { TypeIndicator::UInt }),
        x is Int ==> i128_le(operand_body(ser(x))) == x->Int_0,
        x is UInt ==> le_value(operand_body(ser(x))) == x->UInt_0,
{
    lemma_pow256_16();
    crate::serialization::lemma_ser_len(x);
    match x {
        ValueModel::Int(n) => {
            lemma_le_bytes_len(i128_bits(n), 16);
            crate::bytes::lemma_le_roundtrip(i128_bits(n), 16);
            crate::bytes::lemma_i128_bits(n);
        },
        ValueModel::UInt(n) => {
            lemma_le_bytes_len(n as nat, 16);
            crate::bytes::lemma_le_roundtrip(n as nat, 16);
        },
        _ => {},
    }
}

} // verus!
