use clarity_wasm::allocator::WasmAllocator;
use clarity_wasm::compiler::WasmGenerationError;
use clarity_wasm::ptr::Ptr;
use clarity_wasm::context::ClarityWasmContext;
use clarity_wasm::fold::{fold_items, FoldItems, ItemFold, MemoryFold, TableFold};
use clarity_wasm::host::HostFunctionSignature;
use clarity_wasm::native::{
    add_int128_le_bytes, add_integer_operands, add_values, apply_op, div_values, gte_values,
    integer_operand_type, mul_values, add_memory_operands, op_on_stack, op_on_values, try_apply_op, HostOp, MemoryOpError,
};
use clarity_wasm::runtime::{FuncResult, FuncResultTrait, RuntimeError};
use clarity_wasm::serialization::{serialize_clarity_value, TypeIndicator};
use clarity_wasm::stack::Stack;
use clarity_wasm::stdlib::{
    add_int128, add_uint128, checked_add_int128, join_halves, mul_uint128, split_halves, SimpleAllocator,
};
use clarity_wasm::value::Value;
use clarity_wasm::values::ValuesContext;

#[test]
fn value_arithmetic_gives_exact_results() {
    assert_eq!(Value::Int(7), add_values(&Value::Int(3), &Value::Int(4)));
    assert_eq!(Value::UInt(u128::MAX), add_values(&Value::UInt(u128::MAX - 1), &Value::UInt(1)));
    assert_eq!(Value::Int(-12), mul_values(&Value::Int(3), &Value::Int(-4)));
    assert_eq!(Value::Int(-3), div_values(&Value::Int(-7), &Value::Int(2)));
    assert_eq!(Value::UInt(3), div_values(&Value::UInt(7), &Value::UInt(2)));
    assert_eq!(Value::Bool(true), gte_values(&Value::Int(2), &Value::Int(2)));
    assert_eq!(Value::Bool(false), gte_values(&Value::UInt(1), &Value::UInt(2)));
    assert_eq!(Value::Int(10), apply_op(HostOp::Mul, &Value::Int(2), &Value::Int(5)));
    assert_eq!(None, try_apply_op(HostOp::Div, &Value::Int(i128::MIN), &Value::Int(-1)));
    assert_eq!(None, try_apply_op(HostOp::Add, &Value::Int(1), &Value::UInt(1)));
    assert_eq!(Some(Value::Int(2)), try_apply_op(HostOp::Add, &Value::Int(1), &Value::Int(1)));
}

#[test]
fn op_on_stack_leaves_the_result_in_the_result_buffer_and_rewinds() {
    let mut stack = Stack::new();
    let (a, _) = stack.local_push(&Value::Int(1024));
    let (b, _) = stack.local_push(&Value::Int(2048));

    assert!(op_on_stack(&mut stack, a, b, HostOp::Add));

    assert_eq!(2, stack.local_count());
    assert_eq!(0, stack.get_frame_index());
    let results = stack.result_buffer_to_vec();
    assert_eq!(1, results.len());
    assert_eq!(&Value::Int(3072), results[0]);

    assert!(op_on_stack(&mut stack, a, b, HostOp::Gte));
    let results = stack.result_buffer_to_vec();
    assert_eq!(&Value::Bool(false), results[0]);
    assert_eq!(2, stack.owned_values().len());

    // Operands of different kinds, or a pointer past the locals, are refused.
    let (c, _) = stack.local_push(&Value::UInt(1));
    assert!(!op_on_stack(&mut stack, a, c, HostOp::Add));
    assert!(!op_on_stack(&mut stack, a, 99, HostOp::Add));
    assert_eq!(2, stack.owned_values().len());
}

#[test]
fn op_on_values_pushes_the_result_into_a_freed_slot() {
    let mut values = ValuesContext::new();
    let a = values.push(Value::UInt(6));
    let b = values.push(Value::UInt(7));
    let spare = values.new_ptr();
    values.drop(spare);

    let r = op_on_values(&mut values, a, b, HostOp::Mul).unwrap();

    assert_eq!(spare, r);
    assert_eq!(Some(&Value::UInt(42)), values.borrow(r));

    let zero = values.push(Value::UInt(0));
    assert_eq!(None, op_on_values(&mut values, a, zero, HostOp::Div));
    assert_eq!(None, op_on_values(&mut values, a, -1, HostOp::Div));
}

#[test]
fn table_fold_sums_a_list() {
    let mut values = ValuesContext::new();
    let list = Value::List((1..=100).map(Value::Int).collect());
    let list_ptr = values.push(list);
    let init_ptr = values.push(Value::Int(1));

    let mut fold = TableFold::begin(&mut values, list_ptr, init_ptr);
    while let Some((val_ptr, acc_ptr)) = fold.next_call(&mut values) {
        let result_ptr = op_on_values(&mut values, val_ptr, acc_ptr, HostOp::Add).unwrap();
        fold.returned(&mut values, result_ptr);
    }
    let result_ptr = fold.finish(&mut values);

    assert_eq!(Some(Value::Int(5051)), values.take(result_ptr));
}

#[test]
fn memory_fold_threads_the_accumulator() {
    let list = Value::List(vec![Value::Int(1), Value::Int(2)]);
    let bytes = serialize_clarity_value(&list).unwrap();

    let not_a_sequence = serialize_clarity_value(&Value::Int(1)).unwrap();
    assert!(MemoryFold::begin(&not_a_sequence, 100, 19).is_none());
    assert!(MemoryFold::begin(&[], 100, 19).is_none());

    let mut fold = MemoryFold::begin(&bytes, 100, 19).unwrap();
    assert_eq!((0, 0, 0), fold.finish());

    let (offset, len, acc_ptr, acc_len) = fold.next_call().unwrap();
    assert_eq!((100, 19), (acc_ptr, acc_len));
    assert_eq!((0, 16), (offset, len));
    fold.returned((0, 200, 19));

    let (offset, len, acc_ptr, acc_len) = fold.next_call().unwrap();
    assert_eq!((19, 16), (offset, len));
    assert_eq!((200, 19), (acc_ptr, acc_len));
    fold.returned((0, 300, 19));

    assert_eq!(None, fold.next_call());
    assert_eq!((0, 300, 19), fold.finish());
}

#[test]
fn wide_integers_are_added_and_multiplied_through_their_halves() {
    // 0xFFFF_FFFF_FFFF_FFFF + 1 carries into the high half.
    assert_eq!((0, 1), add_uint128(-1, 0, 1, 0));
    assert_eq!((5, 0), add_int128(2, 0, 3, 0));
    // A sum past i128::MAX gives (-1, -1).
    assert_eq!((-1, -1), add_int128(0, i64::MAX, 0, 1));
    assert_eq!(Some((5, 0)), checked_add_int128(2, 0, 3, 0));
    assert_eq!(None, checked_add_int128(0, i64::MAX, 0, 1));
    assert_eq!((0, 2), mul_uint128(0, 1, 2, 0));
    assert_eq!(u128::MAX, join_halves(-1, -1));
    assert_eq!((-1, 0), split_halves(u64::MAX as u128));
}

#[test]
fn int128_bytes_are_added() {
    let a = (-5i128).to_le_bytes();
    let b = 12i128.to_le_bytes();
    let r = add_int128_le_bytes(&a, &b).unwrap();
    assert_eq!(7i128.to_le_bytes().to_vec(), r);
    let max = i128::MAX.to_le_bytes();
    assert_eq!(None, add_int128_le_bytes(&max, &b));
}

#[test]
fn memory_operands_are_checked_and_added() {
    let mut a = [0u8; 16];
    a[0] = 2;
    let mut b = [0u8; 16];
    b[0] = 2;
    assert_eq!(Ok(TypeIndicator::Int), integer_operand_type(&a));
    assert_eq!(
        Err(MemoryOpError::FunctionOnlySupportsIntegralValues),
        integer_operand_type(&[3u8])
    );
    assert_eq!(
        Err(MemoryOpError::ArgumentTypeMismatch),
        add_integer_operands(TypeIndicator::Int, &a, TypeIndicator::UInt, &b)
    );
    let sum = add_integer_operands(TypeIndicator::UInt, &a, TypeIndicator::UInt, &b).unwrap();
    assert_eq!(4u128.to_le_bytes().to_vec(), sum);
    let max = u128::MAX.to_le_bytes();
    assert_eq!(
        Err(MemoryOpError::ArithmeticOverflow),
        add_integer_operands(TypeIndicator::UInt, &max, TypeIndicator::UInt, &b)
    );
    let int_max = i128::MAX.to_le_bytes();
    assert_eq!(
        Err(MemoryOpError::ArithmeticOverflow),
        add_integer_operands(TypeIndicator::Int, &int_max, TypeIndicator::Int, &b)
    );
}

#[test]
fn simple_allocator_bumps_to_aligned_offsets() {
    let mut alloc = SimpleAllocator::new();
    assert_eq!(Some(0), alloc.allocate(3, 1));
    assert_eq!(Some(8), alloc.allocate(4, 8));
    // A block that would run past the arena gets nothing.
    assert_eq!(None, alloc.allocate(128 * 1024, 16));
    assert_eq!(None, alloc.allocate(1, 1));

    let mut alloc = SimpleAllocator::new();
    assert_eq!(Some(0), alloc.allocate(128 * 1024 - 1, 1));
    assert_eq!(None, alloc.allocate(2, 1));
    let mut alloc = SimpleAllocator::new();
    assert_eq!(Some(0), alloc.allocate(128 * 1024, 1));
}

#[test]
fn runtime_errors_round_trip_through_results() {
    for e in [
        RuntimeError::InvalidRuntimeError,
        RuntimeError::NoError,
        RuntimeError::FunctionArgumentRequired,
        RuntimeError::FailedToDeserializeValueFromMemory,
    ] {
        let r: FuncResult = <FuncResult as FuncResultTrait>::error(e);
        assert_eq!(e, r.get_error());
        assert_eq!(e == RuntimeError::NoError, r.is_success());
    }
    assert_eq!(1, RuntimeError::FunctionArgumentRequired.code());
    assert_eq!(RuntimeError::InvalidRuntimeError, (7, 0, 0).get_error());
}

#[test]
fn host_function_signature_keeps_its_fields() {
    let sig = HostFunctionSignature::new("clarity", "add", 2, 1);
    assert_eq!("clarity", sig.module);
    assert_eq!("add", sig.name);
    assert_eq!(2, sig.param_count);
    assert_eq!(1, sig.result_count);
}

#[test]
fn generation_errors_have_messages() {
    assert_eq!(
        "Unknown function: foo",
        WasmGenerationError::UnknownFunction("foo".to_string()).message()
    );
    assert_eq!(
        "Internal error: oops",
        WasmGenerationError::InternalError("oops".to_string()).message()
    );
    assert_eq!(None, WasmGenerationError::NotImplemented.suggestion());
}

#[test]
fn context_starts_empty() {
    let c = ClarityWasmContext::new();
    assert_eq!(0, c.alloc.next_offset);
    assert_eq!(0, c.values.count());
}

#[test]
fn add_and_mul_on_table_values() {
    let add_cases = [
        (Value::Int(1), Value::Int(2), Value::Int(3)),
        (Value::UInt(2), Value::UInt(3), Value::UInt(5)),
    ];
    for (a, b, expected) in add_cases {
        assert_eq!(expected, add_values(&a, &b));
        let mut values = ValuesContext::new();
        let a_ptr = values.push(a);
        let b_ptr = values.push(b);
        let r = op_on_values(&mut values, a_ptr, b_ptr, HostOp::Add).unwrap();
        assert_eq!(Some(expected), values.take(r));
    }

    let mul_cases = [
        (Value::Int(1), Value::Int(2), Value::Int(2)),
        (Value::UInt(2), Value::UInt(3), Value::UInt(6)),
        (Value::UInt(5), Value::UInt(5), Value::UInt(25)),
    ];
    for (a, b, expected) in mul_cases {
        let mut values = ValuesContext::new();
        let a_ptr = values.push(a);
        let b_ptr = values.push(b);
        let r = op_on_values(&mut values, a_ptr, b_ptr, HostOp::Mul).unwrap();
        assert_eq!(Some(expected), values.take(r));
    }
}

#[test]
fn fold_items_of_each_sequence_kind() {
    match fold_items(&Value::List(vec![Value::Int(1), Value::UInt(2)])) {
        Some(FoldItems::Values(items)) => assert_eq!(vec![Value::Int(1), Value::UInt(2)], items),
        other => panic!("expected values, got {:?}", other),
    }
    match fold_items(&Value::Buffer(vec![7, 8])) {
        Some(FoldItems::Bytes(bytes)) => assert_eq!(vec![7, 8], bytes),
        other => panic!("expected bytes, got {:?}", other),
    }
    match fold_items(&Value::Utf8String("hé!".as_bytes().to_vec())) {
        Some(FoldItems::Chars(chars)) => {
            assert_eq!(vec![b"h".to_vec(), "é".as_bytes().to_vec(), b"!".to_vec()], chars)
        }
        other => panic!("expected characters, got {:?}", other),
    }
    assert!(fold_items(&Value::Int(1)).is_none());
}

#[test]
fn memory_operands_are_added_into_reserved_memory() {
    let mut alloc = WasmAllocator::new();
    let a = serialize_clarity_value(&Value::Int(5)).unwrap();
    let b = serialize_clarity_value(&Value::Int(7)).unwrap();
    assert_eq!(19, a.len());
    let (ptr, bytes) = add_memory_operands(&a, &b, &mut alloc).unwrap();
    assert_eq!(Ptr::new(0, 16), ptr);
    assert_eq!(16, alloc.next_offset);
    assert_eq!(12i128.to_le_bytes().to_vec(), bytes);

    let a = serialize_clarity_value(&Value::Int(-20)).unwrap();
    let (ptr, bytes) = add_memory_operands(&a, &b, &mut alloc).unwrap();
    assert_eq!(Ptr::new(16, 16), ptr);
    assert_eq!((-13i128).to_le_bytes().to_vec(), bytes);

    let u = serialize_clarity_value(&Value::UInt(u128::MAX)).unwrap();
    let one = serialize_clarity_value(&Value::UInt(1)).unwrap();
    assert_eq!(
        Err(MemoryOpError::ArithmeticOverflow),
        add_memory_operands(&u, &one, &mut alloc)
    );
    let not_int = serialize_clarity_value(&Value::Buffer(vec![0u8; 16])).unwrap();
    assert_eq!(
        Err(MemoryOpError::FunctionOnlySupportsIntegralValues),
        add_memory_operands(&not_int, &[], &mut alloc)
    );
    assert_eq!(
        Err(MemoryOpError::ArgumentTypeMismatch),
        add_memory_operands(&b, &one, &mut alloc)
    );
    assert_eq!(32, alloc.next_offset);
}

#[test]
fn item_fold_passes_each_item_and_the_accumulator() {
    let mut fold = ItemFold::begin(vec![Value::Int(1), Value::Int(2), Value::Int(3)], Value::Int(10));
    let mut seen = Vec::new();
    while let Some((item, acc)) = fold.next_call() {
        seen.push((item.clone(), acc.clone()));
        fold.returned(add_values(&item, &acc));
    }
    assert_eq!(
        seen,
        vec![
            (Value::Int(1), Value::Int(10)),
            (Value::Int(2), Value::Int(11)),
            (Value::Int(3), Value::Int(13)),
        ]
    );
    assert_eq!(fold.finish(), Value::Int(16));
}

#[test]
fn item_fold_over_no_items_gives_the_initial_value() {
    let mut fold: ItemFold<Value, Value> = ItemFold::begin(Vec::new(), Value::Int(7));
    assert!(fold.next_call().is_none());
    assert_eq!(fold.finish(), Value::Int(7));
}
