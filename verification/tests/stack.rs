use clarity_wasm::stack::{Stack, ValType};
use clarity_wasm::value::Value;

#[test]
fn new_frame_and_drop() {
    let mut stack = Stack::new();

    let context = stack.new_frame();
    assert_eq!(1, stack.get_frame_index());

    stack.drop_frame(context.frame_index);
    assert_eq!(0, stack.get_frame_index());
}

#[test]
fn stack_push_and_get_with_multiple_values_in_frame() {
    let mut stack = Stack::new();

    let _result = stack.exec(|f| {
        f.push(&Value::Int(1));
        f.push(&Value::Int(2));
        f.push(&Value::Int(3));
        f.push(&Value::Int(4));
        f.push(&Value::Int(5));
        let ptr5 = f.push(&Value::UInt(11));
        f.push(&Value::UInt(12));
        f.push(&Value::UInt(13));
        f.push(&Value::Int(14));
        let ptr8 = f.push(&Value::Int(15));

        let val5 = f.get(ptr5);
        assert_eq!(true, val5.is_some());
        assert_eq!(&Value::UInt(11), val5.unwrap());

        let val8 = f.get(ptr8);
        assert_eq!(true, val8.is_some());
        assert_eq!(&Value::Int(15), val8.unwrap());

        vec![]
    });
}

#[test]
fn stack_stack_tip_is_correctly_adjusted_when_creating_and_dropping_a_frame() {
    let mut stack = Stack::new();

    let _result = stack.exec(|f1| {
        let ptr1 = f1.push(&Value::Int(1));
        assert_eq!(ValType::Int128, ptr1.val_type);

        let ptr2 = f1.push(&Value::UInt(2));
        assert_eq!(ValType::UInt128, ptr2.val_type);

        assert_eq!(2, f1.stack().local_count());
        assert_eq!(1, f1.stack().get_frame_index());

        f1.exec(|f2| {
            assert_eq!(2, f2.stack().local_count());
            assert_eq!(2, f2.stack().get_frame_index());

            let val1_1 = f2.get(ptr1).cloned();
            let val1_2 = f2.get(ptr1).cloned();
            let val2 = f2.get(ptr2).cloned();

            let _ptr3 = f2.push(&Value::UInt(3));

            assert!(val1_1.is_some());
            assert!(val1_2.is_some());
            assert_eq!(Some(Value::Int(1)), val1_1);
            assert_eq!(val1_1, val1_2);
            assert_eq!(Some(Value::UInt(2)), val2);
            assert_eq!(3, f2.stack().local_count());

            vec![]
        });

        vec![]
    });
}

#[test]
fn stack_stack_rewound_to_last_frame_tip_when_dropped() {
    let mut stack = Stack::new();

    let _result = stack.exec(|f1| {
        let _ptr1 = f1.push(&Value::Int(1));
        assert_eq!(1, f1.stack().local_count());
        assert_eq!(1, f1.stack().get_frame_index());

        f1.exec(|f2| {
            let _ptr2 = f2.push(&Value::Int(2));
            assert_eq!(2, f2.stack().local_count());
            assert_eq!(2, f2.stack().get_frame_index());

            vec![]
        });

        assert_eq!(1, f1.stack().get_frame_index());
        assert_eq!(1, f1.stack().local_count());

        vec![]
    });
}

#[test]
fn stack_test_stack_in_loop() {
    let mut stack = Stack::new();

    let (a_ptr, _) = stack.local_push(&Value::Int(1024));
    let (b_ptr, _) = stack.local_push(&Value::Int(2048));
    assert_eq!(2, stack.local_count());

    for _i in 1..=5 {
        assert_eq!(2, stack.local_count());

        stack.exec(|frame| {
            let a = frame.get_unchecked(a_ptr).cloned();
            let b = frame.get_unchecked(b_ptr).cloned();

            let result = match (a, b) {
                (Some(Value::Int(a)), Some(Value::Int(b))) => Value::Int(a + b),
                (Some(Value::UInt(a)), Some(Value::UInt(b))) => {
                    Value::UInt(a.checked_add(b).unwrap())
                }
                _ => panic!("Add not implemented for given types"),
            };

            // Push an extra value so we can make sure it gets properly dropped.
            frame.push(&result.clone());

            vec![result]
        });

        assert_eq!(2, stack.local_count());
    }
}

#[test]
fn stack_stack_new_sets_random_id() {
    let stack1 = Stack::new();
    let stack2 = Stack::new();

    assert!(stack1.id() != 0 && stack2.id() != 0);
    assert_ne!(stack1.id(), stack2.id());
}

#[test]
fn test_give_owned_value() {
    let mut stack = Stack::new();

    let value = Value::Int(1);
    let value_clone = value.clone();
    stack.give_owned_value(value);

    assert_eq!(1, stack.owned_values().len());
    assert_eq!(value_clone, stack.owned_values()[0]);
}

#[test]
fn test_result_buffer() {
    let mut stack = Stack::new();

    let val1 = Value::Int(1);
    let val1_clone = val1.clone();
    let val2 = Value::Int(2);
    let result_buffer = vec![val1, val2];

    stack.fill_result_buffer(result_buffer);
    let results = stack.result_buffer_to_vec();

    assert_eq!(&val1_clone, results[0]);
}

#[test]
fn try_get_outside_the_slots_gives_none() {
    let mut stack = Stack::new();
    stack.exec(|f| {
        let ptr = f.push(&Value::Int(3));
        assert_eq!(Some(&Value::Int(3)), f.try_get(ptr.as_i32()));
        assert_eq!(None, f.try_get(-1));
        assert_eq!(None, f.try_get(5));
        vec![]
    });
}
