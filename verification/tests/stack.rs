use banjoc::stack::Stack;

#[test]
fn test_stack() {
    const MAX: usize = 1000;
    let mut stack = Stack::<usize, MAX>::new();
    for i in 0..MAX {
        stack.push(i);
        assert_eq!(stack.peek(0), &i);
        for j in 0..i {
            assert_eq!(stack.read(j as usize), &j);
        }
    }

    for i in (0..MAX).rev() {
        let popped = stack.pop();
        assert_eq!(popped, i);
    }
}

#[test]
fn stack_pop_n_truncate_and_offsets() {
    let mut stack = Stack::<u32, 8>::new();
    for v in [10, 20, 30, 40] {
        stack.push(v);
    }
    assert_eq!(stack.len(), 4);
    assert_eq!(stack.get_offset(), 3);
    assert_eq!(stack.pop_n(2), &[30, 40]);
    assert_eq!(stack.len(), 2);
    *stack.top() = 25;
    assert_eq!(stack.peek(0), &25);
    stack.truncate(1);
    assert_eq!(stack.len(), 1);
    assert_eq!(stack.read(0), &10);
}
