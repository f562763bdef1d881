use nexus_os::executor::SimpleExecutor;

#[test]
fn pending_tasks_stay_in_order() {
    let mut e: SimpleExecutor<u32> = SimpleExecutor::new();
    assert!(e.is_idle());
    for t in [1, 2, 3, 4, 5] {
        e.spawn(t);
    }
    // odd tasks stay pending, even ones finish
    e.run_ready_tasks(&|t: u32| if t % 2 == 1 { Some(t) } else { None });
    assert!(!e.is_idle());
    // the pending ones come back in their order: 1, 3, 5
    let order = std::cell::RefCell::new(Vec::new());
    e.run_ready_tasks(&|t: u32| {
        order.borrow_mut().push(t);
        if t == 3 { None } else { Some(t) }
    });
    assert_eq!(*order.borrow(), vec![1, 3, 5]);
    order.borrow_mut().clear();
    e.run_ready_tasks(&|t: u32| {
        order.borrow_mut().push(t);
        None
    });
    assert_eq!(*order.borrow(), vec![1, 5]);
    assert!(e.is_idle());
}

#[test]
fn finished_tasks_leave() {
    let mut e: SimpleExecutor<&str> = SimpleExecutor::new();
    e.spawn("a");
    e.spawn("b");
    e.run_ready_tasks(&|_t: &str| None);
    assert!(e.is_idle());
}
