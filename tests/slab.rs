use timing_wheel::{Handle, Slab};

#[test]
fn test_basic_allocation() {
    let mut slab = Slab::new();

    let id_a = slab.allocate("Task A", 100, 0);
    let id_b = slab.allocate("Task B", 200, 0);

    assert_eq!(id_a.get(), 1);
    assert_eq!(id_b.get(), 2);

    let entry_a = slab.get(id_a).unwrap();
    assert_eq!(entry_a.task, "Task A");
    assert_eq!(entry_a.deadline, 100);
}

#[test]
fn test_reuse_slots() {
    let mut slab = Slab::new();

    let _id_1 = slab.allocate(1, 10, 0);
    let id_2 = slab.allocate(2, 10, 0);
    let _id_3 = slab.allocate(3, 10, 0);

    let freed_val = slab.free(id_2);
    assert_eq!(freed_val, Some(2));

    let id_4 = slab.allocate(4, 10, 0);
    assert_eq!(id_4.get(), 2, "Slab did not reuse the freed slot!");

    let id_5 = slab.allocate(5, 10, 0);
    assert_eq!(id_5.get(), 4);
}

#[test]
fn test_double_free_protection() {
    let mut slab = Slab::new();
    let id = slab.allocate("A", 10, 0);

    assert!(slab.free(id).is_some());
    assert!(slab.free(id).is_none());
}

#[test]
fn test_lifecycle() {
    let mut slab = Slab::new();
    let mut handles = Vec::new();

    for i in 0..100 {
        handles.push(slab.allocate(i, i as u64, 0));
    }

    for i in (0..100).step_by(2) {
        slab.free(handles[i]);
    }

    for i in 0..50 {
        slab.allocate(i * 100, 0, 0);
    }

    let entry = slab.get(handles[0]).unwrap();
    assert_eq!(entry.task, 4900);
}

#[test]
fn free_list_is_last_in_first_out() {
    let mut slab = Slab::new();
    let a = slab.allocate('a', 1, 0);
    let b = slab.allocate('b', 2, 0);
    let c = slab.allocate('c', 3, 0);
    assert_eq!(slab.free(a), Some('a'));
    assert_eq!(slab.free(c), Some('c'));
    assert_eq!(slab.allocate('d', 4, 0), c);
    assert_eq!(slab.allocate('e', 5, 0), a);
    assert_eq!(slab.allocate('f', 6, 0).get(), 4);
    assert_eq!(slab.get(b).unwrap().task, 'b');
}

#[test]
fn handles_outside_the_slab_name_nothing() {
    let mut slab = Slab::new();
    let a = slab.allocate(7u8, 1, 0);
    assert!(slab.get(Handle(0)).is_none());
    assert!(slab.get(Handle(2)).is_none());
    assert!(slab.get_mut(Handle(0)).is_none());
    assert_eq!(slab.free(Handle(0)), None);
    assert_eq!(slab.free(Handle(9)), None);
    assert_eq!(slab.remove_and_get_data(Handle(0)), None);
    assert_eq!(slab.get(a).unwrap().task, 7);
}

#[test]
fn get_mut_updates_the_record() {
    let mut slab = Slab::new();
    let a = slab.allocate("x", 1, 0);
    {
        let e = slab.get_mut(a).unwrap();
        e.deadline = 42;
        e.level = 2;
        e.next = Some(Handle(5));
    }
    let e = slab.get(a).unwrap();
    assert_eq!(e.deadline, 42);
    assert_eq!(e.level, 2);
    assert_eq!(e.next, Some(Handle(5)));
    assert_eq!(e.prev, None);
}

#[test]
fn remove_and_get_data_returns_task_and_deadline() {
    let mut slab = Slab::new();
    let a = slab.allocate("x", 17, 1);
    assert_eq!(slab.remove_and_get_data(a), Some(("x", 17)));
    assert_eq!(slab.remove_and_get_data(a), None);
    assert!(slab.get(a).is_none());
    assert_eq!(slab.allocate("y", 3, 0), a);
}
