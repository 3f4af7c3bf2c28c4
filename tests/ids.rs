use tutorial_kernel::{TaskId, TaskIdCounter};

#[test]
fn task_ids_round_trip() {
    assert_eq!(TaskId::from(7).get_val(), 7);
    assert_eq!(TaskId::from(7), TaskId::from(7));
}

#[test]
fn task_ids_count_up() {
    let mut c = TaskIdCounter::new();
    assert_eq!(TaskId::generate(&mut c).get_val(), 0);
    assert_eq!(TaskId::generate(&mut c).get_val(), 1);
    assert_eq!(TaskId::generate(&mut c).get_val(), 2);
}
