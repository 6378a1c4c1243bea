use flatten_adapter::move_semantics::AddrTracker;

#[allow(dead_code)]
struct BoxType<'a> {
    data: Box<&'a str>,
}

#[derive(Debug, Default)]
#[allow(dead_code)]
struct Data<'a> {
    value: String,
    value_str: Option<&'a str>,
}

#[test]
fn addr_tracker() {
    let mut tracker = AddrTracker::default();
    let first_addr: usize = 0x1000;
    tracker.check_for_move(first_addr);

    // Shadowing carries a semantic move, and a move lands the value at a
    // different address.
    let mut tracker = tracker;
    let moved_addr: usize = 0x2000;

    tracker.check_for_move(moved_addr);
}

#[test]
fn box_type() {
    let a = "hello".to_string();
    let box_type = BoxType { data: Box::new(&a) };
    let _new_box_type = box_type;
    // box_type cannot be used here: it has been moved
    std::mem::drop(a);
}

#[test]
fn box_moves() {
    let value = "hello".to_string();
    let mut data = Data { value, value_str: None };
    data.value_str = Some(&data.value);

    let boxed_ref = Box::new(&data);
    assert_eq!(boxed_ref.value_str, Some("hello"));

    let new_boxed_ref = boxed_ref;
    assert_eq!(new_boxed_ref.value_str, Some("hello"));
}
