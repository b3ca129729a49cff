use os_exercises::messages::{fan_in_message, producer_message};

#[test]
fn test_producer_message() {
    assert_eq!(producer_message(0), "msg from 0");
    assert_eq!(producer_message(2), "msg from 2");
    assert_eq!(producer_message(42), "msg from 42");
    assert_eq!(producer_message(100), "msg from 100");
    assert_eq!(producer_message(usize::MAX), format!("msg from {}", usize::MAX));
}

#[test]
fn test_fan_in_message() {
    assert_eq!(fan_in_message(0), "producer 0: message");
    assert_eq!(fan_in_message(3), "producer 3: message");
    assert_eq!(fan_in_message(1234), "producer 1234: message");
}
