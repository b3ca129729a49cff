use os_exercises::futures::{CountDown, Step, YieldOnce};

#[test]
fn test_countdown_zero_is_ready_at_once() {
    let mut c = CountDown::new(0);
    assert_eq!(c.poll_step(), Step::Ready("liftoff!"));
    assert_eq!(c.count, 0);
    assert_eq!(c.poll_step(), Step::Ready("liftoff!"));
}

#[test]
fn test_countdown_three() {
    let mut c = CountDown::new(3);
    for left in [2u32, 1, 0] {
        assert_eq!(c.poll_step(), Step::Pending);
        assert_eq!(c.count, left);
    }
    assert_eq!(c.poll_step(), Step::Ready("liftoff!"));
}

#[test]
fn test_countdown_large() {
    let mut c = CountDown::new(100);
    let mut pending = 0;
    loop {
        match c.poll_step() {
            Step::Pending => pending += 1,
            Step::Ready(s) => {
                assert_eq!(s, "liftoff!");
                break;
            }
        }
    }
    assert_eq!(pending, 100);
}

#[test]
fn test_yield_once() {
    let mut y = YieldOnce::new();
    assert_eq!(y.poll_step(), Step::Pending);
    assert_eq!(y.poll_step(), Step::Ready(()));
    assert_eq!(y.poll_step(), Step::Ready(()));
    let mut d = YieldOnce::default();
    assert_eq!(d.poll_step(), Step::Pending);
}
