use os_exercises::tasks::{increment, square};

#[test]
fn test_increment() {
    let mut counter: usize = 0;
    for _ in 0..100 {
        increment(&mut counter);
    }
    assert_eq!(counter, 100);
    let mut top = usize::MAX - 1;
    increment(&mut top);
    assert_eq!(top, usize::MAX);
}

#[test]
fn test_square() {
    let squares: Vec<usize> = (0..5).map(square).collect();
    assert_eq!(squares, vec![0, 1, 4, 9, 16]);
    assert_eq!(square(0), 0);
    assert_eq!(square(1 << 16), 1 << 32);
}
