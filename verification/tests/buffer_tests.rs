use sevens::buffer::ReplayBuffer;

#[test]
fn ring_buffer_keeps_latest() {
    let mut b: ReplayBuffer<u32> = ReplayBuffer::new(3);
    assert_eq!(b.len(), 0);
    b.add(1);
    b.add(2);
    assert_eq!(b.len(), 2);
    b.add(3);
    b.add(4);
    b.add(5);
    assert_eq!(b.len(), 3);
    let mut all: Vec<u32> = b.sample(10).into_iter().copied().collect();
    all.sort();
    assert_eq!(all, vec![3, 4, 5]);
}

#[test]
fn sample_is_distinct() {
    let mut b: ReplayBuffer<u32> = ReplayBuffer::new(10);
    for i in 0..10 {
        b.add(i);
    }
    let s = b.sample(4);
    assert_eq!(s.len(), 4);
    let mut v: Vec<u32> = s.into_iter().copied().collect();
    v.sort();
    v.dedup();
    assert_eq!(v.len(), 4);
    assert!(v.iter().all(|&x| x < 10));
}
