use sevens::lr_scheduler::CosineAnnealingWarmRestarts;

#[test]
fn growing_cycles() {
    // cycles [0,3), [3,9), [9,21)
    let mut s = CosineAnnealingWarmRestarts::new(3, 2);
    let mut idx = vec![];
    let mut valleys = vec![];
    for t in 0..21 {
        idx.push(s.get_cycle_index());
        if s.is_at_vally() {
            valleys.push(t);
        }
        s.step();
    }
    assert_eq!(idx, vec![0, 0, 0, 1, 1, 1, 1, 1, 1, 2, 2, 2, 2, 2, 2, 2, 2, 2, 2, 2, 2]);
    assert_eq!(valleys, vec![2, 8, 20]);
}

#[test]
fn equal_cycles() {
    let mut s = CosineAnnealingWarmRestarts::new(4, 1);
    for _ in 0..9 {
        s.step();
    }
    assert_eq!(s.get_cycle_index(), 2);
    assert_eq!(s.cycle_position(), (1, 4));
    assert!(!s.is_at_vally());
    let mut z = CosineAnnealingWarmRestarts::new(4, 0);
    for _ in 0..7 {
        z.step();
    }
    assert_eq!(z.get_cycle_index(), 1);
    assert!(z.is_at_vally());
}

#[test]
fn position_in_growing_cycle() {
    let mut s = CosineAnnealingWarmRestarts::new(10, 3);
    for _ in 0..45 {
        s.step();
    }
    // cycles [0,10), [10,40), [40,130)
    assert_eq!(s.get_cycle_index(), 2);
    assert_eq!(s.cycle_position(), (5, 90));
}

#[test]
fn zero_length_cycles() {
    let mut s = CosineAnnealingWarmRestarts::new(0, 2);
    assert_eq!(s.get_cycle_index(), 0);
    assert!(s.is_at_vally());
    s.step();
    assert_eq!(s.get_cycle_index(), usize::MAX);
    assert!(!s.is_at_vally());
    assert_eq!(s.cycle_position(), (0, 0));
}
