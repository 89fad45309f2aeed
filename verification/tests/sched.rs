use breakcore::task::sched::{
    comes_before, create_scheduler, Candidate, StrideSchedulerData,
};

fn list(entries: &[(bool, u64)]) -> Vec<Candidate> {
    entries.iter().map(|(ready, stride)| Candidate { ready: *ready, stride: *stride }).collect()
}

#[test]
fn pick_next_of_nothing_is_nothing() {
    let s = create_scheduler();
    assert_eq!(s.pick_next(&list(&[])), None);
    assert_eq!(s.pick_next(&list(&[(false, 1), (false, 0)])), None);
}

#[test]
fn pick_next_takes_the_smallest_stride() {
    let s = create_scheduler();
    assert_eq!(s.pick_next(&list(&[(true, 30), (true, 10), (true, 20)])), Some(1));
    assert_eq!(s.pick_next(&list(&[(true, 5)])), Some(0));
    assert_eq!(s.pick_next(&list(&[(true, 30), (false, 10), (true, 20)])), Some(2));
}

#[test]
fn pick_next_takes_the_first_of_equals() {
    let s = create_scheduler();
    assert_eq!(s.pick_next(&list(&[(true, 7), (true, 7), (true, 7)])), Some(0));
    assert_eq!(s.pick_next(&list(&[(true, 9), (true, 7), (true, 7)])), Some(1));
}

#[test]
fn pick_next_tolerates_wrap_around() {
    let s = create_scheduler();
    assert_eq!(s.pick_next(&list(&[(true, 5), (true, u64::MAX - 5)])), Some(1));
    assert_eq!(s.pick_next(&list(&[(true, u64::MAX - 5), (true, 5)])), Some(0));
    assert_eq!(s.pick_next(&list(&[(true, 1 << 63), (true, 0)])), Some(0));
}

#[test]
fn comes_before_is_the_signed_difference() {
    assert!(comes_before(1, 2));
    assert!(!comes_before(2, 1));
    assert!(!comes_before(3, 3));
    assert!(comes_before(u64::MAX, 0));
    assert!(!comes_before(0, u64::MAX));
    assert!(comes_before(0, (1 << 63) - 1));
    assert!(!comes_before(0, 1 << 63));
}

#[test]
fn proc_tick_adds_the_pass() {
    let s = create_scheduler();
    let mut d = StrideSchedulerData::default();
    assert_eq!(d.stride, 0);
    s.proc_tick(&mut d, 2);
    assert_eq!(d.stride, u64::MAX / 2);
    s.proc_tick(&mut d, 4);
    assert_eq!(d.stride, u64::MAX / 2 + u64::MAX / 4);
    s.proc_tick(&mut d, 16);
    assert_eq!(d.stride, u64::MAX / 2 + u64::MAX / 4 + u64::MAX / 16);
}

#[test]
fn proc_tick_clamps_the_priority() {
    let s = create_scheduler();
    for low in [0u64, 1, 2] {
        let mut d = StrideSchedulerData { stride: 10 };
        s.proc_tick(&mut d, low);
        assert_eq!(d.stride, 10 + u64::MAX / 2);
    }
    for high in [i64::MAX as u64, u64::MAX, 1 << 63] {
        let mut d = StrideSchedulerData { stride: 10 };
        s.proc_tick(&mut d, high);
        assert_eq!(d.stride, 10 + 2);
    }
}

#[test]
fn proc_tick_wraps_around() {
    let s = create_scheduler();
    let mut d = StrideSchedulerData { stride: u64::MAX - 1 };
    s.proc_tick(&mut d, 2);
    assert_eq!(d.stride, (u64::MAX - 1).wrapping_add(u64::MAX / 2));
}

#[test]
fn two_tasks_share_the_processor_by_priority() {
    let s = create_scheduler();
    for (first, second) in [(2u64, 2u64), (2, 6), (10, 3), (100, 7), (8, 8)] {
        let mut a = StrideSchedulerData { stride: 0 };
        let mut b = StrideSchedulerData { stride: 0 };
        let (mut n1, mut n2) = (0i128, 0i128);
        let (pass1, pass2) = ((u64::MAX / first) as i128, (u64::MAX / second) as i128);
        for _ in 0..10_000 {
            let pick = s.pick_next(&list(&[(true, a.stride), (true, b.stride)])).unwrap();
            if pick == 0 {
                s.proc_tick(&mut a, first);
                n1 += 1;
            } else {
                s.proc_tick(&mut b, second);
                n2 += 1;
            }
            let gap = n1 * pass1 - n2 * pass2;
            assert!(-pass2 <= gap && gap <= pass1);
        }
        let ratio = n1 as f64 / n2 as f64;
        let want = first as f64 / second as f64;
        assert!((ratio - want).abs() / want < 0.01, "{} : {} gave {} : {}", first, second, n1, n2);
    }
}
