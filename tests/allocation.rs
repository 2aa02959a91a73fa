use online_algorithms::allocation::{is_waiting, PageAllocation, Processor, Request, State};

fn replica_holders(alloc: &PageAllocation) -> usize {
    let mut holders = 0;
    for i in 0..alloc.num_processors() {
        if alloc.processor(i).has_copy() {
            holders += 1;
        }
    }
    holders
}

#[test]
fn new_processors_have_expected_states() {
    let empty = Processor::new_empty();
    let full = Processor::new_full();
    assert_eq!(empty.count, 0);
    assert_eq!(empty.state, State::Increasing);
    assert!(!empty.has_copy());
    assert_eq!(full.count, 0);
    assert_eq!(full.state, State::Holding);
    assert!(full.has_copy());
    let releasing = Processor { count: 3, state: State::Decreasing };
    assert!(releasing.has_copy());
}

#[test]
fn fresh_state_has_one_holder() {
    let alloc = PageAllocation::new(64, 16);
    assert_eq!(alloc.num_processors(), 64);
    assert_eq!(alloc.threshold(), 16);
    assert_eq!(alloc.curr_copies(), 1);
    assert_eq!(alloc.max_copies(), 1);
    assert_eq!(alloc.total_cost(), 0);
    assert_eq!(alloc.processor(0).state, State::Holding);
    for i in 1..64 {
        assert_eq!(alloc.processor(i), Processor::new_empty());
    }
    assert_eq!(replica_holders(&alloc), 1);
}

#[test]
fn waiting_needs_one_copy_and_a_holder() {
    let holder = [Processor::new_empty(), Processor::new_full()];
    let none = [Processor::new_empty(), Processor { count: 2, state: State::Decreasing }];
    assert!(is_waiting(1, &holder));
    assert!(!is_waiting(2, &holder));
    assert!(!is_waiting(1, &none));
    assert!(!is_waiting(1, &[]));
}

#[test]
fn scenario_reads_by_cold_processor() {
    let mut alloc = PageAllocation::new(4, 2);
    assert_eq!(alloc.apply(1, Request::Read), 1);
    assert_eq!(alloc.total_cost(), 1);
    assert_eq!(alloc.curr_copies(), 1);
    assert_eq!(alloc.processor(1), Processor { count: 1, state: State::Increasing });
    // second miss, and the threshold is reached: one more unit plus d = 2
    assert_eq!(alloc.apply(1, Request::Read), 3);
    assert_eq!(alloc.total_cost(), 4);
    assert_eq!(alloc.curr_copies(), 2);
    assert_eq!(alloc.max_copies(), 2);
    assert_eq!(alloc.processor(1), Processor { count: 2, state: State::Decreasing });
    // a hit is free; the initial holder now gives its replica up
    assert_eq!(alloc.apply(1, Request::Read), 0);
    assert_eq!(alloc.total_cost(), 4);
    assert_eq!(alloc.curr_copies(), 1);
    assert_eq!(alloc.max_copies(), 2);
    assert_eq!(alloc.processor(0).state, State::Increasing);
}

#[test]
fn scenario_write_by_cold_processor_while_holder_waits() {
    let mut alloc = PageAllocation::new(2, 1);
    assert_eq!(alloc.apply(1, Request::Write), 2);
    assert_eq!(alloc.total_cost(), 2);
    assert_eq!(alloc.curr_copies(), 2);
    assert_eq!(alloc.max_copies(), 2);
    assert_eq!(alloc.processor(1), Processor { count: 1, state: State::Decreasing });
}

#[test]
fn write_by_holder_is_charged_one_less_than_copies() {
    let mut alloc = PageAllocation::new(4, 100);
    assert_eq!(alloc.apply(0, Request::Write), 0);
    for _ in 0..99 {
        assert_eq!(alloc.apply(2, Request::Write), 1);
        assert_eq!(alloc.curr_copies(), 1);
    }
    // the hundredth write by processor 2 acquires a replica for d = 100
    assert_eq!(alloc.apply(2, Request::Write), 101);
    assert_eq!(alloc.curr_copies(), 2);
}

#[test]
fn foreign_writes_count_a_replica_down() {
    let mut alloc = PageAllocation::new(3, 2);
    alloc.apply(1, Request::Read);
    alloc.apply(1, Request::Read);
    assert_eq!(alloc.processor(1), Processor { count: 2, state: State::Decreasing });
    // processor 0 releases; the write by 2 costs the two replicas
    assert_eq!(alloc.apply(2, Request::Write), 2);
    assert_eq!(alloc.processor(0).state, State::Increasing);
    assert_eq!(alloc.processor(1), Processor { count: 1, state: State::Decreasing });
    assert_eq!(alloc.curr_copies(), 1);
    assert_eq!(alloc.apply(2, Request::Write), 1);
    assert_eq!(alloc.processor(1), Processor { count: 0, state: State::Holding });
    assert_eq!(replica_holders(&alloc), alloc.curr_copies());
}

#[test]
fn cold_reads_cost_threshold_twice() {
    for k in 0..12usize {
        let mut alloc = PageAllocation::new(8, 5);
        for _ in 0..k {
            alloc.apply(3, Request::Read);
        }
        let expected = if k < 5 { k as u64 } else { 10 };
        assert_eq!(alloc.total_cost(), expected);
        assert_eq!(alloc.max_copies(), if k < 5 { 1 } else { 2 });
    }
}

#[test]
fn invariants_hold_along_a_mixed_trace() {
    let mut alloc = PageAllocation::new(8, 3);
    let mut last_cost = 0;
    let mut last_max = 1;
    for step in 0..2000usize {
        let pid = (step * 7 + step / 3) % 8;
        let request = if step % 5 == 0 || step % 7 == 3 { Request::Write } else { Request::Read };
        let charged = alloc.apply(pid, request);
        assert_eq!(alloc.total_cost(), last_cost + charged);
        assert!(alloc.total_cost() >= last_cost);
        assert!(alloc.max_copies() >= last_max);
        assert!(alloc.curr_copies() >= 1 && alloc.curr_copies() <= 8);
        assert!(alloc.curr_copies() <= alloc.max_copies());
        assert_eq!(replica_holders(&alloc), alloc.curr_copies());
        last_cost = alloc.total_cost();
        last_max = alloc.max_copies();
    }
}
