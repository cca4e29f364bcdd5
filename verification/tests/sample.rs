use memwatch::sample::{aggregate, MemorySample, PageCounters};

fn counters(size: u64, resident: u64) -> Option<PageCounters> {
    Some(PageCounters { size, resident })
}

#[test]
fn no_readings_give_the_zero_sample() {
    assert_eq!(aggregate(&vec![], 4096), MemorySample { resident_bytes: 0, virtual_bytes: 0 });
    assert_eq!(aggregate(&vec![], 4096), MemorySample::zero());
}

#[test]
fn lone_root_yields_its_own_counters() {
    assert_eq!(
        aggregate(&vec![counters(300, 25)], 4096),
        MemorySample { resident_bytes: 25 * 4096, virtual_bytes: 300 * 4096 }
    );
}

#[test]
fn counters_of_all_processes_are_summed() {
    let readings = vec![counters(100, 10), counters(200, 20), counters(50, 5)];
    assert_eq!(
        aggregate(&readings, 4096),
        MemorySample { resident_bytes: 35 * 4096, virtual_bytes: 350 * 4096 }
    );
}

#[test]
fn pages_are_converted_with_the_given_page_size() {
    let readings = vec![counters(3, 2)];
    assert_eq!(aggregate(&readings, 1), MemorySample { resident_bytes: 2, virtual_bytes: 3 });
    assert_eq!(
        aggregate(&readings, 16384),
        MemorySample { resident_bytes: 32768, virtual_bytes: 49152 }
    );
    assert_eq!(aggregate(&readings, 0), MemorySample::zero());
}

#[test]
fn unreadable_process_contributes_zero() {
    let with_gap = vec![counters(100, 10), None, counters(50, 5)];
    let without = vec![counters(100, 10), counters(50, 5)];
    assert_eq!(aggregate(&with_gap, 4096), aggregate(&without, 4096));
    assert_eq!(
        aggregate(&with_gap, 4096),
        MemorySample { resident_bytes: 15 * 4096, virtual_bytes: 150 * 4096 }
    );
}

#[test]
fn unreadable_root_gives_the_rest() {
    let readings = vec![None, counters(7, 3)];
    assert_eq!(
        aggregate(&readings, 4096),
        MemorySample { resident_bytes: 3 * 4096, virtual_bytes: 7 * 4096 }
    );
    assert_eq!(aggregate(&vec![None], 4096), MemorySample::zero());
    assert_eq!(aggregate(&vec![None, None, None], 4096), MemorySample::zero());
}

#[test]
fn order_of_readings_does_not_matter() {
    let a = counters(100, 10);
    let b = counters(2000, 200);
    let c = None;
    let d = counters(7, 1);
    let expected = aggregate(&vec![a, b, c, d], 4096);
    assert_eq!(expected, MemorySample { resident_bytes: 211 * 4096, virtual_bytes: 2107 * 4096 });
    let orders = [
        vec![a, b, d, c],
        vec![a, c, b, d],
        vec![b, a, c, d],
        vec![d, c, b, a],
        vec![c, d, a, b],
        vec![b, d, a, c],
    ];
    for order in orders {
        assert_eq!(aggregate(&order, 4096), expected);
    }
}

#[test]
fn order_does_not_matter_when_saturating() {
    let big = counters(u64::MAX / 2, u64::MAX / 3);
    let small = counters(5, 5);
    let first = aggregate(&vec![big, big, small, big], 1);
    let second = aggregate(&vec![small, big, big, big], 1);
    assert_eq!(first, second);
    assert_eq!(first, MemorySample { resident_bytes: u64::MAX, virtual_bytes: u64::MAX });
}

#[test]
fn sum_saturates_instead_of_overflowing() {
    let readings = vec![counters(u64::MAX, 1), counters(1, 1)];
    assert_eq!(aggregate(&readings, 1), MemorySample { resident_bytes: 2, virtual_bytes: u64::MAX });
    let near = vec![counters(u64::MAX - 1, 0), counters(1, 0)];
    assert_eq!(aggregate(&near, 1).virtual_bytes, u64::MAX);
    let below = vec![counters(u64::MAX - 2, 0), counters(1, 0)];
    assert_eq!(aggregate(&below, 1).virtual_bytes, u64::MAX - 1);
}

#[test]
fn product_saturates_instead_of_overflowing() {
    let readings = vec![counters(u64::MAX / 4096 + 1, 1)];
    assert_eq!(
        aggregate(&readings, 4096),
        MemorySample { resident_bytes: 4096, virtual_bytes: u64::MAX }
    );
    let fits = vec![counters(u64::MAX / 4096, 1)];
    assert_eq!(aggregate(&fits, 4096).virtual_bytes, (u64::MAX / 4096) * 4096);
}

#[test]
fn aggregate_of_parent_and_child_is_at_least_either_alone() {
    let parent = counters(1000, 400);
    let child = counters(300, 120);
    let both = aggregate(&vec![parent, child], 4096);
    let parent_alone = aggregate(&vec![parent], 4096);
    let child_alone = aggregate(&vec![child], 4096);
    assert!(both.resident_bytes >= parent_alone.resident_bytes);
    assert!(both.resident_bytes >= child_alone.resident_bytes);
    assert_eq!(both.resident_bytes, parent_alone.resident_bytes + child_alone.resident_bytes);
    // once the child is gone, the next sample holds the parent only
    let after = aggregate(&vec![parent, None], 4096);
    assert_eq!(after, parent_alone);
    assert!(after.resident_bytes < both.resident_bytes);
}
