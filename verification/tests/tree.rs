use memwatch::tree::{ProcessEntry, ProcessTreeSnapshot};

fn table(rows: &[(i32, i32)]) -> Vec<ProcessEntry> {
    rows.iter().map(|&(pid, ppid)| ProcessEntry { pid, ppid }).collect()
}

fn sorted(mut pids: Vec<i32>) -> Vec<i32> {
    pids.sort();
    pids
}

#[test]
fn root_without_children_stands_alone() {
    let tree = ProcessTreeSnapshot::build(&table(&[(1, 0), (2, 1), (3, 1)]));
    assert_eq!(tree.descendants(3), vec![3]);
}

#[test]
fn root_missing_from_the_table_is_still_visited() {
    let tree = ProcessTreeSnapshot::build(&table(&[(1, 0), (2, 1)]));
    assert_eq!(tree.descendants(99), vec![99]);
    let empty = ProcessTreeSnapshot::build(&table(&[]));
    assert_eq!(empty.descendants(1), vec![1]);
}

#[test]
fn chain_is_followed_to_its_end() {
    let tree = ProcessTreeSnapshot::build(&table(&[(1, 0), (10, 1), (11, 10), (12, 11), (13, 12)]));
    assert_eq!(tree.descendants(10), vec![10, 11, 12, 13]);
    assert_eq!(tree.descendants(12), vec![12, 13]);
}

#[test]
fn all_branches_are_visited() {
    let rows = [(1, 0), (2, 1), (3, 1), (4, 2), (5, 2), (6, 3), (7, 6), (8, 0), (9, 8)];
    let tree = ProcessTreeSnapshot::build(&table(&rows));
    let order = tree.descendants(1);
    assert_eq!(order[0], 1);
    assert_eq!(sorted(order), vec![1, 2, 3, 4, 5, 6, 7]);
    assert_eq!(sorted(tree.descendants(2)), vec![2, 4, 5]);
    assert_eq!(sorted(tree.descendants(0)), vec![0, 1, 2, 3, 4, 5, 6, 7, 8, 9]);
}

#[test]
fn processes_outside_the_subtree_are_left_out() {
    let rows = [(1, 0), (100, 1), (101, 100), (200, 1), (201, 200)];
    let tree = ProcessTreeSnapshot::build(&table(&rows));
    let order = tree.descendants(100);
    assert!(!order.contains(&200));
    assert!(!order.contains(&201));
    assert!(!order.contains(&1));
    assert_eq!(sorted(order), vec![100, 101]);
}

#[test]
fn table_order_does_not_change_the_set() {
    let rows = [(4, 2), (2, 1), (7, 6), (1, 0), (6, 3), (3, 1), (5, 2)];
    let tree = ProcessTreeSnapshot::build(&table(&rows));
    let order = tree.descendants(1);
    assert_eq!(order[0], 1);
    assert_eq!(sorted(order), vec![1, 2, 3, 4, 5, 6, 7]);
}

#[test]
fn process_listed_twice_is_visited_once() {
    let rows = [(2, 1), (2, 1), (3, 2), (3, 2)];
    let tree = ProcessTreeSnapshot::build(&table(&rows));
    assert_eq!(sorted(tree.descendants(1)), vec![1, 2, 3]);
}

#[test]
fn process_with_two_parents_is_visited_once() {
    let rows = [(2, 1), (3, 1), (4, 2), (4, 3)];
    let tree = ProcessTreeSnapshot::build(&table(&rows));
    assert_eq!(sorted(tree.descendants(1)), vec![1, 2, 3, 4]);
}

#[test]
fn cycle_does_not_make_the_traversal_loop() {
    let rows = [(2, 1), (3, 2), (1, 3)];
    let tree = ProcessTreeSnapshot::build(&table(&rows));
    let order = tree.descendants(1);
    assert_eq!(order[0], 1);
    assert_eq!(sorted(order), vec![1, 2, 3]);
    assert_eq!(sorted(tree.descendants(3)), vec![1, 2, 3]);
}

#[test]
fn process_that_is_its_own_parent_is_visited_once() {
    let tree = ProcessTreeSnapshot::build(&table(&[(5, 5), (6, 5)]));
    assert_eq!(sorted(tree.descendants(5)), vec![5, 6]);
}

#[test]
fn wide_and_deep_table_is_traversed_whole() {
    let mut rows = Vec::new();
    for pid in 2..=2000 {
        rows.push((pid, pid / 2));
    }
    let tree = ProcessTreeSnapshot::build(&table(&rows));
    let order = tree.descendants(1);
    assert_eq!(order.len(), 2000);
    assert_eq!(sorted(order), (1..=2000).collect::<Vec<i32>>());
    // the subtree of 3 holds every pid whose halving chain passes through 3
    let under_three = tree.descendants(3);
    for pid in 1..=2000 {
        let mut up = pid;
        while up > 3 {
            up /= 2;
        }
        assert_eq!(under_three.contains(&pid), up == 3);
    }
}
