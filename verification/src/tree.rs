//! A point-in-time picture of the process tree: which process is the parent
//! of which, and what descends from a given root.

use std::collections::HashMap;
use std::collections::HashSet;
use vstd::prelude::*;

verus! {

broadcast use vstd::std_specs::hash::group_hash_axioms;

/// One row of the process table: a process and its parent.
#[derive(Clone, Copy, Debug, PartialEq, Eq, Structural)]
pub struct ProcessEntry {
    pub pid: i32,
    pub ppid: i32,
}

/// The children of `parent` among `entries`, in table order.
pub open spec fn children_of(entries: Seq<ProcessEntry>, parent: i32) -> Seq<i32>
    decreases entries.len(),
{
    if entries.len() == 0 {
        Seq::empty()
    } else {
        let before = children_of(entries.drop_last(), parent);
        if entries.last().ppid == parent {
            before.push(entries.last().pid)
        } else {
            before
        }
    }
}

/// The adjacency map of a process table: every parent that has at least one
/// child, with its children in table order.
pub open spec fn tree_of(entries: Seq<ProcessEntry>) -> Map<i32, Seq<i32>> {
    Map::new(
        |parent: i32| children_of(entries, parent).len() > 0,
        |parent: i32| children_of(entries, parent),
    )
}

/// The children that `tree` lists for `parent`; none when it lists no entry.
pub open spec fn kids(tree: Map<i32, Seq<i32>>, parent: i32) -> Seq<i32> {
    if tree.contains_key(parent) {
        tree[parent]
    } else {
        Seq::empty()
    }
}

/// Every step of `path` goes from a parent to one of its children.
pub open spec fn is_chain(tree: Map<i32, Seq<i32>>, path: Seq<i32>) -> bool {
    forall|i: int| 0 <= i < path.len() - 1 ==> kids(tree, #[trigger] path[i]).contains(path[i + 1])
}

/// `pid` is `root` itself or reachable from it through parent-to-child steps.
pub open spec fn descends(tree: Map<i32, Seq<i32>>, root: i32, pid: i32) -> bool {
    exists|path: Seq<i32>|
        path.len() >= 1 && path[0] == root && #[trigger] path.last() == pid && is_chain(tree, path)
}

/// Parent-to-children adjacency of one process table.
pub struct ProcessTreeSnapshot {
    children: HashMap<i32, Vec<i32>>,
    source: Ghost<Seq<ProcessEntry>>,
}

impl View for ProcessTreeSnapshot {
    type V = Map<i32, Seq<i32>>;

    closed spec fn view(&self) -> Map<i32, Seq<i32>> {
        Map::new(|parent: i32| self.children@.contains_key(parent), |parent: i32| self.children@[parent]@)
    }
}

proof fn lemma_children_of_step(entries: Seq<ProcessEntry>, n: int, parent: i32)
    requires
        0 <= n < entries.len(),
    ensures
        children_of(entries.take(n + 1), parent) == if entries[n].ppid == parent {
            children_of(entries.take(n), parent).push(entries[n].pid)
        } else {
            children_of(entries.take(n), parent)
        },
{
    assert(entries.take(n + 1).drop_last() =~= entries.take(n));
}

/// The identifiers that a process table lists, as a set.
spec fn listed(entries: Seq<ProcessEntry>) -> Set<i32> {
    entries.map_values(|e: ProcessEntry| e.pid).to_set()
}

proof fn lemma_child_is_listed(entries: Seq<ProcessEntry>, parent: i32, child: i32)
    requires
        children_of(entries, parent).contains(child),
    ensures
        listed(entries).contains(child),
    decreases entries.len(),
{
    let pids = entries.map_values(|e: ProcessEntry| e.pid);
    if entries.len() > 0 {
        let before = entries.drop_last();
        let last = entries.len() - 1;
        if children_of(before, parent).contains(child) {
            lemma_child_is_listed(before, parent, child);
            let before_pids = before.map_values(|e: ProcessEntry| e.pid);
            let k = choose|k: int| 0 <= k < before_pids.len() && before_pids[k] == child;
            assert(pids[k] == child);
        } else {
            assert(entries.last().ppid == parent);
            let found = children_of(entries, parent);
            let k = choose|k: int| 0 <= k < found.len() && found[k] == child;
            assert(k == found.len() - 1);
            assert(pids[last] == child);
        }
    }
}

proof fn lemma_descendant_is_listed(entries: Seq<ProcessEntry>, root: i32, pid: i32)
    requires
        descends(tree_of(entries), root, pid),
    ensures
        pid == root || listed(entries).contains(pid),
{
    let tree = tree_of(entries);
    let path = choose|path: Seq<i32>|
        path.len() >= 1 && path[0] == root && #[trigger] path.last() == pid && is_chain(tree, path);
    if path.len() >= 2 {
        let parent = path[path.len() - 2];
        assert(kids(tree, parent).contains(path[path.len() - 2 + 1]));
        lemma_child_is_listed(entries, parent, pid);
    }
}

proof fn lemma_child_descends(tree: Map<i32, Seq<i32>>, root: i32, parent: i32, child: i32)
    requires
        descends(tree, root, parent),
        kids(tree, parent).contains(child),
    ensures
        descends(tree, root, child),
{
    let path = choose|path: Seq<i32>|
        path.len() >= 1 && path[0] == root && #[trigger] path.last() == parent && is_chain(
            tree,
            path,
        );
    let longer = path.push(child);
    assert forall|i: int| 0 <= i < longer.len() - 1 implies kids(tree, #[trigger] longer[i]).contains(
        longer[i + 1],
    ) by {
        if i < path.len() - 1 {
            assert(kids(tree, path[i]).contains(path[i + 1]));
        }
    }
    assert(longer.last() == child);
}

/// A root to which the table gives no children has no descendant but itself.
pub proof fn childless_root_stands_alone(tree: Map<i32, Seq<i32>>, root: i32, pid: i32)
    requires
        kids(tree, root).len() == 0,
    ensures
        descends(tree, root, pid) <==> pid == root,
{
    if descends(tree, root, pid) {
        let path = choose|path: Seq<i32>|
            path.len() >= 1 && path[0] == root && #[trigger] path.last() == pid && is_chain(tree, path);
        if path.len() >= 2 {
            assert(kids(tree, path[0]).contains(path[0int + 1]));
        }
    }
    if pid == root {
        assert(seq![root].last() == root);
        assert(is_chain(tree, seq![root]));
    }
}

proof fn lemma_closed_holds_chain(tree: Map<i32, Seq<i32>>, closed: Set<i32>, path: Seq<i32>, n: int)
    requires
        0 <= n < path.len(),
        is_chain(tree, path),
        closed.contains(path[0]),
        forall|p: i32, c: i32| closed.contains(p) && #[trigger] kids(tree, p).contains(c) ==> closed.contains(c),
    ensures
        closed.contains(path[n]),
    decreases n,
{
    if n > 0 {
        lemma_closed_holds_chain(tree, closed, path, n - 1);
        assert(kids(tree, path[n - 1]).contains(path[n - 1 + 1]));
    }
}

proof fn lemma_distinct_within(a: Seq<i32>, b: Seq<i32>, bound: Set<i32>)
    requires
        bound.finite(),
        a.no_duplicates(),
        b.no_duplicates(),
        forall|i: int, j: int| 0 <= i < a.len() && 0 <= j < b.len() ==> a[i] != b[j],
        forall|i: int| 0 <= i < a.len() ==> bound.contains(a[i]),
        forall|j: int| 0 <= j < b.len() ==> bound.contains(b[j]),
    ensures
        a.len() + b.len() <= bound.len(),
{
    let both = a + b;
    assert(both.no_duplicates());
    both.unique_seq_to_set();
    assert(both.to_set().subset_of(bound)) by {
        assert forall|p: i32| both.to_set().contains(p) implies bound.contains(p) by {
            let k = choose|k: int| 0 <= k < both.len() && both[k] == p;
            if k < a.len() {
                assert(both[k] == a[k]);
            } else {
                assert(both[k] == b[k - a.len()]);
            }
        }
    }
    vstd::set_lib::lemma_len_subset(both.to_set(), bound);
}

impl ProcessTreeSnapshot {
    #[verifier::type_invariant]
    spec fn built_from_source(self) -> bool {
        self@ == tree_of(self.source@)
    }

    /// Builds the adjacency map of a process table.
    pub fn build(entries: &Vec<ProcessEntry>) -> (tree: ProcessTreeSnapshot)
        ensures
            tree@ == tree_of(entries@),
    {
        let mut children: HashMap<i32, Vec<i32>> = HashMap::new();
        let mut i: usize = 0;
        while i < entries.len()
            invariant
                i <= entries.len(),
                forall|p: i32| #[trigger]
                    children@.contains_key(p) <==> children_of(entries@.take(i as int), p).len() > 0,
                forall|p: i32| #[trigger]
                    children@.contains_key(p) ==> children@[p]@ == children_of(
                        entries@.take(i as int),
                        p,
                    ),
            decreases entries.len() - i,
        {
            let entry = entries[i];
            let ghost before = children@;
            let mut siblings = match children.remove(&entry.ppid) {
                Some(found) => found,
                None => Vec::new(),
            };
            siblings.push(entry.pid);
            children.insert(entry.ppid, siblings);
            proof {
                assert forall|p: i32| #[trigger]
                    children@.contains_key(p) <==> children_of(
                        entries@.take(i as int + 1),
                        p,
                    ).len() > 0 by {
                    lemma_children_of_step(entries@, i as int, p);
                }
                assert forall|p: i32| #[trigger] children@.contains_key(p) implies children@[p]@
                    == children_of(entries@.take(i as int + 1), p) by {
                    lemma_children_of_step(entries@, i as int, p);
                }
            }
            i += 1;
        }
        proof {
            assert(entries@.take(entries@.len() as int) =~= entries@);
            assert(Map::new(
                |parent: i32| children@.contains_key(parent),
                |parent: i32| children@[parent]@,
            ) =~= tree_of(entries@));
        }
        ProcessTreeSnapshot { children, source: Ghost(entries@) }
    }

    /// Every process that descends from `root`, `root` first, each exactly
    /// once. A table that lists a process twice, or that closes a cycle, still
    /// yields each identifier once.
    pub fn descendants(&self, root: i32) -> (order: Vec<i32>)
        ensures
            order@.no_duplicates(),
            order@.len() >= 1,
            order@[0] == root,
            forall|pid: i32| order@.contains(pid) <==> descends(self@, root, pid),
            kids(self@, root).len() == 0 ==> order@ == seq![root],
    {
        proof {
            use_type_invariant(self);
        }
        let ghost tree = self@;
        let ghost bound = listed(self.source@).insert(root);
        let mut order: Vec<i32> = Vec::new();
        let mut stack: Vec<i32> = Vec::new();
        let mut seen: HashSet<i32> = HashSet::new();
        stack.push(root);
        seen.insert(root);
        proof {
            assert(seq![root].last() == root);
            assert(is_chain(tree, seq![root]));
            assert(descends(tree, root, root));
        }
        while stack.len() > 0
            invariant
                tree == self@,
                tree == tree_of(self.source@),
                bound == listed(self.source@).insert(root),
                order@.no_duplicates(),
                stack@.no_duplicates(),
                forall|i: int, j: int| 0 <= i < order@.len() && 0 <= j < stack@.len() ==> order@[i] != stack@[j],
                forall|p: i32| seen@.contains(p) <==> order@.contains(p) || stack@.contains(p),
                forall|p: i32| seen@.contains(p) ==> descends(tree, root, p),
                forall|i: int, c: i32|
                    0 <= i < order@.len() && #[trigger] kids(tree, order@[i]).contains(c) ==> seen@.contains(c),
                order@.len() == 0 ==> stack@ =~= seq![root],
                order@.len() > 0 ==> order@[0] == root,
            decreases bound.len() - order@.len(),
        {
            proof {
                assert forall|i: int| 0 <= i < order@.len() implies bound.contains(order@[i]) by {
                    assert(order@.contains(order@[i]));
                    lemma_descendant_is_listed(self.source@, root, order@[i]);
                }
                assert forall|j: int| 0 <= j < stack@.len() implies bound.contains(stack@[j]) by {
                    assert(stack@.contains(stack@[j]));
                    lemma_descendant_is_listed(self.source@, root, stack@[j]);
                }
                lemma_distinct_within(order@, stack@, bound);
            }
            let ghost stack_before = stack@;
            let ghost order_before = order@;
            let pid = stack.pop().unwrap();
            order.push(pid);
            proof {
                assert(stack_before.contains(pid)) by {
                    assert(stack_before[stack_before.len() - 1] == pid);
                }
                assert(order@.no_duplicates());
                assert forall|p: i32| seen@.contains(p) <==> order@.contains(p) || stack@.contains(
                    p,
                ) by {
                    if order_before.contains(p) {
                        let k = choose|k: int| 0 <= k < order_before.len() && order_before[k] == p;
                        assert(order@[k] == p);
                    }
                    if stack_before.contains(p) {
                        let k = choose|k: int| 0 <= k < stack_before.len() && stack_before[k] == p;
                        if k == stack_before.len() - 1 {
                            assert(order@[order@.len() - 1] == p);
                        } else {
                            assert(stack@[k] == p);
                        }
                    }
                    if order@.contains(p) {
                        let k = choose|k: int| 0 <= k < order@.len() && order@[k] == p;
                        if k < order_before.len() {
                            assert(order_before[k] == p);
                        }
                    }
                    if stack@.contains(p) {
                        let k = choose|k: int| 0 <= k < stack@.len() && stack@[k] == p;
                        assert(stack_before[k] == p);
                    }
                }
            }
            match self.children.get(&pid) {
                Some(list) => {
                    let mut j: usize = 0;
                    while j < list.len()
                        invariant
                            j <= list.len(),
                            list@ == kids(tree, pid),
                            order@.len() == order_before.len() + 1,
                            order@.last() == pid,
                            order@[0] == root,
                            order@.no_duplicates(),
                            stack@.no_duplicates(),
                            forall|i: int, k: int|
                                0 <= i < order@.len() && 0 <= k < stack@.len() ==> order@[i] != stack@[k],
                            forall|p: i32| seen@.contains(p) <==> order@.contains(p) || stack@.contains(p),
                            forall|p: i32| seen@.contains(p) ==> descends(tree, root, p),
                            forall|i: int, c: i32|
                                0 <= i < order@.len() - 1 && #[trigger] kids(tree, order@[i]).contains(c)
                                    ==> seen@.contains(c),
                            forall|k: int| 0 <= k < j ==> seen@.contains(#[trigger] list@[k]),
                        decreases list.len() - j,
                    {
                        let child = list[j];
                        let ghost seen_before = seen@;
                        let ghost stack_mid = stack@;
                        proof {
                            assert(seen@.contains(pid)) by {
                                assert(order@[order@.len() - 1] == pid);
                            }
                            assert(kids(tree, pid).contains(child)) by {
                                assert(list@[j as int] == child);
                            }
                            lemma_child_descends(tree, root, pid, child);
                        }
                        if seen.insert(child) {
                            stack.push(child);
                            proof {
                                assert(!stack_mid.contains(child));
                                assert(!order@.contains(child));
                                assert(stack@.no_duplicates());
                                assert forall|p: i32| seen@.contains(p) <==> order@.contains(p)
                                    || stack@.contains(p) by {
                                    if stack_mid.contains(p) {
                                        let k = choose|k: int| 0 <= k < stack_mid.len() && stack_mid[k] == p;
                                        assert(stack@[k] == p);
                                    }
                                    if p == child {
                                        assert(stack@[stack@.len() - 1] == p);
                                    }
                                    if stack@.contains(p) {
                                        let k = choose|k: int| 0 <= k < stack@.len() && stack@[k] == p;
                                        if k < stack_mid.len() {
                                            assert(stack_mid[k] == p);
                                        }
                                    }
                                }
                            }
                        }
                        j += 1;
                    }
                    proof {
                        assert forall|i: int, c: i32|
                            0 <= i < order@.len() && #[trigger] kids(tree, order@[i]).contains(
                                c,
                            ) implies seen@.contains(c) by {
                            if i == order@.len() - 1 {
                                let k = choose|k: int| 0 <= k < list@.len() && list@[k] == c;
                                assert(seen@.contains(list@[k]));
                            }
                        }
                    }
                },
                None => {
                    assert(kids(tree, pid) =~= Seq::<i32>::empty());
                },
            }
        }
        proof {
            assert forall|pid: i32| order@.contains(pid) <==> descends(self@, root, pid) by {
                if descends(tree, root, pid) {
                    let path = choose|path: Seq<i32>|
                        path.len() >= 1 && path[0] == root && #[trigger] path.last() == pid && is_chain(
                            tree,
                            path,
                        );
                    assert(seen@.contains(root)) by {
                        assert(order@.contains(order@[0]));
                    }
                    assert forall|p: i32, c: i32| seen@.contains(p) && #[trigger] kids(tree, p).contains(
                        c,
                    ) implies seen@.contains(c) by {
                        let i = choose|i: int| 0 <= i < order@.len() && order@[i] == p;
                        assert(kids(tree, order@[i]).contains(c));
                    }
                    lemma_closed_holds_chain(tree, seen@, path, path.len() - 1);
                }
            }
            if kids(tree, root).len() == 0 {
                if order@.len() >= 2 {
                    assert(order@.contains(order@[1]));
                    childless_root_stands_alone(tree, root, order@[1]);
                }
                assert(order@ =~= seq![root]);
            }
        }
        order
    }
}

} // verus!
