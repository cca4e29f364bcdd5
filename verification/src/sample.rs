//! Memory totals of a set of processes, from per-process page counters.

use vstd::prelude::*;

verus! {

broadcast use vstd::seq_lib::group_to_multiset_ensures;

/// Memory counters of one process, in pages.
#[derive(Clone, Copy, Debug, PartialEq, Eq, Structural)]
pub struct PageCounters {
    /// Total program size.
    pub size: u64,
    /// Resident set size.
    pub resident: u64,
}

/// Aggregate memory of a process tree, in bytes.
#[derive(Clone, Copy, Debug, PartialEq, Eq, Structural)]
pub struct MemorySample {
    pub resident_bytes: u64,
    pub virtual_bytes: u64,
}

/// `n` where it fits in 64 bits, the largest 64-bit value otherwise.
pub open spec fn saturated(n: nat) -> u64 {
    if n > u64::MAX {
        u64::MAX
    } else {
        n as u64
    }
}

/// Resident bytes that one reading contributes; a failed reading contributes none.
pub open spec fn resident_part(reading: Option<PageCounters>, page_size: nat) -> nat {
    match reading {
        Some(counters) => counters.resident as nat * page_size,
        None => 0,
    }
}

/// Virtual bytes that one reading contributes; a failed reading contributes none.
pub open spec fn virtual_part(reading: Option<PageCounters>, page_size: nat) -> nat {
    match reading {
        Some(counters) => counters.size as nat * page_size,
        None => 0,
    }
}

/// Sum of the resident bytes of all readings.
pub open spec fn resident_total(readings: Seq<Option<PageCounters>>, page_size: nat) -> nat
    decreases readings.len(),
{
    if readings.len() == 0 {
        0
    } else {
        resident_total(readings.drop_last(), page_size) + resident_part(readings.last(), page_size)
    }
}

/// Sum of the virtual bytes of all readings.
pub open spec fn virtual_total(readings: Seq<Option<PageCounters>>, page_size: nat) -> nat
    decreases readings.len(),
{
    if readings.len() == 0 {
        0
    } else {
        virtual_total(readings.drop_last(), page_size) + virtual_part(readings.last(), page_size)
    }
}

/// The sample that a sequence of readings amounts to: both sums, saturated.
pub open spec fn sample_of(readings: Seq<Option<PageCounters>>, page_size: nat) -> MemorySample {
    MemorySample {
        resident_bytes: saturated(resident_total(readings, page_size)),
        virtual_bytes: saturated(virtual_total(readings, page_size)),
    }
}

impl MemorySample {
    /// The sample that stands in when no measurement could be taken.
    pub fn zero() -> (sample: MemorySample)
        ensures
            sample == (MemorySample { resident_bytes: 0, virtual_bytes: 0 }),
    {
        MemorySample { resident_bytes: 0, virtual_bytes: 0 }
    }
}

fn pages_to_bytes(pages: u64, page_size: u64) -> (bytes: u64)
    ensures
        bytes == saturated(pages as nat * page_size as nat),
{
    match pages.checked_mul(page_size) {
        Some(product) => product,
        None => u64::MAX,
    }
}

/// Sums the counters of the processes that could be read, converts pages to
/// bytes, and saturates instead of overflowing.
pub fn aggregate(readings: &Vec<Option<PageCounters>>, page_size: u64) -> (sample: MemorySample)
    ensures
        sample == sample_of(readings@, page_size as nat),
{
    let mut resident: u64 = 0;
    let mut virt: u64 = 0;
    let mut i: usize = 0;
    while i < readings.len()
        invariant
            i <= readings.len(),
            resident == saturated(resident_total(readings@.take(i as int), page_size as nat)),
            virt == saturated(virtual_total(readings@.take(i as int), page_size as nat)),
        decreases readings.len() - i,
    {
        proof {
            assert(readings@.take(i as int + 1).drop_last() =~= readings@.take(i as int));
        }
        match readings[i] {
            Some(counters) => {
                resident = resident.saturating_add(pages_to_bytes(counters.resident, page_size));
                virt = virt.saturating_add(pages_to_bytes(counters.size, page_size));
            },
            None => {},
        }
        i += 1;
    }
    proof {
        assert(readings@.take(readings@.len() as int) =~= readings@);
    }
    MemorySample { resident_bytes: resident, virtual_bytes: virt }
}

proof fn lemma_totals_without(readings: Seq<Option<PageCounters>>, page_size: nat, i: int)
    requires
        0 <= i < readings.len(),
    ensures
        resident_total(readings, page_size) == resident_total(readings.remove(i), page_size)
            + resident_part(readings[i], page_size),
        virtual_total(readings, page_size) == virtual_total(readings.remove(i), page_size)
            + virtual_part(readings[i], page_size),
    decreases readings.len(),
{
    if i == readings.len() - 1 {
        assert(readings.remove(i) =~= readings.drop_last());
    } else {
        lemma_totals_without(readings.drop_last(), page_size, i);
        assert(readings.remove(i).drop_last() =~= readings.drop_last().remove(i));
        assert(readings.remove(i).last() == readings.last());
    }
}

proof fn lemma_totals_of_rearrangement(
    a: Seq<Option<PageCounters>>,
    b: Seq<Option<PageCounters>>,
    page_size: nat,
)
    requires
        a.to_multiset() == b.to_multiset(),
    ensures
        resident_total(a, page_size) == resident_total(b, page_size),
        virtual_total(a, page_size) == virtual_total(b, page_size),
    decreases a.len(),
{
    assert(a.len() == a.to_multiset().len());
    assert(b.len() == b.to_multiset().len());
    if a.len() > 0 {
        let x = a.last();
        assert(a.contains(x)) by {
            assert(a[a.len() - 1] == x);
        }
        assert(b.to_multiset().count(x) > 0);
        assert(b.contains(x));
        let j = choose|j: int| 0 <= j < b.len() && b[j] == x;
        assert(a.drop_last() =~= a.remove(a.len() - 1));
        assert(a.drop_last().to_multiset() == b.remove(j).to_multiset());
        lemma_totals_of_rearrangement(a.drop_last(), b.remove(j), page_size);
        lemma_totals_without(b, page_size, j);
    }
}

/// The sample does not depend on the order in which the processes were
/// visited: rearranging the readings leaves both totals unchanged.
pub proof fn sample_is_order_independent(
    a: Seq<Option<PageCounters>>,
    b: Seq<Option<PageCounters>>,
    page_size: nat,
)
    requires
        a.to_multiset() == b.to_multiset(),
    ensures
        sample_of(a, page_size) == sample_of(b, page_size),
{
    lemma_totals_of_rearrangement(a, b, page_size);
}

/// What reading the processes of `order` one by one yields, where `readable`
/// holds the counters of every process that can still be read.
pub open spec fn readings_along(order: Seq<i32>, readable: Map<i32, PageCounters>) -> Seq<
    Option<PageCounters>,
> {
    Seq::new(
        order.len(),
        |i: int|
            if readable.contains_key(order[i]) {
                Some(readable[order[i]])
            } else {
                None
            },
    )
}

proof fn lemma_totals_of_same_processes(
    first: Seq<i32>,
    second: Seq<i32>,
    readable: Map<i32, PageCounters>,
    page_size: nat,
)
    requires
        first.no_duplicates(),
        second.no_duplicates(),
        forall|pid: i32| first.contains(pid) <==> second.contains(pid),
    ensures
        resident_total(readings_along(first, readable), page_size) == resident_total(
            readings_along(second, readable),
            page_size,
        ),
        virtual_total(readings_along(first, readable), page_size) == virtual_total(
            readings_along(second, readable),
            page_size,
        ),
    decreases first.len(),
{
    if first.len() == 0 {
        if second.len() > 0 {
            assert(second.contains(second[0]));
        }
        assert(readings_along(second, readable) =~= readings_along(first, readable));
    } else {
        let x = first.last();
        assert(first.contains(x)) by {
            assert(first[first.len() - 1] == x);
        }
        let j = choose|j: int| 0 <= j < second.len() && second[j] == x;
        let shorter = first.drop_last();
        let rest = second.remove(j);
        assert forall|pid: i32| shorter.contains(pid) <==> rest.contains(pid) by {
            if shorter.contains(pid) {
                let k = choose|k: int| 0 <= k < shorter.len() && shorter[k] == pid;
                assert(first[k] == pid);
                assert(first.contains(pid));
                let m = choose|m: int| 0 <= m < second.len() && second[m] == pid;
                assert(m != j);
                if m < j {
                    assert(rest[m] == pid);
                } else {
                    assert(rest[m - 1] == pid);
                }
            }
            if rest.contains(pid) {
                let m = choose|m: int| 0 <= m < rest.len() && rest[m] == pid;
                let at = if m < j {
                    m
                } else {
                    m + 1
                };
                assert(second[at] == pid);
                assert(second.contains(pid));
                let k = choose|k: int| 0 <= k < first.len() && first[k] == pid;
                assert(k != first.len() - 1);
                assert(shorter[k] == pid);
            }
        }
        lemma_totals_of_same_processes(shorter, rest, readable, page_size);
        assert(readings_along(first, readable).drop_last() =~= readings_along(shorter, readable));
        assert(readings_along(second, readable).remove(j) =~= readings_along(rest, readable));
        lemma_totals_without(readings_along(second, readable), page_size, j);
    }
}

/// Two traversals of the same processes, in whatever order each visits them,
/// yield the same sample.
pub proof fn traversal_order_is_immaterial(
    first: Seq<i32>,
    second: Seq<i32>,
    readable: Map<i32, PageCounters>,
    page_size: nat,
)
    requires
        first.no_duplicates(),
        second.no_duplicates(),
        forall|pid: i32| first.contains(pid) <==> second.contains(pid),
    ensures
        sample_of(readings_along(first, readable), page_size) == sample_of(
            readings_along(second, readable),
            page_size,
        ),
{
    lemma_totals_of_same_processes(first, second, readable, page_size);
}

/// A root without descendants yields its own counters, in bytes.
pub proof fn lone_root_counts_itself(counters: PageCounters, page_size: nat)
    ensures
        sample_of(seq![Some(counters)], page_size) == (MemorySample {
            resident_bytes: saturated(counters.resident as nat * page_size),
            virtual_bytes: saturated(counters.size as nat * page_size),
        }),
{
    let one = seq![Some(counters)];
    assert(one.drop_last() =~= Seq::<Option<PageCounters>>::empty());
    assert(resident_total(one.drop_last(), page_size) == 0);
    assert(virtual_total(one.drop_last(), page_size) == 0);
}

/// A process whose counters could not be read contributes exactly zero:
/// the sample is the one taken without it, wherever it stood.
pub proof fn failed_reading_adds_nothing(
    readings: Seq<Option<PageCounters>>,
    page_size: nat,
    i: int,
)
    requires
        0 <= i < readings.len(),
        readings[i] is None,
    ensures
        sample_of(readings, page_size) == sample_of(readings.remove(i), page_size),
{
    lemma_totals_without(readings, page_size, i);
}

} // verus!
