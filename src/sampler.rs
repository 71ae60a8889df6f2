//! Turning one probe reading per tick into a snapshot of derived metrics.
use vstd::prelude::*;
use vstd::set_lib::FiniteRange;
use vstd::set_lib::lemma_len_subset;
use vstd::arithmetic::div_mod::lemma_div_is_ordered;

verus! {

/// A fully busy core, in hundredths of a percent (100.00 %).
pub const FULL_LOAD: u32 = 10000;

/// How many processes the ranking keeps.
pub const TOP_PROCESSES: usize = 5;

/// Bytes in one megabyte as the process panel counts them.
pub const BYTES_PER_MB: u64 = 1048576;

/// One entry of the probe's process table.
pub struct ProcessReading {
    pub name: String,
    pub memory_bytes: u64,
}

/// Cumulative byte counters of one network interface, under its name.
pub struct InterfaceReading {
    pub name: String,
    pub received: u64,
    pub transmitted: u64,
}

/// Everything the probe reports after one refresh.
pub struct ProbeReading {
    /// Utilization of each logical core, in hundredths of a percent.
    pub core_usage: Vec<u32>,
    pub mem_used: u64,
    pub mem_total: u64,
    /// The process table, in the probe's enumeration order.
    pub processes: Vec<ProcessReading>,
    pub interfaces: Vec<InterfaceReading>,
}

/// The metrics of one tick.
pub struct SysStats {
    /// Mean core utilization, in hundredths of a percent.
    pub cpu_usage: u32,
    pub mem_used: u64,
    pub mem_total: u64,
    /// Up to five (name, whole megabytes) pairs, largest first.
    pub processes: Vec<(String, u64)>,
    /// Bytes received since the previous tick.
    pub net_in: u64,
    /// Bytes transmitted since the previous tick.
    pub net_out: u64,
}

/// State carried from one tick to the next: each interface's counters as the
/// previous tick read them, or `None` before the first tick.
pub struct Sampler {
    pub prior: Option<Vec<InterfaceReading>>,
}

// ---------------------------------------------------------------- CPU

/// A core reading, with anything above a full load counted as a full load.
pub open spec fn clamped_load(c: u32) -> int {
    if c > FULL_LOAD {
        FULL_LOAD as int
    } else {
        c as int
    }
}

pub open spec fn load_sum(s: Seq<u32>) -> int
    decreases s.len(),
{
    if s.len() == 0 {
        0
    } else {
        load_sum(s.drop_last()) + clamped_load(s.last())
    }
}

/// Mean core load (floor), or 0 when there are no cores.
pub open spec fn mean_load(s: Seq<u32>) -> int {
    if s.len() == 0 {
        0
    } else {
        load_sum(s) / (s.len() as int)
    }
}

pub proof fn lemma_load_sum_bounds(s: Seq<u32>)
    ensures
        0 <= load_sum(s) <= FULL_LOAD * s.len(),
    decreases s.len(),
{
    if s.len() > 0 {
        lemma_load_sum_bounds(s.drop_last());
    }
}

/// The CPU figure is always a percentage between 0 and 100.
pub proof fn lemma_mean_load_bounds(s: Seq<u32>)
    ensures
        0 <= mean_load(s) <= FULL_LOAD,
{
    lemma_load_sum_bounds(s);
    if s.len() > 0 {
        let n = s.len() as int;
        lemma_div_is_ordered(0, load_sum(s), n);
        lemma_div_is_ordered(load_sum(s), FULL_LOAD * n, n);
        assert((FULL_LOAD * n) / n == FULL_LOAD as int) by (nonlinear_arith)
            requires
                n > 0,
        ;
    }
}

/// Mean utilization over all cores; 0 when the probe reports no core.
pub fn cpu_average(cores: &Vec<u32>) -> (r: u32)
    ensures
        r == mean_load(cores@),
        r <= FULL_LOAD,
{
    let n = cores.len();
    let mut sum: u128 = 0;
    let mut i: usize = 0;
    while i < n
        invariant
            n == cores@.len(),
            i <= n,
            sum == load_sum(cores@.take(i as int)),
            sum <= FULL_LOAD * i,
        decreases n - i,
    {
        let c = cores[i];
        let c = if c > FULL_LOAD {
            FULL_LOAD
        } else {
            c
        };
        assert(cores@.take(i + 1).drop_last() =~= cores@.take(i as int));
        sum = sum + c as u128;
        i = i + 1;
    }
    assert(cores@.take(n as int) =~= cores@);
    proof {
        lemma_mean_load_bounds(cores@);
    }
    if n == 0 {
        0
    } else {
        (sum / (n as u128)) as u32
    }
}

// ---------------------------------------------------------------- processes

/// Entry `a` is listed before entry `b`: more memory, or the same memory and
/// earlier in the probe's order.
pub open spec fn ranks_before(m: Seq<u64>, a: int, b: int) -> bool {
    m[a] > m[b] || (m[a] == m[b] && a < b)
}

/// `ids` lists the `k` entries of `m` (all of them if there are fewer) that
/// come first by descending memory, ties kept in the probe's order.
pub open spec fn is_top_ranking(m: Seq<u64>, k: nat, ids: Seq<usize>) -> bool {
    &&& ids.len() == if k < m.len() { k } else { m.len() }
    &&& forall|a: int| 0 <= a < ids.len() ==> #[trigger] ids[a] < m.len()
    &&& forall|a: int, b: int|
        0 <= a < b < ids.len() ==> ranks_before(m, #[trigger] ids[a] as int, #[trigger] ids[b] as int)
    &&& forall|a: int, i: int|
        0 <= a < ids.len() && 0 <= i < m.len() && !ids.contains(i as usize) ==> #[trigger] ranks_before(
            m,
            ids[a] as int,
            i,
        )
}

/// Entry `c` comes after the last of the entries picked so far.
spec fn ranks_after_all(m: Seq<u64>, ids: Seq<usize>, c: int) -> bool {
    ids.len() == 0 || ranks_before(m, ids.last() as int, c)
}

proof fn lemma_ranked_distinct(m: Seq<u64>, ids: Seq<usize>)
    requires
        forall|a: int, b: int|
            0 <= a < b < ids.len() ==> ranks_before(m, #[trigger] ids[a] as int, #[trigger] ids[b] as int),
    ensures
        ids.no_duplicates(),
{
    assert forall|a: int, b: int| 0 <= a < ids.len() && 0 <= b < ids.len() && a != b implies ids[a]
        != ids[b] by {
        if a < b {
            assert(ranks_before(m, ids[a] as int, ids[b] as int));
        } else {
            assert(ranks_before(m, ids[b] as int, ids[a] as int));
        }
    }
}

proof fn lemma_distinct_indices_bound(ids: Seq<usize>, n: usize)
    requires
        ids.no_duplicates(),
        forall|a: int| 0 <= a < ids.len() ==> #[trigger] ids[a] < n,
    ensures
        ids.len() <= n,
{
    <usize as FiniteRange>::range_properties(0, n);
    ids.unique_seq_to_set();
    assert(ids.to_set().subset_of(Set::<usize>::range(0, n)));
    lemma_len_subset(ids.to_set(), Set::<usize>::range(0, n));
}

proof fn lemma_covering_indices(ids: Seq<usize>, n: usize)
    requires
        ids.no_duplicates(),
        forall|i: usize| i < n ==> ids.contains(i),
    ensures
        n <= ids.len(),
{
    <usize as FiniteRange>::range_properties(0, n);
    ids.unique_seq_to_set();
    assert(Set::<usize>::range(0, n).subset_of(ids.to_set()));
    lemma_len_subset(Set::<usize>::range(0, n), ids.to_set());
}

/// Indices of the `k` entries of `memories` that rank first: by descending
/// memory, equal memories in their original order.
pub fn top_ranking(memories: &Vec<u64>, k: usize) -> (ids: Vec<usize>)
    ensures
        is_top_ranking(memories@, k as nat, ids@),
{
    let n = memories.len();
    let ghost m = memories@;
    let mut ids: Vec<usize> = Vec::new();
    // Each round scans the table for the first-ranked entry among those that
    // rank after the last one picked.
    while ids.len() < k
        invariant
            n == m.len(),
            m == memories@,
            ids.len() <= k,
            ids.len() <= n,
            forall|a: int| 0 <= a < ids.len() ==> #[trigger] ids[a] < n,
            forall|a: int, b: int|
                0 <= a < b < ids.len() ==> ranks_before(m, #[trigger] ids[a] as int, #[trigger] ids[b] as int),
            forall|a: int, i: int|
                0 <= a < ids.len() && 0 <= i < n && !ids@.contains(i as usize) ==> #[trigger] ranks_before(
                    m,
                    ids[a] as int,
                    i,
                ),
        ensures
            is_top_ranking(m, k as nat, ids@),
        decreases k - ids.len(),
    {
        let picked = ids.len();
        let mut best: Option<usize> = None;
        let mut i: usize = 0;
        while i < n
            invariant
                n == m.len(),
                m == memories@,
                picked == ids.len(),
                picked > 0 ==> ids[picked - 1] < n,
                i <= n,
                match best {
                    Some(b) => b < i && ranks_after_all(m, ids@, b as int) && forall|c: int|
                        0 <= c < i && c != b && #[trigger] ranks_after_all(m, ids@, c) ==> ranks_before(
                            m,
                            b as int,
                            c,
                        ),
                    None => forall|c: int| 0 <= c < i ==> !#[trigger] ranks_after_all(m, ids@, c),
                },
            decreases n - i,
        {
            let after_last = if picked == 0 {
                true
            } else {
                let last = ids[picked - 1];
                memories[last] > memories[i] || (memories[last] == memories[i] && last < i)
            };
            if after_last {
                match best {
                    None => {
                        best = Some(i);
                    },
                    Some(b) => {
                        if memories[i] > memories[b] {
                            best = Some(i);
                        }
                    },
                }
            }
            i = i + 1;
        }
        proof {
            lemma_ranked_distinct(m, ids@);
        }
        match best {
            None => {
                proof {
                    assert forall|c: usize| c < n implies ids@.contains(c) by {
                        if !ids@.contains(c) {
                            if picked > 0 {
                                assert(ranks_before(m, ids[picked - 1] as int, c as int));
                            }
                            assert(ranks_after_all(m, ids@, c as int));
                        }
                    }
                    lemma_covering_indices(ids@, n);
                }
                break ;
            },
            Some(b) => {
                let ghost old_ids = ids@;
                ids.push(b);
                proof {
                    assert forall|a: int, c: int|
                        0 <= a < ids.len() && 0 <= c < n && !ids@.contains(c as usize) implies #[trigger] ranks_before(
                        m,
                        ids[a] as int,
                        c,
                    ) by {
                        assert(!old_ids.contains(c as usize)) by {
                            if old_ids.contains(c as usize) {
                                let j = choose|j: int| 0 <= j < old_ids.len() && old_ids[j] == c as usize;
                                assert(ids@[j] == c as usize);
                            }
                        }
                        if picked > 0 {
                            assert(ranks_before(m, old_ids[picked - 1] as int, c));
                        }
                        assert(c != b as int) by {
                            assert(ids@[picked as int] == b);
                        }
                        assert(ranks_after_all(m, old_ids, c));
                        assert(ranks_before(m, b as int, c));
                        if a < picked {
                            assert(old_ids[a] == ids[a]);
                            assert(ranks_before(m, old_ids[a] as int, c));
                        }
                    }
                    assert forall|a: int, a2: int| 0 <= a < a2 < ids.len() implies ranks_before(
                        m,
                        #[trigger] ids[a] as int,
                        #[trigger] ids[a2] as int,
                    ) by {
                        if a2 == picked {
                            assert(ranks_before(m, old_ids[picked - 1] as int, b as int));
                            if a < picked - 1 {
                                assert(ranks_before(m, old_ids[a] as int, old_ids[picked - 1] as int));
                            }
                        } else {
                            assert(ranks_before(m, old_ids[a] as int, old_ids[a2] as int));
                        }
                    }
                    lemma_ranked_distinct(m, ids@);
                    lemma_distinct_indices_bound(ids@, n);
                }
            },
        }
    }
    ids
}

/// The memory column of a process table.
pub open spec fn memories(procs: Seq<ProcessReading>) -> Seq<u64> {
    procs.map_values(|p: ProcessReading| p.memory_bytes)
}

/// `out` lists, in order, the processes at `ids`: name and whole megabytes.
pub open spec fn lists_entries(procs: Seq<ProcessReading>, ids: Seq<usize>, out: Seq<(String, u64)>) -> bool {
    &&& out.len() == ids.len()
    &&& forall|j: int|
        0 <= j < out.len() ==> (#[trigger] out[j]).0@ == procs[ids[j] as int].name@ && out[j].1
            == procs[ids[j] as int].memory_bytes / BYTES_PER_MB
}

/// `out` is the process panel's list for `procs`: the five processes that use
/// the most memory (fewer if the table is shorter), largest first, equal
/// memories in the probe's order.
pub open spec fn is_process_ranking(procs: Seq<ProcessReading>, out: Seq<(String, u64)>) -> bool {
    exists|ids: Seq<usize>|
        is_top_ranking(memories(procs), TOP_PROCESSES as nat, ids) && #[trigger] lists_entries(
            procs,
            ids,
            out,
        )
}

proof fn lemma_top_ranking_prefix(m: Seq<u64>, k: nat, ids1: Seq<usize>, ids2: Seq<usize>, j: int)
    requires
        is_top_ranking(m, k, ids1),
        is_top_ranking(m, k, ids2),
        0 <= j <= ids1.len(),
    ensures
        forall|i: int| 0 <= i < j ==> ids1[i] == ids2[i],
    decreases j,
{
    if j > 0 {
        lemma_top_ranking_prefix(m, k, ids1, ids2, j - 1);
        lemma_ranked_distinct(m, ids1);
        lemma_ranked_distinct(m, ids2);
        let t = j - 1;
        let x = ids1[t];
        let y = ids2[t];
        if x != y {
            if ranks_before(m, x as int, y as int) {
                if ids2.contains(x) {
                    let p = choose|p: int| 0 <= p < ids2.len() && ids2[p] == x;
                    if p < t {
                        assert(ids1[p] == ids2[p]);
                    } else {
                        assert(ranks_before(m, y as int, x as int));
                    }
                } else {
                    assert(ranks_before(m, ids2[t] as int, x as int));
                }
            } else {
                if ids1.contains(y) {
                    let p = choose|p: int| 0 <= p < ids1.len() && ids1[p] == y;
                    if p < t {
                        assert(ids1[p] == ids2[p]);
                    } else {
                        assert(ranks_before(m, x as int, y as int));
                    }
                } else {
                    assert(ranks_before(m, ids1[t] as int, y as int));
                }
            }
        }
    }
}

/// The ranking is determined: for a given table and bound exactly one list
/// of indices satisfies `is_top_ranking`.
pub proof fn lemma_top_ranking_unique(m: Seq<u64>, k: nat, ids1: Seq<usize>, ids2: Seq<usize>)
    requires
        is_top_ranking(m, k, ids1),
        is_top_ranking(m, k, ids2),
    ensures
        ids1 == ids2,
{
    lemma_top_ranking_prefix(m, k, ids1, ids2, ids1.len() as int);
    assert(ids1 =~= ids2);
}

/// The top processes by resident memory, as (name, whole megabytes).
pub fn top_processes(procs: &Vec<ProcessReading>) -> (r: Vec<(String, u64)>)
    ensures
        is_process_ranking(procs@, r@),
{
    let n = procs.len();
    let mut mems: Vec<u64> = Vec::new();
    let mut i: usize = 0;
    while i < n
        invariant
            n == procs@.len(),
            i <= n,
            mems@ =~= memories(procs@).take(i as int),
        decreases n - i,
    {
        mems.push(procs[i].memory_bytes);
        i = i + 1;
    }
    assert(mems@ =~= memories(procs@));
    let ids = top_ranking(&mems, TOP_PROCESSES);
    let mut out: Vec<(String, u64)> = Vec::new();
    let mut j: usize = 0;
    while j < ids.len()
        invariant
            n == procs@.len(),
            is_top_ranking(memories(procs@), TOP_PROCESSES as nat, ids@),
            j <= ids.len(),
            lists_entries(procs@, ids@.take(j as int), out@),
        decreases ids.len() - j,
    {
        let p = &procs[ids[j]];
        out.push((p.name.clone(), p.memory_bytes / BYTES_PER_MB));
        j = j + 1;
        assert(lists_entries(procs@, ids@.take(j as int), out@));
    }
    assert(ids@.take(j as int) =~= ids@);
    out
}

/// The process list is determined by the process table: two lists that both
/// rank the same table hold the same names and megabytes in the same order.
pub proof fn lemma_process_ranking_unique(
    procs: Seq<ProcessReading>,
    out1: Seq<(String, u64)>,
    out2: Seq<(String, u64)>,
)
    requires
        is_process_ranking(procs, out1),
        is_process_ranking(procs, out2),
    ensures
        out1.len() == out2.len(),
        forall|j: int| 0 <= j < out1.len() ==> out1[j].0@ == out2[j].0@ && out1[j].1 == out2[j].1,
{
    let ids1 = choose|ids: Seq<usize>|
        is_top_ranking(memories(procs), TOP_PROCESSES as nat, ids) && #[trigger] lists_entries(
            procs,
            ids,
            out1,
        );
    let ids2 = choose|ids: Seq<usize>|
        is_top_ranking(memories(procs), TOP_PROCESSES as nat, ids) && #[trigger] lists_entries(
            procs,
            ids,
            out2,
        );
    lemma_top_ranking_unique(memories(procs), TOP_PROCESSES as nat, ids1, ids2);
    assert forall|j: int| 0 <= j < out1.len() implies out1[j].0@ == out2[j].0@ && out1[j].1 == out2[j].1 by {
        assert(out1[j].0@ == procs[ids1[j] as int].name@);
        assert(out2[j].0@ == procs[ids2[j] as int].name@);
    }
}

/// The process list is ordered by megabytes, largest first, holds at most
/// five entries and never more than the probe reported.
pub proof fn lemma_ranking_shape(procs: Seq<ProcessReading>, out: Seq<(String, u64)>)
    requires
        is_process_ranking(procs, out),
    ensures
        out.len() <= TOP_PROCESSES,
        out.len() <= procs.len(),
        forall|a: int, b: int| 0 <= a < b < out.len() ==> out[a].1 >= out[b].1,
{
    let ids = choose|ids: Seq<usize>|
        is_top_ranking(memories(procs), TOP_PROCESSES as nat, ids) && #[trigger] lists_entries(
            procs,
            ids,
            out,
        );
    let m = memories(procs);
    assert forall|a: int, b: int| 0 <= a < b < out.len() implies out[a].1 >= out[b].1 by {
        assert(ranks_before(m, ids[a] as int, ids[b] as int));
        assert(out[a].1 == procs[ids[a] as int].memory_bytes / BYTES_PER_MB);
        assert(out[b].1 == procs[ids[b] as int].memory_bytes / BYTES_PER_MB);
        lemma_div_is_ordered(
            procs[ids[b] as int].memory_bytes as int,
            procs[ids[a] as int].memory_bytes as int,
            BYTES_PER_MB as int,
        );
    }
}

// ---------------------------------------------------------------- network

/// The first entry of `prev` with the given name, if any.
pub open spec fn prior_of(prev: Seq<InterfaceReading>, name: Seq<char>) -> Option<InterfaceReading>
    decreases prev.len(),
{
    if prev.len() == 0 {
        None
    } else if prev[0].name@ == name {
        Some(prev[0])
    } else {
        prior_of(prev.drop_first(), name)
    }
}

/// One direction of an interface's counters: transmitted if `tx`, else received.
pub open spec fn counter(i: InterfaceReading, tx: bool) -> int {
    if tx {
        i.transmitted as int
    } else {
        i.received as int
    }
}

/// Sum of one direction of the counters over all interfaces of a reading.
pub open spec fn total(cur: Seq<InterfaceReading>, tx: bool) -> int
    decreases cur.len(),
{
    if cur.len() == 0 {
        0
    } else {
        total(cur.drop_last(), tx) + counter(cur.last(), tx)
    }
}

/// Sum of the previous tick's counters of the interfaces in `cur` that the
/// previous tick also saw, matched by name: the subtraction base, from which
/// interfaces that disappeared have dropped out.
pub open spec fn kept_before(prev: Seq<InterfaceReading>, cur: Seq<InterfaceReading>, tx: bool) -> int
    decreases cur.len(),
{
    if cur.len() == 0 {
        0
    } else {
        kept_before(prev, cur.drop_last(), tx) + match prior_of(prev, cur.last().name@) {
            Some(p) => counter(p, tx),
            None => 0,
        }
    }
}

/// Bytes counted between two readings of a cumulative counter: 0 when the
/// counter went back (a reset or a rollover), at most `u64::MAX`.
pub open spec fn counter_delta(prev: int, cur: int) -> u64 {
    if cur <= prev {
        0
    } else if cur - prev > u64::MAX {
        u64::MAX
    } else {
        (cur - prev) as u64
    }
}

/// Bytes moved in one direction (transmitted if `tx`) since the previous tick:
/// the total over all current interfaces less the previous counters of the
/// interfaces still present, 0 where that would be negative.
pub open spec fn traffic(prev: Seq<InterfaceReading>, cur: Seq<InterfaceReading>, tx: bool) -> u64 {
    counter_delta(kept_before(prev, cur, tx), total(cur, tx))
}

/// Position of the first entry of `prev` named `name`.
fn find_prior(prev: &Vec<InterfaceReading>, name: &String) -> (r: Option<usize>)
    ensures
        match r {
            Some(j) => j < prev@.len() && prior_of(prev@, name@) == Some(prev@[j as int]),
            None => prior_of(prev@, name@) is None,
        },
{
    let n = prev.len();
    let mut j: usize = 0;
    assert(prev@.subrange(0, n as int) =~= prev@);
    while j < n
        invariant
            n == prev@.len(),
            j <= n,
            prior_of(prev@, name@) == prior_of(prev@.subrange(j as int, n as int), name@),
        decreases n - j,
    {
        assert(prev@.subrange(j as int, n as int)[0] == prev@[j as int]);
        if prev[j].name == *name {
            return Some(j);
        }
        assert(prev@.subrange(j as int, n as int).drop_first() =~= prev@.subrange(j + 1, n as int));
        j = j + 1;
    }
    None
}

/// Bytes received and transmitted since the previous tick, given the
/// interfaces as the previous tick and this one read them; (0, 0) on the
/// first tick, whatever the counters read.
pub fn network_delta(prior: &Option<Vec<InterfaceReading>>, cur: &Vec<InterfaceReading>) -> (r: (u64, u64))
    ensures
        match *prior {
            None => r == (0u64, 0u64),
            Some(p) => r == (traffic(p@, cur@, false), traffic(p@, cur@, true)),
        },
{
    match prior {
        None => (0, 0),
        Some(p) => delta_since(p, cur),
    }
}

fn delta_since(prior: &Vec<InterfaceReading>, cur: &Vec<InterfaceReading>) -> (r: (u64, u64))
    ensures
        r == (traffic(prior@, cur@, false), traffic(prior@, cur@, true)),
{
    let n = cur.len();
    let mut now_rx: u128 = 0;
    let mut now_tx: u128 = 0;
    let mut before_rx: u128 = 0;
    let mut before_tx: u128 = 0;
    let mut i: usize = 0;
    while i < n
        invariant
            n == cur@.len(),
            i <= n,
            now_rx == total(cur@.take(i as int), false),
            now_tx == total(cur@.take(i as int), true),
            before_rx == kept_before(prior@, cur@.take(i as int), false),
            before_tx == kept_before(prior@, cur@.take(i as int), true),
            now_rx <= u64::MAX * i,
            now_tx <= u64::MAX * i,
            before_rx <= u64::MAX * i,
            before_tx <= u64::MAX * i,
        decreases n - i,
    {
        assert(cur@.take(i + 1).drop_last() =~= cur@.take(i as int));
        assert(cur@.take(i + 1).last() == cur@[i as int]);
        now_rx = now_rx + cur[i].received as u128;
        now_tx = now_tx + cur[i].transmitted as u128;
        match find_prior(prior, &cur[i].name) {
            Some(j) => {
                before_rx = before_rx + prior[j].received as u128;
                before_tx = before_tx + prior[j].transmitted as u128;
            },
            None => {},
        }
        i = i + 1;
    }
    assert(cur@.take(n as int) =~= cur@);
    (counter_between(before_rx, now_rx), counter_between(before_tx, now_tx))
}

fn counter_between(prev: u128, cur: u128) -> (r: u64)
    ensures
        r == counter_delta(prev as int, cur as int),
{
    if cur <= prev {
        0
    } else if cur - prev > u64::MAX as u128 {
        u64::MAX
    } else {
        (cur - prev) as u64
    }
}

/// A counter that went back between two ticks never yields a negative delta:
/// it yields none at all. One that went forward yields the bytes in between.
pub proof fn lemma_counter_delta_never_negative(prev: int, cur: int)
    ensures
        counter_delta(prev, cur) >= 0,
        cur <= prev ==> counter_delta(prev, cur) == 0,
        prev < cur && cur - prev <= u64::MAX ==> counter_delta(prev, cur) == cur - prev,
{
}

/// An independent copy of the interfaces' readings.
fn copy_readings(v: &Vec<InterfaceReading>) -> (r: Vec<InterfaceReading>)
    ensures
        r@ == v@,
{
    let n = v.len();
    let mut r: Vec<InterfaceReading> = Vec::new();
    let mut i: usize = 0;
    while i < n
        invariant
            n == v@.len(),
            i <= n,
            r@ =~= v@.take(i as int),
        decreases n - i,
    {
        let e = &v[i];
        r.push(InterfaceReading { name: e.name.clone(), received: e.received, transmitted: e.transmitted });
        i = i + 1;
    }
    assert(v@.take(n as int) =~= v@);
    r
}

// ---------------------------------------------------------------- ticks

impl Sampler {
    /// A sampler that has not seen a tick yet.
    pub fn new() -> (r: Sampler)
        ensures
            r.prior is None,
    {
        Sampler { prior: None }
    }
}

/// Derives one tick's snapshot from a probe reading and carries the
/// interfaces' counters forward to the next tick.
pub fn get_stats(sampler: &mut Sampler, reading: &ProbeReading) -> (r: SysStats)
    ensures
        r.cpu_usage == mean_load(reading.core_usage@),
        r.cpu_usage <= FULL_LOAD,
        r.mem_used == reading.mem_used,
        r.mem_total == reading.mem_total,
        is_process_ranking(reading.processes@, r.processes@),
        match old(sampler).prior {
            None => r.net_in == 0 && r.net_out == 0,
            Some(p) => r.net_in == traffic(p@, reading.interfaces@, false) && r.net_out == traffic(
                p@,
                reading.interfaces@,
                true,
            ),
        },
        match final(sampler).prior {
            Some(p) => p@ == reading.interfaces@,
            None => false,
        },
{
    let cpu_usage = cpu_average(&reading.core_usage);
    proof {
        lemma_mean_load_bounds(reading.core_usage@);
    }
    let processes = top_processes(&reading.processes);
    let (net_in, net_out) = network_delta(&sampler.prior, &reading.interfaces);
    sampler.prior = Some(copy_readings(&reading.interfaces));
    SysStats {
        cpu_usage,
        mem_used: reading.mem_used,
        mem_total: reading.mem_total,
        processes,
        net_in,
        net_out,
    }
}

} // verus!
