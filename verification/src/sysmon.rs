//! The `sysmon` sampler: decoding one report of the monitor, working out each
//! tasklet's share of CPU time since the previous report, and ranking the
//! tasklets by that share.

use vstd::prelude::*;
use crate::monitor::{mb_of_pages, pages_to_mb};
use crate::wire::{
    le_at, le_u16_at, le_u32_at, le_u64_at, le_value, lemma_le_value_bound, law_records_inside,
    records_that_fit,
};

verus! {

/// The most tasklets one report keeps.
pub const MAX_TASKLETS: usize = 24;

/// The number of tasklets a sample shows.
pub const SHOWN_TASKLETS: usize = 12;

/// One tasklet of a `sysmon` report, with its share of CPU time.
#[derive(Clone, Copy)]
pub struct SysmonEntry {
    pub tid: u16,
    pub pages: u16,
    pub ticks: u64,
    pub yields: u32,
    pub preempts: u32,
    pub state: u8,
    pub cpu: u8,
    pub pri: u8,
    pub pinned: u8,
    pub starve_ms: u64,
    /// Percent of the interval since the previous report that the tasklet ran.
    pub cpu_pct: u32,
}

/// `x` placed into `s` behind every element of at least its share, by
/// moving it forward from the end past the elements of smaller share.
pub open spec fn insert_by_pct(s: Seq<SysmonEntry>, x: SysmonEntry) -> Seq<SysmonEntry>
    decreases s.len(),
{
    if s.len() == 0 || s.last().cpu_pct >= x.cpu_pct {
        s.push(x)
    } else {
        insert_by_pct(s.drop_last(), x).push(s.last())
    }
}

/// The entries ordered by share of CPU time, highest first; entries of equal
/// share keep their order.
pub open spec fn sort_by_pct(s: Seq<SysmonEntry>) -> Seq<SysmonEntry>
    decreases s.len(),
{
    if s.len() == 0 {
        s
    } else {
        insert_by_pct(sort_by_pct(s.drop_last()), s.last())
    }
}

/// No entry has a larger share than one before it.
pub open spec fn sorted_by_pct(s: Seq<SysmonEntry>) -> bool {
    forall|i: int, j: int| 0 <= i < j < s.len() ==> s[i].cpu_pct >= s[j].cpu_pct
}

proof fn lemma_insert_len(s: Seq<SysmonEntry>, x: SysmonEntry)
    ensures
        insert_by_pct(s, x).len() == s.len() + 1,
    decreases s.len(),
{
    if !(s.len() == 0 || s.last().cpu_pct >= x.cpu_pct) {
        lemma_insert_len(s.drop_last(), x);
    }
}

proof fn lemma_sort_len(s: Seq<SysmonEntry>)
    ensures
        sort_by_pct(s).len() == s.len(),
    decreases s.len(),
{
    if s.len() > 0 {
        lemma_sort_len(s.drop_last());
        lemma_insert_len(sort_by_pct(s.drop_last()), s.last());
    }
}

proof fn lemma_insert_sorted(s: Seq<SysmonEntry>, x: SysmonEntry)
    requires
        sorted_by_pct(s),
    ensures
        sorted_by_pct(insert_by_pct(s, x)),
        insert_by_pct(s, x).len() == s.len() + 1,
        forall|i: int|
            0 <= i < insert_by_pct(s, x).len() ==> (#[trigger] insert_by_pct(s, x)[i] == x || exists|
                k: int,
            | 0 <= k < s.len() && insert_by_pct(s, x)[i] == s[k]),
    decreases s.len(),
{
    lemma_insert_len(s, x);
    let r = insert_by_pct(s, x);
    if s.len() == 0 || s.last().cpu_pct >= x.cpu_pct {
        assert forall|i: int| 0 <= i < r.len() implies (#[trigger] r[i] == x || exists|k: int|
            0 <= k < s.len() && r[i] == s[k]) by {
            if i < s.len() {
                assert(r[i] == s[i]);
            }
        }
    } else {
        let d = s.drop_last();
        assert(sorted_by_pct(d));
        lemma_insert_sorted(d, x);
        let t = insert_by_pct(d, x);
        assert forall|i: int| 0 <= i < r.len() implies (#[trigger] r[i] == x || exists|k: int|
            0 <= k < s.len() && r[i] == s[k]) by {
            if i < t.len() {
                assert(r[i] == t[i]);
                if t[i] != x {
                    let k = choose|k: int| 0 <= k < d.len() && t[i] == d[k];
                    assert(s[k] == d[k]);
                }
            } else {
                assert(r[i] == s[s.len() - 1]);
            }
        }
        assert forall|i: int, j: int| 0 <= i < j < r.len() implies r[i].cpu_pct >= r[j].cpu_pct by {
            if j < t.len() {
                assert(r[i] == t[i] && r[j] == t[j]);
            } else {
                assert(r[j] == s.last());
                assert(r[i] == t[i]);
                if t[i] != x {
                    let k = choose|k: int| 0 <= k < d.len() && t[i] == d[k];
                    assert(s[k] == d[k]);
                    assert(s[k].cpu_pct >= s[s.len() - 1].cpu_pct);
                }
            }
        }
    }
}

/// Law: the ranked entries never rise in share of CPU time.
pub proof fn law_sort_is_sorted(s: Seq<SysmonEntry>)
    ensures
        sorted_by_pct(sort_by_pct(s)),
        sort_by_pct(s).len() == s.len(),
    decreases s.len(),
{
    lemma_sort_len(s);
    if s.len() > 0 {
        law_sort_is_sorted(s.drop_last());
        lemma_insert_sorted(sort_by_pct(s.drop_last()), s.last());
    }
}

proof fn lemma_insert_multiset(s: Seq<SysmonEntry>, x: SysmonEntry)
    ensures
        insert_by_pct(s, x).to_multiset() == s.to_multiset().insert(x),
    decreases s.len(),
{
    broadcast use vstd::seq_lib::group_to_multiset_ensures;

    if s.len() == 0 || s.last().cpu_pct >= x.cpu_pct {
    } else {
        let d = s.drop_last();
        lemma_insert_multiset(d, x);
        assert(d.push(s.last()) =~= s);
        assert(insert_by_pct(s, x).to_multiset() =~= d.to_multiset().insert(x).insert(s.last()));
        assert(s.to_multiset() =~= d.to_multiset().insert(s.last()));
    }
}

/// Law: ranking keeps every entry, as often as it occurs, and adds none.
pub proof fn law_sort_is_permutation(s: Seq<SysmonEntry>)
    ensures
        sort_by_pct(s).to_multiset() == s.to_multiset(),
    decreases s.len(),
{
    broadcast use vstd::seq_lib::group_to_multiset_ensures;

    if s.len() > 0 {
        let d = s.drop_last();
        law_sort_is_permutation(d);
        lemma_insert_multiset(sort_by_pct(d), s.last());
        assert(d.push(s.last()) =~= s);
    }
}

/// Entries with exactly `pct` percent.
pub open spec fn with_pct(pct: u32) -> spec_fn(SysmonEntry) -> bool {
    |e: SysmonEntry| e.cpu_pct == pct
}

proof fn lemma_insert_stable(s: Seq<SysmonEntry>, x: SysmonEntry, pct: u32)
    ensures
        insert_by_pct(s, x).filter(with_pct(pct)) == s.push(x).filter(with_pct(pct)),
    decreases s.len(),
{
    broadcast use vstd::seq::Seq::lemma_filter_push;

    if s.len() == 0 || s.last().cpu_pct >= x.cpu_pct {
    } else {
        let d = s.drop_last();
        lemma_insert_stable(d, x, pct);
        assert(d.push(s.last()) =~= s);
    }
}

/// Law: among entries of the same share, ranking keeps the report's order.
pub proof fn law_sort_is_stable(s: Seq<SysmonEntry>, pct: u32)
    ensures
        sort_by_pct(s).filter(with_pct(pct)) == s.filter(with_pct(pct)),
    decreases s.len(),
{
    broadcast use vstd::seq::Seq::lemma_filter_push;

    if s.len() > 0 {
        let d = s.drop_last();
        law_sort_is_stable(d, pct);
        lemma_insert_stable(sort_by_pct(d), s.last(), pct);
        assert(d.push(s.last()) =~= s);
    }
}

/// Orders `entries` by share of CPU time, highest first, keeping the order
/// of entries with equal shares (insertion sort).
pub fn sort_entries(entries: &mut Vec<SysmonEntry>)
    ensures
        final(entries)@ == sort_by_pct(old(entries)@),
{
    let ghost orig = entries@;
    let n = entries.len();
    if n == 0 {
        return;
    }
    let mut i: usize = 1;
    assert(orig.take(1).drop_last() =~= Seq::<SysmonEntry>::empty());
    assert(orig.take(1) =~= seq![orig[0]]);
    assert(sort_by_pct(orig.take(1).drop_last()) =~= Seq::<SysmonEntry>::empty());
    assert(insert_by_pct(Seq::<SysmonEntry>::empty(), orig[0]) =~= seq![orig[0]]);
    assert(sort_by_pct(orig.take(1)) =~= seq![orig[0]]);
    assert(entries@ =~= sort_by_pct(orig.take(1)) + orig.skip(1));
    while i < n
        invariant
            n == orig.len(),
            entries@.len() == n,
            1 <= i <= n,
            entries@ == sort_by_pct(orig.take(i as int)) + orig.skip(i as int),
        decreases n - i,
    {
        let ghost sorted = sort_by_pct(orig.take(i as int));
        let ghost x = orig[i as int];
        proof {
            lemma_sort_len(orig.take(i as int));
        }
        let mut j: usize = i;
        assert(entries@ =~= sorted.take(j as int) + seq![x] + sorted.skip(j as int) + orig.skip(
            i + 1,
        ));
        assert(sorted.take(j as int) =~= sorted);
        assert(sorted.skip(j as int) =~= Seq::<SysmonEntry>::empty());
        assert(insert_by_pct(sorted, x) =~= insert_by_pct(sorted.take(j as int), x) + sorted.skip(
            j as int,
        ));
        while j > 0 && entries[j].cpu_pct > entries[j - 1].cpu_pct
            invariant
                n == orig.len(),
                i < n,
                sorted.len() == i,
                x == orig[i as int],
                0 <= j <= i,
                entries@ == sorted.take(j as int) + seq![x] + sorted.skip(j as int) + orig.skip(
                    i + 1,
                ),
                insert_by_pct(sorted, x) == insert_by_pct(sorted.take(j as int), x) + sorted.skip(
                    j as int,
                ),
            decreases j,
        {
            let a = entries[j];
            let b = entries[j - 1];
            assert(a == x);
            assert(b == sorted[j - 1]);
            entries.set(j, b);
            entries.set(j - 1, a);
            proof {
                let p = sorted.take(j as int);
                assert(p.drop_last() =~= sorted.take(j - 1));
                assert(insert_by_pct(p, x) == insert_by_pct(sorted.take(j - 1), x).push(b));
                assert(insert_by_pct(sorted.take(j - 1), x).push(b) + sorted.skip(j as int)
                    =~= insert_by_pct(sorted.take(j - 1), x) + sorted.skip(j - 1));
            }
            j = j - 1;
            assert(entries@ =~= sorted.take(j as int) + seq![x] + sorted.skip(j as int)
                + orig.skip(i + 1));
        }
        proof {
            let p = sorted.take(j as int);
            assert(j == 0 || entries@[j - 1] == sorted[j - 1]);
            assert(entries@[j as int] == x);
            assert(insert_by_pct(p, x) == p.push(x));
            assert(orig.take(i + 1).drop_last() =~= orig.take(i as int));
            assert(orig.take(i + 1).last() == x);
            assert(entries@ =~= sort_by_pct(orig.take(i + 1)) + orig.skip(i + 1));
        }
        i = i + 1;
    }
    assert(orig.take(n as int) =~= orig);
    assert(orig.skip(n as int) =~= Seq::<SysmonEntry>::empty());
    assert(entries@ =~= sort_by_pct(orig));
}


/// Index of the first occurrence of `x` in `s`, if any.
pub open spec fn first_index_of(s: Seq<u16>, x: u16) -> Option<int>
    decreases s.len(),
{
    if s.len() == 0 {
        None
    } else if s[0] == x {
        Some(0)
    } else {
        match first_index_of(s.drop_first(), x) {
            Some(i) => Some(i + 1),
            None => None,
        }
    }
}

proof fn lemma_first_index_at(s: Seq<u16>, x: u16, i: int)
    requires
        0 <= i <= s.len(),
        forall|k: int| 0 <= k < i ==> s[k] != x,
    ensures
        i < s.len() && s[i] == x ==> first_index_of(s, x) == Some(i),
        i == s.len() ==> first_index_of(s, x) is None,
    decreases i,
{
    if i > 0 {
        lemma_first_index_at(s.drop_first(), x, i - 1);
    }
}

/// What the previous sample left for the next one: its uptime, and the ids
/// and tick counts of the tasklets it ranked, in rank order.
pub struct SysmonHistory {
    pub uptime_ms: u32,
    pub tids: Vec<u16>,
    pub ticks: Vec<u64>,
}

impl SysmonHistory {
    /// One tick count per id, for at most `MAX_TASKLETS` tasklets.
    pub open spec fn well_formed(&self) -> bool {
        self.tids@.len() == self.ticks@.len() && self.tids@.len() <= MAX_TASKLETS
    }

    /// The history before the first sample: nothing seen yet.
    pub fn new() -> (r: SysmonHistory)
        ensures
            r.well_formed(),
            r.uptime_ms == 0,
            r.tids@.len() == 0,
    {
        SysmonHistory { uptime_ms: 0, tids: Vec::new(), ticks: Vec::new() }
    }
}

/// A tasklet's share of CPU time: the ticks it ran since the previous
/// sample, in percent of the ticks in the wall-clock interval (`delta_ms`
/// times `tpm` ticks per millisecond). Zero when the comparison is off, the
/// tasklet was not in the previous sample or the interval has no ticks;
/// `None` where the arithmetic leaves `u64`.
pub open spec fn tasklet_load(
    prev_tids: Seq<u16>,
    prev_ticks: Seq<u64>,
    compare: bool,
    delta_ms: u32,
    tpm: u64,
    tid: u16,
    ticks: u64,
) -> Option<u32> {
    if !compare {
        Some(0)
    } else {
        match first_index_of(prev_tids, tid) {
            None => Some(0),
            Some(j) => {
                let dt: nat = if ticks >= prev_ticks[j] {
                    (ticks - prev_ticks[j]) as nat
                } else {
                    0
                };
                let interval: nat = delta_ms as nat * tpm as nat;
                if interval > u64::MAX {
                    None
                } else if interval == 0 {
                    Some(0)
                } else if dt * 100 > u64::MAX {
                    None
                } else {
                    Some(((dt * 100) / interval) as u32)
                }
            },
        }
    }
}

/// Why a sample could not be taken.
pub enum SysmonError {
    /// The report is shorter than its 48-byte header.
    BadReply,
    /// A share of CPU time does not fit the 64-bit arithmetic it is worked out in.
    Overflow,
}

/// One sample of `sysmon`, ready to print.
pub struct SysmonSample {
    pub uptime_ms: u32,
    pub num_cpus: u32,
    pub ipc_port_full: u32,
    pub irq_total: u32,
    pub steal_attempts: u32,
    pub steal_ok: u32,
    /// Memory in use and in all, in MiB of 4 KiB pages.
    pub used_mb: u64,
    pub total_mb: u64,
    /// Memory in use, in percent of all memory.
    pub mem_pct: u64,
    /// Run queue depth of each CPU that the report holds.
    pub queues: Vec<u32>,
    /// The tasklets, ranked by share of CPU time.
    pub entries: Vec<SysmonEntry>,
    /// How many of the ranked tasklets are shown.
    pub shown: usize,
}

/// How many tasklet records a report of `len` bytes holds.
pub open spec fn sysmon_tasklet_count(buf: Seq<u8>, len: int) -> int {
    let ncpu = records_that_fit(len, 48, 16, le_at(buf, 12, 4) as int);
    let base = 48 + 16 * ncpu;
    let n = records_that_fit(len, base, 32, le_at(buf, 16, 4) as int);
    if n < 24 {
        n
    } else {
        24
    }
}

/// Offset of tasklet record `k` in a report of `len` bytes.
pub open spec fn sysmon_tasklet_offset(buf: Seq<u8>, len: int, k: int) -> int {
    48 + 16 * records_that_fit(len, 48, 16, le_at(buf, 12, 4) as int) + 32 * k
}

/// Whether the sample compares with the previous one: not the first, and
/// time has passed.
pub open spec fn sysmon_compares(hist: SysmonHistory, iter: u32, buf: Seq<u8>) -> bool {
    iter > 0 && sysmon_delta(hist, iter, buf) > 0
}

/// Milliseconds since the previous sample (zero on the first).
pub open spec fn sysmon_delta(hist: SysmonHistory, iter: u32, buf: Seq<u8>) -> u32 {
    if iter > 0 && le_at(buf, 0, 4) >= hist.uptime_ms {
        (le_at(buf, 0, 4) - hist.uptime_ms) as u32
    } else {
        0
    }
}

/// The load of tasklet record `k`, or `None` on overflow.
pub open spec fn sysmon_load(hist: SysmonHistory, iter: u32, buf: Seq<u8>, len: int, k: int) -> Option<u32> {
    let off = sysmon_tasklet_offset(buf, len, k);
    tasklet_load(
        hist.tids@,
        hist.ticks@,
        sysmon_compares(hist, iter, buf),
        sysmon_delta(hist, iter, buf),
        le_at(buf, 40, 8) as u64,
        le_at(buf, off, 2) as u16,
        le_at(buf, off + 4, 8) as u64,
    )
}

/// Tasklet record `k` with the given share.
pub open spec fn sysmon_entry_at(buf: Seq<u8>, off: int, pct: u32) -> SysmonEntry {
    SysmonEntry {
        tid: le_at(buf, off, 2) as u16,
        pages: le_at(buf, off + 2, 2) as u16,
        ticks: le_at(buf, off + 4, 8) as u64,
        yields: le_at(buf, off + 12, 4) as u32,
        preempts: le_at(buf, off + 16, 4) as u32,
        state: buf[off + 20],
        cpu: buf[off + 21],
        pri: buf[off + 22],
        pinned: buf[off + 23],
        starve_ms: le_at(buf, off + 24, 8) as u64,
        cpu_pct: pct,
    }
}

/// Whether some tasklet's share overflows.
pub open spec fn sysmon_overflows(hist: SysmonHistory, iter: u32, buf: Seq<u8>, len: int) -> bool {
    exists|k: int|
        0 <= k < sysmon_tasklet_count(buf, len) && #[trigger] sysmon_load(hist, iter, buf, len, k)
            is None
}

/// The tasklets of a report in report order, with their shares.
pub open spec fn sysmon_entries(hist: SysmonHistory, iter: u32, buf: Seq<u8>, len: int) -> Seq<SysmonEntry> {
    Seq::new(
        sysmon_tasklet_count(buf, len) as nat,
        |k: int|
            sysmon_entry_at(
                buf,
                sysmon_tasklet_offset(buf, len, k),
                sysmon_load(hist, iter, buf, len, k).unwrap(),
            ),
    )
}

/// Whether `r` is the sample and `h` the history that the report of `len`
/// bytes in `buf` gives after the history `hist`.
pub open spec fn sysmon_sample_of(
    hist: SysmonHistory,
    iter: u32,
    buf: Seq<u8>,
    len: int,
    r: SysmonSample,
    h: SysmonHistory,
) -> bool {
    let total = le_at(buf, 4, 4);
    let free = le_at(buf, 8, 4);
    let used: nat = if free <= total {
        (total - free) as nat
    } else {
        0
    };
    let ncpu = records_that_fit(len, 48, 16, le_at(buf, 12, 4) as int);
    let ranked = sort_by_pct(sysmon_entries(hist, iter, buf, len));
    &&& r.uptime_ms == le_at(buf, 0, 4)
    &&& r.num_cpus == le_at(buf, 12, 4)
    &&& r.ipc_port_full == le_at(buf, 20, 4)
    &&& r.irq_total == le_at(buf, 28, 4)
    &&& r.steal_attempts == le_at(buf, 32, 4)
    &&& r.steal_ok == le_at(buf, 36, 4)
    &&& r.total_mb == pages_to_mb(total)
    &&& r.used_mb == pages_to_mb(used)
    &&& r.mem_pct == (if total > 0 {
        used * 100 / total
    } else {
        0
    })
    &&& r.queues@.len() == ncpu
    &&& forall|k: int| 0 <= k < ncpu ==> #[trigger] r.queues@[k] == le_at(buf, 48 + 16 * k + 8, 4)
    &&& r.entries@ == ranked
    &&& r.shown == (if ranked.len() < 12 {
        ranked.len()
    } else {
        12
    })
    &&& h.uptime_ms == r.uptime_ms
    &&& h.tids@ == ranked.map_values(|e: SysmonEntry| e.tid)
    &&& h.ticks@ == ranked.map_values(|e: SysmonEntry| e.ticks)
}

/// The share of CPU time of one tasklet against the previous sample.
pub fn tasklet_cpu_pct(
    hist: &SysmonHistory,
    compare: bool,
    delta_ms: u32,
    tpm: u64,
    tid: u16,
    ticks: u64,
) -> (r: Option<u32>)
    requires
        hist.well_formed(),
    ensures
        r == tasklet_load(hist.tids@, hist.ticks@, compare, delta_ms, tpm, tid, ticks),
{
    if !compare {
        return Some(0);
    }
    let n = hist.tids.len();
    let mut j: usize = 0;
    while j < n
        invariant
            n == hist.tids@.len(),
            hist.well_formed(),
            compare,
            0 <= j <= n,
            forall|k: int| 0 <= k < j ==> hist.tids@[k] != tid,
        decreases n - j,
    {
        if hist.tids[j] == tid {
            proof {
                lemma_first_index_at(hist.tids@, tid, j as int);
            }
            let dt = ticks.saturating_sub(hist.ticks[j]);
            let d64 = delta_ms as u64;
            assert(d64 * tpm == delta_ms as nat * tpm as nat);
            let interval = match d64.checked_mul(tpm) {
                Some(v) => v,
                None => return None,
            };
            if interval == 0 {
                return Some(0);
            }
            let scaled = match dt.checked_mul(100) {
                Some(v) => v,
                None => return None,
            };
            return Some(#[verifier::truncate] ((scaled / interval) as u32));
        }
        j = j + 1;
    }
    proof {
        lemma_first_index_at(hist.tids@, tid, j as int);
    }
    Some(0)
}

/// Takes one sample from the monitor's report of `len` bytes in `buf`,
/// against the history of the previous samples; `iter` counts the samples
/// taken before. Gives the sample and the history for the next one.
pub fn sysmon_step(hist: &SysmonHistory, iter: u32, buf: &[u8], len: usize) -> (r: Result<
    (SysmonSample, SysmonHistory),
    SysmonError,
>)
    requires
        hist.well_formed(),
        len <= buf@.len(),
    ensures
        match r {
            Ok((sample, next)) => len >= 48 && !sysmon_overflows(*hist, iter, buf@, len as int)
                && next.well_formed() && sysmon_sample_of(*hist, iter, buf@, len as int, sample, next),
            Err(SysmonError::BadReply) => len < 48,
            Err(SysmonError::Overflow) => len >= 48 && sysmon_overflows(*hist, iter, buf@, len as int),
        },
{
    if len < 48 {
        return Err(SysmonError::BadReply);
    }
    let uptime_ms = le_u32_at(buf, 0);
    let total_pages = le_u32_at(buf, 4);
    let free_pages = le_u32_at(buf, 8);
    let num_cpus = le_u32_at(buf, 12);
    let num_tasklets = le_u32_at(buf, 16);
    let ipc_port_full = le_u32_at(buf, 20);
    let irq_total = le_u32_at(buf, 28);
    let steal_att = le_u32_at(buf, 32);
    let steal_ok = le_u32_at(buf, 36);
    let tpm = le_u64_at(buf, 40);

    let used_pages = total_pages.saturating_sub(free_pages);
    let total_mb = mb_of_pages(total_pages);
    let used_mb = mb_of_pages(used_pages);
    let mem_pct: u64 = if total_pages > 0 {
        (used_pages as u64 * 100) / total_pages as u64
    } else {
        0
    };

    let delta_ms: u32 = if iter > 0 {
        uptime_ms.saturating_sub(hist.uptime_ms)
    } else {
        0
    };
    let compare = iter > 0 && delta_ms > 0;
    assert(delta_ms == sysmon_delta(*hist, iter, buf@));
    assert(compare == sysmon_compares(*hist, iter, buf@));

    let ghost ncpu = records_that_fit(len as int, 48, 16, num_cpus as int);
    let mut queues: Vec<u32> = Vec::new();
    let mut off: usize = 48;
    let mut c: u32 = 0;
    while c < num_cpus && len - off >= 16
        invariant
            len <= buf@.len(),
            num_cpus == le_at(buf@, 12, 4),
            48 <= len,
            0 <= c <= num_cpus,
            off == 48 + 16 * c,
            off <= len,
            queues@.len() == c,
            forall|k: int| 0 <= k < c ==> #[trigger] queues@[k] == le_at(buf@, 48 + 16 * k + 8, 4),
        decreases num_cpus - c,
    {
        let q = le_u32_at(buf, off + 8);
        queues.push(q);
        off = off + 16;
        c = c + 1;
    }
    assert(c == ncpu);

    let ghost count = sysmon_tasklet_count(buf@, len as int);
    let ghost base = off as int;
    let mut entries: Vec<SysmonEntry> = Vec::new();
    let mut t: u32 = 0;
    while t < num_tasklets && len - off >= 32 && entries.len() < MAX_TASKLETS
        invariant
            len <= buf@.len(),
            hist.well_formed(),
            ncpu == records_that_fit(len as int, 48, 16, le_at(buf@, 12, 4) as int),
            count == sysmon_tasklet_count(buf@, len as int),
            base == 48 + 16 * ncpu,
            base <= len,
            0 <= t <= num_tasklets,
            entries@.len() == t,
            t <= MAX_TASKLETS,
            off == base + 32 * t,
            off <= len,
            num_tasklets == le_at(buf@, 16, 4),
            delta_ms == sysmon_delta(*hist, iter, buf@),
            compare == sysmon_compares(*hist, iter, buf@),
            tpm == le_at(buf@, 40, 8),
            forall|k: int|
                0 <= k < t ==> #[trigger] sysmon_load(*hist, iter, buf@, len as int, k) is Some,
            forall|k: int|
                0 <= k < t ==> #[trigger] entries@[k] == sysmon_entry_at(
                    buf@,
                    base + 32 * k,
                    sysmon_load(*hist, iter, buf@, len as int, k).unwrap(),
                ),
        decreases num_tasklets - t,
    {
        let tid = le_u16_at(buf, off);
        let ticks = le_u64_at(buf, off + 4);
        assert(sysmon_tasklet_offset(buf@, len as int, t as int) == off);
        let pct = match tasklet_cpu_pct(hist, compare, delta_ms, tpm, tid, ticks) {
            Some(p) => p,
            None => {
                assert(t < count);
                assert(sysmon_load(*hist, iter, buf@, len as int, t as int) is None);
                return Err(SysmonError::Overflow);
            },
        };
        let e = SysmonEntry {
            tid,
            pages: le_u16_at(buf, off + 2),
            ticks,
            yields: le_u32_at(buf, off + 12),
            preempts: le_u32_at(buf, off + 16),
            state: buf[off + 20],
            cpu: buf[off + 21],
            pri: buf[off + 22],
            pinned: buf[off + 23],
            starve_ms: le_u64_at(buf, off + 24),
            cpu_pct: pct,
        };
        entries.push(e);
        off = off + 32;
        t = t + 1;
    }
    assert(t == count);
    assert(!sysmon_overflows(*hist, iter, buf@, len as int));
    assert(entries@ =~= sysmon_entries(*hist, iter, buf@, len as int));
    sort_entries(&mut entries);
    let ghost ranked = entries@;
    proof {
        law_sort_is_sorted(sysmon_entries(*hist, iter, buf@, len as int));
    }
    let n = entries.len();
    let mut tids: Vec<u16> = Vec::new();
    let mut ticks: Vec<u64> = Vec::new();
    let mut i: usize = 0;
    while i < n
        invariant
            n == ranked.len(),
            entries@ == ranked,
            n <= MAX_TASKLETS,
            0 <= i <= n,
            tids@ == ranked.take(i as int).map_values(|e: SysmonEntry| e.tid),
            ticks@ == ranked.take(i as int).map_values(|e: SysmonEntry| e.ticks),
        decreases n - i,
    {
        tids.push(entries[i].tid);
        ticks.push(entries[i].ticks);
        assert(ranked.take(i + 1) =~= ranked.take(i as int).push(ranked[i as int]));
        i = i + 1;
    }
    assert(ranked.take(n as int) =~= ranked);
    let shown = if n < SHOWN_TASKLETS {
        n
    } else {
        SHOWN_TASKLETS
    };
    let sample = SysmonSample {
        uptime_ms,
        num_cpus,
        ipc_port_full,
        irq_total,
        steal_attempts: steal_att,
        steal_ok,
        used_mb,
        total_mb,
        mem_pct,
        queues,
        entries,
        shown,
    };
    let next = SysmonHistory { uptime_ms, tids, ticks };
    Ok((sample, next))
}


/// Law: the first sample compares with nothing, so it never overflows and
/// every tasklet in it shows 0 %.
pub proof fn law_first_sample_idle(hist: SysmonHistory, buf: Seq<u8>, len: int)
    ensures
        !sysmon_overflows(hist, 0, buf, len),
        forall|k: int|
            0 <= k < sysmon_tasklet_count(buf, len) ==> (#[trigger] sysmon_entries(
                hist,
                0,
                buf,
                len,
            )[k]).cpu_pct == 0,
{
}

/// Law: a tasklet that the previous sample did not hold shows 0 %, and so
/// does every tasklet when no time has passed.
pub proof fn law_unseen_tasklet_idle(
    prev_tids: Seq<u16>,
    prev_ticks: Seq<u64>,
    compare: bool,
    delta_ms: u32,
    tpm: u64,
    tid: u16,
    ticks: u64,
)
    ensures
        (forall|l: int| 0 <= l < prev_tids.len() ==> prev_tids[l] != tid) ==> tasklet_load(
            prev_tids,
            prev_ticks,
            compare,
            delta_ms,
            tpm,
            tid,
            ticks,
        ) == Some(0u32),
        delta_ms == 0 ==> tasklet_load(prev_tids, prev_ticks, compare, delta_ms, tpm, tid, ticks)
            == Some(0u32),
{
    if forall|l: int| 0 <= l < prev_tids.len() ==> prev_tids[l] != tid {
        lemma_first_index_at(prev_tids, tid, prev_tids.len() as int);
    }
}

/// Law: a tasklet seen in the previous sample runs the share of the
/// interval's ticks that its own ticks grew by, in whole percent: its ticks
/// are compared with those of the first previous entry of its id (an
/// older count than the new one counts as no growth), and the interval has
/// `delta_ms` times `tpm` ticks.
pub proof fn law_seen_tasklet_share(
    prev_tids: Seq<u16>,
    prev_ticks: Seq<u64>,
    delta_ms: u32,
    tpm: u64,
    tid: u16,
    ticks: u64,
    j: int,
)
    requires
        0 <= j < prev_tids.len(),
        prev_tids.len() == prev_ticks.len(),
        prev_tids[j] == tid,
        forall|l: int| 0 <= l < j ==> prev_tids[l] != tid,
        0 < delta_ms as nat * tpm as nat <= u64::MAX,
        (if ticks >= prev_ticks[j] {
            ticks - prev_ticks[j]
        } else {
            0
        }) * 100 <= u64::MAX,
    ensures
        ({
            let grown: int = if ticks >= prev_ticks[j] {
                ticks - prev_ticks[j]
            } else {
                0
            };
            let interval: int = delta_ms as int * tpm as int;
            &&& tasklet_load(prev_tids, prev_ticks, true, delta_ms, tpm, tid, ticks) is Some
            &&& tasklet_load(prev_tids, prev_ticks, true, delta_ms, tpm, tid, ticks).unwrap() as int
                == (grown * 100 / interval) % 0x1_0000_0000
        }),
{
    lemma_first_index_at(prev_tids, tid, j);
    let grown: int = if ticks >= prev_ticks[j] {
        ticks - prev_ticks[j]
    } else {
        0
    };
    let interval: int = delta_ms as int * tpm as int;
    assert(grown * 100 / interval >= 0) by (nonlinear_arith)
        requires
            grown >= 0,
            interval > 0,
    ;
    let q = (grown * 100 / interval) as u64;
    assert((q as u32) as int == q as int % 0x1_0000_0000) by (bit_vector);
}

/// Whether `e` holds, field by field, the 32-byte tasklet record at `off`:
/// id and pages as little-endian `u16` at 0 and 2, ticks as a little-endian
/// `u64` at 4, yields and preemptions as little-endian `u32` at 12 and 16,
/// state, CPU, priority and pin bytes at 20 to 23, and starvation time as a
/// little-endian `u64` at 24.
pub open spec fn holds_record(e: SysmonEntry, buf: Seq<u8>, off: int) -> bool {
    &&& e.tid as nat == le_value(buf.subrange(off, off + 2))
    &&& e.pages as nat == le_value(buf.subrange(off + 2, off + 4))
    &&& e.ticks as nat == le_value(buf.subrange(off + 4, off + 12))
    &&& e.yields as nat == le_value(buf.subrange(off + 12, off + 16))
    &&& e.preempts as nat == le_value(buf.subrange(off + 16, off + 20))
    &&& e.state == buf[off + 20]
    &&& e.cpu == buf[off + 21]
    &&& e.pri == buf[off + 22]
    &&& e.pinned == buf[off + 23]
    &&& e.starve_ms as nat == le_value(buf.subrange(off + 24, off + 32))
}

/// Where tasklet record `k` starts in a report with `ncpu` CPU entries: after
/// the 48-byte header and 16 bytes per CPU, 32 bytes per record.
pub open spec fn record_start(ncpu: int, k: int) -> int {
    48 + 16 * ncpu + 32 * k
}

/// Law: every tasklet a sample ranks comes from one of the report's
/// tasklet records, inside the report after the 16-byte CPU entries: one of
/// the first 24, and one the header announces; and it holds that record's
/// fields, its CPU from byte 21 and its priority from byte 22.
pub proof fn law_sysmon_record_layout(
    hist: SysmonHistory,
    iter: u32,
    buf: Seq<u8>,
    len: int,
    r: SysmonSample,
    h: SysmonHistory,
    i: int,
)
    requires
        48 <= len <= buf.len(),
        !sysmon_overflows(hist, iter, buf, len),
        sysmon_sample_of(hist, iter, buf, len, r, h),
        0 <= i < r.entries@.len(),
    ensures
        exists|k: int|
            0 <= k < 24 && k < le_value(buf.subrange(16, 20)) && record_start(r.queues@.len() as int, k) + 32
                <= len && holds_record(r.entries@[i], buf, #[trigger] record_start(r.queues@.len() as int, k)),
{
    broadcast use vstd::seq_lib::group_to_multiset_ensures;

    let es = sysmon_entries(hist, iter, buf, len);
    let ranked = sort_by_pct(es);
    law_sort_is_permutation(es);
    let x = r.entries@[i];
    assert(ranked.contains(x));
    assert(ranked.to_multiset().count(x) > 0);
    assert(es.to_multiset().count(x) > 0);
    assert(es.contains(x));
    let k = choose|k: int| 0 <= k < es.len() && es[k] == x;
    let ncpu = records_that_fit(len, 48, 16, le_at(buf, 12, 4) as int);
    let base = 48 + 16 * ncpu;
    law_records_inside(len, 48, 16, le_at(buf, 12, 4) as int);
    law_records_inside(len, base, 32, le_at(buf, 16, 4) as int);
    let off = base + 32 * k;
    assert(sysmon_tasklet_offset(buf, len, k) == off);
    assert(off + 32 <= len);
    lemma_le_value_bound(buf.subrange(off, off + 2));
    lemma_le_value_bound(buf.subrange(off + 2, off + 4));
    lemma_le_value_bound(buf.subrange(off + 4, off + 12));
    lemma_le_value_bound(buf.subrange(off + 12, off + 16));
    lemma_le_value_bound(buf.subrange(off + 16, off + 20));
    lemma_le_value_bound(buf.subrange(off + 24, off + 32));
    assert(holds_record(x, buf, off));
    assert(record_start(r.queues@.len() as int, k) == off);
}

/// Law: a sample's header figures are the report's little-endian `u32`
/// fields at 0 (uptime), 12 (CPUs), 20 (full IPC ports), 28 (interrupts), 32
/// and 36 (steal attempts and successes); memory use is the whole percent
/// of used pages (all minus free, none if more are free) among all pages,
/// zero without pages; one run queue depth per CPU entry that fits, from
/// byte 8 of its 16 bytes; at most twelve tasklets are shown; and the next
/// history holds the ranked tasklets' ids and ticks in rank order.
pub proof fn law_sysmon_header(
    hist: SysmonHistory,
    iter: u32,
    buf: Seq<u8>,
    len: int,
    r: SysmonSample,
    h: SysmonHistory,
)
    requires
        48 <= len <= buf.len(),
        sysmon_sample_of(hist, iter, buf, len, r, h),
    ensures
        r.uptime_ms as nat == le_value(buf.subrange(0, 4)),
        r.num_cpus as nat == le_value(buf.subrange(12, 16)),
        r.ipc_port_full as nat == le_value(buf.subrange(20, 24)),
        r.irq_total as nat == le_value(buf.subrange(28, 32)),
        r.steal_attempts as nat == le_value(buf.subrange(32, 36)),
        r.steal_ok as nat == le_value(buf.subrange(36, 40)),
        ({
            let total = le_value(buf.subrange(4, 8)) as int;
            let free = le_value(buf.subrange(8, 12)) as int;
            let used = if free <= total {
                total - free
            } else {
                0
            };
            &&& total == 0 ==> r.mem_pct == 0
            &&& total > 0 ==> r.mem_pct * total <= used * 100 < (r.mem_pct + 1) * total
        }),
        r.queues@.len() <= le_value(buf.subrange(12, 16)),
        48 + 16 * r.queues@.len() <= len,
        r.queues@.len() < le_value(buf.subrange(12, 16)) ==> len < 48 + 16 * r.queues@.len() + 16,
        forall|k: int|
            0 <= k < r.queues@.len() ==> #[trigger] r.queues@[k] as nat == le_value(
                buf.subrange(48 + 16 * k + 8, 48 + 16 * k + 12),
            ),
        r.shown <= 12,
        r.shown <= r.entries@.len(),
        r.shown == 12 || r.shown == r.entries@.len(),
        h.tids@.len() == r.entries@.len(),
        forall|i: int| 0 <= i < r.entries@.len() ==> #[trigger] h.tids@[i] == r.entries@[i].tid,
        forall|i: int| 0 <= i < r.entries@.len() ==> #[trigger] h.ticks@[i] == r.entries@[i].ticks,
{
    let ncpu_all = le_at(buf, 12, 4) as int;
    law_records_inside(len, 48, 16, ncpu_all);
    let total = le_value(buf.subrange(4, 8)) as int;
    let free = le_value(buf.subrange(8, 12)) as int;
    let used = if free <= total {
        total - free
    } else {
        0
    };
    if total > 0 {
        let p = used * 100 / total;
        vstd::arithmetic::div_mod::lemma_fundamental_div_mod(used * 100, total);
        vstd::arithmetic::div_mod::lemma_mod_pos_bound(used * 100, total);
        assert(p * total <= used * 100 < (p + 1) * total) by (nonlinear_arith)
            requires
                used * 100 == total * p + (used * 100) % total,
                0 <= (used * 100) % total < total,
        ;
    }
    lemma_sort_len(sysmon_entries(hist, iter, buf, len));
}

/// The state column of `sysmon` for a tasklet state code.
pub fn tasklet_state_label(state: u8) -> (r: &'static str)
    ensures
        state == 1 ==> r@ == " ready    "@,
        state == 2 ==> r@ == " running  "@,
        state == 3 ==> r@ == " deferred "@,
        state == 0 || state > 3 ==> r@ == " ???      "@,
{
    if state == 1 {
        " ready    "
    } else if state == 2 {
        " running  "
    } else if state == 3 {
        " deferred "
    } else {
        " ???      "
    }
}

/// The pin column of `sysmon`: `Y` for a tasklet pinned to its CPU.
pub fn pinned_label(pinned: u8) -> (r: &'static str)
    ensures
        pinned != 0 ==> r@ == "  Y "@,
        pinned == 0 ==> r@ == "  - "@,
{
    if pinned != 0 {
        "  Y "
    } else {
        "  - "
    }
}

} // verus!
