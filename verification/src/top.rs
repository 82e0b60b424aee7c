//! The monitor's `top` report: a header, the busy ticks of each CPU and one
//! record per tasklet.

use vstd::prelude::*;
use crate::monitor::{mb_of_pages, pages_to_mb};
use crate::wire::{
    le_at, le_bytes, le_u16_at, le_u32_at, le_u64_at, le_value, lemma_le_roundtrip, lemma_le_value_bound,
    law_records_inside, records_that_fit, REPLY_OK,
};

verus! {

/// One tasklet record of the `top` report.
pub struct TopTasklet {
    pub tid: u16,
    pub pages: u16,
    pub ticks: u64,
    pub yields: u32,
    pub preempts: u32,
    pub state: u8,
    pub cpu: u8,
    pub pri: u8,
}

/// The `top` report, read.
pub struct TopReport {
    pub num_tasklets: u32,
    pub total_pages: u32,
    pub free_pages: u32,
    pub uptime_ms: u32,
    pub num_cpus: u32,
    /// Memory in use, in MiB of 4 KiB pages.
    pub used_mb: u64,
    /// All memory, in MiB of 4 KiB pages.
    pub total_mb: u64,
    /// Busy ticks of each CPU that the reply holds.
    pub cpu_ticks: Vec<u64>,
    /// The tasklet records that the reply holds.
    pub tasklets: Vec<TopTasklet>,
}

/// The tasklet record of the `top` report at `off`.
pub open spec fn top_tasklet_at(buf: Seq<u8>, off: int) -> TopTasklet {
    TopTasklet {
        tid: le_at(buf, off, 2) as u16,
        pages: le_at(buf, off + 2, 2) as u16,
        ticks: le_at(buf, off + 4, 8) as u64,
        yields: le_at(buf, off + 12, 4) as u32,
        preempts: le_at(buf, off + 16, 4) as u32,
        state: buf[off + 20],
        cpu: buf[off + 21],
        pri: buf[off + 22],
    }
}

/// Whether `r` is what the `top` reply of `len` bytes in `buf` says.
pub open spec fn top_report_of(buf: Seq<u8>, len: int, r: TopReport) -> bool {
    let ncpu = records_that_fit(len, 32, 8, le_at(buf, 16, 4) as int);
    let base = 32 + 8 * ncpu;
    let ntask = records_that_fit(len, base, 24, le_at(buf, 0, 4) as int);
    &&& r.num_tasklets == le_at(buf, 0, 4)
    &&& r.total_pages == le_at(buf, 4, 4)
    &&& r.free_pages == le_at(buf, 8, 4)
    &&& r.uptime_ms == le_at(buf, 12, 4)
    &&& r.num_cpus == le_at(buf, 16, 4)
    &&& r.total_mb == pages_to_mb(r.total_pages as nat)
    &&& r.used_mb == pages_to_mb(
        if r.free_pages <= r.total_pages {
            (r.total_pages - r.free_pages) as nat
        } else {
            0
        },
    )
    &&& r.cpu_ticks@.len() == ncpu
    &&& forall|k: int| 0 <= k < ncpu ==> #[trigger] r.cpu_ticks@[k] == le_at(buf, 32 + 8 * k, 8)
    &&& r.tasklets@.len() == ntask
    &&& forall|k: int|
        0 <= k < ntask ==> #[trigger] r.tasklets@[k] == top_tasklet_at(buf, base + 24 * k)
}

/// Reads the monitor's reply to a `top` request: `None` unless it is a
/// successful reply of at least 32 bytes.
pub fn parse_top_reply(msg_type: u16, buf: &[u8], len: usize) -> (r: Option<TopReport>)
    requires
        len <= buf@.len(),
    ensures
        match r {
            Some(rep) => msg_type == REPLY_OK && len >= 32 && top_report_of(buf@, len as int, rep),
            None => msg_type != REPLY_OK || len < 32,
        },
{
    if msg_type != REPLY_OK || len < 32 {
        return None;
    }
    let num_tasklets = le_u32_at(buf, 0);
    let total_pages = le_u32_at(buf, 4);
    let free_pages = le_u32_at(buf, 8);
    let uptime_ms = le_u32_at(buf, 12);
    let num_cpus = le_u32_at(buf, 16);
    let used_pages = total_pages.saturating_sub(free_pages);
    let total_mb = mb_of_pages(total_pages);
    let used_mb = mb_of_pages(used_pages);

    let ghost ncpu = records_that_fit(len as int, 32, 8, num_cpus as int);
    let mut cpu_ticks: Vec<u64> = Vec::new();
    let mut off: usize = 32;
    let mut c: u32 = 0;
    while c < num_cpus && len - off >= 8
        invariant
            len <= buf@.len(),
            32 <= len,
            0 <= c <= num_cpus,
            off == 32 + 8 * c,
            off <= len,
            cpu_ticks@.len() == c,
            forall|k: int| 0 <= k < c ==> #[trigger] cpu_ticks@[k] == le_at(buf@, 32 + 8 * k, 8),
        decreases num_cpus - c,
    {
        let t = le_u64_at(buf, off);
        cpu_ticks.push(t);
        off = off + 8;
        c = c + 1;
    }
    assert(c == ncpu);
    let ghost base = off as int;
    let ghost ntask = records_that_fit(len as int, base, 24, num_tasklets as int);
    let mut tasklets: Vec<TopTasklet> = Vec::new();
    let mut t: u32 = 0;
    while t < num_tasklets && len - off >= 24
        invariant
            len <= buf@.len(),
            base <= len,
            0 <= t <= num_tasklets,
            off == base + 24 * t,
            off <= len,
            tasklets@.len() == t,
            forall|k: int|
                0 <= k < t ==> #[trigger] tasklets@[k] == top_tasklet_at(buf@, base + 24 * k),
        decreases num_tasklets - t,
    {
        let row = TopTasklet {
            tid: le_u16_at(buf, off),
            pages: le_u16_at(buf, off + 2),
            ticks: le_u64_at(buf, off + 4),
            yields: le_u32_at(buf, off + 12),
            preempts: le_u32_at(buf, off + 16),
            state: buf[off + 20],
            cpu: buf[off + 21],
            pri: buf[off + 22],
        };
        tasklets.push(row);
        off = off + 24;
        t = t + 1;
    }
    assert(t == ntask);
    Some(
        TopReport {
            num_tasklets,
            total_pages,
            free_pages,
            uptime_ms,
            num_cpus,
            used_mb,
            total_mb,
            cpu_ticks,
            tasklets,
        },
    )
}

proof fn lemma_top_record_inside(buf: Seq<u8>, len: int, r: TopReport, k: int)
    requires
        top_report_of(buf, len, r),
        len <= buf.len(),
        0 <= k < r.tasklets@.len(),
    ensures
        32 + 8 * r.cpu_ticks@.len() + 24 * k + 24 <= len,
        r.tasklets@[k] == top_tasklet_at(buf, 32 + 8 * r.cpu_ticks@.len() + 24 * k),
{
    let ncpu = records_that_fit(len, 32, 8, le_at(buf, 16, 4) as int);
    let base = 32 + 8 * ncpu;
    law_records_inside(len, 32, 8, le_at(buf, 16, 4) as int);
    law_records_inside(len, base, 24, le_at(buf, 0, 4) as int);
    assert(r.tasklets@[k] == top_tasklet_at(buf, base + 24 * k));
}

/// Law: each tasklet record of the `top` report is read from its own 24
/// bytes inside the reply, after the eight-byte CPU entries: id and pages as
/// little-endian `u16` at 0 and 2, ticks as a little-endian `u64` at 4,
/// yields and preemptions as little-endian `u32` at 12 and 16, and the
/// state, CPU and priority bytes at 20, 21 and 22.
pub proof fn law_top_record_layout(buf: Seq<u8>, len: int, r: TopReport, k: int)
    requires
        top_report_of(buf, len, r),
        len <= buf.len(),
        0 <= k < r.tasklets@.len(),
    ensures
        ({
            let off = 32 + 8 * r.cpu_ticks@.len() + 24 * k;
            let t = r.tasklets@[k];
            &&& off + 24 <= len
            &&& t.tid as nat == le_value(buf.subrange(off, off + 2))
            &&& t.pages as nat == le_value(buf.subrange(off + 2, off + 4))
            &&& t.ticks as nat == le_value(buf.subrange(off + 4, off + 12))
            &&& t.yields as nat == le_value(buf.subrange(off + 12, off + 16))
            &&& t.preempts as nat == le_value(buf.subrange(off + 16, off + 20))
            &&& t.state == buf[off + 20]
            &&& t.cpu == buf[off + 21]
            &&& t.pri == buf[off + 22]
        }),
{
    lemma_top_record_inside(buf, len, r, k);
    let off = 32 + 8 * r.cpu_ticks@.len() + 24 * k;
    lemma_le_value_bound(buf.subrange(off, off + 2));
    lemma_le_value_bound(buf.subrange(off + 2, off + 4));
    lemma_le_value_bound(buf.subrange(off + 4, off + 12));
    lemma_le_value_bound(buf.subrange(off + 12, off + 16));
    lemma_le_value_bound(buf.subrange(off + 16, off + 20));
}

/// Law: the `top` header is five little-endian `u32` fields (tasklets,
/// pages, free pages, uptime, CPUs); memory is counted in whole MiB of
/// 4 KiB pages, used memory being all pages minus free ones (none if more
/// are free); one busy-tick count per eight bytes after the 32-byte header,
/// as many as the header announces and the reply holds; and as many tasklet
/// records after them as are announced and fit.
pub proof fn law_top_header(buf: Seq<u8>, len: int, r: TopReport)
    requires
        32 <= len <= buf.len(),
        top_report_of(buf, len, r),
    ensures
        r.num_tasklets as nat == le_value(buf.subrange(0, 4)),
        r.total_pages as nat == le_value(buf.subrange(4, 8)),
        r.free_pages as nat == le_value(buf.subrange(8, 12)),
        r.uptime_ms as nat == le_value(buf.subrange(12, 16)),
        r.num_cpus as nat == le_value(buf.subrange(16, 20)),
        r.total_mb * 256 <= r.total_pages < (r.total_mb + 1) * 256,
        r.free_pages <= r.total_pages ==> r.used_mb * 256 <= r.total_pages - r.free_pages < (
        r.used_mb + 1) * 256,
        r.free_pages > r.total_pages ==> r.used_mb == 0,
        r.cpu_ticks@.len() <= r.num_cpus,
        32 + 8 * r.cpu_ticks@.len() <= len,
        r.cpu_ticks@.len() < r.num_cpus ==> len < 32 + 8 * r.cpu_ticks@.len() + 8,
        forall|k: int|
            0 <= k < r.cpu_ticks@.len() ==> #[trigger] r.cpu_ticks@[k] as nat == le_value(
                buf.subrange(32 + 8 * k, 40 + 8 * k),
            ),
        r.tasklets@.len() <= r.num_tasklets,
        r.tasklets@.len() < r.num_tasklets ==> len < 32 + 8 * r.cpu_ticks@.len() + 24
            * r.tasklets@.len() + 24,
{
    law_records_inside(len, 32, 8, le_at(buf, 16, 4) as int);
    let base = 32 + 8 * r.cpu_ticks@.len() as int;
    law_records_inside(len, base, 24, le_at(buf, 0, 4) as int);
    lemma_le_value_bound(buf.subrange(4, 8));
    assert forall|k: int| 0 <= k < r.cpu_ticks@.len() implies #[trigger] r.cpu_ticks@[k] as nat
        == le_value(buf.subrange(32 + 8 * k, 40 + 8 * k)) by {
        lemma_le_value_bound(buf.subrange(32 + 8 * k, 40 + 8 * k));
    }
}

/// Law: whatever `u64` the eight tick bytes of a tasklet record encode,
/// least significant first, is the tick count `top` reads.
pub proof fn law_top_ticks_roundtrip(buf: Seq<u8>, len: int, r: TopReport, k: int, v: u64)
    requires
        top_report_of(buf, len, r),
        len <= buf.len(),
        0 <= k < r.tasklets@.len(),
        ({
            let off = 32 + 8 * r.cpu_ticks@.len() + 24 * k;
            buf.subrange(off + 4, off + 12) == le_bytes(v as nat, 8)
        }),
    ensures
        r.tasklets@[k].ticks == v,
{
    law_top_record_layout(buf, len, r, k);
    lemma_le_roundtrip(v as nat, 8);
    lemma_le_value_bound(seq![0u8]);
}

/// The state column of `top` for a tasklet state code.
pub fn state_name(s: u8) -> (r: &'static str)
    ensures
        s == 1 ==> r@ == "  ready    "@,
        s == 2 ==> r@ == "  running  "@,
        s == 3 ==> r@ == "  deferred "@,
        s == 0 || s > 3 ==> r@ == "  unknown  "@,
{
    if s == 1 {
        "  ready    "
    } else if s == 2 {
        "  running  "
    } else if s == 3 {
        "  deferred "
    } else {
        "  unknown  "
    }
}

/// The spaces `top` prints before a number of `digits` digits in a column
/// `width` wide: enough to right-align it, and at least one.
pub open spec fn column_padding(width: nat, digits: nat) -> nat {
    if width > digits {
        (width - digits) as nat
    } else {
        1
    }
}

/// The spaces before a right-aligned number in a table column.
pub fn col_pad(width: usize, digits: usize) -> (r: usize)
    ensures
        r as nat == column_padding(width as nat, digits as nat),
{
    if width > digits {
        width - digits
    } else {
        1
    }
}


} // verus!
