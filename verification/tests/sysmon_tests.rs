use userland::sysmon::{
    pinned_label, sort_entries, sysmon_step, tasklet_cpu_pct, tasklet_state_label, SysmonEntry,
    SysmonError, SysmonHistory,
};

fn put32(buf: &mut [u8], off: usize, v: u32) {
    buf[off..off + 4].copy_from_slice(&v.to_le_bytes());
}

fn put16(buf: &mut [u8], off: usize, v: u16) {
    buf[off..off + 2].copy_from_slice(&v.to_le_bytes());
}

fn put64(buf: &mut [u8], off: usize, v: u64) {
    buf[off..off + 8].copy_from_slice(&v.to_le_bytes());
}

/// A report with two CPUs and the given tasklets as (tid, ticks).
fn report(uptime_ms: u32, tpm: u64, tasklets: &[(u16, u64)]) -> (Vec<u8>, usize) {
    let mut buf = vec![0u8; 2048];
    put32(&mut buf, 0, uptime_ms);
    put32(&mut buf, 4, 1000);
    put32(&mut buf, 8, 250);
    put32(&mut buf, 12, 2);
    put32(&mut buf, 16, tasklets.len() as u32);
    put32(&mut buf, 20, 3);
    put32(&mut buf, 28, 77);
    put32(&mut buf, 32, 10);
    put32(&mut buf, 36, 8);
    put64(&mut buf, 40, tpm);
    put32(&mut buf, 48 + 8, 4);
    put32(&mut buf, 64 + 8, 1);
    let mut off = 80;
    for &(tid, ticks) in tasklets {
        put16(&mut buf, off, tid);
        put16(&mut buf, off + 2, 3);
        put64(&mut buf, off + 4, ticks);
        buf[off + 20] = 2;
        buf[off + 23] = 1;
        put64(&mut buf, off + 24, 5);
        off += 32;
    }
    (buf, off)
}

fn entry(tid: u16, cpu_pct: u32) -> SysmonEntry {
    SysmonEntry {
        tid,
        pages: 0,
        ticks: 0,
        yields: 0,
        preempts: 0,
        state: 0,
        cpu: 0,
        pri: 0,
        pinned: 0,
        starve_ms: 0,
        cpu_pct,
    }
}

#[test]
fn first_sample_shows_everything_idle() {
    let hist = SysmonHistory::new();
    let (buf, len) = report(4000, 1, &[(1, 100), (2, 500), (3, 0)]);
    let (sample, next) = match sysmon_step(&hist, 0, &buf, len) {
        Ok(v) => v,
        Err(_) => panic!("sample refused"),
    };
    assert_eq!(sample.uptime_ms, 4000);
    assert_eq!(sample.num_cpus, 2);
    assert_eq!((sample.ipc_port_full, sample.irq_total, sample.steal_attempts, sample.steal_ok), (3, 77, 10, 8));
    assert_eq!((sample.total_mb, sample.used_mb, sample.mem_pct), (3, 2, 75));
    assert_eq!(sample.queues, vec![4, 1]);
    let tids: Vec<u16> = sample.entries.iter().map(|e| e.tid).collect();
    assert_eq!(tids, vec![1, 2, 3]);
    assert!(sample.entries.iter().all(|e| e.cpu_pct == 0));
    assert_eq!(sample.shown, 3);
    assert_eq!(sample.entries[0].pinned, 1);
    assert_eq!(sample.entries[0].starve_ms, 5);
    assert_eq!(next.uptime_ms, 4000);
    assert_eq!(next.tids, vec![1, 2, 3]);
    assert_eq!(next.ticks, vec![100, 500, 0]);
}

#[test]
fn second_sample_ranks_by_share() {
    let hist = SysmonHistory::new();
    let (buf, len) = report(4000, 1, &[(1, 100), (2, 500), (3, 0)]);
    let (_, hist) = match sysmon_step(&hist, 0, &buf, len) {
        Ok(v) => v,
        Err(_) => panic!("sample refused"),
    };
    let (buf, len) = report(5000, 1, &[(1, 200), (2, 1000), (3, 0), (4, 900)]);
    let (sample, next) = match sysmon_step(&hist, 1, &buf, len) {
        Ok(v) => v,
        Err(_) => panic!("sample refused"),
    };
    let ranked: Vec<(u16, u32)> = sample.entries.iter().map(|e| (e.tid, e.cpu_pct)).collect();
    assert_eq!(ranked, vec![(2, 50), (1, 10), (3, 0), (4, 0)]);
    assert_eq!(next.tids, vec![2, 1, 3, 4]);
    assert_eq!(next.ticks, vec![1000, 200, 0, 900]);
    assert_eq!(next.uptime_ms, 5000);
}

#[test]
fn no_time_passed_means_no_share() {
    let hist = SysmonHistory { uptime_ms: 5000, tids: vec![1], ticks: vec![0] };
    let (buf, len) = report(5000, 1, &[(1, 999)]);
    let (sample, _) = match sysmon_step(&hist, 3, &buf, len) {
        Ok(v) => v,
        Err(_) => panic!("sample refused"),
    };
    assert_eq!(sample.entries[0].cpu_pct, 0);
}

#[test]
fn short_report_is_refused() {
    let hist = SysmonHistory::new();
    let (buf, _) = report(1, 1, &[]);
    assert!(matches!(sysmon_step(&hist, 0, &buf, 47), Err(SysmonError::BadReply)));
}

#[test]
fn overflowing_interval_is_reported() {
    let hist = SysmonHistory { uptime_ms: 0, tids: vec![1], ticks: vec![0] };
    let (buf, len) = report(2, u64::MAX, &[(1, 5)]);
    assert!(matches!(sysmon_step(&hist, 1, &buf, len), Err(SysmonError::Overflow)));
}

#[test]
fn at_most_twenty_four_tasklets_and_twelve_shown() {
    let hist = SysmonHistory::new();
    let many: Vec<(u16, u64)> = (0..30).map(|i| (i as u16, 0)).collect();
    let (buf, len) = report(10, 1, &many);
    let (sample, next) = match sysmon_step(&hist, 0, &buf, len) {
        Ok(v) => v,
        Err(_) => panic!("sample refused"),
    };
    assert_eq!(sample.entries.len(), 24);
    assert_eq!(sample.shown, 12);
    assert_eq!(next.tids.len(), 24);
}

#[test]
fn cpu_share_cases() {
    let hist = SysmonHistory { uptime_ms: 0, tids: vec![4, 5, 4], ticks: vec![100, 0, 7] };
    assert_eq!(tasklet_cpu_pct(&hist, true, 10, 100, 4, 600), Some(50));
    assert_eq!(tasklet_cpu_pct(&hist, true, 10, 100, 4, 50), Some(0));
    assert_eq!(tasklet_cpu_pct(&hist, true, 10, 100, 9, 600), Some(0));
    assert_eq!(tasklet_cpu_pct(&hist, false, 10, 100, 4, 600), Some(0));
    assert_eq!(tasklet_cpu_pct(&hist, true, 10, 0, 4, 600), Some(0));
    assert_eq!(tasklet_cpu_pct(&hist, true, 3, u64::MAX, 4, 600), None);
    assert_eq!(tasklet_cpu_pct(&hist, true, 1, 1, 5, u64::MAX), None);
}

#[test]
fn sort_is_stable_and_descending() {
    let mut v = vec![entry(1, 5), entry(2, 9), entry(3, 5), entry(4, 0), entry(5, 9)];
    sort_entries(&mut v);
    let order: Vec<u16> = v.iter().map(|e| e.tid).collect();
    assert_eq!(order, vec![2, 5, 1, 3, 4]);
    let mut empty: Vec<SysmonEntry> = Vec::new();
    sort_entries(&mut empty);
    assert!(empty.is_empty());
}

#[test]
fn sysmon_labels() {
    assert_eq!(tasklet_state_label(1), " ready    ");
    assert_eq!(tasklet_state_label(2), " running  ");
    assert_eq!(tasklet_state_label(3), " deferred ");
    assert_eq!(tasklet_state_label(7), " ???      ");
    assert_eq!(pinned_label(1), "  Y ");
    assert_eq!(pinned_label(0), "  - ");
}
