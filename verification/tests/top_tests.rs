use userland::monitor::mb_of_pages;
use userland::top::{col_pad, parse_top_reply, state_name};

fn put32(buf: &mut [u8], off: usize, v: u32) {
    buf[off..off + 4].copy_from_slice(&v.to_le_bytes());
}

fn put16(buf: &mut [u8], off: usize, v: u16) {
    buf[off..off + 2].copy_from_slice(&v.to_le_bytes());
}

fn put64(buf: &mut [u8], off: usize, v: u64) {
    buf[off..off + 8].copy_from_slice(&v.to_le_bytes());
}

fn report(num_tasklets: u32, num_cpus: u32) -> [u8; 2048] {
    let mut buf = [0u8; 2048];
    put32(&mut buf, 0, num_tasklets);
    put32(&mut buf, 4, 4096);
    put32(&mut buf, 8, 1024);
    put32(&mut buf, 12, 61_500);
    put32(&mut buf, 16, num_cpus);
    buf
}

#[test]
fn top_reply_decoded() {
    let mut buf = report(2, 2);
    put64(&mut buf, 32, 111);
    put64(&mut buf, 40, 222);
    let t0 = 48;
    put16(&mut buf, t0, 7);
    put16(&mut buf, t0 + 2, 12);
    put64(&mut buf, t0 + 4, 5000);
    put32(&mut buf, t0 + 12, 3);
    put32(&mut buf, t0 + 16, 4);
    buf[t0 + 20] = 2;
    buf[t0 + 21] = 1;
    buf[t0 + 22] = 5;
    let t1 = t0 + 24;
    put16(&mut buf, t1, 9);
    buf[t1 + 20] = 1;
    let len = t1 + 24;
    let rep = parse_top_reply(100, &buf, len).unwrap();
    assert_eq!(rep.num_tasklets, 2);
    assert_eq!(rep.total_pages, 4096);
    assert_eq!(rep.free_pages, 1024);
    assert_eq!(rep.uptime_ms, 61_500);
    assert_eq!(rep.num_cpus, 2);
    assert_eq!(rep.total_mb, 16);
    assert_eq!(rep.used_mb, 12);
    assert_eq!(rep.cpu_ticks, vec![111, 222]);
    assert_eq!(rep.tasklets.len(), 2);
    let a = &rep.tasklets[0];
    assert_eq!((a.tid, a.pages, a.ticks, a.yields, a.preempts, a.state, a.cpu, a.pri), (7, 12, 5000, 3, 4, 2, 1, 5));
    assert_eq!((rep.tasklets[1].tid, rep.tasklets[1].state), (9, 1));
}

#[test]
fn top_reply_cut_short_keeps_whole_records() {
    let buf = report(5, 4);
    let rep = parse_top_reply(100, &buf, 32 + 8 * 3 + 4).unwrap();
    assert_eq!(rep.cpu_ticks.len(), 3);
    assert_eq!(rep.tasklets.len(), 0);
    let rep = parse_top_reply(100, &buf, 32 + 8 * 4 + 24 * 2 + 23).unwrap();
    assert_eq!(rep.cpu_ticks.len(), 4);
    assert_eq!(rep.tasklets.len(), 2);
}

#[test]
fn top_bad_replies() {
    let buf = report(0, 0);
    assert!(parse_top_reply(100, &buf, 31).is_none());
    assert!(parse_top_reply(101, &buf, 64).is_none());
    let rep = parse_top_reply(100, &buf, 32).unwrap();
    assert!(rep.cpu_ticks.is_empty() && rep.tasklets.is_empty());
}

#[test]
fn top_used_memory_never_negative() {
    let mut buf = report(0, 0);
    put32(&mut buf, 8, 9999);
    let rep = parse_top_reply(100, &buf, 32).unwrap();
    assert_eq!(rep.used_mb, 0);
}

#[test]
fn state_names() {
    assert_eq!(state_name(1), "  ready    ");
    assert_eq!(state_name(2), "  running  ");
    assert_eq!(state_name(3), "  deferred ");
    assert_eq!(state_name(0), "  unknown  ");
    assert_eq!(state_name(9), "  unknown  ");
}

#[test]
fn column_padding() {
    assert_eq!(col_pad(5, 2), 3);
    assert_eq!(col_pad(5, 5), 1);
    assert_eq!(col_pad(3, 7), 1);
}

#[test]
fn pages_in_mb() {
    assert_eq!(mb_of_pages(256), 1);
    assert_eq!(mb_of_pages(255), 0);
    assert_eq!(mb_of_pages(u32::MAX), (u32::MAX as u64 * 4) / 1024);
}
