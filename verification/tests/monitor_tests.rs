use userland::monitor::{
    instance_state_name, memory_mb, parse_health_reply, parse_instances, parse_status_reply,
    slot_padding, uptime_display, uptime_minutes_seconds,
};

#[test]
fn status_reply_decoded() {
    let mut d = [0u8; 64];
    d[0..8].copy_from_slice(&3_723_000u64.to_le_bytes());
    d[8..12].copy_from_slice(&1000u32.to_le_bytes());
    d[12..16].copy_from_slice(&4096u32.to_le_bytes());
    d[16..20].copy_from_slice(&15u32.to_le_bytes());
    d[20..24].copy_from_slice(&4u32.to_le_bytes());
    let st = parse_status_reply(100, 24, &d).unwrap();
    assert_eq!((st.uptime_ms, st.free_pages, st.boot_pages, st.services, st.cpus), (3_723_000, 1000, 4096, 15, 4));
    assert!(parse_status_reply(100, 23, &d).is_none());
    assert!(parse_status_reply(7, 24, &d).is_none());
}

#[test]
fn health_reply_decoded() {
    let d = [5u8, 0, 2, 1, 0, 0];
    assert_eq!(parse_health_reply(100, 4, &d), Some((5, 258)));
    assert_eq!(parse_health_reply(100, 3, &d), None);
    assert_eq!(parse_health_reply(0, 4, &d), None);
}

#[test]
fn uptime_display_parts() {
    let u = uptime_display(3_723_000);
    assert_eq!((u.hours, u.minutes, u.seconds), (Some(1), Some(2), 3));
    let u = uptime_display(59_999);
    assert_eq!((u.hours, u.minutes, u.seconds), (None, None, 59));
    let u = uptime_display(3_600_000);
    assert_eq!((u.hours, u.minutes, u.seconds), (Some(1), Some(0), 0));
    let u = uptime_display(125_000);
    assert_eq!((u.hours, u.minutes, u.seconds), (None, Some(2), 5));
}

#[test]
fn uptime_parts_add_up() {
    for ms in [0u64, 999, 61_000, 3_599_999, 90_061_500, u64::MAX] {
        let u = uptime_display(ms);
        let total = u.hours.unwrap_or(0) as u128 * 3600 + u.minutes.unwrap_or(0) as u128 * 60 + u.seconds as u128;
        assert_eq!(total, (ms / 1000) as u128);
    }
}

#[test]
fn uptime_minutes() {
    assert_eq!(uptime_minutes_seconds(3_723_000), (62, 3));
    assert_eq!(uptime_minutes_seconds(999), (0, 0));
}

#[test]
fn memory_in_mb() {
    assert_eq!(memory_mb(4096, 1024), (12, 4));
    assert_eq!(memory_mb(100, 100), (0, 0));
}

#[test]
fn instance_table() {
    let mut d = [0u8; 32];
    d[0] = 2;
    d[1..5].copy_from_slice(&[3, 2, 0x34, 0x12]);
    d[5..9].copy_from_slice(&[7, 1, 9, 0]);
    let rows = parse_instances(100, 9, &d);
    assert_eq!(rows.len(), 2);
    assert_eq!((rows[0].slot, rows[0].state, rows[0].tid), (3, 2, 0x1234));
    assert_eq!((rows[1].slot, rows[1].state, rows[1].tid), (7, 1, 9));
    assert!(parse_instances(101, 9, &d).is_empty());
    assert!(parse_instances(100, 0, &d).is_empty());
    d[0] = 0;
    assert!(parse_instances(100, 9, &d).is_empty());
}

#[test]
fn instance_states_and_padding() {
    assert_eq!(instance_state_name(1), "  loaded  ");
    assert_eq!(instance_state_name(2), "  running ");
    assert_eq!(instance_state_name(3), "  done    ");
    assert_eq!(instance_state_name(0), "  unknown ");
    assert_eq!(slot_padding(1), 5);
    assert_eq!(slot_padding(3), 3);
}
