//! The monitor's status and health replies (`services`), the uptime
//! display (`services`, `uptime`) and the instance table of the program
//! loader (`ps`).

use vstd::prelude::*;
use crate::wire::{le_at, le_u16_at, le_u32_at, le_u64_at, REPLY_OK};

verus! {

/// Memory in MiB for a number of 4 KiB pages.
pub open spec fn pages_to_mb(pages: nat) -> nat {
    pages * 4 / 1024
}

/// Memory in MiB for a number of 4 KiB pages.
pub fn mb_of_pages(pages: u32) -> (r: u64)
    ensures
        r as nat == pages_to_mb(pages as nat),
{
    (pages as u64 * 4) / 1024
}


/// The monitor's status reply, read.
pub struct MonitorStatus {
    pub uptime_ms: u64,
    pub free_pages: u32,
    pub boot_pages: u32,
    pub services: u32,
    pub cpus: u32,
}

/// Reads the monitor's status reply: `None` unless it is a successful reply
/// of at least 24 bytes.
pub fn parse_status_reply(msg_type: u16, len: usize, data: &[u8]) -> (r: Option<MonitorStatus>)
    requires
        data@.len() >= 24,
    ensures
        match r {
            Some(st) => msg_type == REPLY_OK && len >= 24 && st.uptime_ms == le_at(data@, 0, 8)
                && st.free_pages == le_at(data@, 8, 4) && st.boot_pages == le_at(data@, 12, 4)
                && st.services == le_at(data@, 16, 4) && st.cpus == le_at(data@, 20, 4),
            None => msg_type != REPLY_OK || len < 24,
        },
{
    if msg_type != REPLY_OK || len < 24 {
        return None;
    }
    Some(
        MonitorStatus {
            uptime_ms: le_u64_at(data, 0),
            free_pages: le_u32_at(data, 8),
            boot_pages: le_u32_at(data, 12),
            services: le_u32_at(data, 16),
            cpus: le_u32_at(data, 20),
        },
    )
}

/// Reads the monitor's health reply into the numbers of live and dead
/// services: `None` unless it is a successful reply of at least 4 bytes.
pub fn parse_health_reply(msg_type: u16, len: usize, data: &[u8]) -> (r: Option<(u16, u16)>)
    requires
        data@.len() >= 4,
    ensures
        match r {
            Some((alive, dead)) => msg_type == REPLY_OK && len >= 4 && alive == le_at(data@, 0, 2)
                && dead == le_at(data@, 2, 2),
            None => msg_type != REPLY_OK || len < 4,
        },
{
    if msg_type != REPLY_OK || len < 4 {
        return None;
    }
    Some((le_u16_at(data, 0), le_u16_at(data, 2)))
}

/// An uptime as `services` shows it: hours if any, minutes within the hour
/// if any minute has passed, and seconds within the minute.
pub struct UptimeDisplay {
    pub hours: Option<u64>,
    pub minutes: Option<u64>,
    pub seconds: u64,
}

/// Splits an uptime in milliseconds for display.
pub fn uptime_display(uptime_ms: u64) -> (r: UptimeDisplay)
    ensures
        ({
            let secs = uptime_ms / 1000;
            let mins = secs / 60;
            let hrs = mins / 60;
            &&& r.hours == (if hrs > 0 {
                Some(hrs)
            } else {
                None
            })
            &&& r.minutes == (if mins > 0 {
                Some((mins % 60) as u64)
            } else {
                None
            })
            &&& r.seconds == secs % 60
        }),
        (match r.hours {
            Some(h) => h as int,
            None => 0,
        }) * 3600 + (match r.minutes {
            Some(m) => m as int,
            None => 0,
        }) * 60 + r.seconds == uptime_ms / 1000,
{
    let secs = uptime_ms / 1000;
    let mins = secs / 60;
    let hrs = mins / 60;
    UptimeDisplay {
        hours: if hrs > 0 {
            Some(hrs)
        } else {
            None
        },
        minutes: if mins > 0 {
            Some(mins % 60)
        } else {
            None
        },
        seconds: secs % 60,
    }
}

/// The whole minutes and the seconds within the minute of an uptime, as
/// `uptime` shows them.
pub fn uptime_minutes_seconds(uptime_ms: u64) -> (r: (u64, u64))
    ensures
        r.0 == uptime_ms / 1000 / 60,
        r.1 == (uptime_ms / 1000) % 60,
        r.0 * 60 + r.1 == uptime_ms / 1000,
{
    let secs = uptime_ms / 1000;
    (secs / 60, secs % 60)
}

/// Memory in use and free, in MiB of 4 KiB pages, from the pages present at
/// boot and the pages free now.
pub fn memory_mb(boot_pages: u32, free_pages: u32) -> (r: (u64, u64))
    requires
        free_pages <= boot_pages,
    ensures
        r.0 == pages_to_mb((boot_pages - free_pages) as nat),
        r.1 == pages_to_mb(free_pages as nat),
{
    let used = boot_pages - free_pages;
    ((used as u64 * 4) / 1024, (free_pages as u64 * 4) / 1024)
}

/// One row of the program loader's instance table.
pub struct Instance {
    pub slot: u8,
    pub state: u8,
    pub tid: u16,
}

/// Whether the loader's reply lists instances: a successful, non-empty reply.
pub open spec fn lists_instances(msg_type: u16, len: usize) -> bool {
    msg_type == REPLY_OK && len > 0
}

/// The loader's reply holds every record its count announces.
pub open spec fn instance_records_fit(msg_type: u16, len: usize, data: Seq<u8>) -> bool {
    data.len() >= 1 && (lists_instances(msg_type, len) ==> 1 + 4 * data[0] <= data.len())
}

/// Reads the loader's instance table: one record of four bytes per
/// instance after the count byte; nothing unless the reply is successful
/// and not empty.
pub fn parse_instances(msg_type: u16, len: usize, data: &[u8]) -> (r: Vec<Instance>)
    requires
        instance_records_fit(msg_type, len, data@),
    ensures
        r@.len() == (if lists_instances(msg_type, len) {
            data@[0] as int
        } else {
            0
        }),
        forall|k: int|
            0 <= k < r@.len() ==> (#[trigger] r@[k]).slot == data@[1 + 4 * k] && r@[k].state
                == data@[2 + 4 * k] && r@[k].tid == le_at(data@, 3 + 4 * k, 2),
{
    let mut out: Vec<Instance> = Vec::new();
    if msg_type != REPLY_OK || len == 0 {
        return out;
    }
    let count = data[0] as usize;
    let mut i: usize = 0;
    while i < count
        invariant
            count == data@[0],
            1 + 4 * count <= data@.len(),
            0 <= i <= count,
            out@.len() == i,
            forall|k: int|
                0 <= k < i ==> (#[trigger] out@[k]).slot == data@[1 + 4 * k] && out@[k].state
                    == data@[2 + 4 * k] && out@[k].tid == le_at(data@, 3 + 4 * k, 2),
        decreases count - i,
    {
        let base = 1 + i * 4;
        out.push(Instance { slot: data[base], state: data[base + 1], tid: le_u16_at(data, base + 2) });
        i = i + 1;
    }
    out
}

/// The state column of `ps` for an instance state code.
pub fn instance_state_name(state: u8) -> (r: &'static str)
    ensures
        state == 1 ==> r@ == "  loaded  "@,
        state == 2 ==> r@ == "  running "@,
        state == 3 ==> r@ == "  done    "@,
        state == 0 || state > 3 ==> r@ == "  unknown "@,
{
    if state == 1 {
        "  loaded  "
    } else if state == 2 {
        "  running "
    } else if state == 3 {
        "  done    "
    } else {
        "  unknown "
    }
}

/// The spaces `ps` prints before a slot number of `digits` digits, to
/// right-align it in six columns.
pub fn slot_padding(digits: usize) -> (r: usize)
    requires
        digits <= 6,
    ensures
        r + digits == 6,
{
    6 - digits
}

} // verus!
