use vstd::prelude::*;

verus! {

/// A fault as the fault status and address registers report it, and its
/// class.
#[derive(Clone, Copy, Debug)]
pub struct FaultInfo {
    pub status: u32,
    pub address: u32,
    pub class: &'static str,
}

/// The fault status code of a fault status register value: bit 10 above
/// bits 3..0.
pub open spec fn fault_status_code(status: u32) -> int {
    (if status & 0x400 != 0 { 16int } else { 0int }) + status % 16
}

/// The class named by a fault status code.
pub open spec fn fault_class(code: int) -> &'static str {
    if code == 1 {
        "alignment"
    } else if code == 4 {
        "instruction-cache-maintenance"
    } else if code == 12 {
        "sync-external-abort"
    } else if code == 14 {
        "sync-external-abort-translation"
    } else if code == 5 {
        "translation-section"
    } else if code == 7 {
        "translation-page"
    } else if code == 3 {
        "access-flag-section"
    } else if code == 6 {
        "access-flag-page"
    } else if code == 9 {
        "domain-section"
    } else if code == 11 {
        "domain-page"
    } else if code == 13 {
        "permission-section"
    } else if code == 15 {
        "permission-page"
    } else if code == 2 {
        "debug-event"
    } else if code == 8 {
        "sync-parity"
    } else if code == 16 {
        "tlb-conflict"
    } else if code == 20 {
        "lockdown"
    } else if code == 22 {
        "async-external-abort"
    } else if code == 24 {
        "async-parity"
    } else {
        "unknown"
    }
}

/// The class of the fault that a data or prefetch fault status register
/// value reports.
pub fn decode_fault_status(status: u32) -> (r: &'static str)
    ensures
        r == fault_class(fault_status_code(status)),
{
    let fs: u32 = ((status >> 6) & 0x10) | (status & 0x0f);
    assert(fs == fault_status_code(status)) by (bit_vector)
        requires
            fs == ((status >> 6) & 0x10) | (status & 0x0f),
    ;
    match fs {
        1 => "alignment",
        4 => "instruction-cache-maintenance",
        12 => "sync-external-abort",
        14 => "sync-external-abort-translation",
        5 => "translation-section",
        7 => "translation-page",
        3 => "access-flag-section",
        6 => "access-flag-page",
        9 => "domain-section",
        11 => "domain-page",
        13 => "permission-section",
        15 => "permission-page",
        2 => "debug-event",
        8 => "sync-parity",
        16 => "tlb-conflict",
        20 => "lockdown",
        22 => "async-external-abort",
        24 => "async-parity",
        _ => "unknown",
    }
}

} // verus!
