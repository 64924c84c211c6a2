use vstd::prelude::*;

use crate::drivers::device::{self, DeviceClass, DeviceId, DeviceManager, DeviceNode, DeviceState, MAX_DEVICES};
use crate::platform::fdt::BootInfo;

verus! {

/// The physical timer's interrupt, as the boot information gives it.
pub fn physical_timer_irq(info: &BootInfo) -> (r: u32)
    ensures
        r == info.devices.timer.physical_irq.irq,
{
    info.devices.timer.physical_irq.irq
}

/// The countdown that makes the timer fire `hz` times a second at
/// `frequency`; a rate of 0 counts as 1.
pub fn reload_ticks(frequency: u32, hz: u32) -> (r: u32)
    ensures
        r == frequency / (if hz == 0 { 1 } else { hz }),
{
    frequency / (if hz == 0 { 1 } else { hz })
}

/// Registers the timer as a device and marks it ready.
pub fn register_device(manager: &mut DeviceManager, info: &BootInfo) -> (r: Option<DeviceId>)
    requires
        old(manager).wf(),
    ensures
        final(manager).wf(),
        old(manager).count >= MAX_DEVICES ==> r is None && final(manager).nodes@ == old(manager).nodes@,
        old(manager).count < MAX_DEVICES ==> r == Some(DeviceId(old(manager).count))
            && final(manager).count == old(manager).count + 1
            && final(manager).nodes@[old(manager).count as int].state == DeviceState::Ready
            && final(manager).nodes@[old(manager).count as int].class == DeviceClass::Timer
            && final(manager).nodes@[old(manager).count as int].irq == info.devices.timer.physical_irq.irq,
{
    let node = DeviceNode {
        id: DeviceId::new(usize::MAX),
        name: "arm-physical-timer",
        driver: "arm-generic-timer",
        class: DeviceClass::Timer,
        state: DeviceState::Bound,
        mmio_base: 0,
        mmio_size: 0,
        irq: physical_timer_irq(info),
        major: 0,
        minor: 0,
        wait_channel: 0,
    };
    let id = match device::register(manager, node) {
        Ok(id) => id,
        Err(_) => {
            return None;
        },
    };
    let _ = device::mark_ready(manager, id);
    Some(id)
}

} // verus!
