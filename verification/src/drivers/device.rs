use vstd::prelude::*;

verus! {

pub const MAX_DEVICES: usize = 32;

#[derive(Clone, Copy, PartialEq, Eq, Structural, Debug)]
pub enum DeviceError {
    NotPresent,
    Unsupported,
    Busy,
    Invalid,
    Io,
}

impl DeviceError {
    pub fn as_str(self) -> (r: &'static str)
        ensures
            self == DeviceError::NotPresent ==> r@ == "not-present"@,
            self == DeviceError::Unsupported ==> r@ == "unsupported"@,
            self == DeviceError::Busy ==> r@ == "busy"@,
            self == DeviceError::Invalid ==> r@ == "invalid"@,
            self == DeviceError::Io ==> r@ == "io"@,
    {
        match self {
            DeviceError::NotPresent => "not-present",
            DeviceError::Unsupported => "unsupported",
            DeviceError::Busy => "busy",
            DeviceError::Invalid => "invalid",
            DeviceError::Io => "io",
        }
    }
}

/// What an interrupt handler made of an interrupt.
#[derive(Clone, Copy, PartialEq, Eq, Structural, Debug)]
pub enum IrqStatus {
    Unhandled,
    Handled,
    Wake { channel: u32 },
}

#[derive(Clone, Copy, PartialEq, Eq, Structural, Debug)]
pub enum DeviceClass {
    Uart,
    InterruptController,
    Timer,
    Block,
    Input,
    Gpu,
    Network,
    Bus,
    Other,
}

impl DeviceClass {
    pub fn as_str(self) -> (r: &'static str)
        ensures
            self == DeviceClass::Uart ==> r@ == "uart"@,
            self == DeviceClass::InterruptController ==> r@ == "irqchip"@,
            self == DeviceClass::Timer ==> r@ == "timer"@,
            self == DeviceClass::Block ==> r@ == "block"@,
            self == DeviceClass::Input ==> r@ == "input"@,
            self == DeviceClass::Gpu ==> r@ == "gpu"@,
            self == DeviceClass::Network ==> r@ == "net"@,
            self == DeviceClass::Bus ==> r@ == "bus"@,
            self == DeviceClass::Other ==> r@ == "other"@,
    {
        match self {
            DeviceClass::Uart => "uart",
            DeviceClass::InterruptController => "irqchip",
            DeviceClass::Timer => "timer",
            DeviceClass::Block => "block",
            DeviceClass::Input => "input",
            DeviceClass::Gpu => "gpu",
            DeviceClass::Network => "net",
            DeviceClass::Bus => "bus",
            DeviceClass::Other => "other",
        }
    }
}

#[derive(Clone, Copy, PartialEq, Eq, Structural, Debug)]
pub enum DeviceState {
    Empty,
    Discovered,
    Bound,
    Ready,
    Failed,
}

impl DeviceState {
    pub fn as_str(self) -> (r: &'static str)
        ensures
            self == DeviceState::Empty ==> r@ == "empty"@,
            self == DeviceState::Discovered ==> r@ == "discovered"@,
            self == DeviceState::Bound ==> r@ == "bound"@,
            self == DeviceState::Ready ==> r@ == "ready"@,
            self == DeviceState::Failed ==> r@ == "failed"@,
    {
        match self {
            DeviceState::Empty => "empty",
            DeviceState::Discovered => "discovered",
            DeviceState::Bound => "bound",
            DeviceState::Ready => "ready",
            DeviceState::Failed => "failed",
        }
    }
}

#[derive(Clone, Copy, PartialEq, Eq, Structural, Debug)]
pub struct DeviceId(pub usize);

impl DeviceId {
    pub fn new(value: usize) -> (r: Self)
        ensures
            r.0 == value,
    {
        DeviceId(value)
    }

    pub fn as_usize(self) -> (r: usize)
        ensures
            r == self.0,
    {
        self.0
    }
}

/// A device the kernel knows of.
#[derive(Clone, Copy, Debug)]
pub struct DeviceNode {
    pub id: DeviceId,
    pub name: &'static str,
    pub driver: &'static str,
    pub class: DeviceClass,
    pub state: DeviceState,
    pub mmio_base: usize,
    pub mmio_size: usize,
    pub irq: u32,
    pub major: u16,
    pub minor: u16,
    pub wait_channel: u32,
}

impl DeviceNode {
    pub fn empty() -> (r: Self)
        ensures
            r.id.0 == usize::MAX && r.state == DeviceState::Empty && r.class == DeviceClass::Other,
            r.mmio_base == 0 && r.mmio_size == 0 && r.irq == 0 && r.major == 0 && r.minor == 0 && r.wait_channel == 0,
            r.name@ == ""@ && r.driver@ == ""@,
    {
        DeviceNode {
            id: DeviceId::new(usize::MAX),
            name: "",
            driver: "",
            class: DeviceClass::Other,
            state: DeviceState::Empty,
            mmio_base: 0,
            mmio_size: 0,
            irq: 0,
            major: 0,
            minor: 0,
            wait_channel: 0,
        }
    }

    pub open spec fn present(self) -> bool {
        self.state != DeviceState::Empty
    }

    pub fn is_present(self) -> (r: bool)
        ensures
            r == self.present(),
    {
        self.state != DeviceState::Empty
    }
}

/// The table of devices: slots `0..count` are taken, in the order the
/// devices were registered.
pub struct DeviceManager {
    pub nodes: Vec<DeviceNode>,
    pub count: usize,
}

/// `n` with its state set to `s`, all else kept.
pub open spec fn with_state(n: DeviceNode, s: DeviceState) -> DeviceNode {
    DeviceNode { state: s, ..n }
}

/// The first of the first `count` nodes that is present and has `irq`.
pub open spec fn irq_owner_from(nodes: Seq<DeviceNode>, count: int, irq: u32, i: int) -> Option<DeviceNode>
    decreases count - i,
{
    if i < 0 || i >= count {
        None
    } else if nodes[i].irq == irq && nodes[i].present() {
        Some(nodes[i])
    } else {
        irq_owner_from(nodes, count, irq, i + 1)
    }
}

impl DeviceManager {
    pub open spec fn wf(&self) -> bool {
        self.nodes@.len() == MAX_DEVICES && self.count <= MAX_DEVICES
    }

    pub fn new() -> (r: Self)
        ensures
            r.wf(),
            r.count == 0,
            forall|i: int| 0 <= i < MAX_DEVICES ==> #[trigger] r.nodes@[i].state == DeviceState::Empty,
    {
        let mut nodes: Vec<DeviceNode> = Vec::new();
        while nodes.len() < MAX_DEVICES
            invariant
                nodes@.len() <= MAX_DEVICES,
                forall|i: int| 0 <= i < nodes@.len() ==> #[trigger] nodes@[i].state == DeviceState::Empty,
            decreases MAX_DEVICES - nodes@.len(),
        {
            nodes.push(DeviceNode::empty());
        }
        DeviceManager { nodes, count: 0 }
    }

    /// Takes the next slot for `node`, which gets that slot's number as id;
    /// an empty node counts as discovered. `Busy` when the table is full.
    pub fn register(&mut self, node: DeviceNode) -> (r: Result<DeviceId, DeviceError>)
        requires
            old(self).wf(),
        ensures
            final(self).wf(),
            old(self).count >= MAX_DEVICES ==> r == Err::<DeviceId, DeviceError>(DeviceError::Busy)
                && final(self).nodes@ == old(self).nodes@ && final(self).count == old(self).count,
            old(self).count < MAX_DEVICES ==> {
                let stored = DeviceNode {
                    id: DeviceId(old(self).count),
                    state: if node.state == DeviceState::Empty { DeviceState::Discovered } else { node.state },
                    ..node
                };
                &&& r == Ok::<DeviceId, DeviceError>(DeviceId(old(self).count))
                &&& final(self).nodes@ == old(self).nodes@.update(old(self).count as int, stored)
                &&& final(self).count == old(self).count + 1
            },
    {
        if self.count >= MAX_DEVICES {
            return Err(DeviceError::Busy);
        }
        let id = DeviceId::new(self.count);
        let mut node = node;
        node.id = id;
        if node.state == DeviceState::Empty {
            node.state = DeviceState::Discovered;
        }
        self.nodes.set(self.count, node);
        self.count = self.count + 1;
        Ok(id)
    }

    fn set_state(&mut self, id: DeviceId, state: DeviceState) -> (r: Result<(), DeviceError>)
        requires
            old(self).wf(),
        ensures
            final(self).wf(),
            final(self).count == old(self).count,
            id.0 >= MAX_DEVICES ==> r == Err::<(), DeviceError>(DeviceError::Invalid) && final(self).nodes@ == old(self).nodes@,
            id.0 < MAX_DEVICES && !old(self).nodes@[id.0 as int].present() ==> r == Err::<(), DeviceError>(DeviceError::NotPresent)
                && final(self).nodes@ == old(self).nodes@,
            id.0 < MAX_DEVICES && old(self).nodes@[id.0 as int].present() ==> r is Ok
                && final(self).nodes@ == old(self).nodes@.update(id.0 as int, with_state(old(self).nodes@[id.0 as int], state)),
    {
        let index = id.as_usize();
        if index >= MAX_DEVICES {
            return Err(DeviceError::Invalid);
        }
        let mut node = self.nodes[index];
        if !node.is_present() {
            return Err(DeviceError::NotPresent);
        }
        node.state = state;
        self.nodes.set(index, node);
        Ok(())
    }

    pub fn mark_ready(&mut self, id: DeviceId) -> (r: Result<(), DeviceError>)
        requires
            old(self).wf(),
        ensures
            final(self).wf(),
            final(self).count == old(self).count,
            id.0 >= MAX_DEVICES ==> r == Err::<(), DeviceError>(DeviceError::Invalid) && final(self).nodes@ == old(self).nodes@,
            id.0 < MAX_DEVICES && !old(self).nodes@[id.0 as int].present() ==> r == Err::<(), DeviceError>(DeviceError::NotPresent)
                && final(self).nodes@ == old(self).nodes@,
            id.0 < MAX_DEVICES && old(self).nodes@[id.0 as int].present() ==> r is Ok
                && final(self).nodes@ == old(self).nodes@.update(id.0 as int, with_state(old(self).nodes@[id.0 as int], DeviceState::Ready)),
    {
        self.set_state(id, DeviceState::Ready)
    }

    pub fn mark_failed(&mut self, id: DeviceId) -> (r: Result<(), DeviceError>)
        requires
            old(self).wf(),
        ensures
            final(self).wf(),
            final(self).count == old(self).count,
            id.0 >= MAX_DEVICES ==> r == Err::<(), DeviceError>(DeviceError::Invalid) && final(self).nodes@ == old(self).nodes@,
            id.0 < MAX_DEVICES && !old(self).nodes@[id.0 as int].present() ==> r == Err::<(), DeviceError>(DeviceError::NotPresent)
                && final(self).nodes@ == old(self).nodes@,
            id.0 < MAX_DEVICES && old(self).nodes@[id.0 as int].present() ==> r is Ok
                && final(self).nodes@ == old(self).nodes@.update(id.0 as int, with_state(old(self).nodes@[id.0 as int], DeviceState::Failed)),
    {
        self.set_state(id, DeviceState::Failed)
    }

    /// The first registered device in use that raises `irq`.
    pub fn find_by_irq(&self, irq: u32) -> (r: Option<DeviceNode>)
        requires
            self.wf(),
        ensures
            r == irq_owner_from(self.nodes@, self.count as int, irq, 0),
    {
        let mut i: usize = 0;
        while i < self.count
            invariant
                self.wf(),
                i <= self.count,
                irq_owner_from(self.nodes@, self.count as int, irq, 0) == irq_owner_from(self.nodes@, self.count as int, irq, i as int),
            decreases self.count - i,
        {
            let node = self.nodes[i];
            if node.irq == irq && node.is_present() {
                return Some(node);
            }
            i += 1;
        }
        None
    }

    pub fn count(&self) -> (r: usize)
        ensures
            r == self.count,
    {
        self.count
    }

    /// The device in slot `index`, when one is there.
    pub fn get(&self, index: usize) -> (r: Option<DeviceNode>)
        requires
            self.wf(),
        ensures
            index < MAX_DEVICES && self.nodes@[index as int].present() ==> r == Some(self.nodes@[index as int]),
            !(index < MAX_DEVICES && self.nodes@[index as int].present()) ==> r is None,
    {
        if index >= MAX_DEVICES {
            return None;
        }
        let node = self.nodes[index];
        if node.is_present() {
            Some(node)
        } else {
            None
        }
    }
}

pub fn register(manager: &mut DeviceManager, node: DeviceNode) -> (r: Result<DeviceId, DeviceError>)
    requires
        old(manager).wf(),
    ensures
        final(manager).wf(),
        old(manager).count >= MAX_DEVICES ==> r == Err::<DeviceId, DeviceError>(DeviceError::Busy)
            && final(manager).nodes@ == old(manager).nodes@ && final(manager).count == old(manager).count,
        old(manager).count < MAX_DEVICES ==> r == Ok::<DeviceId, DeviceError>(DeviceId(old(manager).count))
            && final(manager).count == old(manager).count + 1
            && final(manager).nodes@ == old(manager).nodes@.update(old(manager).count as int, DeviceNode {
                id: DeviceId(old(manager).count),
                state: if node.state == DeviceState::Empty { DeviceState::Discovered } else { node.state },
                ..node
            }),
{
    manager.register(node)
}

pub fn mark_ready(manager: &mut DeviceManager, id: DeviceId) -> (r: Result<(), DeviceError>)
    requires
        old(manager).wf(),
    ensures
        final(manager).wf(),
        final(manager).count == old(manager).count,
        id.0 >= MAX_DEVICES ==> r == Err::<(), DeviceError>(DeviceError::Invalid) && final(manager).nodes@ == old(manager).nodes@,
        id.0 < MAX_DEVICES && !old(manager).nodes@[id.0 as int].present() ==> r == Err::<(), DeviceError>(DeviceError::NotPresent)
            && final(manager).nodes@ == old(manager).nodes@,
        id.0 < MAX_DEVICES && old(manager).nodes@[id.0 as int].present() ==> r is Ok
            && final(manager).nodes@ == old(manager).nodes@.update(id.0 as int, with_state(old(manager).nodes@[id.0 as int], DeviceState::Ready)),
{
    manager.mark_ready(id)
}

pub fn mark_failed(manager: &mut DeviceManager, id: DeviceId) -> (r: Result<(), DeviceError>)
    requires
        old(manager).wf(),
    ensures
        final(manager).wf(),
        final(manager).count == old(manager).count,
        id.0 >= MAX_DEVICES ==> r == Err::<(), DeviceError>(DeviceError::Invalid) && final(manager).nodes@ == old(manager).nodes@,
        id.0 < MAX_DEVICES && !old(manager).nodes@[id.0 as int].present() ==> r == Err::<(), DeviceError>(DeviceError::NotPresent)
            && final(manager).nodes@ == old(manager).nodes@,
        id.0 < MAX_DEVICES && old(manager).nodes@[id.0 as int].present() ==> r is Ok
            && final(manager).nodes@ == old(manager).nodes@.update(id.0 as int, with_state(old(manager).nodes@[id.0 as int], DeviceState::Failed)),
{
    manager.mark_failed(id)
}

pub fn find_by_irq(manager: &DeviceManager, irq: u32) -> (r: Option<DeviceNode>)
    requires
        manager.wf(),
    ensures
        r == irq_owner_from(manager.nodes@, manager.count as int, irq, 0),
{
    manager.find_by_irq(irq)
}

pub fn count(manager: &DeviceManager) -> (r: usize)
    ensures
        r == manager.count,
{
    manager.count()
}

pub fn get(manager: &DeviceManager, index: usize) -> (r: Option<DeviceNode>)
    requires
        manager.wf(),
    ensures
        index < MAX_DEVICES && manager.nodes@[index as int].present() ==> r == Some(manager.nodes@[index as int]),
        !(index < MAX_DEVICES && manager.nodes@[index as int].present()) ==> r is None,
{
    manager.get(index)
}

} // verus!
