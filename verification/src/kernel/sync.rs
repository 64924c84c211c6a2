use vstd::prelude::*;

verus! {

/// A condition that tasks wait on through a wait channel.
#[derive(Clone, Copy, PartialEq, Eq, Structural, Debug)]
pub struct CondVar {
    pub channel: u32,
}

impl CondVar {
    pub fn new(channel: u32) -> (r: Self)
        ensures
            r.channel == channel,
    {
        CondVar { channel }
    }

    pub fn channel(self) -> (r: u32)
        ensures
            r == self.channel,
    {
        self.channel
    }
}

} // verus!
