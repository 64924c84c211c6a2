use vstd::prelude::*;

verus! {

/// Why the CPU left what it was running, by the number the vector stubs
/// pass.
#[derive(Clone, Copy, PartialEq, Eq, Structural, Debug)]
pub enum ExceptionKind {
    Undefined,
    PrefetchAbort,
    DataAbort,
    Fiq,
    Reserved,
    Unknown(u32),
}

impl ExceptionKind {
    pub fn from_raw(raw: u32) -> (r: Self)
        ensures
            raw == 1 ==> r == ExceptionKind::Undefined,
            raw == 3 ==> r == ExceptionKind::PrefetchAbort,
            raw == 4 ==> r == ExceptionKind::DataAbort,
            raw == 5 ==> r == ExceptionKind::Reserved,
            raw == 7 ==> r == ExceptionKind::Fiq,
            !(raw == 1 || raw == 3 || raw == 4 || raw == 5 || raw == 7) ==> r == ExceptionKind::Unknown(raw),
    {
        match raw {
            1 => ExceptionKind::Undefined,
            3 => ExceptionKind::PrefetchAbort,
            4 => ExceptionKind::DataAbort,
            5 => ExceptionKind::Reserved,
            7 => ExceptionKind::Fiq,
            other => ExceptionKind::Unknown(other),
        }
    }

    pub fn as_str(self) -> (r: &'static str)
        ensures
            self == ExceptionKind::Undefined ==> r@ == "undefined"@,
            self == ExceptionKind::PrefetchAbort ==> r@ == "prefetch-abort"@,
            self == ExceptionKind::DataAbort ==> r@ == "data-abort"@,
            self == ExceptionKind::Reserved ==> r@ == "reserved"@,
            self == ExceptionKind::Fiq ==> r@ == "fiq"@,
            self is Unknown ==> r@ == "unknown"@,
    {
        match self {
            ExceptionKind::Undefined => "undefined",
            ExceptionKind::PrefetchAbort => "prefetch-abort",
            ExceptionKind::DataAbort => "data-abort",
            ExceptionKind::Reserved => "reserved",
            ExceptionKind::Fiq => "fiq",
            ExceptionKind::Unknown(_) => "unknown",
        }
    }
}

/// Whether the IRQ mask bit of a CPSR value is clear.
pub fn irq_unmasked_in(cpsr: u32) -> (r: bool)
    ensures
        r == (cpsr & 0x80 == 0),
{
    cpsr & 0x80 == 0
}

/// The stack pointers and link registers of the supervisor, IRQ and user
/// modes, as captured together.
#[derive(Clone, Copy, PartialEq, Eq, Structural, Debug)]
pub struct BankedRegisters {
    pub svc_sp: u32,
    pub svc_lr: u32,
    pub irq_sp: u32,
    pub irq_lr: u32,
    pub usr_sp: u32,
    pub usr_lr: u32,
}

} // verus!
