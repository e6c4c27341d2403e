//! The Sifive test device, which shuts down or reboots the machine when a code is written to its
//! register.

use vstd::prelude::*;
use crate::regs::WO;

verus! {

/// The shutdown code to pass to the device.
#[derive(Clone, Copy, Debug, PartialEq, Eq, Structural)]
pub enum ShutdownCode {
    /// Everything is well and a normal shutdown should be performed.
    Pass,
    /// Something is wrong and the device had to shut down because of it; the exit code may be
    /// passed on to tools around the device (e.g. QEMU).
    Fail(u16),
    /// Instead of shutting the device down, a reboot should be performed.
    Reset,
}

impl ShutdownCode {
    /// The value written to the device's register for this code.
    pub open spec fn spec_register_value(self) -> u32 {
        match self {
            ShutdownCode::Pass => 0x5555,
            ShutdownCode::Fail(exit_code) => (0x3333 + exit_code * 0x10000) as u32,
            ShutdownCode::Reset => 0x7777,
        }
    }

    /// The value written to the device's register for this code: `0x5555` to pass, `0x3333`
    /// with the exit code in the upper half to fail, `0x7777` to reset.
    pub fn register_value(&self) -> (r: u32)
        ensures
            r == self.spec_register_value(),
    {
        match *self {
            ShutdownCode::Pass => 0x5555,
            ShutdownCode::Fail(exit_code) => {
                let c = exit_code as u32;
                assert(0x3333u32 | (c << 16u32) == 0x3333 + c * 0x10000) by (bit_vector)
                    requires
                        c < 0x10000,
                ;
                0x3333 | (c << 16)
            },
            ShutdownCode::Reset => 0x7777,
        }
    }
}

/// Controller for a memory mapped Sifive test device.
pub struct SifiveShutdown {
    reg: WO<u32>,
}

impl SifiveShutdown {
    /// The value last written to the device's register.
    pub closed spec fn register(&self) -> u32 {
        self.reg.value()
    }

    /// A controller for the device whose register is `reg`.
    pub fn new(reg: WO<u32>) -> (r: Self)
        ensures
            r.register() == reg.value(),
    {
        SifiveShutdown { reg }
    }

    /// Write the value for `code` to the device's register, which makes the device shut down
    /// or reboot.
    pub fn write_code(&mut self, code: ShutdownCode)
        ensures
            final(self).register() == code.spec_register_value(),
    {
        let v = code.register_value();
        self.reg.write(v);
    }
}

} // verus!
