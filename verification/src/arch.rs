//! Architecture constants for the x86_64 interrupt layout.

use vstd::prelude::*;

verus! {

/// First legacy IRQ number handed out to devices. Lower numbers are owned by
/// platform devices (timer, keyboard, serial ports).
pub const IRQ_BASE: u32 = 5;

/// Last pin of the IO-APIC, and with it the last legacy IRQ number.
pub const IRQ_MAX: u32 = 23;

} // verus!
