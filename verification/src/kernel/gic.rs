//! The GICv2 interrupt controller's arithmetic, and what the kernel does with each
//! acknowledged interrupt. Register reads and writes are the caller's.

use vstd::prelude::*;

use crate::kernel::timer::TIMER_INTID;

verus! {

/// The distributor's set-enable registers start here.
pub const GICD_ISENABLER: usize = 0x100;

/// Interrupt ids at or past this one are spurious: nothing is pending.
pub const SPURIOUS: u32 = 1023;

/// The interrupt line the PL011 UART raises on this machine: shared peripheral interrupt 1.
pub const UART_INTID: u32 = 33;

/// How many interrupt lines a distributor reporting `typer` has: `(ITLinesNumber + 1) * 32`.
pub fn interrupt_lines(typer: u32) -> (n: u32)
    ensures
        n == ((typer & 0x1F) + 1) * 32,
        32 <= n <= 1024,
{
    let low = typer & 0x1F;
    assert(low <= 0x1F) by (bit_vector)
        requires
            low == typer & 0x1F,
    ;
    (low + 1) * 32
}

/// Which set-enable register, as a byte offset from the first, and which bit in it enable
/// interrupt `intid`: one register per 32 lines.
pub fn enable_bit(intid: u32) -> (r: (usize, u32))
    requires
        intid < 1024,
    ensures
        r.0 == (intid / 32) * 4,
        r.1 == 1u32 << (intid % 32),
{
    let reg = (intid / 32) as usize * 4;
    let bit = 1u32 << (intid % 32);
    (reg, bit)
}

/// What an acknowledged interrupt asks of the kernel.
#[derive(Debug, Clone, Copy, PartialEq, Eq, Structural)]
pub enum Irq {
    /// Nothing was pending; there is nothing to end.
    Spurious,
    /// The timer ticked: re-arm it and ask for a reschedule, then end the interrupt.
    Timer,
    /// The UART has input: hand it to the UART driver, then end the interrupt.
    Uart,
    /// An interrupt nothing was expecting: report it, then end the interrupt.
    Unexpected(u32),
}

/// The interrupt id an acknowledge value names: its low ten bits.
pub open spec fn intid_of(iar: u32) -> u32 {
    iar & 0x3FF
}

/// What the acknowledge value `iar` asks for.
pub open spec fn irq_of(iar: u32) -> Irq {
    let intid = intid_of(iar);
    if intid >= SPURIOUS {
        Irq::Spurious
    } else if intid == TIMER_INTID {
        Irq::Timer
    } else if intid == UART_INTID {
        Irq::Uart
    } else {
        Irq::Unexpected(intid)
    }
}

/// The timer interrupts counted so far.
pub struct Gic {
    ticks: u64,
}

impl Gic {
    pub closed spec fn ticks_spec(&self) -> u64 {
        self.ticks
    }

    /// No interrupt counted yet.
    pub fn new() -> (g: Gic)
        ensures
            g.ticks_spec() == 0,
    {
        Gic { ticks: 0 }
    }

    /// Timer interrupts delivered since boot.
    pub fn ticks(&self) -> (n: u64)
        ensures
            n == self.ticks_spec(),
    {
        self.ticks
    }

    /// Decides what the interrupt acknowledged as `iar` asks for, counting a timer tick.
    pub fn handle_irq(&mut self, iar: u32) -> (irq: Irq)
        ensures
            irq == irq_of(iar),
            final(self).ticks_spec() == (if irq == Irq::Timer {
                vstd::wrapping::u64_specs::wrapping_add(old(self).ticks_spec(), 1)
            } else {
                old(self).ticks_spec()
            }),
    {
        let intid = iar & 0x3FF;
        if intid >= SPURIOUS {
            return Irq::Spurious;
        }
        if intid == TIMER_INTID {
            self.ticks = self.ticks.wrapping_add(1);
            Irq::Timer
        } else if intid == UART_INTID {
            Irq::Uart
        } else {
            Irq::Unexpected(intid)
        }
    }
}

} // verus!
