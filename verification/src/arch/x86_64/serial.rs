//! What goes to the ports of the first serial line, a 16550 UART. The bytes
//! and port writes are worked out here; writing them to the ports is left to
//! the caller.

use vstd::prelude::*;
use vstd::string::StringSliceAdditionalSpecFns;

verus! {

/// Port of the data register.
pub const DATA_PORT: u16 = 0x3F8;

/// Port of the interrupt-enable register.
pub const INTERRUPT_ENABLE_PORT: u16 = 0x3F9;

/// Port of the FIFO-control register.
pub const FIFO_CONTROL_PORT: u16 = 0x3FA;

/// Port of the line-control register.
pub const LINE_CONTROL_PORT: u16 = 0x3FB;

/// Port of the modem-control register.
pub const MODEM_CONTROL_PORT: u16 = 0x3FC;

/// Port of the line-status register.
pub const LINE_STATUS_PORT: u16 = 0x3FD;

/// Line-status bit: a received byte waits in the data register.
pub const INPUT_FULL: u8 = 0x01;

/// Line-status bit: the data register takes another byte to send.
pub const OUTPUT_EMPTY: u8 = 0x20;

/// The backspace character.
pub const BACKSPACE: u8 = 0x08;

/// One byte to write to one port.
#[derive(Clone, Copy, Debug, PartialEq, Eq, Structural)]
pub struct PortWrite {
    pub port: u16,
    pub value: u8,
}

/// The port writes that set the line up, in order: the divisor latch is
/// opened, the divisor set to 3 (38400 bps), the latch closed with 8 data
/// bits, no parity and one stop bit, the FIFOs switched on and cleared, and
/// the modem lines raised.
pub open spec fn init_sequence() -> Seq<PortWrite> {
    seq![
        PortWrite { port: LINE_CONTROL_PORT, value: 0x80 },
        PortWrite { port: DATA_PORT, value: 0x03 },
        PortWrite { port: INTERRUPT_ENABLE_PORT, value: 0x00 },
        PortWrite { port: LINE_CONTROL_PORT, value: 0x03 },
        PortWrite { port: FIFO_CONTROL_PORT, value: 0xc7 },
        PortWrite { port: MODEM_CONTROL_PORT, value: 0x0b },
    ]
}

/// The port writes that set the line up, in order.
pub fn init() -> (writes: Vec<PortWrite>)
    ensures
        writes@ == init_sequence(),
{
    let mut writes: Vec<PortWrite> = Vec::new();
    writes.push(PortWrite { port: LINE_CONTROL_PORT, value: 0x80 });
    writes.push(PortWrite { port: DATA_PORT, value: 0x03 });
    writes.push(PortWrite { port: INTERRUPT_ENABLE_PORT, value: 0x00 });
    writes.push(PortWrite { port: LINE_CONTROL_PORT, value: 0x03 });
    writes.push(PortWrite { port: FIFO_CONTROL_PORT, value: 0xc7 });
    writes.push(PortWrite { port: MODEM_CONTROL_PORT, value: 0x0b });
    assert(writes@ =~= init_sequence());
    writes
}

/// Whether a line status says that the next byte can be sent.
pub fn output_ready(line_status: u8) -> (ready: bool)
    ensures
        ready == (line_status & OUTPUT_EMPTY == OUTPUT_EMPTY),
{
    line_status & OUTPUT_EMPTY == OUTPUT_EMPTY
}

/// The bytes sent for the byte `ch`: a backspace (`0x08` or `0xF7`) goes out
/// as backspace, space, backspace; any other byte as itself.
pub open spec fn rendered(ch: u8) -> Seq<u8> {
    if ch == BACKSPACE || ch == 0xf7 {
        seq![BACKSPACE, 0x20u8, BACKSPACE]
    } else {
        seq![ch]
    }
}

/// The bytes sent for the bytes `text`, in order.
pub open spec fn rendered_all(text: Seq<u8>) -> Seq<u8>
    decreases text.len(),
{
    if text.len() == 0 {
        Seq::<u8>::empty()
    } else {
        rendered_all(text.drop_last()) + rendered(text.last())
    }
}

/// The bytes to write to the data port for the byte `ch`, each once the line
/// is ready for it.
pub fn print_byte(ch: u8) -> (bytes: Vec<u8>)
    ensures
        bytes@ == rendered(ch),
{
    let mut bytes: Vec<u8> = Vec::new();
    if ch == BACKSPACE || ch == 0xf7 {
        bytes.push(BACKSPACE);
        bytes.push(0x20);
        bytes.push(BACKSPACE);
    } else {
        bytes.push(ch);
    }
    assert(bytes@ =~= rendered(ch));
    bytes
}

/// The bytes to write to the data port for `text`, each once the line is
/// ready for it.
pub fn print_str(text: &str) -> (bytes: Vec<u8>)
    ensures
        bytes@ == rendered_all(text.spec_bytes()),
{
    let source: &[u8] = text.as_bytes();
    let mut bytes: Vec<u8> = Vec::new();
    let mut i: usize = 0;
    assert(source@.take(0) =~= Seq::<u8>::empty());
    while i < source.len()
        invariant
            i <= source@.len(),
            source@ == text.spec_bytes(),
            bytes@ == rendered_all(source@.take(i as int)),
        decreases source@.len() - i,
    {
        let mut piece: Vec<u8> = print_byte(source[i]);
        proof {
            let next = source@.take(i + 1);
            assert(next.drop_last() =~= source@.take(i as int));
            assert(next.last() == source@[i as int]);
        }
        bytes.append(&mut piece);
        i += 1;
    }
    assert(source@.take(i as int) =~= source@);
    bytes
}

} // verus!
