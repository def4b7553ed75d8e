//! A programmable interrupt controller of a chained pair.
use vstd::prelude::*;

use crate::cpuio::port::Port;

verus! {

/// An 8259 interrupt controller: it raises the eight interrupts from `offset` on.
pub struct Pic {
    offset: u8,
    command: Port<u8>,
    data: Port<u8>,
}

impl Pic {
    /// The first interrupt the controller raises.
    pub closed spec fn spec_offset(&self) -> u8 {
        self.offset
    }

    /// The port that takes commands.
    pub closed spec fn spec_command(&self) -> Port<u8> {
        self.command
    }

    /// The port that takes data.
    pub closed spec fn spec_data(&self) -> Port<u8> {
        self.data
    }

    /// A controller that raises the interrupts from `offset` on, with the
    /// given command and data ports.
    pub fn new(offset: u8, command: Port<u8>, data: Port<u8>) -> (p: Pic)
        ensures
            p.spec_offset() == offset,
            p.spec_command() == command,
            p.spec_data() == data,
    {
        Pic { offset, command, data }
    }

    /// The first interrupt the controller raises.
    pub fn offset(&self) -> (o: u8)
        ensures
            o == self.spec_offset(),
    {
        self.offset
    }

    /// The port that takes commands.
    pub fn command(&self) -> (p: &Port<u8>)
        ensures
            *p == self.spec_command(),
    {
        &self.command
    }

    /// Whether interrupt `int_id` is one of the eight this controller raises.
    pub fn handles_interrupt(&self, int_id: u8) -> (r: bool)
        requires
            int_id >= self.spec_offset() ==> self.spec_offset() + 8 <= u8::MAX,
        ensures
            r == (self.spec_offset() <= int_id < self.spec_offset() + 8),
    {
        int_id >= self.offset && int_id < self.offset + 8
    }
}

} // verus!
