//! An I/O port, named by its number; `T` is the width of the values that go
//! through it.
use vstd::prelude::*;
use core::marker::PhantomData;

verus! {

/// The I/O port `port`, read and written as values of type `T`.
pub struct Port<T> {
    port: u16,
    mark: PhantomData<T>,
}

impl<T> Port<T> {
    /// The port number.
    pub closed spec fn spec_number(&self) -> u16 {
        self.port
    }

    /// The I/O port with number `port`.
    pub fn new(port: u16) -> (p: Port<T>)
        ensures
            p.spec_number() == port,
    {
        Port { port, mark: PhantomData }
    }

    /// The port number.
    #[verifier::when_used_as_spec(spec_number)]
    pub fn number(&self) -> (n: u16)
        ensures
            n == self.spec_number(),
    {
        self.port
    }
}

} // verus!
