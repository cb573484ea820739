//! Callback port wiring: a `Port` wraps a receiving closure, and `connect`
//! hands a receiver's port to a driver. Transport and execution concerns stay
//! with the caller; the port itself only forwards a value to its closure.

use core::marker::PhantomData;
use vstd::prelude::*;

verus! {

/// One-way port around a receiving closure: a value driven into the port is
/// handed to that closure.
pub struct Port<I, F> where F: Fn(I) {
    on_recv: F,
    marker: PhantomData<I>,
}

impl<I, F> Port<I, F> where F: Fn(I) {
    /// The receiving closure of this port.
    pub closed spec fn rx(self) -> F {
        self.on_recv
    }

    pub fn new(on_recv: F) -> (r: Port<I, F>)
        ensures
            r.rx() == on_recv,
    {
        Port { on_recv, marker: PhantomData }
    }

    /// Hands `input` to the receiving closure.
    pub fn drive(&self, input: I)
        requires
            call_requires(self.rx(), (input,)),
        ensures
            call_ensures(self.rx(), (input,), ()),
    {
        (self.on_recv)(input)
    }
}

/// A state holder that can be given a port to drive its state into. The
/// implementations are the caller's; no contract is assumed of them.
pub trait Driver<S, F> where F: Fn(S) {
    fn set_driver(&mut self, driver: Port<S, F>) -> Result<(), Port<S, F>>;
}

/// A state holder that can hand out the port on which it expects its input.
/// The implementations are the caller's; no contract is assumed of them.
pub trait Receiver<I, F> where F: Fn(I) {
    fn take_driver(&mut self) -> Result<Port<I, F>, ()>;
}

/// Takes the receiver's input port and installs it as the driver's output.
/// Returns an error when the receiver has no port to hand out or the driver
/// refuses it; what either means is up to the implementations.
pub fn connect<T, F: Fn(T), D: Driver<T, F>, R: Receiver<T, F>>(driver: D, receiver: R) -> Result<
    (),
    (),
> {
    let mut driver = driver;
    let mut receiver = receiver;
    match receiver.take_driver() {
        Ok(port) => match driver.set_driver(port) {
            Ok(_) => Ok(()),
            Err(_) => Err(()),
        },
        Err(_) => Err(()),
    }
}

} // verus!
