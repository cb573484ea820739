//! Single-slot callback driver over owned inputs: `drive` hands an input to
//! the receiver installed by `set_rx` and, on success, returns a fresh driver
//! holding the same receiver, so that driving can continue.

use core::marker::PhantomData;
use vstd::prelude::*;

verus! {

pub struct Driver<T, F> where F: Fn(T) {
    on_recv: Option<F>,
    marker: PhantomData<T>,
}

impl<T, F> Driver<T, F> where F: Fn(T) {
    /// The installed receiver, if any.
    pub closed spec fn rx(self) -> Option<F> {
        self.on_recv
    }

    pub fn new() -> (r: Driver<T, F>)
        ensures
            r.rx() is None,
    {
        Driver { on_recv: None, marker: PhantomData }
    }

    /// Installs (or replaces) the receiver.
    pub fn set_rx(&mut self, on_recv: F)
        ensures
            final(self).rx() == Some(on_recv),
    {
        self.on_recv = Some(on_recv);
    }

    /// Hands `input` to the installed receiver; fails when none is installed.
    pub fn drive(self, input: T) -> (res: Result<Driver<T, F>, ()>)
        requires
            self.rx() matches Some(f) ==> call_requires(f, (input,)),
        ensures
            res is Ok <==> self.rx() is Some,
            self.rx() matches Some(f) ==> call_ensures(f, (input,), ()),
            res matches Ok(d) ==> d.rx() == self.rx(),
    {
        match self.on_recv {
            Some(on_recv) => {
                on_recv(input);
                let mut driver = Self::new();
                driver.set_rx(on_recv);
                Ok(driver)
            },
            None => Err(()),
        }
    }
}

} // verus!
