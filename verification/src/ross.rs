//! Single-slot callback driver over borrowed inputs: the receiver sees the
//! input by reference, so one value can be driven through several rounds.
//! `drive` hands the input to the receiver installed by `set_rx` and, on
//! success, returns a fresh driver holding the same receiver.

use core::marker::PhantomData;
use vstd::prelude::*;

verus! {

pub struct Driver<'a, T, F> where F: Fn(&'a T) {
    on_recv: Option<F>,
    marker: PhantomData<&'a T>,
}

impl<'a, T, F> Driver<'a, T, F> where F: Fn(&'a T) {
    /// The installed receiver, if any.
    pub closed spec fn rx(self) -> Option<F> {
        self.on_recv
    }

    pub fn new() -> (r: Driver<'a, T, F>)
        ensures
            r.rx() is None,
    {
        Driver { on_recv: None, marker: PhantomData }
    }

    /// Installs (or replaces) the receiver.
    pub fn set_rx(&mut self, on_recv: F)
        ensures
            final(self).rx() == Some(on_recv),
    {
        self.on_recv = Some(on_recv);
    }

    /// Hands `input` to the installed receiver; fails when none is installed.
    pub fn drive(self, input: &'a T) -> (res: Result<Driver<'a, T, F>, ()>)
        requires
            self.rx() matches Some(f) ==> call_requires(f, (input,)),
        ensures
            res is Ok <==> self.rx() is Some,
            self.rx() matches Some(f) ==> call_ensures(f, (input,), ()),
            res matches Ok(d) ==> d.rx() == self.rx(),
    {
        match self.on_recv {
            Some(on_recv) => {
                on_recv(input);
                let mut driver = Self::new();
                driver.set_rx(on_recv);
                Ok(driver)
            },
            None => Err(()),
        }
    }
}

} // verus!
