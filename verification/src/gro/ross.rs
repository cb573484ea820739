//! One-shot callback driver: it is constructed with an optional receiver,
//! refuses a second receiver, and `drive` consumes the driver, handing the
//! input to the receiver or returning the input unchanged when none is set.

use core::marker::PhantomData;
use vstd::prelude::*;

verus! {

pub struct Driver<T, F> where F: Fn(T) {
    on_recv: Option<F>,
    marker: PhantomData<T>,
}

impl<T, F> Driver<T, F> where F: Fn(T) {
    /// The installed receiver, if any.
    pub closed spec fn rx(self) -> Option<F> {
        self.on_recv
    }

    pub fn new(on_recv: Option<F>) -> (r: Driver<T, F>)
        ensures
            r.rx() == on_recv,
    {
        Driver { on_recv, marker: PhantomData }
    }

    /// Hands `input` to the receiver; when none is set, gives `input` back.
    pub fn drive(self, input: T) -> (res: Result<(), T>)
        requires
            self.rx() matches Some(f) ==> call_requires(f, (input,)),
        ensures
            res is Ok <==> self.rx() is Some,
            self.rx() matches Some(f) ==> call_ensures(f, (input,), ()),
            res matches Err(t) ==> t == input && self.rx() is None,
    {
        match self.on_recv {
            Some(rx) => {
                rx(input);
                Ok(())
            },
            None => Err(input),
        }
    }

    /// Installs the receiver once: a driver that already has one refuses the
    /// new receiver and hands it back.
    pub fn set_rx(&mut self, on_recv: F) -> (res: Result<(), F>)
        ensures
            old(self).rx() is None ==> res is Ok && final(self).rx() == Some(on_recv),
            old(self).rx() is Some ==> res == Result::<(), F>::Err(on_recv) && *final(self)
                == *old(self),
    {
        if self.on_recv.is_some() {
            Err(on_recv)
        } else {
            self.on_recv = Some(on_recv);
            Ok(())
        }
    }
}

} // verus!
