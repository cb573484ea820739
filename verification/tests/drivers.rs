use std::cell::Cell;
use tiergraph::comms::{self, Port};
use tiergraph::{gro, reducer, ross, sync};

#[test]
fn ross_loopback() {
    let on_recv = |input: &i32| {
        assert_eq!(&1, input);
    };

    let mut driver = ross::Driver::new();
    driver.set_rx(on_recv);

    let driver = driver.drive(&1).unwrap();
    let _ = driver.drive(&1).unwrap();
}

#[test]
#[should_panic]
fn ross_no_rx() {
    let driver = ross::Driver::<usize, fn(&usize)>::new();
    let _ = driver.drive(&0xDEADBEEF).unwrap();
}

#[test]
fn sync_loopback() {
    let on_recv = |input: &i32| {
        assert_eq!(&1, input);
    };

    let mut driver = sync::Driver::new();
    driver.set_rx(on_recv);

    let driver = driver.drive(&1).unwrap();
    let _ = driver.drive(&1).unwrap();
}

#[test]
#[should_panic]
fn sync_no_rx() {
    let driver = sync::Driver::<usize, fn(usize)>::new();
    let _ = driver.drive(0xDEADBEEF).unwrap();
}

#[test]
fn port_hands_input_to_receiver() {
    let got = Cell::new(0u32);
    let port = Port::new(|x: u32| got.set(x));
    port.drive(41);
    assert_eq!(got.get(), 41);
    port.drive(7);
    assert_eq!(got.get(), 7);
}

struct TakesOnce<F: Fn(u32)> {
    port: Option<Port<u32, F>>,
}

impl<F: Fn(u32)> comms::Receiver<u32, F> for TakesOnce<F> {
    fn take_driver(&mut self) -> Result<Port<u32, F>, ()> {
        self.port.take().ok_or(())
    }
}

struct HoldsOne<F: Fn(u32)> {
    port: Option<Port<u32, F>>,
}

impl<F: Fn(u32)> comms::Driver<u32, F> for HoldsOne<F> {
    fn set_driver(&mut self, driver: Port<u32, F>) -> Result<(), Port<u32, F>> {
        match self.port {
            Some(_) => Err(driver),
            None => {
                self.port = Some(driver);
                Ok(())
            }
        }
    }
}

#[test]
fn connect_moves_the_port() {
    let receiver = TakesOnce {
        port: Some(Port::new(|x: u32| assert_eq!(x, 3))),
    };
    let driver = HoldsOne { port: None };
    assert_eq!(comms::connect(driver, receiver), Ok(()));
}

#[test]
fn connect_without_port_fails() {
    let receiver = TakesOnce::<fn(u32)> { port: None };
    let driver = HoldsOne { port: None };
    assert_eq!(comms::connect(driver, receiver), Err(()));
}

#[test]
fn gro_ross_drive_without_receiver_returns_input() {
    let driver = gro::ross::Driver::<u32, fn(u32)>::new(None);
    assert_eq!(driver.drive(7), Err(7));
}

#[test]
fn gro_ross_drive_hands_input_to_receiver() {
    let got = Cell::new(0u32);
    let driver = gro::ross::Driver::new(Some(|x: u32| got.set(x)));
    assert_eq!(driver.drive(9), Ok(()));
    assert_eq!(got.get(), 9);
}

#[test]
fn gro_ross_set_rx_refuses_second_receiver() {
    let mut driver = gro::ross::Driver::<u32, fn(u32)>::new(None);
    fn first(_x: u32) {}
    fn second(_x: u32) {}
    assert!(driver.set_rx(first).is_ok());
    assert!(driver.set_rx(second).is_err());
    assert_eq!(driver.drive(1), Ok(()));
}

#[test]
fn reducer_copies_input_into_state() {
    let mut state = String::from("abc");
    let input = String::from("def");
    reducer(&input, &mut state);
    assert_eq!(state, "def");
    assert_eq!(input, "def");
}
