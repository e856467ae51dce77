use labs::react::{CallbackFn, CellId, ComputeFn, Reactor, RemoveCallbackError};
use std::cell::RefCell;
use std::rc::Rc;

struct Sum;
impl ComputeFn<i32> for Sum {
    fn spec_compute(&self, args: &[i32]) -> i32 {
        self.compute(args)
    }
    fn compute(&self, args: &[i32]) -> i32 {
        args.iter().sum()
    }
}

struct PlusOne;
impl ComputeFn<i32> for PlusOne {
    fn spec_compute(&self, args: &[i32]) -> i32 {
        self.compute(args)
    }
    fn compute(&self, args: &[i32]) -> i32 {
        args[0] + 1
    }
}

struct Parity;
impl ComputeFn<i32> for Parity {
    fn spec_compute(&self, args: &[i32]) -> i32 {
        self.compute(args)
    }
    fn compute(&self, args: &[i32]) -> i32 {
        args[0] % 2
    }
}

struct Recorder(Rc<RefCell<Vec<i32>>>);
impl CallbackFn<i32> for Recorder {
    fn heard(&self) -> Vec<i32> {
        self.0.borrow().clone()
    }
    fn call(&mut self, value: i32) {
        self.0.borrow_mut().push(value);
    }
}

#[test]
fn input_cells_have_a_value() {
    let mut reactor = Reactor::new();
    let input = reactor.create_input(10);
    assert_eq!(reactor.value(CellId::Input(input)), Some(10));
}

#[test]
fn an_input_cells_value_can_be_set() {
    let mut reactor = Reactor::new();
    let input = reactor.create_input(4);
    assert!(reactor.set_value(input, 20));
    assert_eq!(reactor.value(CellId::Input(input)), Some(20));
}

#[test]
fn compute_cells_calculate_and_update() {
    let mut reactor = Reactor::new();
    let input = reactor.create_input(1);
    let output = reactor.create_compute(&[CellId::Input(input)], PlusOne).unwrap();
    assert_eq!(reactor.value(CellId::Compute(output)), Some(2));
    assert!(reactor.set_value(input, 3));
    assert_eq!(reactor.value(CellId::Compute(output)), Some(4));
}

#[test]
fn compute_cells_can_depend_on_compute_cells() {
    let mut reactor = Reactor::new();
    let a = reactor.create_input(1);
    let b = reactor.create_compute(&[CellId::Input(a)], PlusOne).unwrap();
    let c = reactor.create_compute(&[CellId::Input(a), CellId::Compute(b)], Sum).unwrap();
    assert_eq!(reactor.value(CellId::Compute(c)), Some(3));
    reactor.set_value(a, 10);
    assert_eq!(reactor.value(CellId::Compute(c)), Some(21));
}

#[test]
fn compute_cells_fail_on_unknown_dependencies() {
    let mut other = Reactor::<i32>::new();
    let _ = other.create_input(0);
    let far = other.create_input(1);
    let mut reactor = Reactor::new();
    let input = reactor.create_input(1);
    let bad = CellId::Input(far);
    assert_eq!(reactor.create_compute(&[CellId::Input(input), bad], Sum), Err(bad));
}

#[test]
fn setting_an_unknown_input_fails() {
    let mut other = Reactor::<i32>::new();
    let _ = other.create_input(0);
    let far = other.create_input(1);
    let mut reactor = Reactor::<i32>::new();
    assert!(!reactor.set_value(far, 3));
}

#[test]
fn callbacks_are_called_when_the_value_changes() {
    let mut reactor = Reactor::new();
    let input = reactor.create_input(1);
    let output = reactor.create_compute(&[CellId::Input(input)], Parity).unwrap();
    let seen = Rc::new(RefCell::new(Vec::new()));
    let cb = reactor.add_callback(output, Recorder(seen.clone())).unwrap();
    reactor.set_value(input, 3);
    assert!(seen.borrow().is_empty());
    reactor.set_value(input, 4);
    assert_eq!(*seen.borrow(), vec![0]);
    assert_eq!(reactor.remove_callback(output, cb), Ok(()));
    reactor.set_value(input, 5);
    assert_eq!(*seen.borrow(), vec![0]);
    assert_eq!(reactor.remove_callback(output, cb), Err(RemoveCallbackError::NonexistentCallback));
}

#[test]
fn callbacks_on_unknown_cells() {
    let mut other = Reactor::<i32>::new();
    let i = other.create_input(0);
    let far = other.create_compute(&[CellId::Input(i)], PlusOne).unwrap();
    let mut reactor = Reactor::<i32>::new();
    let seen = Rc::new(RefCell::new(Vec::new()));
    assert!(reactor.add_callback(far, Recorder(seen)).is_none());
}

struct MinusOne;
impl ComputeFn<i32> for MinusOne {
    fn spec_compute(&self, args: &[i32]) -> i32 {
        self.compute(args)
    }
    fn compute(&self, args: &[i32]) -> i32 {
        args[0] - 1
    }
}

struct Product;
impl ComputeFn<i32> for Product {
    fn spec_compute(&self, args: &[i32]) -> i32 {
        self.compute(args)
    }
    fn compute(&self, args: &[i32]) -> i32 {
        args[0] * args[1]
    }
}

struct Difference;
impl ComputeFn<i32> for Difference {
    fn spec_compute(&self, args: &[i32]) -> i32 {
        self.compute(args)
    }
    fn compute(&self, args: &[i32]) -> i32 {
        args[0] - args[1]
    }
}

#[test]
fn callbacks_hear_only_the_final_value() {
    let mut reactor = Reactor::new();
    let input = reactor.create_input(1);
    let plus_one = reactor.create_compute(&[CellId::Input(input)], PlusOne).unwrap();
    let minus_one1 = reactor.create_compute(&[CellId::Input(input)], MinusOne).unwrap();
    let minus_one2 = reactor.create_compute(&[CellId::Compute(minus_one1)], MinusOne).unwrap();
    let output = reactor
        .create_compute(&[CellId::Compute(plus_one), CellId::Compute(minus_one2)], Product)
        .unwrap();
    let seen = Rc::new(RefCell::new(Vec::new()));
    reactor.add_callback(output, Recorder(seen.clone())).unwrap();
    assert!(reactor.set_value(input, 4));
    assert_eq!(*seen.borrow(), vec![10]);
    assert_eq!(reactor.value(CellId::Compute(output)), Some(10));
}

#[test]
fn callbacks_do_not_run_when_the_value_ends_where_it_began() {
    let mut reactor = Reactor::new();
    let input = reactor.create_input(1);
    let plus_one = reactor.create_compute(&[CellId::Input(input)], PlusOne).unwrap();
    let minus_one = reactor.create_compute(&[CellId::Input(input)], MinusOne).unwrap();
    let always_two = reactor
        .create_compute(&[CellId::Compute(plus_one), CellId::Compute(minus_one)], Difference)
        .unwrap();
    let seen = Rc::new(RefCell::new(Vec::new()));
    reactor.add_callback(always_two, Recorder(seen.clone())).unwrap();
    assert!(reactor.set_value(input, 5));
    assert!(seen.borrow().is_empty());
    assert_eq!(reactor.value(CellId::Compute(always_two)), Some(2));
}

#[test]
fn every_callback_of_a_changed_cell_runs_once() {
    let mut reactor = Reactor::new();
    let input = reactor.create_input(1);
    let output = reactor.create_compute(&[CellId::Input(input)], PlusOne).unwrap();
    let first = Rc::new(RefCell::new(Vec::new()));
    let second = Rc::new(RefCell::new(Vec::new()));
    reactor.add_callback(output, Recorder(first.clone())).unwrap();
    reactor.add_callback(output, Recorder(second.clone())).unwrap();
    assert!(reactor.set_value(input, 7));
    assert_eq!(*first.borrow(), vec![8]);
    assert_eq!(*second.borrow(), vec![8]);
}

#[test]
fn a_callback_is_removed_only_from_its_own_cell() {
    let mut reactor = Reactor::new();
    let input = reactor.create_input(1);
    let a = reactor.create_compute(&[CellId::Input(input)], PlusOne).unwrap();
    let b = reactor.create_compute(&[CellId::Input(input)], MinusOne).unwrap();
    let seen = Rc::new(RefCell::new(Vec::new()));
    let cb = reactor.add_callback(a, Recorder(seen.clone())).unwrap();
    assert_eq!(reactor.remove_callback(b, cb), Err(RemoveCallbackError::NonexistentCallback));
    assert!(reactor.set_value(input, 2));
    assert_eq!(*seen.borrow(), vec![3]);
    assert_eq!(reactor.remove_callback(a, cb), Ok(()));
}

#[test]
fn removing_from_an_unknown_cell_fails() {
    let mut other = Reactor::<i32>::new();
    let i = other.create_input(0);
    let _ = other.create_compute(&[CellId::Input(i)], PlusOne).unwrap();
    let far = other.create_compute(&[CellId::Input(i)], PlusOne).unwrap();
    let mut reactor = Reactor::new();
    let input = reactor.create_input(1);
    let output = reactor.create_compute(&[CellId::Input(input)], PlusOne).unwrap();
    let seen = Rc::new(RefCell::new(Vec::new()));
    let cb = reactor.add_callback(output, Recorder(seen)).unwrap();
    assert_eq!(reactor.remove_callback(far, cb), Err(RemoveCallbackError::NonexistentCell));
}

#[test]
fn new_cells_get_fresh_identifiers() {
    let mut reactor = Reactor::new();
    let a = reactor.create_input(1);
    let b = reactor.create_input(2);
    assert_ne!(a, b);
    let c = reactor.create_compute(&[CellId::Input(a)], PlusOne).unwrap();
    let d = reactor.create_compute(&[CellId::Input(b)], PlusOne).unwrap();
    assert_ne!(c, d);
    let seen = Rc::new(RefCell::new(Vec::new()));
    let x = reactor.add_callback(c, Recorder(seen.clone())).unwrap();
    let y = reactor.add_callback(c, Recorder(seen)).unwrap();
    assert_ne!(x, y);
}

#[test]
fn setting_an_input_to_its_value_changes_nothing() {
    let mut reactor = Reactor::new();
    let input = reactor.create_input(3);
    let output = reactor.create_compute(&[CellId::Input(input)], PlusOne).unwrap();
    let seen = Rc::new(RefCell::new(Vec::new()));
    reactor.add_callback(output, Recorder(seen.clone())).unwrap();
    assert!(reactor.set_value(input, 3));
    assert!(seen.borrow().is_empty());
    assert_eq!(reactor.value(CellId::Compute(output)), Some(4));
}
