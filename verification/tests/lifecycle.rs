//! Lifecycle tests: bind, detach, remove, rollback and controller
//! contention, against the in-memory gadget tree.

use usb_gadget::configfs::ConfigFs;
use usb_gadget::function::midi::Midi;
use usb_gadget::function::Status;
use usb_gadget::gadget::{
    remove_all, BindError, Class, Config, Gadget, Id, Strings, Udc,
};
use usb_gadget::Error;

fn simple_gadget(instance: u64) -> (Midi, Gadget) {
    let (midi, handle) = Midi::builder().build(instance);
    let gadget = Gadget::new(
        Class::new(0x02, 0x00, 0x00),
        Id::new(0x1d6b, 0x0104),
        Strings::new("maker", "widget", "serial"),
    )
    .with_config(Config::new("c1").with_function(handle));
    (midi, gadget)
}

#[test]
fn full_lifecycle_leaves_tree_empty() {
    let mut fs = ConfigFs::new();
    let (midi, gadget) = simple_gadget(1);
    let udc = Udc::new("udc.0");
    let reg = gadget.bind(&udc, &mut fs).expect("bind");
    assert_eq!(fs.gadget_count(), 1);
    assert!(fs.gadget_bound(reg.gadget_id()));
    assert_eq!(midi.status(&fs), Status::Bound);
    reg.detach(&mut fs).expect("detach");
    assert!(!fs.gadget_bound(reg.gadget_id()));
    reg.remove(&mut fs).expect("remove");
    assert_eq!(fs.gadget_count(), 0);
    assert_eq!(midi.status(&fs), Status::Unregistered);
}

#[test]
fn detach_is_idempotent() {
    let mut fs = ConfigFs::new();
    let (midi, gadget) = simple_gadget(3);
    let udc = Udc::new("udc.0");
    let reg = gadget.bind(&udc, &mut fs).expect("bind");
    reg.detach(&mut fs).expect("first detach");
    let id_after_one = fs.read_function_attr(3, "id");
    assert!(!fs.gadget_bound(reg.gadget_id()));
    assert_eq!(midi.status(&fs), Status::Registered);
    reg.detach(&mut fs).expect("second detach");
    assert!(!fs.gadget_bound(reg.gadget_id()));
    assert_eq!(midi.status(&fs), Status::Registered);
    assert_eq!(fs.read_function_attr(3, "id"), id_after_one);
    assert_eq!(fs.gadget_count(), 1);
}

#[test]
fn bind_with_no_functions_fails_without_udc_write() {
    let mut fs = ConfigFs::new();
    let udc = Udc::new("udc.0");
    let empty = Gadget::new(
        Class::new(0, 0, 0),
        Id::new(1, 2),
        Strings::new("m", "p", "s"),
    );
    let r = empty.bind(&udc, &mut fs);
    assert!(matches!(r, Err(BindError::NoFunctions)));
    assert_eq!(fs.gadget_count(), 0);
    assert!(!fs.udc_claimed(&String::from("udc.0")));

    let with_empty_config = Gadget::new(
        Class::new(0, 0, 0),
        Id::new(1, 2),
        Strings::new("m", "p", "s"),
    )
    .with_config(Config::new("c1"));
    let r = with_empty_config.bind(&udc, &mut fs);
    assert!(matches!(r, Err(BindError::NoFunctions)));
    assert_eq!(fs.gadget_count(), 0);
    assert!(!fs.udc_claimed(&String::from("udc.0")));
}

#[test]
fn busy_udc_leaves_tree_unbound_and_rebindable() {
    let mut fs = ConfigFs::new();
    let udc = Udc::new("udc.0");
    let (_m1, g1) = simple_gadget(1);
    let _reg1 = g1.bind(&udc, &mut fs).expect("first bind");
    let (m2, g2) = simple_gadget(2);
    let e = g2.bind(&udc, &mut fs);
    let mut reg2 = match e {
        Err(BindError::UdcBusy(reg)) => reg,
        other => panic!("expected a busy controller, got {:?}", other),
    };
    // the tree was fully built but not bound
    assert_eq!(fs.gadget_count(), 2);
    assert!(!fs.gadget_bound(reg2.gadget_id()));
    assert_eq!(m2.status(&fs), Status::Registered);
    // a second controller works
    let other = Udc::new("udc.1");
    reg2.bind(&other, &mut fs).expect("bind to free controller");
    assert!(fs.gadget_bound(reg2.gadget_id()));
    assert_eq!(fs.bound_udc(reg2.gadget_id()), Some(String::from("udc.1")));
    assert_eq!(m2.status(&fs), Status::Bound);
    // binding while bound is refused
    assert_eq!(reg2.bind(&other, &mut fs), Err(Error::AlreadyBound));
}

#[test]
fn remove_before_detach_is_refused() {
    let mut fs = ConfigFs::new();
    let (_midi, gadget) = simple_gadget(5);
    let udc = Udc::new("udc.0");
    let reg = gadget.bind(&udc, &mut fs).expect("bind");
    let err = reg.remove(&mut fs).err().expect("still bound");
    assert_eq!(err.error, Error::StillBound);
    assert_eq!(fs.gadget_count(), 1);
    let reg = err.registration;
    reg.detach(&mut fs).expect("detach");
    reg.remove(&mut fs).expect("remove after detach");
    assert_eq!(fs.gadget_count(), 0);
}

#[test]
fn duplicate_instance_rolls_bind_back() {
    let mut fs = ConfigFs::new();
    let udc = Udc::new("udc.0");
    let (_m1, h1) = Midi::builder().build(7);
    let (_m2, h2) = Midi::builder().build(7);
    let gadget = Gadget::new(
        Class::new(0, 0, 0),
        Id::new(1, 2),
        Strings::new("m", "p", "s"),
    )
    .with_config(Config::new("c1").with_function(h1))
    .with_config(Config::new("c2").with_function(h2));
    let r = gadget.bind(&udc, &mut fs);
    assert!(matches!(r, Err(BindError::FunctionConflict)));
    assert_eq!(fs.gadget_count(), 0);
    assert!(!fs.udc_claimed(&String::from("udc.0")));
}

#[test]
fn registered_instance_conflicts_with_second_gadget() {
    let mut fs = ConfigFs::new();
    let udc = Udc::new("udc.0");
    let (_m1, g1) = simple_gadget(9);
    let _reg = g1.bind(&udc, &mut fs).expect("bind");
    // a second gadget reusing instance 9 is rolled back entirely
    let (_m2, g2) = simple_gadget(9);
    let r = g2.bind(&Udc::new("udc.1"), &mut fs);
    assert!(matches!(r, Err(BindError::FunctionConflict)));
    assert_eq!(fs.gadget_count(), 1);
    assert!(!fs.udc_claimed(&String::from("udc.1")));
}

#[test]
fn register_twice_is_rejected_without_new_writes() {
    let mut fs = ConfigFs::new();
    let udc = Udc::new("udc.0");
    let (_midi, gadget) = simple_gadget(4);
    let reg = gadget.bind(&udc, &mut fs).expect("bind");
    reg.detach(&mut fs).expect("detach");
    // a fresh handle for the same instance: registering it again must
    // neither succeed nor write anything
    let (_m2, h2) = Midi::builder().build(4);
    assert_eq!(
        h2.register(&mut fs, reg.gadget_id()),
        Err(Error::AlreadyRegistered)
    );
    assert_eq!(
        fs.read_function_attr(4, "id"),
        Some(String::from("Midi USB Gadget"))
    );
    // a fresh instance registers fine into the intact, unbound tree
    let (_m3, h3) = Midi::builder().build(40);
    assert_eq!(h3.register(&mut fs, reg.gadget_id()), Ok(()));
    assert_eq!(
        fs.read_function_attr(40, "in_ports"),
        Some(String::from("1"))
    );
}

#[test]
fn remove_all_empties_the_tree() {
    let mut fs = ConfigFs::new();
    let (_m1, g1) = simple_gadget(1);
    let (_m2, g2) = simple_gadget(2);
    g1.bind(&Udc::new("udc.0"), &mut fs).expect("bind one");
    g2.bind(&Udc::new("udc.1"), &mut fs).expect("bind two");
    assert_eq!(fs.gadget_count(), 2);
    remove_all(&mut fs);
    assert_eq!(fs.gadget_count(), 0);
}
