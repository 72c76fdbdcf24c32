//! MIDI function tests: builder defaults, the registration scenario,
//! numeric attribute round trips, and scoped writes.

use usb_gadget::configfs::ConfigFs;
use usb_gadget::function::midi::Midi;
use usb_gadget::function::Status;
use usb_gadget::gadget::{Class, Config, Gadget, Id, OsDescriptor, Strings, Udc, WebUsb};
use usb_gadget::Error;

#[test]
fn builder_defaults() {
    let b = Midi::builder();
    assert_eq!(b.id, "Midi USB Gadget");
    assert_eq!(b.in_ports, 1);
    assert_eq!(b.out_ports, 1);
    assert_eq!(b.buflen, 512);
    assert_eq!(b.qlen, 32);
    assert_eq!(b.index, -1);
}

#[test]
fn midi_default_scenario() {
    let mut fs = ConfigFs::new();
    let (midi, handle) = Midi::builder().build(1);
    assert_eq!(midi.status(&fs), Status::Unregistered);
    let gadget = Gadget::new(
        Class::new(0xEF, 0x02, 0x01),
        Id::new(6, 0x11),
        Strings::new("manufacturer", "Midi interface", "serial_number"),
    )
    .with_config(Config::new("config").with_function(handle))
    .with_os_descriptor(OsDescriptor::microsoft())
    .with_web_usb(WebUsb::new(0xf1, "http://webusb.org"));
    let udc = Udc::new("udc.0");
    let reg = gadget.bind(&udc, &mut fs).expect("bind");
    assert_eq!(midi.status(&fs), Status::Bound);
    let g = reg.gadget_id();
    assert_eq!(fs.bound_udc(g), Some(String::from("udc.0")));
    assert_eq!(fs.read_function_attr(1, "id"), Some(String::from("Midi USB Gadget")));
    assert_eq!(fs.read_function_attr(1, "in_ports"), Some(String::from("1")));
    assert_eq!(fs.read_function_attr(1, "out_ports"), Some(String::from("1")));
    assert_eq!(fs.read_function_attr(1, "buflen"), Some(String::from("512")));
    assert_eq!(fs.read_function_attr(1, "qlen"), Some(String::from("32")));
    // gadget root attributes, decimal-encoded
    assert_eq!(fs.read_gadget_attr(g, "bDeviceClass"), Some(String::from("239")));
    assert_eq!(fs.read_gadget_attr(g, "bDeviceSubClass"), Some(String::from("2")));
    assert_eq!(fs.read_gadget_attr(g, "bDeviceProtocol"), Some(String::from("1")));
    assert_eq!(fs.read_gadget_attr(g, "idVendor"), Some(String::from("6")));
    assert_eq!(fs.read_gadget_attr(g, "idProduct"), Some(String::from("17")));
    assert_eq!(
        fs.read_gadget_attr(g, "strings/0x409/manufacturer"),
        Some(String::from("manufacturer"))
    );
    assert_eq!(fs.read_gadget_attr(g, "os_desc/qw_sign"), Some(String::from("MSFT100")));
    assert_eq!(
        fs.read_gadget_attr(g, "webusb/landingPage"),
        Some(String::from("http://webusb.org"))
    );
    reg.detach(&mut fs).expect("detach");
    assert!(!fs.gadget_bound(g));
    assert_eq!(midi.status(&fs), Status::Registered);
}

#[test]
fn numeric_attributes_round_trip_boundaries() {
    let mut fs = ConfigFs::new();
    let mut b = Midi::builder();
    b.in_ports = 0;
    b.out_ports = 255;
    b.buflen = 65535;
    b.qlen = 0;
    let (_midi, handle) = b.build(2);
    let gadget = Gadget::new(
        Class::new(0, 0, 0),
        Id::new(0, 65535),
        Strings::new("m", "p", "s"),
    )
    .with_config(Config::new("c").with_function(handle));
    let reg = gadget.bind(&Udc::new("udc.0"), &mut fs).expect("bind");
    assert_eq!(fs.read_function_attr(2, "in_ports"), Some(String::from("0")));
    assert_eq!(fs.read_function_attr(2, "out_ports"), Some(String::from("255")));
    assert_eq!(fs.read_function_attr(2, "buflen"), Some(String::from("65535")));
    assert_eq!(fs.read_function_attr(2, "qlen"), Some(String::from("0")));
    assert_eq!(fs.read_gadget_attr(reg.gadget_id(), "idVendor"), Some(String::from("0")));
    assert_eq!(
        fs.read_gadget_attr(reg.gadget_id(), "idProduct"),
        Some(String::from("65535"))
    );
}

#[test]
fn one_port_boundary_round_trips() {
    let mut fs = ConfigFs::new();
    let mut b = Midi::builder();
    b.in_ports = 1;
    b.buflen = 1;
    let (_midi, handle) = b.build(3);
    let gadget = Gadget::new(Class::new(0, 0, 0), Id::new(1, 1), Strings::new("m", "p", "s"))
        .with_config(Config::new("c").with_function(handle));
    gadget.bind(&Udc::new("udc.0"), &mut fs).expect("bind");
    assert_eq!(fs.read_function_attr(3, "in_ports"), Some(String::from("1")));
    assert_eq!(fs.read_function_attr(3, "buflen"), Some(String::from("1")));
}

#[test]
fn scoped_writes_follow_the_lifecycle() {
    let mut fs = ConfigFs::new();
    let (midi, handle) = Midi::builder().build(6);
    // before any directory exists the write is refused
    assert_eq!(midi.dir.write(&mut fs, "buflen", "64"), Err(Error::NotFound));
    let gadget = Gadget::new(Class::new(0, 0, 0), Id::new(1, 1), Strings::new("m", "p", "s"))
        .with_config(Config::new("c").with_function(handle));
    let reg = gadget.bind(&Udc::new("udc.0"), &mut fs).expect("bind");
    // writes after binding are rejected defensively
    assert_eq!(midi.dir.write(&mut fs, "buflen", "64"), Err(Error::AlreadyBound));
    assert_eq!(fs.read_function_attr(6, "buflen"), Some(String::from("512")));
    // after detaching, the directory accepts writes again and reads
    // back the last value
    reg.detach(&mut fs).expect("detach");
    assert_eq!(midi.dir.write(&mut fs, "buflen", "64"), Ok(()));
    assert_eq!(fs.read_function_attr(6, "buflen"), Some(String::from("64")));
}

#[test]
fn decimal_rendering_is_exact() {
    assert_eq!(usb_gadget::decimal::dec_u64(0), "0");
    assert_eq!(usb_gadget::decimal::dec_u64(1), "1");
    assert_eq!(usb_gadget::decimal::dec_u64(9), "9");
    assert_eq!(usb_gadget::decimal::dec_u64(10), "10");
    assert_eq!(usb_gadget::decimal::dec_u64(512), "512");
    assert_eq!(usb_gadget::decimal::dec_u64(65535), "65535");
    assert_eq!(
        usb_gadget::decimal::dec_u64(u64::MAX),
        "18446744073709551615"
    );
}
