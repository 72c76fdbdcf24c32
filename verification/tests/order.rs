//! Symlink ordering: attachment order determines creation order.

use usb_gadget::configfs::ConfigFs;
use usb_gadget::function::midi::Midi;
use usb_gadget::gadget::{Class, Config, Gadget, Id, Strings, Udc};

fn plain_gadget() -> Gadget {
    Gadget::new(Class::new(0, 0, 0), Id::new(1, 2), Strings::new("m", "p", "s"))
}

#[test]
fn attachment_order_is_symlink_order() {
    let mut fs = ConfigFs::new();
    let (_ma, ha) = Midi::builder().build(10);
    let (_mb, hb) = Midi::builder().build(11);
    let gadget = plain_gadget().with_config(
        Config::new("c").with_function(ha).with_function(hb),
    );
    let reg = gadget.bind(&Udc::new("udc.0"), &mut fs).expect("bind");
    let links = fs.config_link_targets(reg.gadget_id(), 0).expect("links");
    assert_eq!(links, vec![10, 11]);
}

#[test]
fn reversed_attachment_reverses_the_links() {
    let mut fs = ConfigFs::new();
    let (_ma, ha) = Midi::builder().build(10);
    let (_mb, hb) = Midi::builder().build(11);
    let gadget = plain_gadget().with_config(
        Config::new("c").with_function(hb).with_function(ha),
    );
    let reg = gadget.bind(&Udc::new("udc.0"), &mut fs).expect("bind");
    let links = fs.config_link_targets(reg.gadget_id(), 0).expect("links");
    assert_eq!(links, vec![11, 10]);
}

#[test]
fn each_configuration_keeps_its_own_order() {
    let mut fs = ConfigFs::new();
    let (_m1, h1) = Midi::builder().build(21);
    let (_m2, h2) = Midi::builder().build(22);
    let (_m3, h3) = Midi::builder().build(23);
    let gadget = plain_gadget()
        .with_config(Config::new("c1").with_function(h1).with_function(h2))
        .with_config(Config::new("c2").with_function(h3));
    let reg = gadget.bind(&Udc::new("udc.0"), &mut fs).expect("bind");
    assert_eq!(
        fs.config_link_targets(reg.gadget_id(), 0).expect("c1"),
        vec![21, 22]
    );
    assert_eq!(
        fs.config_link_targets(reg.gadget_id(), 1).expect("c2"),
        vec![23]
    );
    assert_eq!(fs.config_link_targets(reg.gadget_id(), 2), None);
}
