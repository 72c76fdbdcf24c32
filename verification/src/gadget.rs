//! Gadget descriptors, configurations, and the bind / detach / remove
//! lifecycle engine.
//!
//! Binding materializes a described gadget into the tree in the order the
//! kernel demands: root directory, device attributes, then per
//! configuration its directory and — per attached handle, in attachment
//! order — the function's registration followed by its symlink, then the
//! optional descriptor extensions, and last the controller name.  Detach
//! empties the controller-binding file and is idempotent; removal tears
//! the tree down in reverse creation order, symlinks first, and is only
//! accepted on a detached registration.

use vstd::prelude::*;

use crate::configfs::{
    empty_gadget, find_function, find_gadget, find_owner, gadget_of, has_function_dir, has_gadget,
    ids_bounded, lemma_find_function, lemma_find_gadget, lemma_find_owner, udc_in_use,
    update_gadget, Attr, AttrV, ConfigDirV, ConfigFs, ConfigFsV, FunctionDirV, GadgetDirV,
};
use crate::decimal::{dec_u64, spec_dec};
use crate::function::{Handle, HandleV};
use crate::Error;

verus! {

/// USB device class triple, written to the gadget root at binding time.
#[derive(Clone, Copy, Debug, PartialEq, Eq, Structural)]
pub struct Class {
    pub class: u8,
    pub sub_class: u8,
    pub protocol: u8,
}

impl Class {
    pub fn new(class: u8, sub_class: u8, protocol: u8) -> (r: Class)
        ensures
            r == (Class { class, sub_class, protocol }),
    {
        Class { class, sub_class, protocol }
    }
}

/// USB vendor / product identifier pair.
#[derive(Clone, Copy, Debug, PartialEq, Eq, Structural)]
pub struct Id {
    pub vendor: u16,
    pub product: u16,
}

impl Id {
    pub fn new(vendor: u16, product: u16) -> (r: Id)
        ensures
            r == (Id { vendor, product }),
    {
        Id { vendor, product }
    }
}

/// The gadget's string descriptors.
#[derive(Clone, Debug)]
pub struct Strings {
    pub manufacturer: String,
    pub product: String,
    pub serial: String,
}

/// Mathematical image of the string descriptors.
#[verifier::ext_equal]
pub ghost struct StringsV {
    pub manufacturer: Seq<char>,
    pub product: Seq<char>,
    pub serial: Seq<char>,
}

impl View for Strings {
    type V = StringsV;

    open spec fn view(&self) -> StringsV {
        StringsV {
            manufacturer: self.manufacturer@,
            product: self.product@,
            serial: self.serial@,
        }
    }
}

impl Strings {
    pub fn new(manufacturer: &str, product: &str, serial: &str) -> (r: Strings)
        ensures
            r@ == (StringsV {
                manufacturer: manufacturer@,
                product: product@,
                serial: serial@,
            }),
    {
        Strings {
            manufacturer: manufacturer.to_owned(),
            product: product.to_owned(),
            serial: serial.to_owned(),
        }
    }
}

/// Optional OS descriptor extension block.
#[derive(Clone, Debug)]
pub struct OsDescriptor {
    pub vendor_code: u8,
    pub qw_sign: String,
}

/// Mathematical image of the OS descriptor block.
#[verifier::ext_equal]
pub ghost struct OsDescriptorV {
    pub vendor_code: u8,
    pub qw_sign: Seq<char>,
}

impl View for OsDescriptor {
    type V = OsDescriptorV;

    open spec fn view(&self) -> OsDescriptorV {
        OsDescriptorV { vendor_code: self.vendor_code, qw_sign: self.qw_sign@ }
    }
}

impl OsDescriptor {
    /// The Microsoft OS descriptor signature.
    pub fn microsoft() -> (r: OsDescriptor)
        ensures
            r@ == (OsDescriptorV { vendor_code: 0xcd, qw_sign: "MSFT100"@ }),
    {
        OsDescriptor { vendor_code: 0xcd, qw_sign: "MSFT100".to_owned() }
    }
}

/// Optional WebUSB extension block.
#[derive(Clone, Debug)]
pub struct WebUsb {
    pub vendor_code: u8,
    pub landing_page: String,
}

/// Mathematical image of the WebUSB block.
#[verifier::ext_equal]
pub ghost struct WebUsbV {
    pub vendor_code: u8,
    pub landing_page: Seq<char>,
}

impl View for WebUsb {
    type V = WebUsbV;

    open spec fn view(&self) -> WebUsbV {
        WebUsbV { vendor_code: self.vendor_code, landing_page: self.landing_page@ }
    }
}

impl WebUsb {
    pub fn new(vendor_code: u8, landing_page: &str) -> (r: WebUsb)
        ensures
            r@ == (WebUsbV { vendor_code, landing_page: landing_page@ }),
    {
        WebUsb { vendor_code, landing_page: landing_page.to_owned() }
    }
}

/// A USB device controller, named by the kernel.
#[derive(Clone, Debug)]
pub struct Udc {
    name: String,
}

impl View for Udc {
    type V = Seq<char>;

    closed spec fn view(&self) -> Seq<char> {
        self.name@
    }
}

impl Udc {
    /// Wraps a controller name obtained from enumeration.
    pub fn new(name: &str) -> (r: Udc)
        ensures
            r@ == name@,
    {
        Udc { name: name.to_owned() }
    }

    /// The controller's name.
    pub fn name(&self) -> (r: String)
        ensures
            r@ == self@,
    {
        self.name.clone()
    }
}

/// A named grouping of function handles; attachment order is the order
/// in which symlinks are created at binding time.
pub struct Config {
    name: String,
    handles: Vec<Handle>,
}

/// Mathematical image of a configuration.
#[verifier::ext_equal]
pub ghost struct ConfigV {
    pub name: Seq<char>,
    pub handles: Seq<HandleV>,
}

impl View for Config {
    type V = ConfigV;

    closed spec fn view(&self) -> ConfigV {
        ConfigV { name: self.name@, handles: self.handles@.map_values(|h: Handle| h@) }
    }
}

impl Config {
    /// A new, empty configuration.
    pub fn new(name: &str) -> (r: Config)
        ensures
            r@ == (ConfigV { name: name@, handles: Seq::empty() }),
    {
        Config { name: name.to_owned(), handles: Vec::new() }
    }

    /// Attaches a handle, appending it to the ordered sequence.
    pub fn with_function(self, handle: Handle) -> (r: Config)
        ensures
            r@ == (ConfigV { name: self@.name, handles: self@.handles.push(handle@) }),
    {
        let Config { name, mut handles } = self;
        handles.push(handle);
        let r = Config { name, handles };
        proof {
            assert(r@.handles =~= self@.handles.push(handle@));
        }
        r
    }
}

/// The top-level gadget descriptor: class, identity, strings, the
/// configurations to present, and the optional descriptor extensions.
pub struct Gadget {
    class: Class,
    id: Id,
    strings: Strings,
    configs: Vec<Config>,
    os_descriptor: Option<OsDescriptor>,
    web_usb: Option<WebUsb>,
}

/// Mathematical image of a gadget descriptor.
#[verifier::ext_equal]
pub ghost struct GadgetV {
    pub class: Class,
    pub id: Id,
    pub strings: StringsV,
    pub configs: Seq<ConfigV>,
    pub os_descriptor: Option<OsDescriptorV>,
    pub web_usb: Option<WebUsbV>,
}

impl View for Gadget {
    type V = GadgetV;

    closed spec fn view(&self) -> GadgetV {
        GadgetV {
            class: self.class,
            id: self.id,
            strings: self.strings@,
            configs: self.configs@.map_values(|c: Config| c@),
            os_descriptor: match self.os_descriptor {
                Some(ref o) => Some(o@),
                None => None,
            },
            web_usb: match self.web_usb {
                Some(ref w) => Some(w@),
                None => None,
            },
        }
    }
}

impl Gadget {
    /// A new gadget descriptor with no configurations yet.
    pub fn new(class: Class, id: Id, strings: Strings) -> (r: Gadget)
        ensures
            r@ == (GadgetV {
                class,
                id,
                strings: strings@,
                configs: Seq::empty(),
                os_descriptor: None,
                web_usb: None,
            }),
    {
        Gadget { class, id, strings, configs: Vec::new(), os_descriptor: None, web_usb: None }
    }

    /// Appends a configuration.
    pub fn with_config(self, config: Config) -> (r: Gadget)
        ensures
            r@ == (GadgetV { configs: self@.configs.push(config@), ..self@ }),
    {
        let Gadget { class, id, strings, mut configs, os_descriptor, web_usb } = self;
        configs.push(config);
        let r = Gadget { class, id, strings, configs, os_descriptor, web_usb };
        proof {
            assert(r@ =~~= (GadgetV { configs: self@.configs.push(config@), ..self@ }));
        }
        r
    }

    /// Sets the OS descriptor extension block.
    pub fn with_os_descriptor(self, os_descriptor: OsDescriptor) -> (r: Gadget)
        ensures
            r@ == (GadgetV { os_descriptor: Some(os_descriptor@), ..self@ }),
    {
        let Gadget { class, id, strings, configs, os_descriptor: _, web_usb } = self;
        let r = Gadget { class, id, strings, configs, os_descriptor: Some(os_descriptor), web_usb };
        proof {
            assert(r@ =~~= (GadgetV { os_descriptor: Some(os_descriptor@), ..self@ }));
        }
        r
    }

    /// Sets the WebUSB extension block.
    pub fn with_web_usb(self, web_usb: WebUsb) -> (r: Gadget)
        ensures
            r@ == (GadgetV { web_usb: Some(web_usb@), ..self@ }),
    {
        let Gadget { class, id, strings, configs, os_descriptor, web_usb: _ } = self;
        let r = Gadget { class, id, strings, configs, os_descriptor, web_usb: Some(web_usb) };
        proof {
            assert(r@ =~~= (GadgetV { web_usb: Some(web_usb@), ..self@ }));
        }
        r
    }
}

/// The tree after emptying the controller-binding file of the gadget
/// named `g`; a tree without that gadget is left as it is.
pub open spec fn spec_detach(v: ConfigFsV, g: u64) -> ConfigFsV {
    if has_gadget(v, g) {
        update_gadget(v, g, (GadgetDirV { udc: None, ..gadget_of(v, g) }))
    } else {
        v
    }
}

/// The tree after removing the whole subtree of the gadget named `g`.
pub open spec fn spec_remove(v: ConfigFsV, g: u64) -> ConfigFsV
    recommends
        has_gadget(v, g),
{
    ConfigFsV { gadgets: v.gadgets.remove(find_gadget(v.gadgets, g)), next_id: v.next_id }
}

/// Facts about a tree whose gadget `g` was replaced: it is found at the
/// same index, reads back as the replacement, and a second replacement
/// overrides the first.
pub proof fn lemma_update_view(v: ConfigFsV, g: u64, a: GadgetDirV)
    requires
        has_gadget(v, g),
        a.id == g,
    ensures
        ({
            let v1 = update_gadget(v, g, a);
            &&& has_gadget(v1, g)
            &&& find_gadget(v1.gadgets, g) == find_gadget(v.gadgets, g)
            &&& gadget_of(v1, g) == a
            &&& v1.gadgets.len() == v.gadgets.len()
            &&& forall|b: GadgetDirV| #[trigger] update_gadget(v1, g, b) == update_gadget(v, g, b)
            &&& v1.next_id == v.next_id
        }),
{
    let gi = find_gadget(v.gadgets, g);
    let v1 = update_gadget(v, g, a);
    lemma_find_gadget(v.gadgets, g);
    lemma_find_gadget(v1.gadgets, g);
    let r = find_gadget(v1.gadgets, g);
    assert(v1.gadgets[gi].id == g);
    assert(r == gi) by {
        if r < gi {
            assert(v1.gadgets[r] == v.gadgets[r]);
        }
        if r > gi {
            assert(v1.gadgets[gi].id != g);
        }
    }
    assert forall|b: GadgetDirV| #[trigger] update_gadget(v1, g, b) == update_gadget(v, g, b) by {
        assert(update_gadget(v1, g, b) =~~= update_gadget(v, g, b));
    }
}

/// A tree whose gadgets keep their names and whose counter stands still
/// keeps every name below the counter; this carries `ids_bounded`
/// through detaching, attribute writes and registrations.
pub proof fn lemma_same_names_sound(v: ConfigFsV, w: ConfigFsV)
    requires
        ids_bounded(v),
        w.next_id == v.next_id,
        w.gadgets.len() == v.gadgets.len(),
        forall|i: int|
            0 <= i < w.gadgets.len() ==> (#[trigger] w.gadgets[i]).id == v.gadgets[i].id,
    ensures
        ids_bounded(w),
{
}

/// Removing a gadget keeps every remaining name below the counter.
pub proof fn lemma_remove_keeps_naming(v: ConfigFsV, g: u64)
    requires
        ids_bounded(v),
        has_gadget(v, g),
    ensures
        ids_bounded(spec_remove(v, g)),
{
    lemma_find_gadget(v.gadgets, g);
    let gi = find_gadget(v.gadgets, g);
    assert(forall|i: int|
        0 <= i < spec_remove(v, g).gadgets.len() ==> (#[trigger] spec_remove(v, g).gadgets[i]).id
            < v.next_id) by {
        assert(forall|i: int|
            0 <= i < v.gadgets.remove(gi).len() ==> #[trigger] v.gadgets.remove(gi)[i] == (
            if i < gi {
                v.gadgets[i]
            } else {
                v.gadgets[i + 1]
            }));
    }
}

/// Emptying the controller-binding file twice leaves the same tree as
/// emptying it once: detach is idempotent.
pub proof fn lemma_detach_idempotent(v: ConfigFsV, g: u64)
    ensures
        spec_detach(spec_detach(v, g), g) == spec_detach(v, g),
{
    if has_gadget(v, g) {
        lemma_find_gadget(v.gadgets, g);
        let a = GadgetDirV { udc: None, ..gadget_of(v, g) };
        lemma_update_view(v, g, a);
        let v1 = update_gadget(v, g, a);
        assert((GadgetDirV { udc: None, ..gadget_of(v1, g) }) == a);
        assert(spec_detach(v1, g) == update_gadget(v1, g, a));
        assert(update_gadget(v1, g, a) =~~= update_gadget(v, g, a));
    }
}

/// Tears the whole subtree of gadget `g` down, in reverse creation
/// order: symlinks first, then function directories, then configuration
/// directories, then the root — the only order the kernel accepts.
fn teardown(fs: &mut ConfigFs, g: u64)
    requires
        has_gadget(old(fs)@, g),
        gadget_of(old(fs)@, g).udc is None,
    ensures
        final(fs)@ == spec_remove(old(fs)@, g),
{
    let ghost v = old(fs)@;
    let ghost g0 = gadget_of(v, g);
    proof {
        lemma_find_gadget(v.gadgets, g);
        assert(cleared_upto(g0.configs, 0) =~= g0.configs);
        assert(fs@ =~~= update_gadget(
            v,
            g,
            (GadgetDirV { configs: cleared_upto(g0.configs, 0), ..g0 }),
        ));
    }
    // Delete all symlinks, configuration by configuration.
    let ncfg = fs.config_count(g);
    let mut ci: usize = 0;
    while ci < ncfg
        invariant
            ncfg == g0.configs.len(),
            ci <= ncfg,
            has_gadget(v, g),
            g0 == gadget_of(v, g),
            g0.id == g,
            g0.udc is None,
            fs@ == update_gadget(
                v,
                g,
                (GadgetDirV { configs: cleared_upto(g0.configs, ci as int), ..g0 }),
            ),
        decreases ncfg - ci,
    {
        let ghost node_ci = GadgetDirV { configs: cleared_upto(g0.configs, ci as int), ..g0 };
        proof {
            lemma_update_view(v, g, node_ci);
        }
        let total = fs.link_count(g, ci);
        proof {
            assert(cleared_upto(g0.configs, ci as int)[ci as int] == g0.configs[ci as int]);
            assert(total == g0.configs[ci as int].links.len());
            assert(g0.configs[ci as int].links.take(total as int) =~= g0.configs[ci as int].links);
            assert(cleared_upto(g0.configs, ci as int).update(
                ci as int,
                (ConfigDirV {
                    name: g0.configs[ci as int].name,
                    links: g0.configs[ci as int].links.take(total as int),
                }),
            ) =~~= cleared_upto(g0.configs, ci as int));
            assert(fs@ =~~= update_gadget(
                v,
                g,
                (GadgetDirV {
                    configs: cleared_upto(g0.configs, ci as int).update(
                        ci as int,
                        (ConfigDirV {
                            name: g0.configs[ci as int].name,
                            links: g0.configs[ci as int].links.take(total as int),
                        }),
                    ),
                    ..g0
                }),
            ));
        }
        let mut k: usize = total;
        while k > 0
            invariant
                k <= total,
                ci < g0.configs.len(),
                total == g0.configs[ci as int].links.len(),
                has_gadget(v, g),
                g0 == gadget_of(v, g),
                g0.id == g,
                fs@ == update_gadget(
                    v,
                    g,
                    (GadgetDirV {
                        configs: cleared_upto(g0.configs, ci as int).update(
                            ci as int,
                            (ConfigDirV {
                                name: g0.configs[ci as int].name,
                                links: g0.configs[ci as int].links.take(k as int),
                            }),
                        ),
                        ..g0
                    }),
                ),
            decreases k,
        {
            let ghost node_k = GadgetDirV {
                configs: cleared_upto(g0.configs, ci as int).update(
                    ci as int,
                    (ConfigDirV {
                        name: g0.configs[ci as int].name,
                        links: g0.configs[ci as int].links.take(k as int),
                    }),
                ),
                ..g0
            };
            proof {
                lemma_update_view(v, g, node_k);
            }
            fs.pop_symlink(g, ci);
            proof {
                let cur = update_gadget(v, g, node_k);
                assert(gadget_of(cur, g) == node_k);
                let c0 = node_k.configs[ci as int];
                assert(c0 == (ConfigDirV {
                    name: g0.configs[ci as int].name,
                    links: g0.configs[ci as int].links.take(k as int),
                }));
                assert(c0.links.drop_last() =~= g0.configs[ci as int].links.take(k as int - 1));
                let b = GadgetDirV {
                    configs: node_k.configs.update(
                        ci as int,
                        (ConfigDirV { links: c0.links.drop_last(), ..c0 }),
                    ),
                    ..node_k
                };
                assert(fs@ == update_gadget(cur, g, b));
                assert(update_gadget(cur, g, b) == update_gadget(v, g, b));
                let b2 = GadgetDirV {
                    configs: cleared_upto(g0.configs, ci as int).update(
                        ci as int,
                        (ConfigDirV {
                            name: g0.configs[ci as int].name,
                            links: g0.configs[ci as int].links.take(k as int - 1),
                        }),
                    ),
                    ..g0
                };
                assert(b =~~= b2);
                assert(update_gadget(v, g, b) =~~= update_gadget(v, g, b2));
            }
            k = k - 1;
        }
        proof {
            assert(cleared_upto(g0.configs, ci as int).update(
                ci as int,
                (ConfigDirV {
                    name: g0.configs[ci as int].name,
                    links: g0.configs[ci as int].links.take(0),
                }),
            ) =~~= cleared_upto(g0.configs, ci as int + 1));
            assert(fs@ =~~= update_gadget(
                v,
                g,
                (GadgetDirV { configs: cleared_upto(g0.configs, ci as int + 1), ..g0 }),
            ));
        }
        ci += 1;
    }
    // Remove the function directories, last first; no symlink points at
    // them any more.
    proof {
        assert(g0.functions.take(g0.functions.len() as int) =~= g0.functions);
    }
    let mut nf = fs.function_count(g);
    proof {
        lemma_update_view(
            v,
            g,
            (GadgetDirV { configs: cleared_upto(g0.configs, g0.configs.len() as int), ..g0 }),
        );
    }
    while nf > 0
        invariant
            nf <= g0.functions.len(),
            has_gadget(v, g),
            g0 == gadget_of(v, g),
            g0.id == g,
            g0.udc is None,
            fs@ == update_gadget(
                v,
                g,
                (GadgetDirV {
                    functions: g0.functions.take(nf as int),
                    configs: cleared_upto(g0.configs, g0.configs.len() as int),
                    ..g0
                }),
            ),
        decreases nf,
    {
        let ghost node_f = GadgetDirV {
            functions: g0.functions.take(nf as int),
            configs: cleared_upto(g0.configs, g0.configs.len() as int),
            ..g0
        };
        proof {
            lemma_update_view(v, g, node_f);
        }
        fs.remove_function_dir(g);
        proof {
            assert(g0.functions.take(nf as int).drop_last() =~= g0.functions.take(nf as int - 1));
            assert(fs@ =~~= update_gadget(
                v,
                g,
                (GadgetDirV {
                    functions: g0.functions.take(nf as int - 1),
                    configs: cleared_upto(g0.configs, g0.configs.len() as int),
                    ..g0
                }),
            ));
        }
        nf = nf - 1;
    }
    // Remove the configuration directories, last first; they are empty.
    proof {
        assert(cleared_upto(g0.configs, g0.configs.len() as int).take(g0.configs.len() as int)
            =~= cleared_upto(g0.configs, g0.configs.len() as int));
    }
    let mut nc = fs.config_count(g);
    proof {
        lemma_update_view(
            v,
            g,
            (GadgetDirV {
                functions: g0.functions.take(0),
                configs: cleared_upto(g0.configs, g0.configs.len() as int),
                ..g0
            }),
        );
        assert(nc == g0.configs.len());
    }
    while nc > 0
        invariant
            nc <= g0.configs.len(),
            has_gadget(v, g),
            g0 == gadget_of(v, g),
            g0.id == g,
            g0.udc is None,
            fs@ == update_gadget(
                v,
                g,
                (GadgetDirV {
                    functions: g0.functions.take(0),
                    configs: cleared_upto(g0.configs, g0.configs.len() as int).take(nc as int),
                    ..g0
                }),
            ),
        decreases nc,
    {
        let ghost node_c = GadgetDirV {
            functions: g0.functions.take(0),
            configs: cleared_upto(g0.configs, g0.configs.len() as int).take(nc as int),
            ..g0
        };
        proof {
            lemma_update_view(v, g, node_c);
        }
        fs.remove_config_dir(g);
        proof {
            assert(cleared_upto(g0.configs, g0.configs.len() as int).take(nc as int).drop_last()
                =~= cleared_upto(g0.configs, g0.configs.len() as int).take(nc as int - 1));
            assert(fs@ =~~= update_gadget(
                v,
                g,
                (GadgetDirV {
                    functions: g0.functions.take(0),
                    configs: cleared_upto(g0.configs, g0.configs.len() as int).take(nc as int - 1),
                    ..g0
                }),
            ));
        }
        nc = nc - 1;
    }
    // Remove the gadget root itself.
    proof {
        lemma_update_view(
            v,
            g,
            (GadgetDirV {
                functions: g0.functions.take(0),
                configs: cleared_upto(g0.configs, g0.configs.len() as int).take(0),
                ..g0
            }),
        );
    }
    fs.remove_gadget_root(g);
    proof {
        lemma_find_gadget(v.gadgets, g);
        assert(fs@.gadgets =~~= v.gadgets.remove(find_gadget(v.gadgets, g)));
        assert(fs@ =~~= spec_remove(v, g));
    }
}

/// The configurations of `cs` with the first `n` stripped of their
/// symlinks.
pub open spec fn cleared_upto(cs: Seq<ConfigDirV>, n: int) -> Seq<ConfigDirV> {
    Seq::new(
        cs.len(),
        |j: int|
            if j < n {
                ConfigDirV { name: cs[j].name, links: Seq::empty() }
            } else {
                cs[j]
            },
    )
}

/// Unbinds and removes every gadget in the tree, oldest first.  Explicit
/// and destructive to everything under the gadget roots; the naming
/// counter is left where it stands.
pub fn remove_all(fs: &mut ConfigFs)
    ensures
        final(fs)@.gadgets.len() == 0,
        final(fs)@.next_id == old(fs)@.next_id,
{
    loop
        invariant
            fs@.next_id == old(fs)@.next_id,
        decreases fs@.gadgets.len(),
    {
        match fs.first_gadget_id() {
            None => {
                return ;
            },
            Some(g) => {
                let ghost before = fs@;
                proof {
                    lemma_find_gadget(before.gadgets, g);
                }
                fs.clear_udc(g);
                proof {
                    lemma_update_view(before, g, (GadgetDirV { udc: None, ..gadget_of(before, g) }));
                }
                teardown(fs, g);
            },
        }
    }
}

/// The function directory that registering the handle `h` creates.
pub open spec fn fnode_of(h: HandleV) -> FunctionDirV {
    FunctionDirV { driver: h.driver, instance: h.instance, attrs: h.attrs }
}

/// The function directories of a sequence of handles, in order.
pub open spec fn fnodes(hs: Seq<HandleV>) -> Seq<FunctionDirV> {
    hs.map_values(|h: HandleV| fnode_of(h))
}

/// All function directories a gadget's configurations create, in
/// creation order: configuration by configuration, handle by handle.
pub open spec fn funcs_of(cs: Seq<ConfigV>) -> Seq<FunctionDirV>
    decreases cs.len(),
{
    if cs.len() == 0 {
        Seq::empty()
    } else {
        funcs_of(cs.drop_last()) + fnodes(cs.last().handles)
    }
}

/// The configuration directory a configuration creates: its symlinks
/// follow the attachment order of its handles.
pub open spec fn cnode_of(c: ConfigV) -> ConfigDirV {
    ConfigDirV { name: c.name, links: c.handles.map_values(|h: HandleV| h.instance) }
}

/// The configuration directories, in order.
pub open spec fn cnodes(cs: Seq<ConfigV>) -> Seq<ConfigDirV> {
    cs.map_values(|c: ConfigV| cnode_of(c))
}

/// The device attribute writes binding performs first, in this order:
/// the class triple, the identifier pair, the string descriptors.
pub open spec fn device_attrs(gd: GadgetV) -> Seq<AttrV> {
    seq![
        AttrV { key: "bDeviceClass"@, value: spec_dec(gd.class.class as nat) },
        AttrV { key: "bDeviceSubClass"@, value: spec_dec(gd.class.sub_class as nat) },
        AttrV { key: "bDeviceProtocol"@, value: spec_dec(gd.class.protocol as nat) },
        AttrV { key: "idVendor"@, value: spec_dec(gd.id.vendor as nat) },
        AttrV { key: "idProduct"@, value: spec_dec(gd.id.product as nat) },
        AttrV { key: "strings/0x409/manufacturer"@, value: gd.strings.manufacturer },
        AttrV { key: "strings/0x409/product"@, value: gd.strings.product },
        AttrV { key: "strings/0x409/serialnumber"@, value: gd.strings.serial },
    ]
}

/// The optional descriptor-extension writes, performed after the
/// configurations are in place.
pub open spec fn extension_attrs(gd: GadgetV) -> Seq<AttrV> {
    (match gd.os_descriptor {
        Some(o) => seq![
            AttrV { key: "os_desc/use"@, value: "1"@ },
            AttrV { key: "os_desc/b_vendor_code"@, value: spec_dec(o.vendor_code as nat) },
            AttrV { key: "os_desc/qw_sign"@, value: o.qw_sign },
        ],
        None => Seq::empty(),
    }) + (match gd.web_usb {
        Some(w) => seq![
            AttrV { key: "webusb/use"@, value: "1"@ },
            AttrV { key: "webusb/bVendorCode"@, value: spec_dec(w.vendor_code as nat) },
            AttrV { key: "webusb/landingPage"@, value: w.landing_page },
        ],
        None => Seq::empty(),
    })
}

/// The gadget root directory that binding the descriptor `gd` under the
/// name `id` materializes, with the given binding-file content.
pub open spec fn bound_node(gd: GadgetV, id: u64, udc: Option<Seq<char>>) -> GadgetDirV {
    GadgetDirV {
        id,
        attrs: device_attrs(gd) + extension_attrs(gd),
        functions: funcs_of(gd.configs),
        configs: cnodes(gd.configs),
        udc,
    }
}

/// The tree after binding the descriptor `gd`: its node appended under
/// the next fresh name, the naming counter advanced.
pub open spec fn spec_bind(v: ConfigFsV, gd: GadgetV, udc: Option<Seq<char>>) -> ConfigFsV {
    ConfigFsV {
        gadgets: v.gadgets.push(bound_node(gd, v.next_id, udc)),
        next_id: (v.next_id + 1) as u64,
    }
}

/// No function directory in `fsq` collides with the tree `v` or with
/// another directory of `fsq`.
pub open spec fn clean_seq(v: ConfigFsV, fsq: Seq<FunctionDirV>) -> bool {
    &&& forall|m: int|
        0 <= m < fsq.len() ==> !has_function_dir(v, (#[trigger] fsq[m]).instance)
    &&& forall|m: int, l: int|
        0 <= m < l < fsq.len() ==> (#[trigger] fsq[m]).instance != (#[trigger] fsq[l]).instance
}

/// Binding `cs` into the tree `v` causes no function-directory
/// collision: every attached instance is fresh in the tree and attached
/// only once.
pub open spec fn bind_clean(v: ConfigFsV, cs: Seq<ConfigV>) -> bool {
    clean_seq(v, funcs_of(cs))
}

/// A gadget node appended to gadgets with all-different names is found
/// last.
proof fn lemma_find_gadget_push(gs: Seq<GadgetDirV>, node: GadgetDirV)
    requires
        forall|i: int| 0 <= i < gs.len() ==> (#[trigger] gs[i]).id != node.id,
    ensures
        find_gadget(gs.push(node), node.id) == gs.len(),
{
    lemma_find_gadget(gs.push(node), node.id);
    let r = find_gadget(gs.push(node), node.id);
    assert(gs.push(node)[gs.len() as int].id == node.id);
    assert(r == gs.len()) by {
        if r < gs.len() {
            assert(gs.push(node)[r] == gs[r]);
        }
    }
}

/// Facts about a tree whose last gadget is a freshly named `node`:
/// lookups by its name hit it, and replacing it replaces the last
/// element.
proof fn lemma_last_gadget(gs: Seq<GadgetDirV>, node: GadgetDirV, b: GadgetDirV, n: u64)
    requires
        forall|i: int| 0 <= i < gs.len() ==> (#[trigger] gs[i]).id != node.id,
        b.id == node.id,
    ensures
        ({
            let cur = ConfigFsV { gadgets: gs.push(node), next_id: n };
            &&& has_gadget(cur, node.id)
            &&& find_gadget(cur.gadgets, node.id) == gs.len()
            &&& gadget_of(cur, node.id) == node
            &&& update_gadget(cur, node.id, b) == (ConfigFsV { gadgets: gs.push(b), next_id: n })
        }),
{
    lemma_find_gadget_push(gs, node);
    let cur = ConfigFsV { gadgets: gs.push(node), next_id: n };
    assert(update_gadget(cur, node.id, b) =~~= (ConfigFsV { gadgets: gs.push(b), next_id: n }));
}

/// A function directory is owned somewhere in `gs.push(node)` exactly
/// when it is owned in `gs` or sits in `node`.
proof fn lemma_owner_push(gs: Seq<GadgetDirV>, node: GadgetDirV, inst: u64)
    ensures
        (find_owner(gs.push(node), inst) >= 0) <==> (find_owner(gs, inst) >= 0 || find_function(
            node.functions,
            inst,
        ) >= 0),
{
    lemma_find_owner(gs.push(node), inst);
    lemma_find_owner(gs, inst);
    let r = find_owner(gs.push(node), inst);
    if r >= 0 {
        if r < gs.len() {
            assert(gs.push(node)[r] == gs[r]);
            assert(find_owner(gs, inst) >= 0) by {
                if find_owner(gs, inst) == -1 {
                    assert(find_function(gs[r].functions, inst) < 0);
                }
            }
        } else {
            assert(gs.push(node)[r] == node);
        }
    } else {
        assert(find_function(gs.push(node)[gs.len() as int].functions, inst) < 0);
        if find_owner(gs, inst) >= 0 {
            let o = find_owner(gs, inst);
            assert(gs.push(node)[o] == gs[o]);
            assert(find_function(gs.push(node)[o].functions, inst) < 0);
        }
    }
}

/// Walking one more configuration extends the created function
/// directories by that configuration's handles.
proof fn lemma_funcs_of_take_step(cs: Seq<ConfigV>, ci: int)
    requires
        0 <= ci < cs.len(),
    ensures
        funcs_of(cs.take(ci + 1)) == funcs_of(cs.take(ci)) + fnodes(cs[ci].handles),
{
    assert(cs.take(ci + 1).drop_last() =~= cs.take(ci));
    assert(cs.take(ci + 1).last() == cs[ci]);
}

/// The directories created up to handle `hi` of configuration `ci` form
/// a prefix of all directories the walk creates, and the next handle's
/// directory comes right after them.
proof fn lemma_partial_prefix(cs: Seq<ConfigV>, ci: int, hi: int)
    requires
        0 <= ci < cs.len(),
        0 <= hi <= cs[ci].handles.len(),
    ensures
        ({
            let p = funcs_of(cs.take(ci)) + fnodes(cs[ci].handles.take(hi));
            &&& p.len() <= funcs_of(cs).len()
            &&& forall|m: int| 0 <= m < p.len() ==> funcs_of(cs)[m] == p[m]
            &&& hi < cs[ci].handles.len() ==> p.len() < funcs_of(cs).len() && funcs_of(cs)[p.len() as int]
                == fnode_of(cs[ci].handles[hi])
        }),
    decreases cs.len(),
{
    let p = funcs_of(cs.take(ci)) + fnodes(cs[ci].handles.take(hi));
    if ci == cs.len() - 1 {
        assert(cs.take(ci) =~= cs.drop_last());
        assert(funcs_of(cs) == funcs_of(cs.take(ci)) + fnodes(cs[ci].handles)) by {
            assert(cs.last() == cs[ci]);
        }
        assert(forall|j: int|
            0 <= j < hi ==> fnodes(cs[ci].handles.take(hi))[j] == fnodes(cs[ci].handles)[j]);
        assert(forall|m: int| 0 <= m < p.len() ==> funcs_of(cs)[m] == p[m]);
        if hi < cs[ci].handles.len() {
            assert(funcs_of(cs)[p.len() as int] == fnodes(cs[ci].handles)[hi]);
        }
    } else {
        lemma_partial_prefix(cs.drop_last(), ci, hi);
        assert(cs.drop_last().take(ci) =~= cs.take(ci));
        assert(cs.drop_last()[ci] == cs[ci]);
        let q = funcs_of(cs.drop_last());
        assert(forall|m: int| 0 <= m < q.len() ==> funcs_of(cs)[m] == q[m]);
    }
}

/// A walk creates no function directory at all exactly when every
/// configuration is empty.
proof fn lemma_funcs_of_all_empty(cs: Seq<ConfigV>)
    ensures
        (funcs_of(cs).len() == 0) <==> (forall|j: int|
            0 <= j < cs.len() ==> (#[trigger] cs[j]).handles.len() == 0),
    decreases cs.len(),
{
    if cs.len() > 0 {
        lemma_funcs_of_all_empty(cs.drop_last());
        assert(cs.last() == cs[cs.len() - 1]);
        assert(forall|j: int| 0 <= j < cs.len() - 1 ==> cs.drop_last()[j] == cs[j]);
        if funcs_of(cs).len() == 0 {
            assert(forall|j: int|
                0 <= j < cs.len() ==> (#[trigger] cs[j]).handles.len() == 0) by {
                assert(fnodes(cs.last().handles).len() == 0);
                assert(funcs_of(cs.drop_last()).len() == 0);
            }
        }
    }
}

/// Binding, detaching and removing a gadget leaves the tree's gadgets
/// exactly as they were: the whole subtree is gone again.
pub proof fn lemma_lifecycle_clean(v: ConfigFsV, gd: GadgetV, udc: Seq<char>)
    requires
        ids_bounded(v),
        v.next_id < u64::MAX,
    ensures
        spec_remove(spec_detach(spec_bind(v, gd, Some(udc)), v.next_id), v.next_id).gadgets
            == v.gadgets,
{
    let node = bound_node(gd, v.next_id, Some(udc));
    let node2 = GadgetDirV { udc: None, ..node };
    let n = (v.next_id + 1) as u64;
    assert(forall|i: int| 0 <= i < v.gadgets.len() ==> (#[trigger] v.gadgets[i]).id != node.id);
    lemma_last_gadget(v.gadgets, node, node2, n);
    let b = spec_bind(v, gd, Some(udc));
    let d = spec_detach(b, v.next_id);
    assert(d == (ConfigFsV { gadgets: v.gadgets.push(node2), next_id: n })) by {
        assert((GadgetDirV { udc: None, ..gadget_of(b, v.next_id) }) == node2);
    }
    lemma_find_gadget_push(v.gadgets, node2);
    assert(spec_remove(d, v.next_id).gadgets =~= v.gadgets);
}

/// Writing an attribute of a registered function and reading the same
/// file back yields exactly the value written.
pub proof fn lemma_function_attr_roundtrip(
    v: ConfigFsV,
    inst: u64,
    key: Seq<char>,
    value: Seq<char>,
)
    requires
        has_function_dir(v, inst),
    ensures
        ({
            let v1 = crate::configfs::spec_write_function_attr(v, inst, key, value);
            let o = find_owner(v1.gadgets, inst);
            &&& o == find_owner(v.gadgets, inst)
            &&& crate::configfs::spec_read(
                v1.gadgets[o].functions[find_function(v1.gadgets[o].functions, inst)].attrs,
                key,
            ) == Some(value)
        }),
{
    let oi = find_owner(v.gadgets, inst);
    let g0 = v.gadgets[oi];
    let fi = find_function(g0.functions, inst);
    let f0 = g0.functions[fi];
    let v1 = crate::configfs::spec_write_function_attr(v, inst, key, value);
    lemma_find_owner(v.gadgets, inst);
    lemma_find_function(g0.functions, inst);
    lemma_find_owner(v1.gadgets, inst);
    let o1 = find_owner(v1.gadgets, inst);
    assert(find_function(v1.gadgets[oi].functions, inst) >= 0) by {
        lemma_find_function(v1.gadgets[oi].functions, inst);
        if find_function(v1.gadgets[oi].functions, inst) == -1 {
            assert(v1.gadgets[oi].functions[fi].instance == inst);
        }
    }
    assert(o1 == oi) by {
        if o1 < oi {
            assert(v1.gadgets[o1] == v.gadgets[o1]);
            assert(find_function(v.gadgets[o1].functions, inst) < 0);
        }
        if o1 > oi {
            assert(find_function(v1.gadgets[oi].functions, inst) < 0);
        }
    }
    let fs1 = v1.gadgets[oi].functions;
    lemma_find_function(fs1, inst);
    let f1 = find_function(fs1, inst);
    assert(f1 == fi) by {
        assert(fs1[fi].instance == inst);
        if f1 < fi {
            assert(fs1[f1] == g0.functions[f1]);
            assert(g0.functions[f1].instance != inst);
        }
        if f1 > fi {
            assert(fs1[fi].instance != inst);
        }
    }
    assert(fs1[fi].attrs == f0.attrs.push(AttrV { key, value }));
    assert(fs1[fi].attrs.last() == (AttrV { key, value }));
}

/// Appends each attribute write of `attrs`, in order, to the gadget
/// root's write log.
fn append_gadget_attrs(fs: &mut ConfigFs, g: u64, attrs: &Vec<Attr>)
    requires
        has_gadget(old(fs)@, g),
    ensures
        final(fs)@ == update_gadget(
            old(fs)@,
            g,
            (GadgetDirV {
                attrs: gadget_of(old(fs)@, g).attrs + attrs@.map_values(|a: Attr| a@),
                ..gadget_of(old(fs)@, g)
            }),
        ),
{
    let ghost v = old(fs)@;
    let ghost g0 = gadget_of(v, g);
    let ghost views = attrs@.map_values(|a: Attr| a@);
    proof {
        lemma_find_gadget(v.gadgets, g);
        assert(g0.attrs + views.take(0) =~= g0.attrs);
        assert(fs@ =~~= update_gadget(
            v,
            g,
            (GadgetDirV { attrs: g0.attrs + views.take(0), ..g0 }),
        ));
    }
    let mut i: usize = 0;
    while i < attrs.len()
        invariant
            i <= attrs@.len(),
            views == attrs@.map_values(|a: Attr| a@),
            views.len() == attrs@.len(),
            has_gadget(v, g),
            g0 == gadget_of(v, g),
            g0.id == g,
            fs@ == update_gadget(
                v,
                g,
                (GadgetDirV { attrs: g0.attrs + views.take(i as int), ..g0 }),
            ),
        decreases attrs@.len() - i,
    {
        let ghost node_i = GadgetDirV { attrs: g0.attrs + views.take(i as int), ..g0 };
        proof {
            lemma_update_view(v, g, node_i);
        }
        fs.write_gadget_attr(g, attrs[i].key.as_str(), attrs[i].value.clone());
        proof {
            assert(views[i as int] == attrs@[i as int]@);
            assert((g0.attrs + views.take(i as int)).push(views[i as int]) =~= g0.attrs
                + views.take(i as int + 1));
            assert(fs@ =~~= update_gadget(
                v,
                g,
                (GadgetDirV { attrs: g0.attrs + views.take(i as int + 1), ..g0 }),
            ));
        }
        i += 1;
    }
    proof {
        assert(views.take(views.len() as int) =~= views);
        assert(fs@ =~~= update_gadget(v, g, (GadgetDirV { attrs: g0.attrs + views, ..g0 })));
    }
}

/// The gadget node as it stands when the walk is about to enter
/// configuration `ci`.
spec fn outer_node(gd: GadgetV, id: u64, ci: int) -> GadgetDirV {
    GadgetDirV {
        id,
        attrs: device_attrs(gd),
        functions: funcs_of(gd.configs.take(ci)),
        configs: cnodes(gd.configs.take(ci)),
        udc: None,
    }
}

/// The gadget node as it stands when the walk is about to handle handle
/// `hi` of configuration `ci`, whose directory already exists.
spec fn inner_node(gd: GadgetV, id: u64, ci: int, hi: int) -> GadgetDirV {
    GadgetDirV {
        id,
        attrs: device_attrs(gd),
        functions: funcs_of(gd.configs.take(ci)) + fnodes(gd.configs[ci].handles.take(hi)),
        configs: cnodes(gd.configs.take(ci)).push(
            ConfigDirV {
                name: gd.configs[ci].name,
                links: gd.configs[ci].handles.take(hi).map_values(|h: HandleV| h.instance),
            },
        ),
        udc: None,
    }
}

/// Why a binding attempt failed.
#[derive(Debug)]
pub enum BindError {
    /// No configuration has an attached function; the kernel rejects
    /// empty gadgets, so nothing was created and no controller write
    /// happened.
    NoFunctions,
    /// Two attached handles name the same function instance, or an
    /// instance is already registered in the tree; everything this
    /// attempt had created was rolled back.
    FunctionConflict,
    /// The controller is claimed by another gadget.  The fully
    /// constructed tree is left in place, unbound: the registration
    /// inside can be bound to another controller or removed.
    UdcBusy(Registration),
}

impl Gadget {
    /// The device attribute writes, in the order binding performs them.
    fn device_writes(&self) -> (r: Vec<Attr>)
        ensures
            r@.map_values(|a: Attr| a@) == device_attrs(self@),
    {
        let mut w: Vec<Attr> = Vec::new();
        w.push(Attr { key: "bDeviceClass".to_owned(), value: dec_u64(self.class.class as u64) });
        w.push(
            Attr { key: "bDeviceSubClass".to_owned(), value: dec_u64(self.class.sub_class as u64) },
        );
        w.push(
            Attr { key: "bDeviceProtocol".to_owned(), value: dec_u64(self.class.protocol as u64) },
        );
        w.push(Attr { key: "idVendor".to_owned(), value: dec_u64(self.id.vendor as u64) });
        w.push(Attr { key: "idProduct".to_owned(), value: dec_u64(self.id.product as u64) });
        w.push(
            Attr {
                key: "strings/0x409/manufacturer".to_owned(),
                value: self.strings.manufacturer.clone(),
            },
        );
        w.push(
            Attr { key: "strings/0x409/product".to_owned(), value: self.strings.product.clone() },
        );
        w.push(
            Attr {
                key: "strings/0x409/serialnumber".to_owned(),
                value: self.strings.serial.clone(),
            },
        );
        proof {
            assert(w@.map_values(|a: Attr| a@) =~= device_attrs(self@));
        }
        w
    }

    /// The optional descriptor-extension writes, in order.
    fn extension_writes(&self) -> (r: Vec<Attr>)
        ensures
            r@.map_values(|a: Attr| a@) == extension_attrs(self@),
    {
        let mut w: Vec<Attr> = Vec::new();
        match &self.os_descriptor {
            Some(o) => {
                w.push(Attr { key: "os_desc/use".to_owned(), value: "1".to_owned() });
                w.push(
                    Attr {
                        key: "os_desc/b_vendor_code".to_owned(),
                        value: dec_u64(o.vendor_code as u64),
                    },
                );
                w.push(Attr { key: "os_desc/qw_sign".to_owned(), value: o.qw_sign.clone() });
            },
            None => {},
        }
        match &self.web_usb {
            Some(u) => {
                w.push(Attr { key: "webusb/use".to_owned(), value: "1".to_owned() });
                w.push(
                    Attr {
                        key: "webusb/bVendorCode".to_owned(),
                        value: dec_u64(u.vendor_code as u64),
                    },
                );
                w.push(Attr { key: "webusb/landingPage".to_owned(), value: u.landing_page.clone() });
            },
            None => {},
        }
        proof {
            assert(w@.map_values(|a: Attr| a@) =~= extension_attrs(self@));
        }
        w
    }

    /// Materializes the gadget and binds it to the controller: creates
    /// the root directory, writes the device attributes, then per
    /// configuration its directory and — per handle, in attachment
    /// order — the function's registration followed by its symlink,
    /// then the descriptor extensions, and last the controller's name.
    ///
    /// A gadget with no attached function is rejected before anything is
    /// created.  A function-instance collision aborts the attempt and
    /// rolls every created directory back.  A busy controller leaves the
    /// constructed tree in place, unbound, inside the error.
    pub fn bind(self, udc: &Udc, fs: &mut ConfigFs) -> (r: Result<Registration, BindError>)
        requires
            old(fs)@.next_id < u64::MAX,
            ids_bounded(old(fs)@),
        ensures
            ids_bounded(final(fs)@),
            ({
                let v = old(fs)@;
                let gd = self@;
                if funcs_of(gd.configs).len() == 0 {
                    &&& r matches Err(BindError::NoFunctions)
                    &&& final(fs)@ == v
                } else if !bind_clean(v, gd.configs) {
                    &&& r matches Err(BindError::FunctionConflict)
                    &&& final(fs)@ == v
                } else if udc_in_use(v, udc@) {
                    &&& r matches Err(BindError::UdcBusy(reg)) && reg@ == (RegistrationV {
                        gadget: v.next_id,
                        udc: udc@,
                    })
                    &&& final(fs)@ == spec_bind(v, gd, None)
                } else {
                    &&& r matches Ok(reg) && reg@ == (RegistrationV {
                        gadget: v.next_id,
                        udc: udc@,
                    })
                    &&& final(fs)@ == spec_bind(v, gd, Some(udc@))
                }
            }),
    {
        let ghost v = fs@;
        let ghost gd = self@;
        // Reject an empty gadget before touching the tree.
        let mut any = false;
        let mut ci: usize = 0;
        while ci < self.configs.len()
            invariant
                ci <= self.configs@.len(),
                gd == self@,
                gd.configs.len() == self.configs@.len(),
                any == exists|j: int|
                    0 <= j < ci && (#[trigger] gd.configs[j]).handles.len() > 0,
            decreases self.configs@.len() - ci,
        {
            proof {
                assert(gd.configs[ci as int] == self.configs@[ci as int]@);
            }
            if self.configs[ci].handles.len() > 0 {
                any = true;
                proof {
                    assert(gd.configs[ci as int].handles.len() > 0);
                }
            }
            ci += 1;
        }
        proof {
            lemma_funcs_of_all_empty(gd.configs);
        }
        if !any {
            return Err(BindError::NoFunctions);
        }
        // Create the root directory and write the device attributes.
        let g = fs.create_gadget();
        proof {
            assert(forall|i: int|
                0 <= i < v.gadgets.len() ==> (#[trigger] v.gadgets[i]).id != g);
            lemma_last_gadget(v.gadgets, empty_gadget(g), outer_node(gd, g, 0), (v.next_id + 1) as u64);
        }
        let dw = self.device_writes();
        append_gadget_attrs(fs, g, &dw);
        proof {
            assert(empty_gadget(g).attrs + dw@.map_values(|a: Attr| a@) =~= device_attrs(gd));
            assert((GadgetDirV {
                attrs: empty_gadget(g).attrs + dw@.map_values(|a: Attr| a@),
                ..empty_gadget(g)
            }) =~~= outer_node(gd, g, 0));
            assert(funcs_of(gd.configs.take(0)) =~= Seq::<FunctionDirV>::empty());
            assert(cnodes(gd.configs.take(0)) =~= Seq::<ConfigDirV>::empty());
            assert(fs@ == (ConfigFsV {
                gadgets: v.gadgets.push(outer_node(gd, g, 0)),
                next_id: (v.next_id + 1) as u64,
            }));
        }
        // Walk the configurations: directory, then per handle its
        // registration followed by its symlink.
        let mut ci: usize = 0;
        while ci < self.configs.len()
            invariant
                ci <= self.configs@.len(),
                gd == self@,
                gd.configs.len() == self.configs@.len(),
                v == old(fs)@,
                g == v.next_id,
                v.next_id < u64::MAX,
                ids_bounded(v),
                forall|i: int| 0 <= i < v.gadgets.len() ==> (#[trigger] v.gadgets[i]).id != g,
                funcs_of(gd.configs).len() > 0,
                clean_seq(v, funcs_of(gd.configs.take(ci as int))),
                fs@ == (ConfigFsV {
                    gadgets: v.gadgets.push(outer_node(gd, g, ci as int)),
                    next_id: (v.next_id + 1) as u64,
                }),
            decreases self.configs@.len() - ci,
        {
            proof {
                assert(gd.configs[ci as int] == self.configs@[ci as int]@);
                lemma_last_gadget(
                    v.gadgets,
                    outer_node(gd, g, ci as int),
                    inner_node(gd, g, ci as int, 0),
                    (v.next_id + 1) as u64,
                );
            }
            fs.create_config(g, self.configs[ci].name.as_str());
            proof {
                assert(fnodes(gd.configs[ci as int].handles.take(0)) =~= Seq::<
                    FunctionDirV,
                >::empty());
                assert(gd.configs[ci as int].handles.take(0).map_values(|h: HandleV| h.instance)
                    =~= Seq::<u64>::empty());
                assert(outer_node(gd, g, ci as int).functions + fnodes(
                    gd.configs[ci as int].handles.take(0),
                ) =~= outer_node(gd, g, ci as int).functions);
                assert((GadgetDirV {
                    configs: outer_node(gd, g, ci as int).configs.push(
                        ConfigDirV { name: gd.configs[ci as int].name, links: Seq::empty() },
                    ),
                    ..outer_node(gd, g, ci as int)
                }) =~~= inner_node(gd, g, ci as int, 0));
                assert(fs@ == (ConfigFsV {
                    gadgets: v.gadgets.push(inner_node(gd, g, ci as int, 0)),
                    next_id: (v.next_id + 1) as u64,
                }));
            }
            let mut hi: usize = 0;
            while hi < self.configs[ci].handles.len()
                invariant
                    ci < self.configs@.len(),
                    hi <= self.configs@[ci as int].handles@.len(),
                    gd == self@,
                    gd.configs.len() == self.configs@.len(),
                    gd.configs[ci as int] == self.configs@[ci as int]@,
                    gd.configs[ci as int].handles.len() == self.configs@[ci as int].handles@.len(),
                    v == old(fs)@,
                    g == v.next_id,
                    v.next_id < u64::MAX,
                    ids_bounded(v),
                    forall|i: int| 0 <= i < v.gadgets.len() ==> (#[trigger] v.gadgets[i]).id != g,
                    funcs_of(gd.configs).len() > 0,
                    clean_seq(
                        v,
                        funcs_of(gd.configs.take(ci as int)) + fnodes(
                            gd.configs[ci as int].handles.take(hi as int),
                        ),
                    ),
                    fs@ == (ConfigFsV {
                        gadgets: v.gadgets.push(inner_node(gd, g, ci as int, hi as int)),
                        next_id: (v.next_id + 1) as u64,
                    }),
                decreases self.configs@[ci as int].handles@.len() - hi,
            {
                let ghost part = funcs_of(gd.configs.take(ci as int)) + fnodes(
                    gd.configs[ci as int].handles.take(hi as int),
                );
                let ghost h = gd.configs[ci as int].handles[hi as int];
                proof {
                    assert(h == self.configs@[ci as int].handles@[hi as int]@);
                    lemma_last_gadget(
                        v.gadgets,
                        inner_node(gd, g, ci as int, hi as int),
                        inner_node(gd, g, ci as int, hi as int),
                        (v.next_id + 1) as u64,
                    );
                    lemma_owner_push(v.gadgets, inner_node(gd, g, ci as int, hi as int), h.instance);
                    lemma_find_function(part, h.instance);
                }
                let res = self.configs[ci].handles[hi].register(fs, g);
                match res {
                    Ok(_) => {
                        proof {
                            let cur = ConfigFsV {
                                gadgets: v.gadgets.push(inner_node(gd, g, ci as int, hi as int)),
                                next_id: (v.next_id + 1) as u64,
                            };
                            let fnew = FunctionDirV {
                                driver: h.driver,
                                instance: h.instance,
                                attrs: h.attrs,
                            };
                            assert(fnew == fnode_of(h));
                            let node1 = GadgetDirV {
                                functions: part.push(fnew),
                                ..inner_node(gd, g, ci as int, hi as int)
                            };
                            lemma_last_gadget(
                                v.gadgets,
                                inner_node(gd, g, ci as int, hi as int),
                                node1,
                                (v.next_id + 1) as u64,
                            );
                            assert(fs@ == (ConfigFsV {
                                gadgets: v.gadgets.push(node1),
                                next_id: (v.next_id + 1) as u64,
                            }));
                            // the new directory is found in the node
                            lemma_find_function(part.push(fnew), h.instance);
                            assert(find_function(node1.functions, h.instance) >= 0) by {
                                if find_function(part.push(fnew), h.instance) == -1 {
                                    assert(part.push(fnew)[part.len() as int].instance
                                        == h.instance);
                                }
                            }
                            lemma_last_gadget(
                                v.gadgets,
                                node1,
                                inner_node(gd, g, ci as int, hi as int + 1),
                                (v.next_id + 1) as u64,
                            );
                        }
                        let target = self.configs[ci].handles[hi].instance();
                        fs.create_symlink(g, ci, target);
                        proof {
                            assert(fnodes(gd.configs[ci as int].handles.take(hi as int)).push(
                                fnode_of(h),
                            ) =~= fnodes(gd.configs[ci as int].handles.take(hi as int + 1)));
                            assert(gd.configs[ci as int].handles.take(hi as int).map_values(
                                |x: HandleV| x.instance,
                            ).push(h.instance) =~= gd.configs[ci as int].handles.take(
                                hi as int + 1,
                            ).map_values(|x: HandleV| x.instance));
                            assert(fs@.gadgets =~~= v.gadgets.push(
                                inner_node(gd, g, ci as int, hi as int + 1),
                            ));
                            assert(fs@ == (ConfigFsV {
                                gadgets: v.gadgets.push(inner_node(gd, g, ci as int, hi as int + 1)),
                                next_id: (v.next_id + 1) as u64,
                            }));
                            // the walked prefix stays collision-free
                            assert(clean_seq(
                                v,
                                funcs_of(gd.configs.take(ci as int)) + fnodes(
                                    gd.configs[ci as int].handles.take(hi as int + 1),
                                ),
                            )) by {
                                assert(part.push(fnode_of(h)) =~= funcs_of(
                                    gd.configs.take(ci as int),
                                ) + fnodes(gd.configs[ci as int].handles.take(hi as int + 1)));
                                assert(!has_function_dir(v, h.instance));
                                assert(forall|m: int|
                                    0 <= m < part.len() ==> (#[trigger] part[m]).instance
                                        != h.instance);
                            }
                        }
                        hi += 1;
                    },
                    Err(_) => {
                        proof {
                            // the rejected instance collides: the walk is
                            // not clean
                            lemma_partial_prefix(gd.configs, ci as int, hi as int);
                            assert(!bind_clean(v, gd.configs)) by {
                                assert(funcs_of(gd.configs)[part.len() as int] == fnode_of(h));
                                if has_function_dir(v, h.instance) {
                                    assert(!clean_seq(v, funcs_of(gd.configs)));
                                } else {
                                    let q = find_function(part, h.instance);
                                    assert(0 <= q < part.len());
                                    assert(part[q].instance == h.instance);
                                    assert(funcs_of(gd.configs)[q] == part[q]);
                                    assert(!clean_seq(v, funcs_of(gd.configs)));
                                }
                            }
                            lemma_last_gadget(
                                v.gadgets,
                                inner_node(gd, g, ci as int, hi as int),
                                inner_node(gd, g, ci as int, hi as int),
                                (v.next_id + 1) as u64,
                            );
                        }
                        teardown(fs, g);
                        proof {
                            assert(fs@.gadgets =~= v.gadgets);
                        }
                        fs.retire_last_id();
                        proof {
                            assert(fs@ =~~= v);
                        }
                        return Err(BindError::FunctionConflict);
                    },
                }
            }
            proof {
                lemma_funcs_of_take_step(gd.configs, ci as int);
                assert(gd.configs[ci as int].handles.take(
                    gd.configs[ci as int].handles.len() as int,
                ) =~= gd.configs[ci as int].handles);
                assert(gd.configs.take(ci as int + 1).drop_last() =~= gd.configs.take(ci as int));
                assert(cnodes(gd.configs.take(ci as int)).push(
                    cnode_of(gd.configs[ci as int]),
                ) =~= cnodes(gd.configs.take(ci as int + 1)));
                assert(inner_node(
                    gd,
                    g,
                    ci as int,
                    gd.configs[ci as int].handles.len() as int,
                ) =~~= outer_node(gd, g, ci as int + 1));
                assert(fs@ == (ConfigFsV {
                    gadgets: v.gadgets.push(outer_node(gd, g, ci as int + 1)),
                    next_id: (v.next_id + 1) as u64,
                }));
            }
            ci += 1;
        }
        // The whole walk went through: no collision anywhere.
        proof {
            assert(gd.configs.take(gd.configs.len() as int) =~= gd.configs);
            assert(bind_clean(v, gd.configs));
            lemma_last_gadget(
                v.gadgets,
                outer_node(gd, g, gd.configs.len() as int),
                outer_node(gd, g, gd.configs.len() as int),
                (v.next_id + 1) as u64,
            );
        }
        // Write the optional descriptor extensions.
        let ew = self.extension_writes();
        append_gadget_attrs(fs, g, &ew);
        proof {
            assert((GadgetDirV {
                attrs: outer_node(gd, g, gd.configs.len() as int).attrs + ew@.map_values(
                    |a: Attr| a@,
                ),
                ..outer_node(gd, g, gd.configs.len() as int)
            }) =~~= bound_node(gd, g, None));
            assert(fs@ == (ConfigFsV {
                gadgets: v.gadgets.push(bound_node(gd, g, None)),
                next_id: (v.next_id + 1) as u64,
            }));
            lemma_last_gadget(
                v.gadgets,
                bound_node(gd, g, None),
                bound_node(gd, g, Some(udc@)),
                (v.next_id + 1) as u64,
            );
        }
        // Claim the controller: the final write that puts the gadget on
        // the bus.
        let name = udc.name();
        let claimed = fs.udc_claimed(&name);
        proof {
            assert(udc_in_use(fs@, udc@) == udc_in_use(v, udc@)) by {
                if udc_in_use(v, udc@) {
                    let i = choose|i: int|
                        0 <= i < v.gadgets.len() && (#[trigger] v.gadgets[i]).udc == Some(udc@);
                    assert(fs@.gadgets[i].udc == Some(udc@));
                }
                if udc_in_use(fs@, udc@) {
                    let i = choose|i: int|
                        0 <= i < fs@.gadgets.len() && (#[trigger] fs@.gadgets[i]).udc == Some(
                            udc@,
                        );
                    assert(i < v.gadgets.len());
                    assert(v.gadgets[i].udc == Some(udc@));
                }
            }
        }
        if claimed {
            let reg = Registration { gadget: g, udc: name };
            proof {
                assert(fs@ == spec_bind(v, gd, None));
                assert(ids_bounded(fs@));
            }
            return Err(BindError::UdcBusy(reg));
        }
        let held = name.clone();
        fs.set_udc(g, name);
        proof {
            assert(fs@ == spec_bind(v, gd, Some(udc@)));
            assert(ids_bounded(fs@));
        }
        Ok(Registration { gadget: g, udc: held })
    }
}

/// A successfully materialized gadget: holds the name of its root
/// directory and the controller it was last asked to bind.  Detaching
/// leaves the tree intact for re-binding; removing consumes the
/// registration and deletes the subtree.
#[derive(Debug)]
pub struct Registration {
    gadget: u64,
    udc: String,
}

/// Mathematical image of a registration.
#[verifier::ext_equal]
pub ghost struct RegistrationV {
    pub gadget: u64,
    pub udc: Seq<char>,
}

impl View for Registration {
    type V = RegistrationV;

    closed spec fn view(&self) -> RegistrationV {
        RegistrationV { gadget: self.gadget, udc: self.udc@ }
    }
}

/// Why a removal was refused; the registration comes back untouched.
#[derive(Debug)]
pub struct RemoveError {
    pub error: Error,
    pub registration: Registration,
}

impl Registration {
    /// The name of the gadget's root directory.
    pub fn gadget_id(&self) -> (r: u64)
        ensures
            r == self@.gadget,
    {
        self.gadget
    }

    /// The controller name this registration last asked to bind.
    pub fn udc_name(&self) -> (r: String)
        ensures
            r@ == self@.udc,
    {
        self.udc.clone()
    }

    /// Binds the (detached, but fully materialized) gadget to a
    /// controller by writing its name into the binding file.  Refused if
    /// the gadget is already bound or the controller is claimed by
    /// another gadget; the tree is untouched in either case.
    pub fn bind(&mut self, udc: &Udc, fs: &mut ConfigFs) -> (r: Result<(), Error>)
        ensures
            final(self)@.gadget == old(self)@.gadget,
            ({
                let v = old(fs)@;
                let g = old(self)@.gadget;
                if !has_gadget(v, g) {
                    &&& r == Err::<(), Error>(Error::NotFound)
                    &&& final(fs)@ == v
                    &&& final(self)@ == old(self)@
                } else if gadget_of(v, g).udc is Some {
                    &&& r == Err::<(), Error>(Error::AlreadyBound)
                    &&& final(fs)@ == v
                    &&& final(self)@ == old(self)@
                } else if udc_in_use(v, udc@) {
                    &&& r == Err::<(), Error>(Error::UdcBusy)
                    &&& final(fs)@ == v
                    &&& final(self)@ == old(self)@
                } else {
                    &&& r == Ok::<(), Error>(())
                    &&& final(fs)@ == update_gadget(
                        v,
                        g,
                        (GadgetDirV { udc: Some(udc@), ..gadget_of(v, g) }),
                    )
                    &&& final(self)@.udc == udc@
                }
            }),
    {
        if !fs.contains_gadget(self.gadget) {
            return Err(Error::NotFound);
        }
        if fs.gadget_bound(self.gadget) {
            return Err(Error::AlreadyBound);
        }
        let name = udc.name();
        if fs.udc_claimed(&name) {
            return Err(Error::UdcBusy);
        }
        self.udc = udc.name();
        fs.set_udc(self.gadget, name);
        Ok(())
    }

    /// Empties the gadget's controller-binding file, unbinding it from
    /// the bus but leaving the whole tree intact for re-binding.
    /// Detaching an already detached gadget is a no-op, not an error.
    pub fn detach(&self, fs: &mut ConfigFs) -> (r: Result<(), Error>)
        ensures
            final(fs)@ == spec_detach(old(fs)@, self@.gadget),
            r == Ok::<(), Error>(()) <==> has_gadget(old(fs)@, self@.gadget),
    {
        if fs.contains_gadget(self.gadget) {
            fs.clear_udc(self.gadget);
            Ok(())
        } else {
            Err(Error::NotFound)
        }
    }

    /// Removes the gadget's whole subtree.  It must have been detached
    /// first: removal of a bound gadget is refused and returns the
    /// registration untouched.
    pub fn remove(self, fs: &mut ConfigFs) -> (r: Result<(), RemoveError>)
        ensures
            ({
                let v = old(fs)@;
                let g = self@.gadget;
                if !has_gadget(v, g) {
                    &&& r matches Err(e) && e.error == Error::NotFound && e.registration@ == self@
                    &&& final(fs)@ == v
                } else if gadget_of(v, g).udc is Some {
                    &&& r matches Err(e) && e.error == Error::StillBound && e.registration@
                        == self@
                    &&& final(fs)@ == v
                } else {
                    &&& r matches Ok(u) && u == ()
                    &&& final(fs)@ == spec_remove(v, g)
                }
            }),
    {
        if !fs.contains_gadget(self.gadget) {
            return Err(RemoveError { error: Error::NotFound, registration: self });
        }
        if fs.gadget_bound(self.gadget) {
            return Err(RemoveError { error: Error::StillBound, registration: self });
        }
        teardown(fs, self.gadget);
        Ok(())
    }
}

} // verus!
