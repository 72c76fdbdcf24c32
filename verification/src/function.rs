//! The generic function layer: registration status, function directories,
//! the capability contract that every function kind implements, and the
//! type-erased handle that configurations accept.

use vstd::prelude::*;

use crate::configfs::{
    find_function, find_gadget, find_owner, gadget_of, has_function_dir, has_gadget, lemma_find_function,
    lemma_find_gadget, lemma_find_owner, update_gadget, Attr, AttrV, ConfigFs, ConfigFsV,
    FunctionDirV, GadgetDirV,
};
use crate::Error;

pub mod midi;

verus! {

/// Where a function instance stands in its lifecycle.
#[derive(Clone, Copy, Debug, PartialEq, Eq, Structural)]
pub enum Status {
    /// No directory exists for the instance yet.
    Unregistered,
    /// Its directory exists, but the owning gadget is not bound to a
    /// controller.
    Registered,
    /// The owning gadget is bound to a controller.
    Bound,
}

/// The status of the function instance `instance`, read off the tree.
pub open spec fn spec_status(v: ConfigFsV, instance: u64) -> Status {
    let o = find_owner(v.gadgets, instance);
    if o < 0 {
        Status::Unregistered
    } else if v.gadgets[o].udc is Some {
        Status::Bound
    } else {
        Status::Registered
    }
}

/// Names the directory dedicated to one function instance:
/// `functions/<driver>.<instance>` under the owning gadget root.
#[derive(Clone, Debug)]
pub struct FunctionDir {
    /// The driver-type name the kernel binds by.
    pub driver: String,
    /// The instance number that keys the directory.
    pub instance: u64,
}

impl FunctionDir {
    /// The current lifecycle status of this function instance.
    pub fn status(&self, fs: &ConfigFs) -> (r: Status)
        ensures
            r == spec_status(fs@, self.instance),
    {
        match fs.owner_bound(self.instance) {
            None => Status::Unregistered,
            Some(true) => Status::Bound,
            Some(false) => Status::Registered,
        }
    }

    /// A scoped attribute write into this function's directory.  It fails
    /// if the directory does not exist yet, and is rejected defensively
    /// once the owning gadget is bound: the kernel no longer honours such
    /// writes.
    pub fn write(&self, fs: &mut ConfigFs, key: &str, value: &str) -> (r: Result<(), Error>)
        ensures
            ({
                let v = old(fs)@;
                let o = find_owner(v.gadgets, self.instance);
                if o < 0 {
                    r == Err::<(), Error>(Error::NotFound) && final(fs)@ == v
                } else if v.gadgets[o].udc is Some {
                    r == Err::<(), Error>(Error::AlreadyBound) && final(fs)@ == v
                } else {
                    r == Ok::<(), Error>(()) && final(fs)@ == crate::configfs::spec_write_function_attr(
                        v,
                        self.instance,
                        key@,
                        value@,
                    )
                }
            }),
    {
        match fs.owner_bound(self.instance) {
            None => Err(Error::NotFound),
            Some(true) => Err(Error::AlreadyBound),
            Some(false) => {
                fs.write_function_attr(self.instance, key, value.to_owned());
                Ok(())
            },
        }
    }
}

/// The capability contract of a function kind: a driver-type name used as
/// the kernel binding name, the function's directory, and the ordered
/// attribute writes that registration performs for this kind.
pub trait Function {
    /// The driver-type name, mathematically.
    spec fn spec_driver(&self) -> Seq<char>;

    /// The instance number keying the function's directory.
    spec fn spec_instance(&self) -> u64;

    /// The attribute writes of registration, in order.
    spec fn spec_attrs(&self) -> Seq<AttrV>;

    /// The driver-type name the kernel binds by.
    fn driver(&self) -> (r: String)
        ensures
            r@ == self.spec_driver(),
    ;

    /// The function's directory.
    fn dir(&self) -> (r: FunctionDir)
        ensures
            r.driver@ == self.spec_driver(),
            r.instance == self.spec_instance(),
    ;

    /// The kind-specific attribute writes that registration performs,
    /// in write order.
    fn register_writes(&self) -> (r: Vec<Attr>)
        ensures
            r@.map_values(|a: Attr| a@) == self.spec_attrs(),
    ;
}

/// Type-erased handle around one function implementation; the unit a
/// configuration accepts.  Created once per builder call and consumed by
/// attaching it to a configuration.
pub struct Handle {
    driver: String,
    instance: u64,
    attrs: Vec<Attr>,
}

/// Mathematical image of a handle.
#[verifier::ext_equal]
pub ghost struct HandleV {
    pub driver: Seq<char>,
    pub instance: u64,
    pub attrs: Seq<AttrV>,
}

impl View for Handle {
    type V = HandleV;

    closed spec fn view(&self) -> HandleV {
        HandleV {
            driver: self.driver@,
            instance: self.instance,
            attrs: self.attrs@.map_values(|a: Attr| a@),
        }
    }
}

/// The tree after registering the function described by `h` under the
/// gadget root `g`: a fresh function directory holding `h`'s attribute
/// writes, in order.
pub open spec fn spec_register(v: ConfigFsV, g: u64, h: HandleV) -> ConfigFsV {
    let g0 = gadget_of(v, g);
    update_gadget(
        v,
        g,
        (GadgetDirV {
            functions: g0.functions.push(
                FunctionDirV { driver: h.driver, instance: h.instance, attrs: h.attrs },
            ),
            ..g0
        }),
    )
}

impl Handle {
    /// Erases a function implementation into a handle.
    pub fn new<F: Function>(f: F) -> (h: Handle)
        ensures
            h@ == (HandleV {
                driver: f.spec_driver(),
                instance: f.spec_instance(),
                attrs: f.spec_attrs(),
            }),
    {
        let dir = f.dir();
        let driver = f.driver();
        let attrs = f.register_writes();
        Handle { driver, instance: dir.instance, attrs }
    }

    /// The instance number of the function behind this handle.
    pub fn instance(&self) -> (r: u64)
        ensures
            r == self@.instance,
    {
        self.instance
    }

    /// Performs this function's registration under the gadget root `g`:
    /// creates its directory and commits its attribute writes, in order.
    /// Registration happens at most once per instance: if a directory for
    /// the instance already exists anywhere in the tree, nothing is
    /// written and the call is rejected, so a second registration can
    /// neither duplicate writes nor silently succeed.
    pub fn register(&self, fs: &mut ConfigFs, g: u64) -> (r: Result<(), Error>)
        ensures
            ({
                let v = old(fs)@;
                let gi = find_gadget(v.gadgets, g);
                if gi < 0 {
                    r == Err::<(), Error>(Error::NotFound) && final(fs)@ == v
                } else if v.gadgets[gi].udc is Some {
                    r == Err::<(), Error>(Error::AlreadyBound) && final(fs)@ == v
                } else if find_owner(v.gadgets, self@.instance) >= 0 {
                    r == Err::<(), Error>(Error::AlreadyRegistered) && final(fs)@ == v
                } else {
                    r == Ok::<(), Error>(()) && final(fs)@ == spec_register(v, g, self@)
                }
            }),
    {
        let ghost v = fs@;
        if !fs.contains_gadget(g) {
            return Err(Error::NotFound);
        }
        if fs.gadget_bound(g) {
            return Err(Error::AlreadyBound);
        }
        match fs.function_owner(self.instance) {
            Some(_) => {
                return Err(Error::AlreadyRegistered);
            },
            None => {},
        }
        let ghost gi = find_gadget(v.gadgets, g);
        let ghost g0 = gadget_of(v, g);
        proof {
            lemma_find_gadget(v.gadgets, g);
            lemma_find_owner(v.gadgets, self@.instance);
        }
        fs.create_function_dir(g, self.driver.as_str(), self.instance);
        let ghost fnew = FunctionDirV {
            driver: self@.driver,
            instance: self@.instance,
            attrs: Seq::empty(),
        };
        proof {
            lemma_register_step(v, g, fnew);
            assert(fs@ == update_gadget(
                v,
                g,
                (GadgetDirV { functions: g0.functions.push(fnew), ..g0 }),
            ));
            assert(self@.attrs.take(0) =~= Seq::<AttrV>::empty());
        }
        let mut i: usize = 0;
        while i < self.attrs.len()
            invariant
                i <= self.attrs@.len(),
                self@.attrs.len() == self.attrs@.len(),
                self@.attrs == self.attrs@.map_values(|a: Attr| a@),
                find_gadget(old(fs)@.gadgets, g) >= 0,
                gadget_of(old(fs)@, g).udc is None,
                find_owner(old(fs)@.gadgets, self@.instance) == -1,
                v == old(fs)@,
                gi == find_gadget(v.gadgets, g),
                g0 == gadget_of(v, g),
                fs@ == update_gadget(
                    v,
                    g,
                    (GadgetDirV {
                        functions: g0.functions.push(
                            (FunctionDirV {
                                driver: self@.driver,
                                instance: self@.instance,
                                attrs: self@.attrs.take(i as int),
                            }),
                        ),
                        ..g0
                    }),
                ),
            decreases self.attrs@.len() - i,
        {
            let ghost fcur = FunctionDirV {
                driver: self@.driver,
                instance: self@.instance,
                attrs: self@.attrs.take(i as int),
            };
            proof {
                lemma_register_step(v, g, fcur);
            }
            fs.write_function_attr(
                self.instance,
                self.attrs[i].key.as_str(),
                self.attrs[i].value.clone(),
            );
            proof {
                lemma_find_gadget(v.gadgets, g);
                assert(self@.attrs[i as int] == self.attrs@[i as int]@);
                let a = self@.attrs[i as int];
                assert(self@.attrs.take(i as int).push(a) =~= self@.attrs.take(i as int + 1));
                let v1 = update_gadget(v, g, (GadgetDirV { functions: g0.functions.push(fcur), ..g0 }));
                assert(fs@ == crate::configfs::spec_write_function_attr(
                    v1,
                    self@.instance,
                    a.key,
                    a.value,
                ));
                let oi = find_owner(v1.gadgets, self@.instance);
                assert(oi == gi);
                assert(v1.gadgets[gi] == (GadgetDirV { functions: g0.functions.push(fcur), ..g0 }));
                let fi = find_function(v1.gadgets[oi].functions, self@.instance);
                assert(fi == g0.functions.len());
                assert(v1.gadgets[oi].functions[fi] == fcur);
                let fnext = FunctionDirV {
                    driver: self@.driver,
                    instance: self@.instance,
                    attrs: self@.attrs.take(i as int + 1),
                };
                assert((FunctionDirV { attrs: fcur.attrs.push(AttrV { key: a.key, value: a.value }), ..fcur })
                    =~~= fnext);
                assert(v1.gadgets[oi].functions.update(fi, fnext) =~~= g0.functions.push(fnext));
                assert(fs@.gadgets =~~= v.gadgets.update(
                    gi,
                    (GadgetDirV { functions: g0.functions.push(fnext), ..g0 }),
                ));
                assert(fs@ =~~= update_gadget(
                    v,
                    g,
                    (GadgetDirV { functions: g0.functions.push(fnext), ..g0 }),
                ));
            }
            i += 1;
        }
        proof {
            assert(self@.attrs.take(self.attrs@.len() as int) =~= self@.attrs);
            assert(fs@ =~~= spec_register(v, g, self@));
        }
        Ok(())
    }
}

/// In the tree `update_gadget(v, g, {functions: g0.functions.push(f), ..g0})`
/// — the state in the middle of registering `f` — the gadget named `g` is
/// still found at its old index, `f`'s instance is owned by exactly that
/// gadget, and `f` is its last function directory.
proof fn lemma_register_step(v: ConfigFsV, g: u64, f: FunctionDirV)
    requires
        has_gadget(v, g),
        !has_function_dir(v, f.instance),
    ensures
        ({
            let gi = find_gadget(v.gadgets, g);
            let g0 = gadget_of(v, g);
            let g1 = GadgetDirV { functions: g0.functions.push(f), ..g0 };
            let v1 = update_gadget(v, g, g1);
            &&& find_gadget(v1.gadgets, g) == gi
            &&& find_owner(v1.gadgets, f.instance) == gi
            &&& find_function(v1.gadgets[gi].functions, f.instance) == g0.functions.len()
        }),
{
    let gi = find_gadget(v.gadgets, g);
    let g0 = gadget_of(v, g);
    let g1 = GadgetDirV { functions: g0.functions.push(f), ..g0 };
    let v1 = update_gadget(v, g, g1);
    lemma_find_gadget(v.gadgets, g);
    lemma_find_owner(v.gadgets, f.instance);
    lemma_find_function(g0.functions, f.instance);
    lemma_find_gadget(v1.gadgets, g);
    lemma_find_owner(v1.gadgets, f.instance);
    lemma_find_function(g1.functions, f.instance);
    let r = find_gadget(v1.gadgets, g);
    assert(v1.gadgets[gi].id == g);
    assert(r == gi) by {
        if r < gi {
            assert(v1.gadgets[r] == v.gadgets[r]);
        }
        if r > gi {
            assert(v1.gadgets[gi].id != g);
        }
    }
    assert(find_function(g1.functions, f.instance) == g0.functions.len()) by {
        let q = find_function(g1.functions, f.instance);
        assert(g1.functions[g0.functions.len() as int].instance == f.instance);
        if q < g0.functions.len() {
            assert(g1.functions[q] == g0.functions[q]);
            assert(find_function(g0.functions, f.instance) == -1);
        }
    }
    let o = find_owner(v1.gadgets, f.instance);
    assert(o == gi) by {
        assert(find_function(v1.gadgets[gi].functions, f.instance) >= 0);
        if o < gi {
            assert(v1.gadgets[o] == v.gadgets[o]);
            assert(find_function(v.gadgets[o].functions, f.instance) < 0);
        }
        if o > gi {
            assert(find_function(v1.gadgets[gi].functions, f.instance) < 0);
        }
    }
}

} // verus!
