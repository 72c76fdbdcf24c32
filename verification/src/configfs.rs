//! Explicit model of the kernel-managed gadget tree.
//!
//! [`ConfigFs`] holds, as a plain value, the subtree that the lifecycle
//! engine materializes: gadget root directories with ordered attribute
//! writes, function directories, configuration directories with ordered
//! symlinks, and one controller-binding file per gadget.  The mutating
//! operations carry as preconditions the ordering rules that the kernel
//! enforces — a directory must exist before it is written, a symlink's
//! target must exist when the symlink is created, a directory with live
//! children or symlinks cannot be removed, a claimed controller cannot be
//! claimed again — so every caller is proved to respect them.

use vstd::prelude::*;

verus! {

/// One attribute file inside a directory: a name and the value written to it.
///
/// Directories keep their attribute writes as an ordered log; the current
/// content of a file is the value of its last write.
pub struct Attr {
    pub key: String,
    pub value: String,
}

/// Mathematical image of an attribute write.
#[verifier::ext_equal]
pub ghost struct AttrV {
    pub key: Seq<char>,
    pub value: Seq<char>,
}

impl View for Attr {
    type V = AttrV;

    open spec fn view(&self) -> AttrV {
        AttrV { key: self.key@, value: self.value@ }
    }
}

/// A function directory: `functions/<driver>.<instance>` under a gadget root.
pub struct FunctionDirState {
    pub driver: String,
    pub instance: u64,
    pub attrs: Vec<Attr>,
}

/// Mathematical image of a function directory.
#[verifier::ext_equal]
pub ghost struct FunctionDirV {
    pub driver: Seq<char>,
    pub instance: u64,
    pub attrs: Seq<AttrV>,
}

impl View for FunctionDirState {
    type V = FunctionDirV;

    open spec fn view(&self) -> FunctionDirV {
        FunctionDirV {
            driver: self.driver@,
            instance: self.instance,
            attrs: self.attrs@.map_values(|a: Attr| a@),
        }
    }
}

/// A configuration directory and its symlinks, in creation order.
/// Each symlink is recorded as the instance of the function directory
/// it points to.
pub struct ConfigDirState {
    pub name: String,
    pub links: Vec<u64>,
}

/// Mathematical image of a configuration directory.
#[verifier::ext_equal]
pub ghost struct ConfigDirV {
    pub name: Seq<char>,
    pub links: Seq<u64>,
}

impl View for ConfigDirState {
    type V = ConfigDirV;

    open spec fn view(&self) -> ConfigDirV {
        ConfigDirV { name: self.name@, links: self.links@ }
    }
}

/// A gadget root directory: attribute files, function directories,
/// configuration directories, and the controller-binding file (`udc`):
/// `None` models an empty binding file (unbound), `Some(name)` a file
/// holding the claimed controller's name.
pub struct GadgetDirState {
    pub id: u64,
    pub attrs: Vec<Attr>,
    pub functions: Vec<FunctionDirState>,
    pub configs: Vec<ConfigDirState>,
    pub udc: Option<String>,
}

/// Mathematical image of a gadget root directory.
#[verifier::ext_equal]
pub ghost struct GadgetDirV {
    pub id: u64,
    pub attrs: Seq<AttrV>,
    pub functions: Seq<FunctionDirV>,
    pub configs: Seq<ConfigDirV>,
    pub udc: Option<Seq<char>>,
}

impl View for GadgetDirState {
    type V = GadgetDirV;

    open spec fn view(&self) -> GadgetDirV {
        GadgetDirV {
            id: self.id,
            attrs: self.attrs@.map_values(|a: Attr| a@),
            functions: self.functions@.map_values(|f: FunctionDirState| f@),
            configs: self.configs@.map_values(|c: ConfigDirState| c@),
            udc: match self.udc {
                Some(ref s) => Some(s@),
                None => None,
            },
        }
    }
}

/// The modelled subtree: gadget roots in creation order, plus the naming
/// counter from which fresh root directory names are drawn.
pub struct ConfigFs {
    gadgets: Vec<GadgetDirState>,
    next_id: u64,
}

/// Mathematical image of the whole subtree.
#[verifier::ext_equal]
pub ghost struct ConfigFsV {
    pub gadgets: Seq<GadgetDirV>,
    pub next_id: u64,
}

impl View for ConfigFs {
    type V = ConfigFsV;

    closed spec fn view(&self) -> ConfigFsV {
        ConfigFsV {
            gadgets: self.gadgets@.map_values(|g: GadgetDirState| g@),
            next_id: self.next_id,
        }
    }
}

/// The content of the attribute file `key`: the value of the last write
/// to it, if any write happened.
pub open spec fn spec_read(attrs: Seq<AttrV>, key: Seq<char>) -> Option<Seq<char>>
    decreases attrs.len(),
{
    if attrs.len() == 0 {
        None
    } else if attrs.last().key == key {
        Some(attrs.last().value)
    } else {
        spec_read(attrs.drop_last(), key)
    }
}

/// Index of the first function directory for `instance`, or `-1`.
pub open spec fn find_function(fns: Seq<FunctionDirV>, instance: u64) -> int
    decreases fns.len(),
{
    if fns.len() == 0 {
        -1
    } else if fns[0].instance == instance {
        0
    } else {
        let r = find_function(fns.drop_first(), instance);
        if r < 0 {
            -1
        } else {
            r + 1
        }
    }
}

/// Index of the first gadget root named `id`, or `-1`.
pub open spec fn find_gadget(gs: Seq<GadgetDirV>, id: u64) -> int
    decreases gs.len(),
{
    if gs.len() == 0 {
        -1
    } else if gs[0].id == id {
        0
    } else {
        let r = find_gadget(gs.drop_first(), id);
        if r < 0 {
            -1
        } else {
            r + 1
        }
    }
}

/// Index of the first gadget holding a function directory for `instance`,
/// or `-1`.
pub open spec fn find_owner(gs: Seq<GadgetDirV>, instance: u64) -> int
    decreases gs.len(),
{
    if gs.len() == 0 {
        -1
    } else if find_function(gs[0].functions, instance) >= 0 {
        0
    } else {
        let r = find_owner(gs.drop_first(), instance);
        if r < 0 {
            -1
        } else {
            r + 1
        }
    }
}

pub open spec fn has_gadget(v: ConfigFsV, id: u64) -> bool {
    find_gadget(v.gadgets, id) >= 0
}

pub open spec fn gadget_of(v: ConfigFsV, id: u64) -> GadgetDirV
    recommends
        has_gadget(v, id),
{
    v.gadgets[find_gadget(v.gadgets, id)]
}

/// The subtree with the gadget named `id` replaced by `g`.
pub open spec fn update_gadget(v: ConfigFsV, id: u64, g: GadgetDirV) -> ConfigFsV
    recommends
        has_gadget(v, id),
{
    ConfigFsV { gadgets: v.gadgets.update(find_gadget(v.gadgets, id), g), next_id: v.next_id }
}

pub open spec fn has_function_dir(v: ConfigFsV, instance: u64) -> bool {
    find_owner(v.gadgets, instance) >= 0
}

/// Some gadget in the tree has claimed the controller `name`.
pub open spec fn udc_in_use(v: ConfigFsV, name: Seq<char>) -> bool {
    exists|i: int| 0 <= i < v.gadgets.len() && (#[trigger] v.gadgets[i]).udc == Some(name)
}

/// The tree after a write of `value` to the attribute file `key` of the
/// function directory of `instance`: the owning directory's write log
/// grows by one entry, everything else is untouched.
pub open spec fn spec_write_function_attr(
    v: ConfigFsV,
    instance: u64,
    key: Seq<char>,
    value: Seq<char>,
) -> ConfigFsV
    recommends
        has_function_dir(v, instance),
{
    let oi = find_owner(v.gadgets, instance);
    let g0 = v.gadgets[oi];
    let fi = find_function(g0.functions, instance);
    let f0 = g0.functions[fi];
    ConfigFsV {
        gadgets: v.gadgets.update(
            oi,
            (GadgetDirV {
                functions: g0.functions.update(
                    fi,
                    (FunctionDirV { attrs: f0.attrs.push(AttrV { key, value }), ..f0 }),
                ),
                ..g0
            }),
        ),
        next_id: v.next_id,
    }
}

/// Every gadget root name was drawn from the naming counter.
pub open spec fn ids_bounded(v: ConfigFsV) -> bool {
    forall|i: int| 0 <= i < v.gadgets.len() ==> (#[trigger] v.gadgets[i]).id < v.next_id
}

/// `find_function` returns the first index holding `instance`, and `-1`
/// exactly when no index does.
pub proof fn lemma_find_function(fns: Seq<FunctionDirV>, instance: u64)
    ensures
        ({
            let r = find_function(fns, instance);
            &&& -1 <= r < fns.len()
            &&& r >= 0 ==> fns[r].instance == instance && (forall|j: int|
                0 <= j < r ==> (#[trigger] fns[j]).instance != instance)
            &&& r == -1 ==> forall|j: int|
                0 <= j < fns.len() ==> (#[trigger] fns[j]).instance != instance
        }),
    decreases fns.len(),
{
    if fns.len() == 0 {
    } else if fns[0].instance == instance {
    } else {
        lemma_find_function(fns.drop_first(), instance);
        assert(forall|j: int|
            1 <= j < fns.len() ==> #[trigger] fns[j] == fns.drop_first()[j - 1]);
    }
}

/// `find_gadget` returns the first index named `id`, and `-1` exactly when
/// no index is.
pub proof fn lemma_find_gadget(gs: Seq<GadgetDirV>, id: u64)
    ensures
        ({
            let r = find_gadget(gs, id);
            &&& -1 <= r < gs.len()
            &&& r >= 0 ==> gs[r].id == id && (forall|j: int|
                0 <= j < r ==> (#[trigger] gs[j]).id != id)
            &&& r == -1 ==> forall|j: int| 0 <= j < gs.len() ==> (#[trigger] gs[j]).id != id
        }),
    decreases gs.len(),
{
    if gs.len() == 0 {
    } else if gs[0].id == id {
    } else {
        lemma_find_gadget(gs.drop_first(), id);
        assert(forall|j: int| 1 <= j < gs.len() ==> #[trigger] gs[j] == gs.drop_first()[j - 1]);
    }
}

/// `find_owner` returns the first gadget index holding a function directory
/// for `instance`, and `-1` exactly when none does.
pub proof fn lemma_find_owner(gs: Seq<GadgetDirV>, instance: u64)
    ensures
        ({
            let r = find_owner(gs, instance);
            &&& -1 <= r < gs.len()
            &&& r >= 0 ==> find_function(gs[r].functions, instance) >= 0 && (forall|j: int|
                0 <= j < r ==> find_function((#[trigger] gs[j]).functions, instance) < 0)
            &&& r == -1 ==> forall|j: int|
                0 <= j < gs.len() ==> find_function((#[trigger] gs[j]).functions, instance) < 0
        }),
    decreases gs.len(),
{
    if gs.len() == 0 {
    } else if find_function(gs[0].functions, instance) >= 0 {
    } else {
        lemma_find_owner(gs.drop_first(), instance);
        assert(forall|j: int| 1 <= j < gs.len() ==> #[trigger] gs[j] == gs.drop_first()[j - 1]);
    }
}

impl ConfigFs {
    /// An empty subtree: no gadget roots yet.
    pub fn new() -> (r: ConfigFs)
        ensures
            r@.gadgets.len() == 0,
            r@.next_id == 0,
    {
        ConfigFs { gadgets: Vec::new(), next_id: 0 }
    }

    /// Index of the gadget root named `id`, if it exists.
    fn gadget_idx(&self, id: u64) -> (r: Option<usize>)
        ensures
            ({
                let f = find_gadget(self@.gadgets, id);
                match r {
                    Some(i) => i as int == f && i < self.gadgets@.len(),
                    None => f == -1,
                }
            }),
    {
        let mut i: usize = 0;
        while i < self.gadgets.len()
            invariant
                i <= self.gadgets@.len(),
                self.gadgets@.len() == self@.gadgets.len(),
                forall|j: int| 0 <= j < i ==> (#[trigger] self@.gadgets[j]).id != id,
            decreases self.gadgets@.len() - i,
        {
            if self.gadgets[i].id == id {
                proof {
                    assert(self@.gadgets[i as int] == self.gadgets@[i as int]@);
                    lemma_find_gadget(self@.gadgets, id);
                    let f = find_gadget(self@.gadgets, id);
                    assert(f != -1);
                    if f < i as int {
                        assert(self@.gadgets[f].id != id);
                    }
                    assert(f == i as int);
                }
                return Some(i);
            }
            i += 1;
        }
        proof {
            lemma_find_gadget(self@.gadgets, id);
        }
        None
    }

    /// Indices of the gadget owning `instance` and of the function
    /// directory inside it, if any.
    fn owner_idx(&self, instance: u64) -> (r: Option<(usize, usize)>)
        ensures
            ({
                let o = find_owner(self@.gadgets, instance);
                match r {
                    Some(p) => {
                        &&& p.0 as int == o
                        &&& o >= 0
                        &&& p.0 < self.gadgets@.len()
                        &&& p.1 as int == find_function(self@.gadgets[o].functions, instance)
                        &&& find_function(self@.gadgets[o].functions, instance) >= 0
                        &&& p.1 < self.gadgets@[o].functions@.len()
                    },
                    None => o == -1,
                }
            }),
    {
        let mut i: usize = 0;
        while i < self.gadgets.len()
            invariant
                i <= self.gadgets@.len(),
                self.gadgets@.len() == self@.gadgets.len(),
                forall|j: int|
                    0 <= j < i ==> find_function(
                        (#[trigger] self@.gadgets[j]).functions,
                        instance,
                    ) < 0,
            decreases self.gadgets@.len() - i,
        {
            let fi = Self::function_idx(&self.gadgets[i].functions, instance);
            match fi {
                Some(f) => {
                    proof {
                        assert(self@.gadgets[i as int] == self.gadgets@[i as int]@);
                        lemma_find_owner(self@.gadgets, instance);
                        let o = find_owner(self@.gadgets, instance);
                        assert(find_function(self@.gadgets[i as int].functions, instance) >= 0);
                        assert(o != -1);
                        if o < i as int {
                            assert(find_function(self@.gadgets[o].functions, instance) < 0);
                        }
                        assert(o == i as int);
                    }
                    return Some((i, f));
                },
                None => {},
            }
            i += 1;
        }
        proof {
            lemma_find_owner(self@.gadgets, instance);
        }
        None
    }

    /// Index of the function directory for `instance` in `fns`, if any.
    fn function_idx(fns: &Vec<FunctionDirState>, instance: u64) -> (r: Option<usize>)
        ensures
            ({
                let f = find_function(fns@.map_values(|f: FunctionDirState| f@), instance);
                match r {
                    Some(i) => i as int == f && i < fns@.len(),
                    None => f == -1,
                }
            }),
    {
        let ghost fv = fns@.map_values(|f: FunctionDirState| f@);
        let mut i: usize = 0;
        while i < fns.len()
            invariant
                i <= fns@.len(),
                fv == fns@.map_values(|f: FunctionDirState| f@),
                fv.len() == fns@.len(),
                forall|j: int| 0 <= j < i ==> (#[trigger] fv[j]).instance != instance,
            decreases fns@.len() - i,
        {
            if fns[i].instance == instance {
                proof {
                    assert(fv[i as int] == fns@[i as int]@);
                    lemma_find_function(fv, instance);
                    let f = find_function(fv, instance);
                    assert(f != -1);
                    if f < i as int {
                        assert(fv[f].instance != instance);
                    }
                    assert(f == i as int);
                }
                return Some(i);
            }
            i += 1;
        }
        proof {
            lemma_find_function(fv, instance);
        }
        None
    }

    /// The value of the last write to `key` in `attrs`, if any.
    fn read_from(attrs: &Vec<Attr>, key: &str) -> (r: Option<String>)
        ensures
            ({
                let s = spec_read(attrs@.map_values(|a: Attr| a@), key@);
                match r {
                    Some(x) => s == Some(x@),
                    None => s is None,
                }
            }),
    {
        let ghost av = attrs@.map_values(|a: Attr| a@);
        let k = key.to_owned();
        let mut i: usize = attrs.len();
        proof {
            assert(av.take(av.len() as int) =~= av);
        }
        while i > 0
            invariant
                i <= attrs@.len(),
                av == attrs@.map_values(|a: Attr| a@),
                av.len() == attrs@.len(),
                k@ == key@,
                spec_read(av, key@) == spec_read(av.take(i as int), key@),
            decreases i,
        {
            let j = i - 1;
            if attrs[j].key == k {
                proof {
                    assert(av.take(i as int).last() == av[j as int]);
                    assert(av[j as int] == attrs@[j as int]@);
                }
                return Some(attrs[j].value.clone());
            }
            proof {
                assert(av.take(i as int).last() == av[j as int]);
                assert(av[j as int] == attrs@[j as int]@);
                assert(av.take(i as int).drop_last() =~= av.take(j as int));
            }
            i = j;
        }
        None
    }

    /// Creates a fresh gadget root directory and returns its name.
    pub(crate) fn create_gadget(&mut self) -> (g: u64)
        requires
            old(self)@.next_id < u64::MAX,
        ensures
            g == old(self)@.next_id,
            final(self)@ == (ConfigFsV {
                gadgets: old(self)@.gadgets.push(empty_gadget(g)),
                next_id: (old(self)@.next_id + 1) as u64,
            }),
    {
        let g = self.next_id;
        self.next_id = self.next_id + 1;
        self.gadgets.push(
            GadgetDirState {
                id: g,
                attrs: Vec::new(),
                functions: Vec::new(),
                configs: Vec::new(),
                udc: None,
            },
        );
        proof {
            assert(self@ =~~= (ConfigFsV {
                gadgets: old(self)@.gadgets.push(empty_gadget(g)),
                next_id: (old(self)@.next_id + 1) as u64,
            }));
        }
        g
    }

    /// Takes back the most recently drawn root directory name; only sound
    /// while no directory carries it any more.
    pub(crate) fn retire_last_id(&mut self)
        requires
            old(self)@.next_id >= 1,
            forall|i: int|
                0 <= i < old(self)@.gadgets.len() ==> (#[trigger] old(
                    self,
                )@.gadgets[i]).id < old(self)@.next_id - 1,
        ensures
            final(self)@ == (ConfigFsV {
                gadgets: old(self)@.gadgets,
                next_id: (old(self)@.next_id - 1) as u64,
            }),
    {
        self.next_id = self.next_id - 1;
        proof {
            assert(self@ =~~= (ConfigFsV {
                gadgets: old(self)@.gadgets,
                next_id: (old(self)@.next_id - 1) as u64,
            }));
        }
    }

    /// Writes an attribute file in the gadget root directory.
    pub(crate) fn write_gadget_attr(&mut self, g: u64, key: &str, value: String)
        requires
            has_gadget(old(self)@, g),
        ensures
            ({
                let v = old(self)@;
                let g0 = gadget_of(v, g);
                final(self)@ == update_gadget(
                    v,
                    g,
                    (GadgetDirV { attrs: g0.attrs.push(AttrV { key: key@, value: value@ }), ..g0 }),
                )
            }),
    {
        let gi = self.gadget_idx(g).unwrap();
        let mut node = self.gadgets.remove(gi);
        node.attrs.push(Attr { key: key.to_owned(), value });
        self.gadgets.insert(gi, node);
        proof {
            let v = old(self)@;
            let g0 = gadget_of(v, g);
            assert(self@ =~~= update_gadget(
                v,
                g,
                (GadgetDirV { attrs: g0.attrs.push(AttrV { key: key@, value: value@ }), ..g0 }),
            ));
        }
    }

    /// Creates a configuration directory under the gadget root.
    pub(crate) fn create_config(&mut self, g: u64, name: &str)
        requires
            has_gadget(old(self)@, g),
        ensures
            ({
                let v = old(self)@;
                let g0 = gadget_of(v, g);
                final(self)@ == update_gadget(
                    v,
                    g,
                    (GadgetDirV {
                        configs: g0.configs.push(ConfigDirV { name: name@, links: Seq::empty() }),
                        ..g0
                    }),
                )
            }),
    {
        let gi = self.gadget_idx(g).unwrap();
        let mut node = self.gadgets.remove(gi);
        node.configs.push(ConfigDirState { name: name.to_owned(), links: Vec::new() });
        self.gadgets.insert(gi, node);
        proof {
            let v = old(self)@;
            let g0 = gadget_of(v, g);
            assert(self@ =~~= update_gadget(
                v,
                g,
                (GadgetDirV {
                    configs: g0.configs.push(ConfigDirV { name: name@, links: Seq::empty() }),
                    ..g0
                }),
            ));
        }
    }

    /// Creates a function directory under the gadget root.  The kernel
    /// keys function directories by name, so the instance must be fresh
    /// in the whole tree.
    pub(crate) fn create_function_dir(&mut self, g: u64, driver: &str, instance: u64)
        requires
            has_gadget(old(self)@, g),
            !has_function_dir(old(self)@, instance),
        ensures
            ({
                let v = old(self)@;
                let g0 = gadget_of(v, g);
                final(self)@ == update_gadget(
                    v,
                    g,
                    (GadgetDirV {
                        functions: g0.functions.push(
                            FunctionDirV { driver: driver@, instance, attrs: Seq::empty() },
                        ),
                        ..g0
                    }),
                )
            }),
    {
        let gi = self.gadget_idx(g).unwrap();
        let mut node = self.gadgets.remove(gi);
        node.functions.push(
            FunctionDirState { driver: driver.to_owned(), instance, attrs: Vec::new() },
        );
        self.gadgets.insert(gi, node);
        proof {
            let v = old(self)@;
            let g0 = gadget_of(v, g);
            assert(self@ =~~= update_gadget(
                v,
                g,
                (GadgetDirV {
                    functions: g0.functions.push(
                        FunctionDirV { driver: driver@, instance, attrs: Seq::empty() },
                    ),
                    ..g0
                }),
            ));
        }
    }

    /// Writes an attribute file inside the function directory of
    /// `instance`.
    pub(crate) fn write_function_attr(&mut self, instance: u64, key: &str, value: String)
        requires
            has_function_dir(old(self)@, instance),
        ensures
            final(self)@ == spec_write_function_attr(old(self)@, instance, key@, value@),
    {
        let (oi, fi) = self.owner_idx(instance).unwrap();
        let mut node = self.gadgets.remove(oi);
        let mut fnode = node.functions.remove(fi);
        fnode.attrs.push(Attr { key: key.to_owned(), value });
        node.functions.insert(fi, fnode);
        self.gadgets.insert(oi, node);
        proof {
            let v = old(self)@;
            let oi_ = find_owner(v.gadgets, instance);
            let g0 = v.gadgets[oi_];
            let fi_ = find_function(g0.functions, instance);
            let f0 = g0.functions[fi_];
            assert(self@ =~~= spec_write_function_attr(v, instance, key@, value@));
        }
    }

    /// Creates a symlink in the configuration directory `ci`, pointing at
    /// the function directory of `target`.  The kernel inspects the target
    /// at creation time, so it must exist in the same gadget.
    pub(crate) fn create_symlink(&mut self, g: u64, ci: usize, target: u64)
        requires
            has_gadget(old(self)@, g),
            ci < gadget_of(old(self)@, g).configs.len(),
            find_function(gadget_of(old(self)@, g).functions, target) >= 0,
        ensures
            ({
                let v = old(self)@;
                let g0 = gadget_of(v, g);
                let c0 = g0.configs[ci as int];
                final(self)@ == update_gadget(
                    v,
                    g,
                    (GadgetDirV {
                        configs: g0.configs.update(
                            ci as int,
                            (ConfigDirV { links: c0.links.push(target), ..c0 }),
                        ),
                        ..g0
                    }),
                )
            }),
    {
        let gi = self.gadget_idx(g).unwrap();
        let mut node = self.gadgets.remove(gi);
        let mut cnode = node.configs.remove(ci);
        cnode.links.push(target);
        node.configs.insert(ci, cnode);
        self.gadgets.insert(gi, node);
        proof {
            let v = old(self)@;
            let g0 = gadget_of(v, g);
            let c0 = g0.configs[ci as int];
            assert(self@ =~~= update_gadget(
                v,
                g,
                (GadgetDirV {
                    configs: g0.configs.update(
                        ci as int,
                        (ConfigDirV { links: c0.links.push(target), ..c0 }),
                    ),
                    ..g0
                }),
            ));
        }
    }

    /// Deletes the most recently created symlink of configuration `ci`.
    pub(crate) fn pop_symlink(&mut self, g: u64, ci: usize)
        requires
            has_gadget(old(self)@, g),
            ci < gadget_of(old(self)@, g).configs.len(),
            gadget_of(old(self)@, g).configs[ci as int].links.len() > 0,
        ensures
            ({
                let v = old(self)@;
                let g0 = gadget_of(v, g);
                let c0 = g0.configs[ci as int];
                final(self)@ == update_gadget(
                    v,
                    g,
                    (GadgetDirV {
                        configs: g0.configs.update(
                            ci as int,
                            (ConfigDirV { links: c0.links.drop_last(), ..c0 }),
                        ),
                        ..g0
                    }),
                )
            }),
    {
        let gi = self.gadget_idx(g).unwrap();
        let mut node = self.gadgets.remove(gi);
        let mut cnode = node.configs.remove(ci);
        let _ = cnode.links.pop();
        node.configs.insert(ci, cnode);
        self.gadgets.insert(gi, node);
        proof {
            let v = old(self)@;
            let g0 = gadget_of(v, g);
            let c0 = g0.configs[ci as int];
            assert(self@ =~~= update_gadget(
                v,
                g,
                (GadgetDirV {
                    configs: g0.configs.update(
                        ci as int,
                        (ConfigDirV { links: c0.links.drop_last(), ..c0 }),
                    ),
                    ..g0
                }),
            ));
        }
    }

    /// Removes the most recently created function directory.  The kernel
    /// refuses to remove a directory that a live symlink still points at.
    pub(crate) fn remove_function_dir(&mut self, g: u64)
        requires
            has_gadget(old(self)@, g),
            gadget_of(old(self)@, g).functions.len() > 0,
            forall|ci: int, k: int|
                0 <= ci < gadget_of(old(self)@, g).configs.len() && 0 <= k < gadget_of(
                    old(self)@,
                    g,
                ).configs[ci].links.len() ==> #[trigger] gadget_of(old(self)@, g).configs[ci].links[k]
                    != gadget_of(old(self)@, g).functions.last().instance,
        ensures
            ({
                let v = old(self)@;
                let g0 = gadget_of(v, g);
                final(self)@ == update_gadget(
                    v,
                    g,
                    (GadgetDirV { functions: g0.functions.drop_last(), ..g0 }),
                )
            }),
    {
        let gi = self.gadget_idx(g).unwrap();
        let mut node = self.gadgets.remove(gi);
        let _ = node.functions.pop();
        self.gadgets.insert(gi, node);
        proof {
            let v = old(self)@;
            let g0 = gadget_of(v, g);
            assert(self@ =~~= update_gadget(
                v,
                g,
                (GadgetDirV { functions: g0.functions.drop_last(), ..g0 }),
            ));
        }
    }

    /// Removes the most recently created configuration directory, which
    /// must not hold symlinks any more.
    pub(crate) fn remove_config_dir(&mut self, g: u64)
        requires
            has_gadget(old(self)@, g),
            gadget_of(old(self)@, g).configs.len() > 0,
            gadget_of(old(self)@, g).configs.last().links.len() == 0,
        ensures
            ({
                let v = old(self)@;
                let g0 = gadget_of(v, g);
                final(self)@ == update_gadget(
                    v,
                    g,
                    (GadgetDirV { configs: g0.configs.drop_last(), ..g0 }),
                )
            }),
    {
        let gi = self.gadget_idx(g).unwrap();
        let mut node = self.gadgets.remove(gi);
        let _ = node.configs.pop();
        self.gadgets.insert(gi, node);
        proof {
            let v = old(self)@;
            let g0 = gadget_of(v, g);
            assert(self@ =~~= update_gadget(
                v,
                g,
                (GadgetDirV { configs: g0.configs.drop_last(), ..g0 }),
            ));
        }
    }

    /// Removes the gadget root directory itself: only legal once it has no
    /// children left and is not bound to a controller.
    pub(crate) fn remove_gadget_root(&mut self, g: u64)
        requires
            has_gadget(old(self)@, g),
            gadget_of(old(self)@, g).functions.len() == 0,
            gadget_of(old(self)@, g).configs.len() == 0,
            gadget_of(old(self)@, g).udc is None,
        ensures
            final(self)@ == (ConfigFsV {
                gadgets: old(self)@.gadgets.remove(find_gadget(old(self)@.gadgets, g)),
                next_id: old(self)@.next_id,
            }),
    {
        let gi = self.gadget_idx(g).unwrap();
        let _ = self.gadgets.remove(gi);
        proof {
            assert(self@ =~~= (ConfigFsV {
                gadgets: old(self)@.gadgets.remove(find_gadget(old(self)@.gadgets, g)),
                next_id: old(self)@.next_id,
            }));
        }
    }

    /// Writes the controller's name into the gadget's binding file.  The
    /// kernel rejects the write while another gadget holds the controller,
    /// and while this gadget is already bound.
    pub(crate) fn set_udc(&mut self, g: u64, name: String)
        requires
            has_gadget(old(self)@, g),
            gadget_of(old(self)@, g).udc is None,
            !udc_in_use(old(self)@, name@),
        ensures
            ({
                let v = old(self)@;
                let g0 = gadget_of(v, g);
                final(self)@ == update_gadget(v, g, (GadgetDirV { udc: Some(name@), ..g0 }))
            }),
    {
        let gi = self.gadget_idx(g).unwrap();
        let mut node = self.gadgets.remove(gi);
        node.udc = Some(name);
        self.gadgets.insert(gi, node);
        proof {
            let v = old(self)@;
            let g0 = gadget_of(v, g);
            assert(self@ =~~= update_gadget(v, g, (GadgetDirV { udc: Some(name@), ..g0 })));
        }
    }

    /// Empties the gadget's controller-binding file.  Emptying an already
    /// empty file is a no-op, so this is idempotent.
    pub(crate) fn clear_udc(&mut self, g: u64)
        requires
            has_gadget(old(self)@, g),
        ensures
            ({
                let v = old(self)@;
                let g0 = gadget_of(v, g);
                final(self)@ == update_gadget(v, g, (GadgetDirV { udc: None, ..g0 }))
            }),
    {
        let gi = self.gadget_idx(g).unwrap();
        let mut node = self.gadgets.remove(gi);
        node.udc = None;
        self.gadgets.insert(gi, node);
        proof {
            let v = old(self)@;
            let g0 = gadget_of(v, g);
            assert(self@ =~~= update_gadget(v, g, (GadgetDirV { udc: None, ..g0 })));
        }
    }

    /// How many gadget root directories exist.
    pub fn gadget_count(&self) -> (r: usize)
        ensures
            r == self@.gadgets.len(),
    {
        self.gadgets.len()
    }

    /// Whether the gadget root directory named `g` exists.
    pub fn contains_gadget(&self, g: u64) -> (r: bool)
        ensures
            r == has_gadget(self@, g),
    {
        self.gadget_idx(g).is_some()
    }

    /// Whether the gadget's controller-binding file is non-empty.
    pub fn gadget_bound(&self, g: u64) -> (r: bool)
        ensures
            r == (has_gadget(self@, g) && gadget_of(self@, g).udc is Some),
    {
        match self.gadget_idx(g) {
            Some(gi) => self.gadgets[gi].udc.is_some(),
            None => false,
        }
    }

    /// The controller name in the gadget's binding file, if it is bound.
    pub fn bound_udc(&self, g: u64) -> (r: Option<String>)
        ensures
            ({
                match r {
                    Some(s) => has_gadget(self@, g) && gadget_of(self@, g).udc == Some(s@),
                    None => !has_gadget(self@, g) || gadget_of(self@, g).udc is None,
                }
            }),
    {
        match self.gadget_idx(g) {
            Some(gi) => match &self.gadgets[gi].udc {
                Some(s) => Some(s.clone()),
                None => None,
            },
            None => None,
        }
    }

    /// Whether every gadget root name lies below the naming counter —
    /// true for every tree built through this library; unverified
    /// callers can test it before binding.
    pub fn naming_sound(&self) -> (r: bool)
        ensures
            r == ids_bounded(self@),
    {
        let mut i: usize = 0;
        while i < self.gadgets.len()
            invariant
                i <= self.gadgets@.len(),
                self.gadgets@.len() == self@.gadgets.len(),
                forall|j: int|
                    0 <= j < i ==> (#[trigger] self@.gadgets[j]).id < self@.next_id,
            decreases self.gadgets@.len() - i,
        {
            if self.gadgets[i].id >= self.next_id {
                proof {
                    assert(self@.gadgets[i as int] == self.gadgets@[i as int]@);
                }
                return false;
            }
            proof {
                assert(self@.gadgets[i as int] == self.gadgets@[i as int]@);
            }
            i += 1;
        }
        true
    }

    /// The naming counter: gadget root names drawn so far.
    pub fn next_name(&self) -> (r: u64)
        ensures
            r == self@.next_id,
    {
        self.next_id
    }

    /// The name of the oldest gadget root directory, if any exists.
    pub fn first_gadget_id(&self) -> (r: Option<u64>)
        ensures
            ({
                match r {
                    Some(id) => self@.gadgets.len() > 0 && id == self@.gadgets[0].id
                        && find_gadget(self@.gadgets, id) == 0,
                    None => self@.gadgets.len() == 0,
                }
            }),
    {
        if self.gadgets.len() > 0 {
            proof {
                assert(self@.gadgets[0] == self.gadgets@[0]@);
            }
            Some(self.gadgets[0].id)
        } else {
            None
        }
    }

    /// Whether the gadget owning the function directory of `instance` is
    /// bound to a controller; `None` if no such directory exists.
    pub fn owner_bound(&self, instance: u64) -> (r: Option<bool>)
        ensures
            ({
                let o = find_owner(self@.gadgets, instance);
                match r {
                    Some(b) => o >= 0 && b == (self@.gadgets[o].udc is Some),
                    None => o == -1,
                }
            }),
    {
        match self.owner_idx(instance) {
            Some((oi, _)) => {
                proof {
                    assert(self@.gadgets[oi as int] == self.gadgets@[oi as int]@);
                }
                Some(self.gadgets[oi].udc.is_some())
            },
            None => None,
        }
    }

    /// Whether any gadget has claimed the controller `name`.
    pub fn udc_claimed(&self, name: &String) -> (r: bool)
        ensures
            r == udc_in_use(self@, name@),
    {
        let mut i: usize = 0;
        while i < self.gadgets.len()
            invariant
                i <= self.gadgets@.len(),
                self.gadgets@.len() == self@.gadgets.len(),
                forall|j: int| 0 <= j < i ==> (#[trigger] self@.gadgets[j]).udc != Some(name@),
            decreases self.gadgets@.len() - i,
        {
            let claimed = match &self.gadgets[i].udc {
                Some(s) => *s == *name,
                None => false,
            };
            if claimed {
                proof {
                    assert(self@.gadgets[i as int] == self.gadgets@[i as int]@);
                    assert(self@.gadgets[i as int].udc == Some(name@));
                }
                return true;
            }
            proof {
                assert(self@.gadgets[i as int] == self.gadgets@[i as int]@);
            }
            i += 1;
        }
        false
    }

    /// The content of the attribute file `key` in the gadget root, if the
    /// gadget and a write to that file exist.
    pub fn read_gadget_attr(&self, g: u64, key: &str) -> (r: Option<String>)
        ensures
            ({
                match r {
                    Some(s) => has_gadget(self@, g) && spec_read(gadget_of(self@, g).attrs, key@)
                        == Some(s@),
                    None => !has_gadget(self@, g) || spec_read(
                        gadget_of(self@, g).attrs,
                        key@,
                    ) is None,
                }
            }),
    {
        match self.gadget_idx(g) {
            Some(gi) => {
                proof {
                    assert(self@.gadgets[gi as int] == self.gadgets@[gi as int]@);
                }
                Self::read_from(&self.gadgets[gi].attrs, key)
            },
            None => None,
        }
    }

    /// The content of the attribute file `key` in the function directory
    /// of `instance`, if that directory and a write to the file exist.
    pub fn read_function_attr(&self, instance: u64, key: &str) -> (r: Option<String>)
        ensures
            ({
                let o = find_owner(self@.gadgets, instance);
                match r {
                    Some(s) => o >= 0 && spec_read(
                        self@.gadgets[o].functions[find_function(
                            self@.gadgets[o].functions,
                            instance,
                        )].attrs,
                        key@,
                    ) == Some(s@),
                    None => o == -1 || spec_read(
                        self@.gadgets[o].functions[find_function(
                            self@.gadgets[o].functions,
                            instance,
                        )].attrs,
                        key@,
                    ) is None,
                }
            }),
    {
        match self.owner_idx(instance) {
            Some((oi, fi)) => {
                proof {
                    assert(self@.gadgets[oi as int] == self.gadgets@[oi as int]@);
                    assert(self@.gadgets[oi as int].functions[fi as int] == self.gadgets@[oi as int].functions@[fi as int]@);
                }
                Self::read_from(&self.gadgets[oi].functions[fi].attrs, key)
            },
            None => None,
        }
    }

    /// The name of the gadget root holding the function directory of
    /// `instance`, if that directory exists.
    pub fn function_owner(&self, instance: u64) -> (r: Option<u64>)
        ensures
            ({
                let o = find_owner(self@.gadgets, instance);
                match r {
                    Some(id) => o >= 0 && id == self@.gadgets[o].id,
                    None => o == -1,
                }
            }),
    {
        match self.owner_idx(instance) {
            Some((oi, _)) => {
                proof {
                    assert(self@.gadgets[oi as int] == self.gadgets@[oi as int]@);
                }
                Some(self.gadgets[oi].id)
            },
            None => None,
        }
    }

    /// How many function directories the gadget holds; zero if it does
    /// not exist.
    pub fn function_count(&self, g: u64) -> (r: usize)
        ensures
            has_gadget(self@, g) ==> r == gadget_of(self@, g).functions.len(),
            !has_gadget(self@, g) ==> r == 0,
    {
        match self.gadget_idx(g) {
            Some(gi) => {
                proof {
                    assert(self@.gadgets[gi as int] == self.gadgets@[gi as int]@);
                }
                self.gadgets[gi].functions.len()
            },
            None => 0,
        }
    }

    /// How many configuration directories the gadget holds; zero if it
    /// does not exist.
    pub fn config_count(&self, g: u64) -> (r: usize)
        ensures
            has_gadget(self@, g) ==> r == gadget_of(self@, g).configs.len(),
            !has_gadget(self@, g) ==> r == 0,
    {
        match self.gadget_idx(g) {
            Some(gi) => {
                proof {
                    assert(self@.gadgets[gi as int] == self.gadgets@[gi as int]@);
                }
                self.gadgets[gi].configs.len()
            },
            None => 0,
        }
    }

    /// How many symlinks configuration `ci` of the gadget holds; zero if
    /// the gadget or the configuration does not exist.
    pub fn link_count(&self, g: u64, ci: usize) -> (r: usize)
        ensures
            has_gadget(self@, g) && ci < gadget_of(self@, g).configs.len() ==> r == gadget_of(
                self@,
                g,
            ).configs[ci as int].links.len(),
            !(has_gadget(self@, g) && ci < gadget_of(self@, g).configs.len()) ==> r == 0,
    {
        match self.gadget_idx(g) {
            Some(gi) => {
                proof {
                    assert(self@.gadgets[gi as int] == self.gadgets@[gi as int]@);
                }
                if ci < self.gadgets[gi].configs.len() {
                    proof {
                        assert(self@.gadgets[gi as int].configs[ci as int] == self.gadgets@[gi as int].configs@[ci as int]@);
                    }
                    self.gadgets[gi].configs[ci].links.len()
                } else {
                    0
                }
            },
            None => 0,
        }
    }

    /// The symlink targets of configuration `ci`, in creation order.
    pub fn config_link_targets(&self, g: u64, ci: usize) -> (r: Option<Vec<u64>>)
        ensures
            ({
                match r {
                    Some(ls) => has_gadget(self@, g) && ci < gadget_of(self@, g).configs.len()
                        && ls@ == gadget_of(self@, g).configs[ci as int].links,
                    None => !has_gadget(self@, g) || ci >= gadget_of(self@, g).configs.len(),
                }
            }),
    {
        match self.gadget_idx(g) {
            Some(gi) => {
                proof {
                    assert(self@.gadgets[gi as int] == self.gadgets@[gi as int]@);
                }
                if ci < self.gadgets[gi].configs.len() {
                    proof {
                        assert(self@.gadgets[gi as int].configs[ci as int] == self.gadgets@[gi as int].configs@[ci as int]@);
                    }
                    let links = &self.gadgets[gi].configs[ci].links;
                    let mut out: Vec<u64> = Vec::new();
                    let mut k: usize = 0;
                    while k < links.len()
                        invariant
                            k <= links@.len(),
                            out@ == links@.take(k as int),
                        decreases links@.len() - k,
                    {
                        out.push(links[k]);
                        proof {
                            assert(out@ =~= links@.take(k as int + 1));
                        }
                        k += 1;
                    }
                    proof {
                        assert(links@.take(links@.len() as int) =~= links@);
                    }
                    Some(out)
                } else {
                    None
                }
            },
            None => None,
        }
    }
}

/// A gadget root directory as `create_gadget` makes it: no attribute
/// writes, no children, binding file empty.
pub open spec fn empty_gadget(id: u64) -> GadgetDirV {
    GadgetDirV {
        id,
        attrs: Seq::empty(),
        functions: Seq::empty(),
        configs: Seq::empty(),
        udc: None,
    }
}

} // verus!
