//! Composition and lifecycle engine for Linux USB gadgets.
//!
//! A gadget is described declaratively — its class, identity, strings and
//! functions — and materialized into a configfs-style tree: a gadget root
//! directory with attribute files, function directories with kind-specific
//! attributes, configuration directories with symlinks into the function
//! directories, and a controller-binding file.  The tree itself is held as an
//! explicit value ([`configfs::ConfigFs`]); every lifecycle step is specified
//! and proved against it, including the write-ordering rules that the kernel
//! enforces (attributes before symlinks, symlinks before controller binding,
//! unbinding before removal) and leak-free teardown.

use vstd::prelude::*;

pub mod configfs;
pub mod decimal;
pub mod function;
pub mod gadget;

verus! {

/// Why a lifecycle operation was refused.
#[derive(Clone, Copy, Debug, PartialEq, Eq, Structural)]
pub enum Error {
    /// The directory addressed by the operation does not exist.
    NotFound,
    /// A function directory for this instance already exists somewhere
    /// in the tree; registering it again would duplicate its writes.
    AlreadyRegistered,
    /// The gadget is bound to a controller; the write is rejected
    /// defensively, as the kernel would reject it too.
    AlreadyBound,
    /// The controller is already claimed by another gadget.
    UdcBusy,
    /// The gadget has no attached function in any configuration;
    /// the kernel rejects empty gadgets at binding time.
    NoFunctions,
    /// The gadget is still bound; it must be detached before removal.
    StillBound,
}

} // verus!
