//! USB gadget MIDI function.
//!
//! An example function kind: its builder carries the adapter identity and
//! port/buffer sizing, and registration writes them into the function
//! directory as string-encoded values, in a fixed order.

use vstd::prelude::*;

use crate::configfs::{Attr, AttrV, ConfigFs};
use crate::decimal::{dec_u64, spec_dec};
use crate::function::{Function, FunctionDir, Handle, HandleV, Status, spec_status};

verus! {

/// Builder for a USB gadget MIDI function.
#[derive(Clone, Debug)]
#[non_exhaustive]
pub struct MidiBuilder {
    /// Index value for the USB MIDI adapter.
    pub index: i8,
    /// ID string for the USB MIDI adapter.
    pub id: String,
    /// MIDI buffer length.
    pub buflen: u16,
    /// Queue length.
    pub qlen: u16,
    /// Number of MIDI input ports.
    pub in_ports: u8,
    /// Number of MIDI output ports.
    pub out_ports: u8,
}

/// The attribute writes MIDI registration performs, in this order:
/// the id string, then the port counts and buffer sizes as decimal
/// strings.
pub open spec fn midi_attrs(b: MidiBuilder) -> Seq<AttrV> {
    seq![
        AttrV { key: "id"@, value: b.id@ },
        AttrV { key: "in_ports"@, value: spec_dec(b.in_ports as nat) },
        AttrV { key: "out_ports"@, value: spec_dec(b.out_ports as nat) },
        AttrV { key: "buflen"@, value: spec_dec(b.buflen as nat) },
        AttrV { key: "qlen"@, value: spec_dec(b.qlen as nat) },
    ]
}

impl MidiBuilder {
    /// Builds the USB function.
    ///
    /// `instance` names the function's directory in the tree; two
    /// functions carrying the same instance stand for the same directory,
    /// so binding a gadget that attaches both is rejected.  The returned
    /// handle must be added to a gadget configuration.
    pub fn build(self, instance: u64) -> (r: (Midi, Handle))
        ensures
            r.0.dir.driver@ == "midi"@,
            r.0.dir.instance == instance,
            r.1@ == (HandleV { driver: "midi"@, instance, attrs: midi_attrs(self) }),
    {
        let dir = FunctionDir { driver: "midi".to_owned(), instance };
        let f = MidiFunction {
            builder: self,
            dir: FunctionDir { driver: "midi".to_owned(), instance },
        };
        (Midi { dir }, Handle::new(f))
    }
}

/// The MIDI function kind behind a handle.
struct MidiFunction {
    builder: MidiBuilder,
    dir: FunctionDir,
}

impl Function for MidiFunction {
    closed spec fn spec_driver(&self) -> Seq<char> {
        "midi"@
    }

    closed spec fn spec_instance(&self) -> u64 {
        self.dir.instance
    }

    closed spec fn spec_attrs(&self) -> Seq<AttrV> {
        midi_attrs(self.builder)
    }

    fn driver(&self) -> (r: String) {
        "midi".to_owned()
    }

    fn dir(&self) -> (r: FunctionDir) {
        FunctionDir { driver: "midi".to_owned(), instance: self.dir.instance }
    }

    fn register_writes(&self) -> (r: Vec<Attr>) {
        let mut v: Vec<Attr> = Vec::new();
        v.push(Attr { key: "id".to_owned(), value: self.builder.id.clone() });
        v.push(Attr { key: "in_ports".to_owned(), value: dec_u64(self.builder.in_ports as u64) });
        v.push(
            Attr { key: "out_ports".to_owned(), value: dec_u64(self.builder.out_ports as u64) },
        );
        v.push(Attr { key: "buflen".to_owned(), value: dec_u64(self.builder.buflen as u64) });
        v.push(Attr { key: "qlen".to_owned(), value: dec_u64(self.builder.qlen as u64) });
        proof {
            assert(v@.map_values(|a: Attr| a@) =~= midi_attrs(self.builder));
        }
        v
    }
}

/// USB gadget MIDI function: the public object kept by the caller while
/// the handle travels through configuration and gadget.
#[derive(Debug)]
pub struct Midi {
    /// The function's directory in the tree.
    pub dir: FunctionDir,
}

impl Midi {
    /// Creates a new USB gadget MIDI builder, with the default identity
    /// and sizing.
    pub fn builder() -> (r: MidiBuilder)
        ensures
            r.id@ == "Midi USB Gadget"@,
            r.in_ports == 1,
            r.out_ports == 1,
            r.buflen == 512,
            r.qlen == 32,
            r.index == -1,
    {
        MidiBuilder {
            id: "Midi USB Gadget".to_owned(),
            in_ports: 1,
            out_ports: 1,
            buflen: 512,
            qlen: 32,
            index: -1,
        }
    }

    /// The current registration status of this function.
    pub fn status(&self, fs: &ConfigFs) -> (r: Status)
        ensures
            r == spec_status(fs@, self.dir.instance),
    {
        self.dir.status(fs)
    }
}

} // verus!
