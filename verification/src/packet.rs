//! Application messages and the addresses they travel between.

use vstd::prelude::*;

verus! {

/// The address of a remote endpoint, as far as the engine needs it: a value
/// that can be copied and compared.
#[derive(Debug, Clone, Copy, PartialEq, Eq, Hash, Structural)]
pub struct Address {
    /// The host, an IPv6 address or an IPv4 address mapped into one.
    pub host: u128,
    /// The port.
    pub port: u16,
}

/// How a packet is to be delivered.
#[derive(Debug, Clone, Copy, PartialEq, Eq, Structural)]
pub struct PacketFlags {
    /// The packet must arrive, and in order.
    pub reliable: bool,
    /// The packet is outside the channel's sequence.
    pub unsequenced: bool,
    /// A packet too large for one datagram is cut into unreliable fragments
    /// rather than reliable ones.
    pub unreliable_fragment: bool,
    /// The payload is owned by the application.
    pub no_allocate: bool,
}

/// An application message: payload and delivery flags.
#[derive(Debug, Clone, PartialEq, Eq)]
pub struct Packet {
    data: Vec<u8>,
    flags: PacketFlags,
}

/// The mathematical value of a [`Packet`].
pub struct PacketView {
    pub data: Seq<u8>,
    pub flags: PacketFlags,
}

impl PacketFlags {
    /// Whether the flags can stand together: a packet is not both reliable
    /// and unsequenced.
    pub open spec fn legal(self) -> bool {
        !(self.reliable && self.unsequenced)
    }

    /// The flags of a reliable packet.
    pub open spec fn spec_reliable() -> PacketFlags {
        PacketFlags {
            reliable: true,
            unsequenced: false,
            unreliable_fragment: false,
            no_allocate: false,
        }
    }

    /// The flags of an unreliable, sequenced packet.
    pub open spec fn spec_unreliable() -> PacketFlags {
        PacketFlags {
            reliable: false,
            unsequenced: false,
            unreliable_fragment: false,
            no_allocate: false,
        }
    }

    /// The flags of an unsequenced packet.
    pub open spec fn spec_unsequenced() -> PacketFlags {
        PacketFlags {
            reliable: false,
            unsequenced: true,
            unreliable_fragment: false,
            no_allocate: false,
        }
    }

    /// Whether the flags can stand together.
    pub fn is_legal(&self) -> (r: bool)
        ensures
            r == self.legal(),
    {
        !(self.reliable && self.unsequenced)
    }
}

impl View for Packet {
    type V = PacketView;

    closed spec fn view(&self) -> PacketView {
        PacketView { data: self.data@, flags: self.flags }
    }
}

impl Packet {
    /// A packet with the given payload and flags.
    pub fn new(data: Vec<u8>, flags: PacketFlags) -> (p: Packet)
        ensures
            p@ == (PacketView { data: data@, flags }),
    {
        Packet { data, flags }
    }

    /// A packet that must arrive, and in order.
    pub fn reliable(data: Vec<u8>) -> (p: Packet)
        ensures
            p@ == (PacketView { data: data@, flags: PacketFlags::spec_reliable() }),
    {
        Packet {
            data,
            flags: PacketFlags {
                reliable: true,
                unsequenced: false,
                unreliable_fragment: false,
                no_allocate: false,
            },
        }
    }

    /// A packet that may be lost but is never delivered out of order.
    pub fn unreliable(data: Vec<u8>) -> (p: Packet)
        ensures
            p@ == (PacketView { data: data@, flags: PacketFlags::spec_unreliable() }),
    {
        Packet {
            data,
            flags: PacketFlags {
                reliable: false,
                unsequenced: false,
                unreliable_fragment: false,
                no_allocate: false,
            },
        }
    }

    /// A packet that may be lost and may overtake others.
    pub fn unsequenced(data: Vec<u8>) -> (p: Packet)
        ensures
            p@ == (PacketView { data: data@, flags: PacketFlags::spec_unsequenced() }),
    {
        Packet {
            data,
            flags: PacketFlags {
                reliable: false,
                unsequenced: true,
                unreliable_fragment: false,
                no_allocate: false,
            },
        }
    }

    /// The payload.
    pub fn data(&self) -> (d: &[u8])
        ensures
            d@ == self@.data,
    {
        self.data.as_slice()
    }

    /// The delivery flags.
    pub fn flags(&self) -> (f: PacketFlags)
        ensures
            f == self@.flags,
    {
        self.flags
    }

    /// Length in bytes of the payload.
    pub fn len(&self) -> (n: usize)
        ensures
            n == self@.data.len(),
    {
        self.data.len()
    }

    /// The payload, taken out of the packet.
    pub fn into_data(self) -> (d: Vec<u8>)
        ensures
            d@ == self@.data,
    {
        self.data
    }
}

} // verus!
