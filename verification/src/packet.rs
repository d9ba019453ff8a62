use vstd::prelude::*;

verus! {

/// A monotonic key that totally orders the packets of a channel.
/// Two packets on the same channel may never share a version.
#[derive(Clone, Copy, PartialEq, Eq, Structural, Hash, Debug)]
pub struct DataVersion {
    pub timestamp: u64,
}

/// The mathematical value of a packet: its version together with the
/// payload bytes. Contracts speak of this model, never of allocations.
pub ghost struct PacketModel {
    pub version: DataVersion,
    pub payload: Seq<u8>,
}

/// A unit of data flowing on a channel. The runtime never interprets the
/// payload; it only routes it by version.
#[derive(Clone, Debug, PartialEq, Eq)]
pub struct UntypedPacket {
    pub version: DataVersion,
    pub payload: Vec<u8>,
}

impl View for UntypedPacket {
    type V = PacketModel;

    open spec fn view(&self) -> PacketModel {
        PacketModel { version: self.version, payload: self.payload@ }
    }
}

impl UntypedPacket {
    pub fn new(version: DataVersion, payload: Vec<u8>) -> (r: Self)
        ensures
            r.version == version,
            r@.payload == payload@,
    {
        UntypedPacket { version, payload }
    }

    /// A copy that carries the same version and the same payload bytes.
    pub fn duplicate(&self) -> (r: Self)
        ensures
            r@ == self@,
    {
        let payload = self.payload.clone();
        proof {
            assert forall|i: int| 0 <= i < self.payload@.len() implies payload@[i]
                == self.payload@[i] by {
                assert(cloned::<u8>(self.payload[i], payload[i]));
            }
            assert(payload@ =~= self.payload@);
        }
        UntypedPacket { version: self.version, payload }
    }
}

} // verus!
