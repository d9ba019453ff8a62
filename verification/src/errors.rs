use vstd::prelude::*;

use crate::channels::{ChannelID, PacketBufferAddress};
use crate::packet::DataVersion;

verus! {

/// Errors raised on the buffer layer.
#[derive(Debug, PartialEq)]
pub enum BufferError {
    /// A packet with this version is already stored on the channel.
    DuplicateVersion(DataVersion),
    /// A packet with this address is already stored.
    DuplicateDataVersionError(PacketBufferAddress),
    /// The channel has already been created.
    DuplicateChannelError(ChannelID),
    /// The channel was never created.
    MissingChannel(ChannelID),
}

} // verus!
