use vstd::prelude::*;

use crate::packet::{DataVersion, PacketModel, UntypedPacket};

verus! {

/// The name of a channel. Identity is the string alone.
#[derive(Eq, Hash, Debug, Clone)]
pub struct ChannelID {
    id: String,
}

impl View for ChannelID {
    type V = Seq<char>;

    closed spec fn view(&self) -> Seq<char> {
        self.id@
    }
}

impl ChannelID {
    pub fn new(id: String) -> (r: Self)
        ensures
            r@ == id@,
    {
        ChannelID { id }
    }

    pub fn from(id: &str) -> (r: Self)
        ensures
            r@ == id@,
    {
        ChannelID { id: id.to_string() }
    }

    /// A copy with the same identity.
    pub fn duplicate(&self) -> (r: Self)
        ensures
            r == *self,
    {
        ChannelID { id: self.id.clone() }
    }
}

impl PartialEq for ChannelID {
    fn eq(&self, other: &Self) -> bool {
        self.id == other.id
    }
}

impl vstd::std_specs::cmp::PartialEqSpecImpl for ChannelID {
    open spec fn obeys_eq_spec() -> bool {
        true
    }

    open spec fn eq_spec(&self, other: &Self) -> bool {
        self@ == other@
    }
}

/// The identity of a packet within the runtime: its channel and version.
pub type PacketBufferAddress = (ChannelID, DataVersion);

/// Why a receive on a queue endpoint did not yield a packet.
#[derive(Debug, Clone, Copy, PartialEq, Eq, Structural)]
pub enum ReceiveErrorKind {
    /// The queue holds no packet right now; the poll simply retries.
    Empty,
    /// Every sender is gone; the upstream node has shut down.
    Disconnected,
}

/// Errors raised on the channel layer.
#[derive(Debug, PartialEq)]
pub enum ChannelError {
    DuplicateDataVersionError(PacketBufferAddress),
    MissingChannel(ChannelID),
    MissingChannelIndex(usize),
    MissingChannelData(usize),
    ReceiveError(ReceiveErrorKind),
    SendError(String),
    EndOfStreamError(ChannelID),
}

#[verifier::external_type_specification]
#[verifier::external_body]
#[verifier::reject_recursive_types(T)]
pub struct ExSender<T>(crossbeam::channel::Sender<T>);

#[verifier::external_type_specification]
#[verifier::external_body]
#[verifier::reject_recursive_types(T)]
pub struct ExReceiver<T>(crossbeam::channel::Receiver<T>);

/// Relies on crossbeam_channel::unbounded: a linked pair of endpoints of a
/// queue without a capacity bound.
#[verifier::external_body]
fn unbounded_packet_channel() -> (crossbeam::channel::Sender<UntypedPacket>, crossbeam::channel::Receiver<UntypedPacket>) {
    crossbeam::channel::unbounded()
}

/// Relies on crossbeam_channel::Sender::clone: another handle to the same
/// queue.
#[verifier::external_body]
fn clone_sender(s: &crossbeam::channel::Sender<UntypedPacket>) -> crossbeam::channel::Sender<UntypedPacket> {
    s.clone()
}

/// Relies on crossbeam_channel::Receiver::clone: another handle to the same
/// queue.
#[verifier::external_body]
fn clone_receiver(r: &crossbeam::channel::Receiver<UntypedPacket>) -> crossbeam::channel::Receiver<UntypedPacket> {
    r.clone()
}

/// Relies on crossbeam_channel::Sender::send on an unbounded queue: it fails
/// only when every receiver is gone, and the error returns the packet.
#[verifier::external_body]
fn send_packet(s: &crossbeam::channel::Sender<UntypedPacket>, packet: UntypedPacket) -> (r: Result<
    (),
    UntypedPacket,
>)
    ensures
        r matches Err(p) ==> p == packet,
{
    match s.send(packet) {
        Ok(()) => Ok(()),
        Err(e) => Err(e.0),
    }
}

/// Relies on crossbeam_channel::Receiver::try_recv: it never blocks, and it
/// tells an empty queue apart from one whose senders are all gone.
#[verifier::external_body]
fn try_recv_packet(r: &crossbeam::channel::Receiver<UntypedPacket>) -> Result<
    UntypedPacket,
    ReceiveErrorKind,
> {
    match r.try_recv() {
        Ok(p) => Ok(p),
        Err(crossbeam::channel::TryRecvError::Empty) => Err(ReceiveErrorKind::Empty),
        Err(crossbeam::channel::TryRecvError::Disconnected) => Err(ReceiveErrorKind::Disconnected),
    }
}

/// The receiving endpoint of a packet queue.
pub struct UntypedReceiverChannel {
    receiver: crossbeam::channel::Receiver<UntypedPacket>,
}

impl UntypedReceiverChannel {
    pub fn new(receiver: &crossbeam::channel::Receiver<UntypedPacket>) -> Self {
        UntypedReceiverChannel { receiver: clone_receiver(receiver) }
    }

    /// Non-blocking poll of the queue.
    pub fn try_receive(&self) -> (r: Result<UntypedPacket, ChannelError>)
        ensures
            r matches Err(e) ==> e matches ChannelError::ReceiveError(_),
    {
        match try_recv_packet(&self.receiver) {
            Ok(packet) => Ok(packet),
            Err(kind) => Err(ChannelError::ReceiveError(kind)),
        }
    }
}

/// The sending endpoint of a packet queue.
pub struct UntypedSenderChannel {
    sender: crossbeam::channel::Sender<UntypedPacket>,
}

impl UntypedSenderChannel {
    pub fn new(sender: &crossbeam::channel::Sender<UntypedPacket>) -> Self {
        UntypedSenderChannel { sender: clone_sender(sender) }
    }

    /// Another handle to the same queue.
    pub fn duplicate(&self) -> Self {
        UntypedSenderChannel { sender: clone_sender(&self.sender) }
    }

    /// Hands the packet to the queue; fails only when the receiving side is
    /// gone.
    pub fn send(&self, data: UntypedPacket) -> (r: Result<(), ChannelError>)
        ensures
            r matches Err(e) ==> e matches ChannelError::SendError(_),
    {
        match send_packet(&self.sender, data) {
            Ok(()) => Ok(()),
            Err(_) => Err(
                ChannelError::SendError(
                    "Could not send because the channel is disconnected".to_string(),
                ),
            ),
        }
    }
}

/// A linked sender/receiver pair for untyped packets.
pub fn untyped_channel() -> (UntypedSenderChannel, UntypedReceiverChannel) {
    let (channel_sender, channel_receiver) = unbounded_packet_channel();
    (UntypedSenderChannel::new(&channel_sender), UntypedReceiverChannel::new(&channel_receiver))
}

/// A flat store of packets keyed by channel and version.
pub struct BufferedReadData {
    data: Vec<(ChannelID, UntypedPacket)>,
}

impl BufferedReadData {
    /// The store, mathematically: pairs of channel identity and packet value.
    pub closed spec fn entries(self) -> Seq<(Seq<char>, PacketModel)> {
        self.data@.map_values(|e: (ChannelID, UntypedPacket)| (e.0@, e.1@))
    }

    pub open spec fn has_entry(self, id: Seq<char>, t: u64) -> bool {
        exists|i: int|
            0 <= i < self.entries().len() && (#[trigger] self.entries()[i]).0 == id
                && self.entries()[i].1.version.timestamp == t
    }

    pub open spec fn entry_index(self, id: Seq<char>, t: u64) -> int {
        choose|i: int|
            0 <= i < self.entries().len() && (#[trigger] self.entries()[i]).0 == id
                && self.entries()[i].1.version.timestamp == t
    }

    pub open spec fn entry_at(self, id: Seq<char>, t: u64) -> PacketModel {
        self.entries()[self.entry_index(id, t)].1
    }

    /// No two stored packets share a channel and a version.
    pub open spec fn wf(self) -> bool {
        forall|i: int, j: int|
            0 <= i < j < self.entries().len() ==> !((#[trigger] self.entries()[i]).0
                == (#[trigger] self.entries()[j]).0 && self.entries()[i].1.version.timestamp
                == self.entries()[j].1.version.timestamp)
    }

    proof fn lemma_entry_at_unique(self, id: Seq<char>, t: u64, i: int)
        requires
            self.wf(),
            0 <= i < self.entries().len(),
            self.entries()[i].0 == id,
            self.entries()[i].1.version.timestamp == t,
        ensures
            self.has_entry(id, t),
            self.entry_at(id, t) == self.entries()[i].1,
    {
        let k = self.entry_index(id, t);
        assert(0 <= k < self.entries().len() && self.entries()[k].0 == id
            && self.entries()[k].1.version.timestamp == t);
        if k != i {
            if k < i {
                assert(false);
            } else {
                assert(false);
            }
        }
    }

    pub fn new() -> (r: BufferedReadData)
        ensures
            r.entries() == Seq::<(Seq<char>, PacketModel)>::empty(),
            r.wf(),
    {
        let r = BufferedReadData { data: Vec::new() };
        proof {
            assert(r.entries() =~= Seq::<(Seq<char>, PacketModel)>::empty());
        }
        r
    }

    fn find(&self, channel: &ChannelID, version: &DataVersion) -> (r: Option<usize>)
        ensures
            match r {
                Some(i) => i < self.entries().len() && self.entries()[i as int].0 == channel@
                    && self.entries()[i as int].1.version.timestamp == version.timestamp,
                None => !self.has_entry(channel@, version.timestamp),
            },
    {
        let mut i: usize = 0;
        while i < self.data.len()
            invariant
                i <= self.data.len(),
                forall|j: int|
                    0 <= j < i ==> !((#[trigger] self.entries()[j]).0 == channel@
                        && self.entries()[j].1.version.timestamp == version.timestamp),
            decreases self.data.len() - i,
        {
            if self.data[i].0 == *channel && self.data[i].1.version.timestamp == version.timestamp {
                return Some(i);
            }
            i += 1;
        }
        None
    }

    /// Stores the packet under the channel and the packet's own version,
    /// replacing any packet already there.
    pub fn insert(&mut self, channel: &ChannelID, packet: UntypedPacket)
        requires
            old(self).wf(),
        ensures
            final(self).wf(),
            final(self).has_entry(channel@, packet.version.timestamp),
            final(self).entry_at(channel@, packet.version.timestamp) == packet@,
            forall|id2: Seq<char>, t2: u64|
                !(id2 == channel@ && t2 == packet.version.timestamp) ==> (#[trigger] final(self).has_entry(id2, t2) <==> old(self).has_entry(id2, t2)),
            forall|id2: Seq<char>, t2: u64|
                !(id2 == channel@ && t2 == packet.version.timestamp) && old(self).has_entry(
                    id2,
                    t2,
                ) ==> #[trigger] final(self).entry_at(id2, t2) == old(self).entry_at(id2, t2),
    {
        let ghost pre = *self;
        let t = packet.version.timestamp;
        let slot = self.find(channel, &packet.version);
        match slot {
            Some(i) => {
                let _ = self.data.remove(i);
                self.data.insert(i, (channel.duplicate(), packet));
                proof {
                    assert(self.entries() =~= pre.entries().update(
                        i as int,
                        (channel@, packet@),
                    ));
                    self.lemma_entry_at_unique(channel@, t, i as int);
                    assert forall|id2: Seq<char>, t2: u64|
                        !(id2 == channel@ && t2 == t) implies (#[trigger] self.has_entry(id2, t2)
                        <==> pre.has_entry(id2, t2)) by {
                        if self.has_entry(id2, t2) {
                            let k = choose|k: int|
                                0 <= k < self.entries().len() && (#[trigger] self.entries()[k]).0
                                    == id2 && self.entries()[k].1.version.timestamp == t2;
                            assert(pre.entries()[k] == self.entries()[k]);
                        }
                        if pre.has_entry(id2, t2) {
                            let k = choose|k: int|
                                0 <= k < pre.entries().len() && (#[trigger] pre.entries()[k]).0
                                    == id2 && pre.entries()[k].1.version.timestamp == t2;
                            assert(pre.entries()[i as int].0 == channel@);
                            assert(pre.entries()[i as int].1.version.timestamp == t);
                            assert(k != i);
                            assert(self.entries()[k] == pre.entries()[k]);
                        }
                    }
                    assert forall|id2: Seq<char>, t2: u64|
                        !(id2 == channel@ && t2 == t) && pre.has_entry(id2, t2)
                        implies #[trigger] self.entry_at(id2, t2) == pre.entry_at(id2, t2) by {
                        let k = choose|k: int|
                            0 <= k < pre.entries().len() && (#[trigger] pre.entries()[k]).0 == id2
                                && pre.entries()[k].1.version.timestamp == t2;
                        assert(k != i);
                        assert(self.entries()[k] == pre.entries()[k]);
                        pre.lemma_entry_at_unique(id2, t2, k);
                        self.lemma_entry_at_unique(id2, t2, k);
                    }
                }
            },
            None => {
                self.data.push((channel.duplicate(), packet));
                proof {
                    assert(self.entries() =~= pre.entries().push((channel@, packet@)));
                    let n = pre.entries().len() as int;
                    assert(self.entries()[n] == (channel@, packet@));
                    assert forall|i: int, j: int| 0 <= i < j < self.entries().len() implies !((
                    #[trigger] self.entries()[i]).0 == (#[trigger] self.entries()[j]).0
                        && self.entries()[i].1.version.timestamp
                        == self.entries()[j].1.version.timestamp) by {
                        if j == n {
                            assert(self.entries()[i] == pre.entries()[i]);
                            if self.entries()[i].0 == channel@
                                && self.entries()[i].1.version.timestamp == t {
                                assert(pre.has_entry(channel@, t));
                                assert(false);
                            }
                        } else {
                            assert(self.entries()[i] == pre.entries()[i]);
                            assert(self.entries()[j] == pre.entries()[j]);
                        }
                    }
                    self.lemma_entry_at_unique(channel@, t, n);
                    assert forall|id2: Seq<char>, t2: u64|
                        !(id2 == channel@ && t2 == t) implies (#[trigger] self.has_entry(id2, t2)
                        <==> pre.has_entry(id2, t2)) by {
                        if self.has_entry(id2, t2) {
                            let k = choose|k: int|
                                0 <= k < self.entries().len() && (#[trigger] self.entries()[k]).0
                                    == id2 && self.entries()[k].1.version.timestamp == t2;
                            assert(k != n);
                            assert(pre.entries()[k] == self.entries()[k]);
                        }
                        if pre.has_entry(id2, t2) {
                            let k = choose|k: int|
                                0 <= k < pre.entries().len() && (#[trigger] pre.entries()[k]).0
                                    == id2 && pre.entries()[k].1.version.timestamp == t2;
                            assert(self.entries()[k] == pre.entries()[k]);
                        }
                    }
                    assert forall|id2: Seq<char>, t2: u64|
                        !(id2 == channel@ && t2 == t) && pre.has_entry(id2, t2)
                        implies #[trigger] self.entry_at(id2, t2) == pre.entry_at(id2, t2) by {
                        let k = choose|k: int|
                            0 <= k < pre.entries().len() && (#[trigger] pre.entries()[k]).0 == id2
                                && pre.entries()[k].1.version.timestamp == t2;
                        assert(self.entries()[k] == pre.entries()[k]);
                        pre.lemma_entry_at_unique(id2, t2, k);
                        self.lemma_entry_at_unique(id2, t2, k);
                    }
                }
            },
        }
    }

    pub fn has_version(&self, channel: &ChannelID, version: &DataVersion) -> (r: bool)
        ensures
            r == self.has_entry(channel@, version.timestamp),
    {
        let slot = self.find(channel, version);
        match slot {
            Some(i) => {
                proof {
                    assert(self.has_entry(channel@, version.timestamp));
                }
                true
            },
            None => false,
        }
    }

    /// Removes and returns the packet stored under the channel and version.
    pub fn remove_version(&mut self, channel: &ChannelID, version: &DataVersion) -> (r: Option<
        UntypedPacket,
    >)
        requires
            old(self).wf(),
        ensures
            final(self).wf(),
            r is Some <==> old(self).has_entry(channel@, version.timestamp),
            r matches Some(p) ==> p@ == old(self).entry_at(channel@, version.timestamp),
            !final(self).has_entry(channel@, version.timestamp),
            forall|id2: Seq<char>, t2: u64|
                !(id2 == channel@ && t2 == version.timestamp) ==> (#[trigger] final(self).has_entry(id2, t2) <==> old(self).has_entry(id2, t2)),
            forall|id2: Seq<char>, t2: u64|
                !(id2 == channel@ && t2 == version.timestamp) && old(self).has_entry(id2, t2)
                    ==> #[trigger] final(self).entry_at(id2, t2) == old(self).entry_at(id2, t2),
    {
        let ghost pre = *self;
        let t = version.timestamp;
        let slot = self.find(channel, version);
        match slot {
            Some(i) => {
                let entry = self.data.remove(i);
                proof {
                    assert(self.entries() =~= pre.entries().remove(i as int));
                    pre.lemma_entry_at_unique(channel@, t, i as int);
                    assert forall|id2: Seq<char>, t2: u64| #[trigger] self.has_entry(id2, t2)
                        implies pre.has_entry(id2, t2) && !(id2 == channel@ && t2 == t) by {
                        if self.has_entry(id2, t2) {
                            let k = choose|k: int|
                                0 <= k < self.entries().len() && (#[trigger] self.entries()[k]).0
                                    == id2 && self.entries()[k].1.version.timestamp == t2;
                            let k0 = if k < i as int {
                                k
                            } else {
                                k + 1
                            };
                            assert(self.entries()[k] == pre.entries()[k0]);
                            pre.lemma_entry_at_unique(id2, t2, k0);
                            if id2 == channel@ && t2 == t {
                                assert(k0 != i);
                                assert(false);
                            }
                        }
                    }
                    assert forall|id2: Seq<char>, t2: u64|
                        !(id2 == channel@ && t2 == t) && pre.has_entry(id2, t2) implies #[trigger] self.has_entry(id2, t2) && self.entry_at(id2, t2) == pre.entry_at(id2, t2) by {
                        let k = choose|k: int|
                            0 <= k < pre.entries().len() && (#[trigger] pre.entries()[k]).0 == id2
                                && pre.entries()[k].1.version.timestamp == t2;
                        assert(k != i);
                        let k1 = if k < i as int {
                            k
                        } else {
                            k - 1
                        };
                        assert(self.entries()[k1] == pre.entries()[k]);
                        pre.lemma_entry_at_unique(id2, t2, k);
                        self.lemma_entry_at_unique(id2, t2, k1);
                    }
                    assert forall|id2: Seq<char>, t2: u64|
                        !(id2 == channel@ && t2 == t) && pre.has_entry(id2, t2)
                        implies #[trigger] self.entry_at(id2, t2) == pre.entry_at(id2, t2) by {
                        assert(self.has_entry(id2, t2) && self.entry_at(id2, t2) == pre.entry_at(
                            id2,
                            t2,
                        ));
                    }
                }
                Some(entry.1)
            },
            None => None,
        }
    }
}

} // verus!
