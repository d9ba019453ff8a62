use vstd::prelude::*;

use crate::channels::{ChannelID, PacketBufferAddress};
use crate::errors::BufferError;
use crate::packet::{DataVersion, PacketModel, UntypedPacket};
use crate::single_buffers::{contains_version, packet_at, sorted_by_version, FixedSizeOrdered};
use crate::single_buffers::inserted_model;

verus! {

/// The multi-channel buffer: one bounded ordered buffer per created channel.
pub struct BtreeBufferedData {
    data: Vec<(ChannelID, FixedSizeOrdered)>,
    max_size: usize,
}

/// Channels other than `id` hold exactly what they held before.
pub open spec fn same_channels_except(
    pre: BtreeBufferedData,
    post: BtreeBufferedData,
    id: Seq<char>,
) -> bool {
    &&& forall|id2: Seq<char>|
        id2 != id ==> (#[trigger] post.spec_has_channel(id2) <==> pre.spec_has_channel(id2))
    &&& forall|id2: Seq<char>|
        id2 != id && pre.spec_has_channel(id2) ==> #[trigger] post.spec_chan(id2) == pre.spec_chan(
            id2,
        )
}

impl BtreeBufferedData {
    /// The buffer, mathematically: each created channel's identity paired
    /// with the packets it holds, in creation order.
    pub closed spec fn channels_model(self) -> Seq<(Seq<char>, Seq<PacketModel>)> {
        self.data@.map_values(|e: (ChannelID, FixedSizeOrdered)| (e.0@, e.1@))
    }

    pub closed spec fn capacity(self) -> usize {
        self.max_size
    }

    pub open spec fn spec_has_channel(self, id: Seq<char>) -> bool {
        exists|i: int|
            0 <= i < self.channels_model().len() && (#[trigger] self.channels_model()[i]).0 == id
    }

    pub open spec fn channel_index(self, id: Seq<char>) -> int {
        choose|i: int|
            0 <= i < self.channels_model().len() && (#[trigger] self.channels_model()[i]).0 == id
    }

    /// The packets held by channel `id`.
    pub open spec fn spec_chan(self, id: Seq<char>) -> Seq<PacketModel> {
        self.channels_model()[self.channel_index(id)].1
    }

    pub open spec fn unique_ids(self) -> bool {
        forall|i: int, j: int|
            0 <= i < j < self.channels_model().len() ==> (#[trigger] self.channels_model()[i]).0
                != (#[trigger] self.channels_model()[j]).0
    }

    /// Every per-channel buffer is well formed and bound to this buffer's
    /// capacity.
    pub closed spec fn inv(self) -> bool {
        forall|i: int|
            0 <= i < self.data@.len() ==> (#[trigger] self.data@[i]).1.wf()
                && self.data@[i].1.capacity() == self.max_size
    }

    pub open spec fn wf(self) -> bool {
        &&& self.inv()
        &&& self.capacity() >= 1
        &&& self.unique_ids()
        &&& forall|i: int|
            0 <= i < self.channels_model().len() ==> sorted_by_version(
                (#[trigger] self.channels_model()[i]).1,
            ) && self.channels_model()[i].1.len() <= self.capacity()
    }

    proof fn lemma_chan_at(self, id: Seq<char>, i: int)
        requires
            self.unique_ids(),
            0 <= i < self.channels_model().len(),
            self.channels_model()[i].0 == id,
        ensures
            self.spec_has_channel(id),
            self.channel_index(id) == i,
            self.spec_chan(id) == self.channels_model()[i].1,
    {
        assert(self.spec_has_channel(id));
        let k = self.channel_index(id);
        if k < i {
            assert(false);
        } else if k > i {
            assert(false);
        }
    }

    /// After an update of entry `i` that keeps its identity, every other
    /// channel is untouched.
    proof fn lemma_update_at(pre: Self, post: Self, i: int)
        requires
            pre.unique_ids(),
            0 <= i < pre.channels_model().len(),
            post.channels_model().len() == pre.channels_model().len(),
            post.channels_model()[i].0 == pre.channels_model()[i].0,
            forall|j: int|
                0 <= j < pre.channels_model().len() && j != i ==> #[trigger] post.channels_model()[j]
                    == pre.channels_model()[j],
        ensures
            post.unique_ids(),
            same_channels_except(pre, post, pre.channels_model()[i].0),
            forall|id2: Seq<char>| #[trigger]
                post.spec_has_channel(id2) <==> pre.spec_has_channel(id2),
            post.spec_chan(pre.channels_model()[i].0) == post.channels_model()[i].1,
    {
        let id = pre.channels_model()[i].0;
        assert forall|a: int, b: int| 0 <= a < b < post.channels_model().len() implies (
        #[trigger] post.channels_model()[a]).0 != (#[trigger] post.channels_model()[b]).0 by {
            assert(post.channels_model()[a].0 == pre.channels_model()[a].0);
            assert(post.channels_model()[b].0 == pre.channels_model()[b].0);
        }
        assert forall|id2: Seq<char>| #[trigger]
            post.spec_has_channel(id2) <==> pre.spec_has_channel(id2) by {
            if post.spec_has_channel(id2) {
                let k = choose|k: int|
                    0 <= k < post.channels_model().len() && (#[trigger] post.channels_model()[k]).0
                        == id2;
                assert(pre.channels_model()[k].0 == id2);
            }
            if pre.spec_has_channel(id2) {
                let k = choose|k: int|
                    0 <= k < pre.channels_model().len() && (#[trigger] pre.channels_model()[k]).0
                        == id2;
                assert(post.channels_model()[k].0 == id2);
            }
        }
        assert forall|id2: Seq<char>|
            id2 != id && pre.spec_has_channel(id2) implies #[trigger] post.spec_chan(id2)
            == pre.spec_chan(id2) by {
            let k = choose|k: int|
                0 <= k < pre.channels_model().len() && (#[trigger] pre.channels_model()[k]).0
                    == id2;
            assert(k != i);
            assert(post.channels_model()[k] == pre.channels_model()[k]);
            pre.lemma_chan_at(id2, k);
            post.lemma_chan_at(id2, k);
        }
        post.lemma_chan_at(id, i);
    }

    pub fn new(max_size: usize) -> (r: Self)
        requires
            max_size >= 1,
        ensures
            r.channels_model() == Seq::<(Seq<char>, Seq<PacketModel>)>::empty(),
            r.capacity() == max_size,
            r.wf(),
    {
        let r = BtreeBufferedData { data: Vec::new(), max_size };
        proof {
            assert(r.channels_model() =~= Seq::<(Seq<char>, Seq<PacketModel>)>::empty());
        }
        r
    }

    pub fn max_size(&self) -> (r: usize)
        ensures
            r == self.capacity(),
    {
        self.max_size
    }

    fn find_channel(&self, channel: &ChannelID) -> (r: Option<usize>)
        ensures
            match r {
                Some(i) => i < self.channels_model().len() && self.channels_model()[i as int].0
                    == channel@,
                None => !self.spec_has_channel(channel@),
            },
    {
        let mut i: usize = 0;
        while i < self.data.len()
            invariant
                i <= self.data.len(),
                forall|j: int|
                    0 <= j < i ==> (#[trigger] self.channels_model()[j]).0 != channel@,
            decreases self.data.len() - i,
        {
            if self.data[i].0 == *channel {
                return Some(i);
            }
            i += 1;
        }
        None
    }

    /// Shared access to the buffer of a created channel.
    pub fn get_channel(&self, channel: &ChannelID) -> (r: Result<&FixedSizeOrdered, BufferError>)
        requires
            self.wf(),
        ensures
            r is Ok <==> self.spec_has_channel(channel@),
            r matches Ok(b) ==> b@ == self.spec_chan(channel@) && b.wf() && b.capacity()
                == self.capacity(),
            r matches Err(e) ==> (e matches BufferError::MissingChannel(c) && c@ == channel@),
    {
        match self.find_channel(channel) {
            Some(i) => {
                proof {
                    self.lemma_chan_at(channel@, i as int);
                }
                Ok(&self.data[i].1)
            },
            None => Err(BufferError::MissingChannel(channel.duplicate())),
        }
    }

    /// Creates the channel if it does not exist yet; an existing channel and
    /// every other channel are untouched.
    pub fn get_or_create_channel(&mut self, channel: &ChannelID)
        requires
            old(self).wf(),
        ensures
            final(self).wf(),
            final(self).capacity() == old(self).capacity(),
            final(self).spec_has_channel(channel@),
            old(self).spec_has_channel(channel@) ==> *final(self) == *old(self),
            !old(self).spec_has_channel(channel@) ==> final(self).spec_chan(channel@)
                == Seq::<PacketModel>::empty() && same_channels_except(
                *old(self),
                *final(self),
                channel@,
            ),
    {
        let ghost pre = *self;
        match self.find_channel(channel) {
            Some(_) => {
            },
            None => {
                self.data.push((channel.duplicate(), FixedSizeOrdered::new(self.max_size)));
                proof {
                    let n = pre.channels_model().len() as int;
                    assert(self.channels_model() =~= pre.channels_model().push(
                        (channel@, Seq::<PacketModel>::empty()),
                    ));
                    assert(self.channels_model()[n].0 == channel@);
                    assert forall|a: int, b: int| 0 <= a < b < self.channels_model().len() implies (
                    #[trigger] self.channels_model()[a]).0 != (#[trigger] self.channels_model()[b]).0 by {
                        if b == n {
                            assert(self.channels_model()[a] == pre.channels_model()[a]);
                            if self.channels_model()[a].0 == channel@ {
                                assert(pre.spec_has_channel(channel@));
                                assert(false);
                            }
                        } else {
                            assert(self.channels_model()[a] == pre.channels_model()[a]);
                            assert(self.channels_model()[b] == pre.channels_model()[b]);
                        }
                    }
                    self.lemma_chan_at(channel@, n);
                    assert forall|id2: Seq<char>|
                        id2 != channel@ implies (#[trigger] self.spec_has_channel(id2)
                        <==> pre.spec_has_channel(id2)) by {
                        if self.spec_has_channel(id2) {
                            let k = choose|k: int|
                                0 <= k < self.channels_model().len() && (
                                #[trigger] self.channels_model()[k]).0 == id2;
                            assert(k != n);
                            assert(pre.channels_model()[k] == self.channels_model()[k]);
                        }
                        if pre.spec_has_channel(id2) {
                            let k = choose|k: int|
                                0 <= k < pre.channels_model().len() && (
                                #[trigger] pre.channels_model()[k]).0 == id2;
                            assert(self.channels_model()[k] == pre.channels_model()[k]);
                        }
                    }
                    assert forall|id2: Seq<char>|
                        id2 != channel@ && pre.spec_has_channel(id2) implies #[trigger] self.spec_chan(id2) == pre.spec_chan(id2) by {
                        let k = choose|k: int|
                            0 <= k < pre.channels_model().len() && (
                            #[trigger] pre.channels_model()[k]).0 == id2;
                        assert(self.channels_model()[k] == pre.channels_model()[k]);
                        pre.lemma_chan_at(id2, k);
                        self.lemma_chan_at(id2, k);
                    }
                }
            },
        }
    }

    /// Creates the channel; a second creation of the same channel is refused.
    pub fn create_channel(&mut self, channel: &ChannelID) -> (r: Result<ChannelID, BufferError>)
        requires
            old(self).wf(),
        ensures
            final(self).wf(),
            final(self).capacity() == old(self).capacity(),
            r is Err <==> old(self).spec_has_channel(channel@),
            r matches Err(e) ==> (e matches BufferError::DuplicateChannelError(c) && c@ == channel@)
                && *final(self) == *old(self),
            r matches Ok(c) ==> c@ == channel@ && final(self).spec_has_channel(channel@) && final(self).spec_chan(channel@) == Seq::<PacketModel>::empty() && same_channels_except(
                *old(self),
                *final(self),
                channel@,
            ),
    {
        match self.find_channel(channel) {
            Some(_) => Err(BufferError::DuplicateChannelError(channel.duplicate())),
            None => {
                self.get_or_create_channel(channel);
                Ok(channel.duplicate())
            },
        }
    }

    pub fn has_version(&self, channel: &ChannelID, version: &DataVersion) -> (r: bool)
        requires
            self.wf(),
        ensures
            r == (self.spec_has_channel(channel@) && contains_version(
                self.spec_chan(channel@),
                version.timestamp,
            )),
    {
        match self.find_channel(channel) {
            Some(i) => {
                proof {
                    self.lemma_chan_at(channel@, i as int);
                }
                self.data[i].1.contains_key(version)
            },
            None => false,
        }
    }

    /// Inserts the packet on the given channel under the packet's version.
    pub fn insert(&mut self, channel: &ChannelID, packet: UntypedPacket) -> (r: Result<
        PacketBufferAddress,
        BufferError,
    >)
        requires
            old(self).wf(),
        ensures
            final(self).wf(),
            final(self).capacity() == old(self).capacity(),
            !old(self).spec_has_channel(channel@) ==> (r matches Err(e) && (
            e matches BufferError::MissingChannel(c) && c@ == channel@)) && *final(self) == *old(self),
            old(self).spec_has_channel(channel@) && contains_version(
                old(self).spec_chan(channel@),
                packet.version.timestamp,
            ) ==> (r matches Err(e) && (e matches BufferError::DuplicateDataVersionError(a) && a.0@
                == channel@ && a.1 == packet.version)) && *final(self) == *old(self),
            old(self).spec_has_channel(channel@) && !contains_version(
                old(self).spec_chan(channel@),
                packet.version.timestamp,
            ) ==> (r matches Ok(a) && a.0@ == channel@ && a.1 == packet.version) && inserted_model(
                old(self).spec_chan(channel@),
                packet@,
                old(self).capacity(),
                final(self).spec_chan(channel@),
            ) && same_channels_except(*old(self), *final(self), channel@) && (forall|
                id2: Seq<char>,
            | #[trigger]
                final(self).spec_has_channel(id2) <==> old(self).spec_has_channel(id2)),
    {
        let ghost pre = *self;
        if self.has_version(channel, &packet.version) {
            return Err(
                BufferError::DuplicateDataVersionError((channel.duplicate(), packet.version)),
            );
        }
        match self.find_channel(channel) {
            None => Err(BufferError::MissingChannel(channel.duplicate())),
            Some(i) => {
                proof {
                    pre.lemma_chan_at(channel@, i as int);
                }
                let version = packet.version;
                let mut entry = self.data.remove(i);
                let res = entry.1.insert(packet);
                self.data.insert(i, entry);
                proof {
                    assert(res is Ok);
                    assert(self.channels_model()[i as int].0 == channel@);
                    assert forall|j: int|
                        0 <= j < pre.channels_model().len() && j != i implies #[trigger] self.channels_model()[j] == pre.channels_model()[j] by {
                        assert(self.data@[j] == pre.data@[j]);
                    }
                    Self::lemma_update_at(pre, *self, i as int);
                }
                Ok((channel.duplicate(), version))
            },
        }
    }

    /// Removes the packet at the address and erases every strictly older
    /// version on the same channel.
    pub fn consume(&mut self, version: &PacketBufferAddress) -> (r: Result<
        Option<UntypedPacket>,
        BufferError,
    >)
        requires
            old(self).wf(),
        ensures
            final(self).wf(),
            final(self).capacity() == old(self).capacity(),
            !old(self).spec_has_channel(version.0@) ==> (r matches Err(e) && (
            e matches BufferError::MissingChannel(c) && c@ == version.0@)) && *final(self) == *old(self),
            old(self).spec_has_channel(version.0@) ==> r is Ok && same_channels_except(
                *old(self),
                *final(self),
                version.0@,
            ) && (forall|id2: Seq<char>| #[trigger]
                final(self).spec_has_channel(id2) <==> old(self).spec_has_channel(id2)),
            r matches Ok(p) ==> (p is Some <==> contains_version(
                old(self).spec_chan(version.0@),
                version.1.timestamp,
            )),
            r matches Ok(p) ==> (p matches Some(q) ==> q@ == packet_at(
                old(self).spec_chan(version.0@),
                version.1.timestamp,
            )),
            old(self).spec_has_channel(version.0@) ==> (forall|t2: u64| #[trigger]
                contains_version(final(self).spec_chan(version.0@), t2) <==> contains_version(
                    old(self).spec_chan(version.0@),
                    t2,
                ) && t2 > version.1.timestamp),
            old(self).spec_has_channel(version.0@) ==> (forall|t2: u64|
                contains_version(final(self).spec_chan(version.0@), t2)
                    ==> #[trigger] packet_at(final(self).spec_chan(version.0@), t2) == packet_at(
                    old(self).spec_chan(version.0@),
                    t2,
                )),
    {
        let ghost pre = *self;
        match self.find_channel(&version.0) {
            None => Err(BufferError::MissingChannel(version.0.duplicate())),
            Some(i) => {
                proof {
                    pre.lemma_chan_at(version.0@, i as int);
                }
                let mut entry = self.data.remove(i);
                let p = entry.1.remove(&version.1);
                entry.1.cleanup_before(&version.1);
                self.data.insert(i, entry);
                proof {
                    assert(self.channels_model()[i as int].0 == version.0@);
                    assert forall|j: int|
                        0 <= j < pre.channels_model().len() && j != i implies #[trigger] self.channels_model()[j] == pre.channels_model()[j] by {
                        assert(self.data@[j] == pre.data@[j]);
                    }
                    Self::lemma_update_at(pre, *self, i as int);
                }
                Ok(p)
            },
        }
    }

    /// Point read; the buffer is not changed.
    pub fn get(&self, version: &PacketBufferAddress) -> (r: Result<
        Option<&UntypedPacket>,
        BufferError,
    >)
        requires
            self.wf(),
        ensures
            r is Ok <==> self.spec_has_channel(version.0@),
            r matches Err(e) ==> (e matches BufferError::MissingChannel(c) && c@ == version.0@),
            r matches Ok(p) ==> (p is Some <==> contains_version(
                self.spec_chan(version.0@),
                version.1.timestamp,
            )),
            r matches Ok(p) ==> (p matches Some(q) ==> q@ == packet_at(
                self.spec_chan(version.0@),
                version.1.timestamp,
            )),
    {
        match self.find_channel(&version.0) {
            None => Err(BufferError::MissingChannel(version.0.duplicate())),
            Some(i) => {
                proof {
                    self.lemma_chan_at(version.0@, i as int);
                }
                Ok(self.data[i].1.get(&version.1))
            },
        }
    }

    /// Empties every channel's buffer; the channels themselves are kept.
    pub fn flush(&mut self)
        requires
            old(self).wf(),
        ensures
            final(self).wf(),
            final(self).capacity() == old(self).capacity(),
            forall|id: Seq<char>| #[trigger]
                final(self).spec_has_channel(id) <==> old(self).spec_has_channel(id),
            forall|id: Seq<char>|
                old(self).spec_has_channel(id) ==> #[trigger] final(self).spec_chan(id) == Seq::<
                    PacketModel,
                >::empty(),
    {
        let ghost pre = *self;
        let mut i: usize = 0;
        while i < self.data.len()
            invariant
                pre.wf(),
                self.max_size == pre.max_size,
                i <= self.data@.len(),
                self.data@.len() == pre.data@.len(),
                self.inv(),
                forall|j: int|
                    0 <= j < self.data@.len() ==> (#[trigger] self.channels_model()[j]).0
                        == pre.channels_model()[j].0,
                forall|j: int|
                    0 <= j < i ==> (#[trigger] self.channels_model()[j]).1 == Seq::<
                        PacketModel,
                    >::empty(),
                forall|j: int|
                    i <= j < self.data@.len() ==> #[trigger] self.channels_model()[j]
                        == pre.channels_model()[j],
            decreases self.data@.len() - i,
        {
            let ghost mid = *self;
            let mut entry = self.data.remove(i);
            entry.1.clear();
            self.data.insert(i, entry);
            proof {
                assert forall|j: int|
                    0 <= j < self.data@.len() && j != i implies #[trigger] self.channels_model()[j]
                        == mid.channels_model()[j] by {
                    assert(self.data@[j] == mid.data@[j]);
                }
                assert(self.channels_model()[i as int].0 == mid.channels_model()[i as int].0);
                assert(self.channels_model()[i as int].1 == Seq::<PacketModel>::empty());
            }
            i += 1;
        }
        proof {
            assert forall|a: int, b: int| 0 <= a < b < self.channels_model().len() implies (
            #[trigger] self.channels_model()[a]).0 != (#[trigger] self.channels_model()[b]).0 by {
                assert(self.channels_model()[a].0 == pre.channels_model()[a].0);
                assert(self.channels_model()[b].0 == pre.channels_model()[b].0);
            }
            assert forall|id: Seq<char>| #[trigger]
                self.spec_has_channel(id) <==> pre.spec_has_channel(id) by {
                if self.spec_has_channel(id) {
                    let k = choose|k: int|
                        0 <= k < self.channels_model().len() && (
                        #[trigger] self.channels_model()[k]).0 == id;
                    assert(pre.channels_model()[k].0 == id);
                }
                if pre.spec_has_channel(id) {
                    let k = choose|k: int|
                        0 <= k < pre.channels_model().len() && (#[trigger] pre.channels_model()[k]).0
                            == id;
                    assert(self.channels_model()[k].0 == id);
                }
            }
            assert forall|id: Seq<char>|
                pre.spec_has_channel(id) implies #[trigger] self.spec_chan(id) == Seq::<
                PacketModel,
            >::empty() by {
                let k = choose|k: int|
                    0 <= k < pre.channels_model().len() && (#[trigger] pre.channels_model()[k]).0
                        == id;
                assert(self.channels_model()[k].0 == id);
                self.lemma_chan_at(id, k);
            }
        }
    }

    /// The identities of the created channels, in creation order.
    pub fn available_channels(&self) -> (r: Vec<ChannelID>)
        ensures
            r@.len() == self.channels_model().len(),
            forall|i: int|
                0 <= i < r@.len() ==> (#[trigger] r@[i])@ == self.channels_model()[i].0,
    {
        let mut out: Vec<ChannelID> = Vec::new();
        let mut i: usize = 0;
        while i < self.data.len()
            invariant
                i <= self.data.len(),
                out@.len() == i,
                forall|j: int|
                    0 <= j < i ==> (#[trigger] out@[j])@ == self.channels_model()[j].0,
            decreases self.data.len() - i,
        {
            out.push(self.data[i].0.duplicate());
            i += 1;
        }
        out
    }
}

} // verus!
