use vstd::prelude::*;

use crate::btree_data_buffers::BtreeBufferedData;
use crate::channels::{ChannelID, UntypedReceiverChannel};
use crate::packet::{DataVersion, PacketModel, UntypedPacket};
use crate::single_buffers::{contains_version, packet_at};

verus! {

/// One aligned input tuple: one packet per bound input channel, in bind
/// order, all carrying the same version.
pub struct PacketSet {
    pub packets: Vec<UntypedPacket>,
}

/// `t` lies strictly after the version of the last emitted tuple.
pub open spec fn above_last(last: Option<DataVersion>, t: u64) -> bool {
    match last {
        Option::None => true,
        Option::Some(v) => t > v.timestamp,
    }
}

/// Ordered consumption: a cycle that emits a tuple leaves its version as
/// `last_version`, and a later cycle only emits above `last_version`; so of
/// two tuples emitted by successive cycles of one reader, the later carries
/// the strictly larger version.
pub proof fn lemma_ordered_consumption(emitted: DataVersion, later_t: u64)
    requires
        above_last(Some(emitted), later_t),
    ensures
        emitted.timestamp < later_t,
{
}

/// The read side of a node: one receive endpoint per bound input channel,
/// and the buffer in which arrivals wait until they can be aligned.
pub struct ReadChannel {
    channels: Vec<ChannelID>,
    receivers: Vec<UntypedReceiverChannel>,
    buffer: BtreeBufferedData,
    last_emitted: Option<DataVersion>,
}

impl ReadChannel {
    /// The identities of the bound input channels, in bind order.
    pub closed spec fn chan_ids(self) -> Seq<Seq<char>> {
        self.channels@.map_values(|c: ChannelID| c@)
    }

    pub closed spec fn buffer_spec(self) -> BtreeBufferedData {
        self.buffer
    }

    /// The version of the last emitted tuple, if any.
    pub closed spec fn last_version(self) -> Option<DataVersion> {
        self.last_emitted
    }

    /// The packets waiting on the `i`-th bound channel.
    pub open spec fn chan(self, i: int) -> Seq<PacketModel> {
        self.buffer_spec().spec_chan(self.chan_ids()[i])
    }

    pub open spec fn bound(self, id: Seq<char>) -> bool {
        exists|i: int| 0 <= i < self.chan_ids().len() && self.chan_ids()[i] == id
    }

    /// Every bound channel holds a packet with version `t`.
    pub open spec fn all_have(self, t: u64) -> bool {
        forall|i: int|
            0 <= i < self.chan_ids().len() ==> #[trigger] contains_version(self.chan(i), t)
    }

    pub closed spec fn endpoints_match(self) -> bool {
        self.receivers@.len() == self.channels@.len()
    }

    pub open spec fn wf(self) -> bool {
        &&& self.buffer_spec().wf()
        &&& self.endpoints_match()
        &&& self.chan_ids().len() >= 1
        &&& forall|i: int, j: int|
            0 <= i < j < self.chan_ids().len() ==> self.chan_ids()[i] != self.chan_ids()[j]
        &&& forall|id: Seq<char>| #[trigger]
            self.buffer_spec().spec_has_channel(id) <==> self.bound(id)
        &&& forall|i: int, t: u64|
            0 <= i < self.chan_ids().len() && #[trigger] contains_version(self.chan(i), t)
                ==> above_last(self.last_version(), t)
    }

    pub fn new(channels: Vec<ChannelID>, receivers: Vec<UntypedReceiverChannel>, max_size: usize)
        -> (r: Self)
        requires
            channels@.len() >= 1,
            receivers@.len() == channels@.len(),
            max_size >= 1,
            forall|i: int, j: int|
                0 <= i < j < channels@.len() ==> (#[trigger] channels@[i])@ != (
                #[trigger] channels@[j])@,
        ensures
            r.wf(),
            r.chan_ids() == channels@.map_values(|c: ChannelID| c@),
            r.last_version() is None,
            forall|i: int|
                0 <= i < r.chan_ids().len() ==> #[trigger] r.chan(i) == Seq::<
                    PacketModel,
                >::empty(),
    {
        let mut buffer = BtreeBufferedData::new(max_size);
        let mut i: usize = 0;
        while i < channels.len()
            invariant
                i <= channels@.len(),
                buffer.wf(),
                buffer.capacity() == max_size,
                max_size >= 1,
                forall|a: int, b: int|
                    0 <= a < b < channels@.len() ==> (#[trigger] channels@[a])@ != (
                    #[trigger] channels@[b])@,
                forall|id: Seq<char>| #[trigger]
                    buffer.spec_has_channel(id) <==> exists|j: int|
                        0 <= j < i && (#[trigger] channels@[j])@ == id,
                forall|j: int|
                    0 <= j < i ==> buffer.spec_chan((#[trigger] channels@[j])@) == Seq::<
                        PacketModel,
                    >::empty(),
            decreases channels@.len() - i,
        {
            let ghost prebuf = buffer;
            proof {
                if buffer.spec_has_channel(channels@[i as int]@) {
                    let j = choose|j: int| 0 <= j < i && (#[trigger] channels@[j])@ == channels@[
                        i as int]@;
                    assert(false);
                }
            }
            buffer.get_or_create_channel(&channels[i]);
            proof {
                assert forall|id: Seq<char>| #[trigger]
                    buffer.spec_has_channel(id) <==> exists|j: int|
                        0 <= j < i + 1 && (#[trigger] channels@[j])@ == id by {
                    if buffer.spec_has_channel(id) {
                        if id == channels@[i as int]@ {
                            assert(channels@[i as int]@ == id);
                        } else {
                            assert(prebuf.spec_has_channel(id));
                            let j = choose|j: int|
                                0 <= j < i && (#[trigger] channels@[j])@ == id;
                            assert(0 <= j < i + 1 && channels@[j]@ == id);
                        }
                    }
                    if exists|j: int| 0 <= j < i + 1 && (#[trigger] channels@[j])@ == id {
                        let j = choose|j: int| 0 <= j < i + 1 && (#[trigger] channels@[j])@ == id;
                        if j == i {
                            assert(buffer.spec_has_channel(id));
                        } else {
                            assert(prebuf.spec_has_channel(id));
                        }
                    }
                }
                assert forall|j: int| 0 <= j < i + 1 implies buffer.spec_chan(
                    (#[trigger] channels@[j])@,
                ) == Seq::<PacketModel>::empty() by {
                    if j < i {
                        assert(channels@[j]@ != channels@[i as int]@);
                        assert(prebuf.spec_chan(channels@[j]@) == Seq::<PacketModel>::empty());
                    }
                }
            }
            i += 1;
        }
        let r = ReadChannel { channels, receivers, buffer, last_emitted: None };
        proof {
            assert(r.chan_ids() =~= r.channels@.map_values(|c: ChannelID| c@));
            assert forall|id: Seq<char>| #[trigger]
                r.buffer_spec().spec_has_channel(id) <==> r.bound(id) by {
                assert(r.buffer_spec().spec_has_channel(id) <==> exists|j: int|
                    0 <= j < r.channels@.len() && (#[trigger] r.channels@[j])@ == id);
                if exists|j: int| 0 <= j < r.channels@.len() && (#[trigger] r.channels@[j])@
                    == id {
                    let j = choose|j: int|
                        0 <= j < r.channels@.len() && (#[trigger] r.channels@[j])@ == id;
                    assert(r.chan_ids()[j] == id);
                }
                if r.bound(id) {
                    let j = choose|j: int|
                        0 <= j < r.chan_ids().len() && (#[trigger] r.chan_ids()[j]) == id;
                    assert(r.channels@[j]@ == id);
                }
            }
            assert forall|i2: int| 0 <= i2 < r.chan_ids().len() implies #[trigger] r.chan(i2)
                == Seq::<PacketModel>::empty() by {
                assert(r.buffer_spec().spec_chan((r.channels@[i2])@) == Seq::<
                    PacketModel,
                >::empty());
            }
        }
        r
    }

    pub fn channel_count(&self) -> (r: usize)
        ensures
            r == self.chan_ids().len(),
    {
        self.channels.len()
    }

    /// The smallest version that every bound channel currently holds.
    fn smallest_aligned(&self) -> (r: Option<DataVersion>)
        requires
            self.wf(),
        ensures
            r matches Some(v) ==> self.all_have(v.timestamp) && (forall|t2: u64|
                t2 < v.timestamp ==> !self.all_have(t2)),
            r is None ==> forall|t2: u64| !self.all_have(t2),
    {
        proof {
            assert(self.chan_ids()[0] == self.channels@[0]@);
            assert(self.bound(self.channels@[0]@));
        }
        let first = match self.buffer.get_channel(&self.channels[0]) {
            Ok(b) => b,
            Err(_) => {
                proof {
                    assert(false);
                }
                return None;
            },
        };
        let n = first.len();
        let ghost chan0 = self.chan(0);
        proof {
            assert(first@ == chan0);
        }
        let mut j: usize = 0;
        while j < n
            invariant
                self.wf(),
                j <= n,
                n == first@.len(),
                first@ == chan0,
                chan0 == self.chan(0),
                first.wf(),
                forall|j2: int|
                    0 <= j2 < j ==> !self.all_have((#[trigger] chan0[j2]).version.timestamp),
            decreases n - j,
        {
            let v = first.version_at(j);
            let mut all = true;
            let mut k: usize = 0;
            while k < self.channels.len()
                invariant
                    self.wf(),
                    k <= self.channels@.len(),
                    all ==> forall|k2: int|
                        0 <= k2 < k ==> #[trigger] contains_version(self.chan(k2), v.timestamp),
                    !all ==> exists|k2: int|
                        0 <= k2 < self.chan_ids().len() && !#[trigger] contains_version(
                            self.chan(k2),
                            v.timestamp,
                        ),
                decreases self.channels@.len() - k,
            {
                proof {
                    assert(self.chan_ids()[k as int] == self.channels@[k as int]@);
                    assert(self.bound(self.channels@[k as int]@));
                    assert(self.buffer_spec().spec_has_channel(self.channels@[k as int]@));
                }
                if !self.buffer.has_version(&self.channels[k], &v) {
                    proof {
                        assert(!contains_version(self.chan(k as int), v.timestamp));
                    }
                    all = false;
                }
                k += 1;
            }
            if all {
                proof {
                    assert forall|t2: u64| t2 < v.timestamp implies !self.all_have(t2) by {
                        if self.all_have(t2) {
                            assert(contains_version(self.chan(0), t2));
                            let w = choose|w: int|
                                0 <= w < chan0.len() && (#[trigger] chan0[w]).version.timestamp
                                    == t2;
                            if w > j {
                                assert(chan0[j as int].version.timestamp
                                    < chan0[w].version.timestamp);
                                assert(false);
                            } else if w == j {
                                assert(false);
                            } else {
                                assert(!self.all_have(chan0[w].version.timestamp));
                                assert(false);
                            }
                        }
                    }
                }
                return Some(v);
            }
            proof {
                assert(!self.all_have(chan0[j as int].version.timestamp));
            }
            j += 1;
        }
        proof {
            assert forall|t2: u64| !self.all_have(t2) by {
                if self.all_have(t2) {
                    assert(contains_version(self.chan(0), t2));
                    let w = choose|w: int|
                        0 <= w < chan0.len() && (#[trigger] chan0[w]).version.timestamp == t2;
                    assert(!self.all_have(chan0[w].version.timestamp));
                    assert(false);
                }
            }
        }
        None
    }

    /// Consumes version `version` from every bound channel and returns the
    /// aligned tuple, in bind order. Every strictly older packet is erased.
    fn assemble_at(&mut self, version: DataVersion) -> (r: PacketSet)
        requires
            old(self).wf(),
            old(self).all_have(version.timestamp),
            above_last(old(self).last_version(), version.timestamp),
        ensures
            final(self).wf(),
            final(self).chan_ids() == old(self).chan_ids(),
            final(self).last_version() == Some(version),
            r.packets@.len() == old(self).chan_ids().len(),
            forall|k: int|
                0 <= k < r.packets@.len() ==> (#[trigger] r.packets@[k]).version == version,
            forall|k: int|
                0 <= k < r.packets@.len() ==> (#[trigger] r.packets@[k])@ == packet_at(
                    old(self).chan(k),
                    version.timestamp,
                ),
            forall|i: int, t2: u64|
                0 <= i < final(self).chan_ids().len() ==> (#[trigger] contains_version(
                    final(self).chan(i),
                    t2,
                ) <==> contains_version(old(self).chan(i), t2) && t2 > version.timestamp),
    {
        let ghost pre = *self;
        let t = version.timestamp;
        let mut packets: Vec<UntypedPacket> = Vec::new();
        let mut k: usize = 0;
        while k < self.channels.len()
            invariant
                k <= self.channels@.len(),
                t == version.timestamp,
                self.channels == pre.channels,
                self.receivers == pre.receivers,
                self.last_emitted == pre.last_emitted,
                pre.wf(),
                pre.all_have(t),
                self.buffer_spec().wf(),
                self.buffer_spec().capacity() == pre.buffer_spec().capacity(),
                forall|id: Seq<char>| #[trigger]
                    self.buffer_spec().spec_has_channel(id) <==> pre.buffer_spec().spec_has_channel(
                        id,
                    ),
                packets@.len() == k,
                forall|k2: int|
                    0 <= k2 < k ==> (#[trigger] packets@[k2]).version == version,
                forall|k2: int|
                    0 <= k2 < k ==> (#[trigger] packets@[k2])@ == packet_at(pre.chan(k2), t),
                forall|i: int|
                    k <= i < pre.chan_ids().len() ==> #[trigger] self.chan(i) == pre.chan(i),
                forall|i: int, t2: u64|
                    0 <= i < k ==> (#[trigger] contains_version(self.chan(i), t2)
                        <==> contains_version(pre.chan(i), t2) && t2 > t),
            decreases self.channels@.len() - k,
        {
            let addr = (self.channels[k].duplicate(), version);
            let ghost mid = *self;
            proof {
                assert(addr.0@ == mid.chan_ids()[k as int]);
                assert(pre.bound(pre.chan_ids()[k as int]));
                assert(pre.buffer_spec().spec_has_channel(pre.chan_ids()[k as int]));
                assert(mid.buffer_spec().spec_has_channel(addr.0@));
                assert(mid.chan(k as int) == pre.chan(k as int));
                assert(contains_version(mid.buffer_spec().spec_chan(addr.0@), t));
            }
            let res = self.buffer.consume(&addr);
            let packet = match res {
                Ok(Some(p)) => p,
                _ => {
                    proof {
                        assert(res is Ok);
                        assert(false);
                    }
                    return (PacketSet { packets });
                },
            };
            proof {
                assert(packet@ == packet_at(mid.buffer_spec().spec_chan(addr.0@), addr.1.timestamp));
                assert(mid.buffer_spec().spec_chan(addr.0@) == pre.chan(k as int));
                assert(packet@ == packet_at(pre.chan(k as int), t));
                crate::single_buffers::lemma_packet_at_version(pre.chan(k as int), t);
                assert(packet.version == version);
                assert forall|id: Seq<char>| #[trigger] self.buffer_spec().spec_has_channel(id)
                    <==> pre.buffer_spec().spec_has_channel(id) by {
                    assert(mid.buffer_spec().spec_has_channel(id)
                        <==> pre.buffer_spec().spec_has_channel(id));
                }
                assert forall|i: int|
                    k + 1 <= i < pre.chan_ids().len() implies #[trigger] self.chan(i) == pre.chan(
                    i,
                ) by {
                    assert(pre.chan_ids()[i] != pre.chan_ids()[k as int]);
                    assert(pre.bound(pre.chan_ids()[i]));
                    assert(pre.buffer_spec().spec_has_channel(pre.chan_ids()[i]));
                    assert(mid.buffer_spec().spec_has_channel(pre.chan_ids()[i]));
                    assert(self.buffer_spec().spec_chan(pre.chan_ids()[i])
                        == mid.buffer_spec().spec_chan(pre.chan_ids()[i]));
                    assert(mid.chan(i) == pre.chan(i));
                }
                assert forall|i: int, t2: u64| 0 <= i < k + 1 implies (#[trigger] contains_version(
                    self.chan(i),
                    t2,
                ) <==> contains_version(pre.chan(i), t2) && t2 > t) by {
                    if i == k {
                        assert(self.chan(i) == self.buffer_spec().spec_chan(addr.0@));
                        assert(contains_version(self.buffer_spec().spec_chan(addr.0@), t2)
                            <==> contains_version(mid.buffer_spec().spec_chan(addr.0@), t2) && t2
                            > t);
                        assert(mid.buffer_spec().spec_chan(addr.0@) == pre.chan(i));
                    } else {
                        assert(pre.chan_ids()[i] != pre.chan_ids()[k as int]);
                        assert(pre.bound(pre.chan_ids()[i]));
                        assert(pre.buffer_spec().spec_has_channel(pre.chan_ids()[i]));
                        assert(mid.buffer_spec().spec_has_channel(pre.chan_ids()[i]));
                        assert(self.buffer_spec().spec_chan(pre.chan_ids()[i])
                            == mid.buffer_spec().spec_chan(pre.chan_ids()[i]));
                        assert(self.chan(i) == mid.chan(i));
                        assert(contains_version(mid.chan(i), t2) <==> contains_version(
                            pre.chan(i),
                            t2,
                        ) && t2 > t);
                    }
                }
            }
            packets.push(packet);
            k += 1;
        }
        let ghost post_loop = *self;
        self.last_emitted = Some(version);
        proof {
            assert forall|i: int, t2: u64|
                0 <= i < self.chan_ids().len() implies (#[trigger] contains_version(
                self.chan(i),
                t2,
            ) <==> contains_version(pre.chan(i), t2) && t2 > t) by {
                assert(self.chan(i) == post_loop.chan(i));
                assert(contains_version(post_loop.chan(i), t2) <==> contains_version(
                    pre.chan(i),
                    t2,
                ) && t2 > t);
            }
            assert forall|i: int, t2: u64|
                0 <= i < self.chan_ids().len() && #[trigger] contains_version(self.chan(i), t2)
                implies above_last(self.last_version(), t2) by {
                assert(contains_version(pre.chan(i), t2) && t2 > t);
            }
            assert forall|id: Seq<char>| #[trigger] self.buffer_spec().spec_has_channel(id)
                <==> self.bound(id) by {
                assert(post_loop.buffer_spec().spec_has_channel(id)
                    <==> pre.buffer_spec().spec_has_channel(id));
                assert(pre.buffer_spec().spec_has_channel(id) <==> pre.bound(id));
            }
        }
        PacketSet { packets }
    }

    /// Drains each input queue into the buffer, keeping only packets newer
    /// than the last emitted tuple; at most `max_size` packets are taken per
    /// channel per cycle, the rest stay queued for the next cycle.
    fn drain_queues(&mut self)
        requires
            old(self).wf(),
        ensures
            final(self).wf(),
            final(self).chan_ids() == old(self).chan_ids(),
            final(self).last_version() == old(self).last_version(),
    {
        let ghost pre = *self;
        let mut i: usize = 0;
        while i < self.receivers.len()
            invariant
                self.wf(),
                self.channels == pre.channels,
                self.receivers == pre.receivers,
                self.last_emitted == pre.last_emitted,
                i <= self.receivers@.len(),
            decreases self.receivers@.len() - i,
        {
            let mut budget = self.buffer.max_size();
            while budget > 0
                invariant
                    self.wf(),
                    self.channels == pre.channels,
                    self.receivers == pre.receivers,
                    self.last_emitted == pre.last_emitted,
                    i < self.receivers@.len(),
                decreases budget,
            {
                budget -= 1;
                match self.receivers[i].try_receive() {
                    Ok(packet) => {
                        let keep = match &self.last_emitted {
                            Option::None => true,
                            Option::Some(lv) => packet.version.timestamp > lv.timestamp,
                        };
                        if keep {
                            let ghost mid = *self;
                            let ghost pt = packet.version.timestamp;
                            proof {
                                assert(mid.chan_ids()[i as int] == mid.channels@[i as int]@);
                                assert(mid.bound(mid.chan_ids()[i as int]));
                                assert(mid.buffer_spec().spec_has_channel(
                                    mid.chan_ids()[i as int],
                                ));
                            }
                            let res = self.buffer.insert(&self.channels[i], packet);
                            proof {
                                let id = mid.chan_ids()[i as int];
                                if contains_version(mid.buffer_spec().spec_chan(id), pt) {
                                    assert(self.buffer == mid.buffer);
                                    assert(*self == mid);
                                } else {
                                    assert forall|id2: Seq<char>| #[trigger] self.buffer_spec().spec_has_channel(id2) <==> self.bound(id2) by {
                                        assert(mid.buffer_spec().spec_has_channel(id2)
                                            <==> mid.bound(id2));
                                    }
                                    assert forall|i2: int, t2: u64|
                                        0 <= i2 < self.chan_ids().len()
                                            && #[trigger] contains_version(self.chan(i2), t2)
                                        implies above_last(self.last_version(), t2) by {
                                        if self.chan_ids()[i2] == id {
                                            assert(self.chan(i2) == self.buffer_spec().spec_chan(
                                                id,
                                            ));
                                            assert(contains_version(
                                                mid.buffer_spec().spec_chan(id),
                                                t2,
                                            ) || t2 == pt);
                                            if t2 != pt {
                                                assert(contains_version(mid.chan(i2), t2));
                                            }
                                        } else {
                                            assert(mid.bound(self.chan_ids()[i2]));
                                            assert(mid.buffer_spec().spec_has_channel(
                                                self.chan_ids()[i2],
                                            ));
                                            assert(self.buffer_spec().spec_chan(
                                                self.chan_ids()[i2],
                                            ) == mid.buffer_spec().spec_chan(
                                                self.chan_ids()[i2],
                                            ));
                                            assert(contains_version(mid.chan(i2), t2));
                                        }
                                    }
                                }
                            }
                        }
                    },
                    Err(_) => {
                        budget = 0;
                    },
                }
            }
            i += 1;
        }
    }

    /// Shuts the reader down: every buffered packet is flushed. The queue
    /// endpoints are released when the reader is dropped.
    pub fn stop(&mut self)
        requires
            old(self).wf(),
        ensures
            final(self).wf(),
            final(self).chan_ids() == old(self).chan_ids(),
            forall|i: int|
                0 <= i < final(self).chan_ids().len() ==> #[trigger] final(self).chan(i) == Seq::<
                    PacketModel,
                >::empty(),
    {
        let ghost pre = *self;
        self.buffer.flush();
        proof {
            assert forall|id: Seq<char>| #[trigger] self.buffer_spec().spec_has_channel(id)
                <==> self.bound(id) by {
                assert(pre.buffer_spec().spec_has_channel(id) <==> pre.bound(id));
            }
            assert forall|i: int| 0 <= i < self.chan_ids().len() implies #[trigger] self.chan(i)
                == Seq::<PacketModel>::empty() by {
                assert(pre.bound(pre.chan_ids()[i]));
                assert(pre.buffer_spec().spec_has_channel(pre.chan_ids()[i]));
            }
        }
    }

    /// One cycle of the reader: drains every input queue into the buffer,
    /// then emits the aligned tuple with the smallest common version, if one
    /// exists. Tuples emitted over successive cycles carry strictly
    /// increasing versions, and all packets of one tuple share its version.
    pub fn read_cycle(&mut self) -> (r: Option<PacketSet>)
        requires
            old(self).wf(),
        ensures
            final(self).wf(),
            final(self).chan_ids() == old(self).chan_ids(),
            r matches Some(ps) ==> {
                &&& ps.packets@.len() == final(self).chan_ids().len()
                &&& forall|k: int|
                    0 <= k < ps.packets@.len() ==> (#[trigger] ps.packets@[k]).version
                        == ps.packets@[0].version
                &&& above_last(old(self).last_version(), ps.packets@[0].version.timestamp)
                &&& final(self).last_version() == Some(ps.packets@[0].version)
            },
            r is None ==> final(self).last_version() == old(self).last_version(),
            r is None ==> forall|t2: u64| !final(self).all_have(t2),
    {
        self.drain_queues();
        match self.smallest_aligned() {
            Some(version) => {
                proof {
                    assert(contains_version(self.chan(0), version.timestamp));
                }
                let ps = self.assemble_at(version);
                proof {
                    assert(ps.packets@[0].version == version);
                }
                Some(ps)
            },
            None => None,
        }
    }
}

} // verus!
