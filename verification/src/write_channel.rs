use vstd::prelude::*;

use crate::channels::{ChannelError, ChannelID, UntypedSenderChannel};
use crate::packet::UntypedPacket;

verus! {

/// The write side of a node: per output channel, the send endpoints of every
/// downstream queue the channel fans out to.
pub struct WriteChannel {
    targets: Vec<(ChannelID, Vec<UntypedSenderChannel>)>,
}

impl WriteChannel {
    /// The identities of the bound output channels, in bind order.
    pub closed spec fn channel_ids(self) -> Seq<Seq<char>> {
        self.targets@.map_values(|e: (ChannelID, Vec<UntypedSenderChannel>)| e.0@)
    }

    /// How many queues each output channel fans out to, in bind order.
    pub closed spec fn fanout_seq(self) -> Seq<nat> {
        self.targets@.map_values(|e: (ChannelID, Vec<UntypedSenderChannel>)| e.1@.len())
    }

    pub open spec fn spec_has_channel(self, id: Seq<char>) -> bool {
        exists|i: int| 0 <= i < self.channel_ids().len() && self.channel_ids()[i] == id
    }

    pub open spec fn chan_index(self, id: Seq<char>) -> int {
        choose|i: int| 0 <= i < self.channel_ids().len() && self.channel_ids()[i] == id
    }

    /// How many queues the channel `id` fans out to.
    pub open spec fn spec_fanout(self, id: Seq<char>) -> nat {
        self.fanout_seq()[self.chan_index(id)]
    }

    pub open spec fn wf(self) -> bool {
        forall|i: int, j: int|
            0 <= i < j < self.channel_ids().len() ==> self.channel_ids()[i]
                != self.channel_ids()[j]
    }

    proof fn lemma_at(self, id: Seq<char>, i: int)
        requires
            self.wf(),
            0 <= i < self.channel_ids().len(),
            self.channel_ids()[i] == id,
        ensures
            self.spec_has_channel(id),
            self.chan_index(id) == i,
            self.spec_fanout(id) == self.fanout_seq()[i],
    {
        assert(self.spec_has_channel(id));
        let k = self.chan_index(id);
        if k < i {
            assert(false);
        } else if k > i {
            assert(false);
        }
    }

    pub fn new() -> (r: Self)
        ensures
            r.wf(),
            r.channel_ids() == Seq::<Seq<char>>::empty(),
    {
        let r = WriteChannel { targets: Vec::new() };
        proof {
            assert(r.channel_ids() =~= Seq::<Seq<char>>::empty());
        }
        r
    }

    fn find_channel(&self, channel: &ChannelID) -> (r: Option<usize>)
        ensures
            match r {
                Some(i) => i < self.channel_ids().len() && self.channel_ids()[i as int]
                    == channel@,
                None => !self.spec_has_channel(channel@),
            },
    {
        let mut i: usize = 0;
        while i < self.targets.len()
            invariant
                i <= self.targets.len(),
                forall|j: int| 0 <= j < i ==> #[trigger] self.channel_ids()[j] != channel@,
            decreases self.targets.len() - i,
        {
            if self.targets[i].0 == *channel {
                return Some(i);
            }
            i += 1;
        }
        None
    }

    /// Binds one more downstream queue to an output channel; the channel is
    /// created on its first binding. The named channel fans out to exactly
    /// one more queue than before; every other channel is untouched.
    pub fn add_channel(&mut self, channel: &ChannelID, sender: UntypedSenderChannel)
        requires
            old(self).wf(),
        ensures
            final(self).wf(),
            forall|id2: Seq<char>| #[trigger]
                final(self).spec_has_channel(id2) <==> old(self).spec_has_channel(id2) || id2
                    == channel@,
            final(self).spec_fanout(channel@) == (if old(self).spec_has_channel(channel@) {
                old(self).spec_fanout(channel@) + 1
            } else {
                1nat
            }),
            forall|id2: Seq<char>|
                id2 != channel@ && old(self).spec_has_channel(id2) ==> #[trigger] final(self).spec_fanout(id2) == old(self).spec_fanout(id2),
    {
        let ghost pre = *self;
        match self.find_channel(channel) {
            Some(i) => {
                let mut entry = self.targets.remove(i);
                entry.1.push(sender);
                self.targets.insert(i, entry);
                proof {
                    assert(self.channel_ids() =~= pre.channel_ids());
                    assert forall|j: int|
                        0 <= j < pre.fanout_seq().len() && j != i implies #[trigger] self.fanout_seq()[j] == pre.fanout_seq()[j] by {
                        assert(self.targets@[j] == pre.targets@[j]);
                    }
                    assert(self.fanout_seq()[i as int] == pre.fanout_seq()[i as int] + 1);
                    pre.lemma_at(channel@, i as int);
                    self.lemma_at(channel@, i as int);
                    assert forall|id2: Seq<char>| #[trigger]
                        self.spec_has_channel(id2) <==> pre.spec_has_channel(id2) || id2
                            == channel@ by {
                        assert(pre.channel_ids()[i as int] == channel@);
                    }
                    assert forall|id2: Seq<char>|
                        id2 != channel@ && pre.spec_has_channel(id2) implies #[trigger] self.spec_fanout(id2) == pre.spec_fanout(id2) by {
                        let k = choose|k: int|
                            0 <= k < pre.channel_ids().len() && (#[trigger] pre.channel_ids()[k])
                                == id2;
                        assert(k != i);
                        pre.lemma_at(id2, k);
                        self.lemma_at(id2, k);
                    }
                }
            },
            None => {
                let mut senders: Vec<UntypedSenderChannel> = Vec::new();
                senders.push(sender);
                self.targets.push((channel.duplicate(), senders));
                proof {
                    let n = pre.channel_ids().len() as int;
                    assert(self.channel_ids() =~= pre.channel_ids().push(channel@));
                    assert(self.fanout_seq() =~= pre.fanout_seq().push(1nat));
                    assert forall|a: int, b: int| 0 <= a < b < self.channel_ids().len() implies (
                    #[trigger] self.channel_ids()[a]) != (#[trigger] self.channel_ids()[b]) by {
                        if b == n {
                            assert(self.channel_ids()[a] == pre.channel_ids()[a]);
                            if self.channel_ids()[a] == channel@ {
                                assert(pre.spec_has_channel(channel@));
                                assert(false);
                            }
                        } else {
                            assert(self.channel_ids()[a] == pre.channel_ids()[a]);
                            assert(self.channel_ids()[b] == pre.channel_ids()[b]);
                        }
                    }
                    self.lemma_at(channel@, n);
                    assert forall|id2: Seq<char>| #[trigger]
                        self.spec_has_channel(id2) <==> pre.spec_has_channel(id2) || id2
                            == channel@ by {
                        if self.spec_has_channel(id2) {
                            let k = choose|k: int|
                                0 <= k < self.channel_ids().len()
                                    && (#[trigger] self.channel_ids()[k]) == id2;
                            if k != n {
                                assert(pre.channel_ids()[k] == id2);
                            }
                        }
                        if pre.spec_has_channel(id2) {
                            let k = choose|k: int|
                                0 <= k < pre.channel_ids().len()
                                    && (#[trigger] pre.channel_ids()[k]) == id2;
                            assert(self.channel_ids()[k] == id2);
                        }
                        if id2 == channel@ {
                            assert(self.channel_ids()[n] == id2);
                        }
                    }
                    assert forall|id2: Seq<char>|
                        id2 != channel@ && pre.spec_has_channel(id2) implies #[trigger] self.spec_fanout(id2) == pre.spec_fanout(id2) by {
                        let k = choose|k: int|
                            0 <= k < pre.channel_ids().len() && (#[trigger] pre.channel_ids()[k])
                                == id2;
                        assert(self.channel_ids()[k] == id2);
                        pre.lemma_at(id2, k);
                        self.lemma_at(id2, k);
                    }
                }
            },
        }
    }

    /// The identities of the bound output channels.
    pub fn available_channels(&self) -> (r: Vec<ChannelID>)
        ensures
            r@.len() == self.channel_ids().len(),
            forall|i: int| 0 <= i < r@.len() ==> (#[trigger] r@[i])@ == self.channel_ids()[i],
    {
        let mut out: Vec<ChannelID> = Vec::new();
        let mut i: usize = 0;
        while i < self.targets.len()
            invariant
                i <= self.targets.len(),
                out@.len() == i,
                forall|j: int| 0 <= j < i ==> (#[trigger] out@[j])@ == self.channel_ids()[j],
            decreases self.targets.len() - i,
        {
            out.push(self.targets[i].0.duplicate());
            i += 1;
        }
        out
    }

    /// Fans the packet out to every queue bound to the channel. A failed send
    /// is reported, but the remaining sends of the same call still happen.
    /// `MissingChannel` comes exactly on an unbound channel; on a bound one
    /// the only possible error is a failed send.
    pub fn write(&self, channel: &ChannelID, packet: &UntypedPacket) -> (r: Result<
        (),
        ChannelError,
    >)
        ensures
            r is Ok ==> self.spec_has_channel(channel@),
            !self.spec_has_channel(channel@) ==> (r matches Err(e) && (
            e matches ChannelError::MissingChannel(c) && c@ == channel@)),
            self.spec_has_channel(channel@) ==> (r matches Err(e)
                ==> e matches ChannelError::SendError(_)),
            r matches Err(e) ==> (e matches ChannelError::MissingChannel(_)
                || e matches ChannelError::SendError(_)),
    {
        match self.find_channel(channel) {
            None => Err(ChannelError::MissingChannel(channel.duplicate())),
            Some(i) => {
                let senders = &self.targets[i].1;
                let mut failed = false;
                let mut k: usize = 0;
                while k < senders.len()
                    invariant
                        k <= senders@.len(),
                    decreases senders@.len() - k,
                {
                    if senders[k].send(packet.duplicate()).is_err() {
                        failed = true;
                    }
                    k += 1;
                }
                if failed {
                    Err(
                        ChannelError::SendError(
                            "Could not send because the channel is disconnected".to_string(),
                        ),
                    )
                } else {
                    Ok(())
                }
            },
        }
    }
}

} // verus!
