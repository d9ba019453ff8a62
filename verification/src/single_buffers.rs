use vstd::prelude::*;

use crate::errors::BufferError;
use crate::packet::{DataVersion, PacketModel, UntypedPacket};

verus! {

/// Versions strictly increase along the sequence.
pub open spec fn sorted_by_version(s: Seq<PacketModel>) -> bool {
    forall|i: int, j: int|
        0 <= i < j < s.len() ==> (#[trigger] s[i]).version.timestamp
            < (#[trigger] s[j]).version.timestamp
}

/// Some packet in the sequence carries version `t`.
pub open spec fn contains_version(s: Seq<PacketModel>, t: u64) -> bool {
    exists|i: int| 0 <= i < s.len() && (#[trigger] s[i]).version.timestamp == t
}

pub open spec fn version_index(s: Seq<PacketModel>, t: u64) -> int {
    choose|i: int| 0 <= i < s.len() && (#[trigger] s[i]).version.timestamp == t
}

/// The packet carrying version `t`; meaningful when `contains_version` holds
/// and the sequence is sorted, which makes the packet unique.
pub open spec fn packet_at(s: Seq<PacketModel>, t: u64) -> PacketModel {
    s[version_index(s, t)]
}

/// What a successful bounded insertion does to the stored packets: the new
/// packet joins the set, and when the buffer was full the smallest version
/// among old and new is silently dropped.
pub open spec fn inserted_model(
    pre: Seq<PacketModel>,
    m: PacketModel,
    cap: usize,
    post: Seq<PacketModel>,
) -> bool {
    let t = m.version.timestamp;
    if pre.len() < cap {
        &&& post.len() == pre.len() + 1
        &&& forall|t2: u64| #[trigger]
            contains_version(post, t2) <==> contains_version(pre, t2) || t2 == t
        &&& packet_at(post, t) == m
        &&& forall|t2: u64|
            contains_version(pre, t2) && t2 != t ==> #[trigger] packet_at(post, t2) == packet_at(
                pre,
                t2,
            )
    } else {
        let dropped = if pre[0].version.timestamp < t {
            pre[0].version.timestamp
        } else {
            t
        };
        &&& post.len() == pre.len()
        &&& forall|t2: u64| #[trigger]
            contains_version(post, t2) <==> (contains_version(pre, t2) || t2 == t) && t2 != dropped
        &&& t != dropped ==> packet_at(post, t) == m
        &&& forall|t2: u64|
            contains_version(post, t2) && t2 != t ==> #[trigger] packet_at(post, t2) == packet_at(
                pre,
                t2,
            )
    }
}

/// The packet found at a contained version carries that version.
pub proof fn lemma_packet_at_version(s: Seq<PacketModel>, t: u64)
    requires
        contains_version(s, t),
    ensures
        0 <= version_index(s, t) < s.len(),
        packet_at(s, t).version.timestamp == t,
{
    let i = version_index(s, t);
    assert(0 <= i < s.len() && s[i].version.timestamp == t);
}

proof fn lemma_at_index(s: Seq<PacketModel>, t: u64, i: int)
    requires
        sorted_by_version(s),
        0 <= i < s.len(),
        s[i].version.timestamp == t,
    ensures
        contains_version(s, t),
        version_index(s, t) == i,
        packet_at(s, t) == s[i],
{
    assert(contains_version(s, t));
    let k = version_index(s, t);
    if k < i {
        assert(false);
    } else if k > i {
        assert(false);
    }
}

proof fn lemma_insert_effect(pre: Seq<PacketModel>, m: PacketModel, i: int)
    requires
        sorted_by_version(pre),
        0 <= i <= pre.len(),
        forall|j: int| 0 <= j < i ==> (#[trigger] pre[j]).version.timestamp < m.version.timestamp,
        forall|j: int|
            i <= j < pre.len() ==> (#[trigger] pre[j]).version.timestamp > m.version.timestamp,
    ensures
        sorted_by_version(pre.insert(i, m)),
        pre.insert(i, m).len() == pre.len() + 1,
        forall|t2: u64| #[trigger]
            contains_version(pre.insert(i, m), t2) <==> contains_version(pre, t2) || t2
                == m.version.timestamp,
        packet_at(pre.insert(i, m), m.version.timestamp) == m,
        forall|t2: u64|
            contains_version(pre, t2) && t2 != m.version.timestamp ==> #[trigger] packet_at(
                pre.insert(i, m),
                t2,
            ) == packet_at(pre, t2),
{
    let post = pre.insert(i, m);
    let t = m.version.timestamp;
    assert forall|a: int, b: int| 0 <= a < b < post.len() implies (#[trigger] post[a]).version.timestamp
        < (#[trigger] post[b]).version.timestamp by {
        if a < i {
            assert(post[a] == pre[a]);
        } else if a == i {
            assert(post[a] == m);
        } else {
            assert(post[a] == pre[a - 1]);
        }
        if b < i {
            assert(post[b] == pre[b]);
        } else if b == i {
            assert(post[b] == m);
        } else {
            assert(post[b] == pre[b - 1]);
        }
    }
    assert forall|t2: u64| #[trigger]
        contains_version(post, t2) implies contains_version(pre, t2) || t2 == t by {
        let k = choose|k: int| 0 <= k < post.len() && (#[trigger] post[k]).version.timestamp == t2;
        if k < i {
            assert(pre[k].version.timestamp == t2);
        } else if k > i {
            assert(pre[k - 1].version.timestamp == t2);
        }
    }
    assert forall|t2: u64|
        contains_version(pre, t2) || t2 == t implies #[trigger] contains_version(post, t2) by {
        if t2 == t {
            assert(post[i].version.timestamp == t);
        } else {
            let k = choose|k: int|
                0 <= k < pre.len() && (#[trigger] pre[k]).version.timestamp == t2;
            if k < i {
                assert(post[k].version.timestamp == t2);
            } else {
                assert(post[k + 1].version.timestamp == t2);
            }
        }
    }
    assert(post[i] == m);
    lemma_at_index(post, t, i);
    assert forall|t2: u64|
        contains_version(pre, t2) && t2 != t implies #[trigger] packet_at(post, t2) == packet_at(
        pre,
        t2,
    ) by {
        let k = choose|k: int| 0 <= k < pre.len() && (#[trigger] pre[k]).version.timestamp == t2;
        lemma_at_index(pre, t2, k);
        if k < i {
            assert(post[k] == pre[k]);
            lemma_at_index(post, t2, k);
        } else {
            assert(post[k + 1] == pre[k]);
            lemma_at_index(post, t2, k + 1);
        }
    }
}

proof fn lemma_evict_front(s: Seq<PacketModel>)
    requires
        sorted_by_version(s),
        s.len() >= 1,
    ensures
        sorted_by_version(s.drop_first()),
        forall|t2: u64| #[trigger]
            contains_version(s.drop_first(), t2) <==> contains_version(s, t2) && t2
                != s[0].version.timestamp,
        forall|t2: u64|
            contains_version(s.drop_first(), t2) ==> #[trigger] packet_at(s.drop_first(), t2)
                == packet_at(s, t2),
{
    let post = s.drop_first();
    assert forall|t2: u64| #[trigger]
        contains_version(post, t2) implies contains_version(s, t2) && t2
        != s[0].version.timestamp by {
        let k = choose|k: int| 0 <= k < post.len() && (#[trigger] post[k]).version.timestamp == t2;
        assert(post[k] == s[k + 1]);
        assert(s[k + 1].version.timestamp == t2);
        assert(s[0].version.timestamp < s[k + 1].version.timestamp);
    }
    assert forall|t2: u64|
        contains_version(s, t2) && t2 != s[0].version.timestamp implies #[trigger] contains_version(
        post,
        t2,
    ) by {
        let k = choose|k: int| 0 <= k < s.len() && (#[trigger] s[k]).version.timestamp == t2;
        assert(k != 0);
        assert(post[k - 1] == s[k]);
        assert(post[k - 1].version.timestamp == t2);
    }
    assert forall|t2: u64|
        contains_version(post, t2) implies #[trigger] packet_at(post, t2) == packet_at(s, t2) by {
        let k = choose|k: int| 0 <= k < post.len() && (#[trigger] post[k]).version.timestamp == t2;
        assert(post[k] == s[k + 1]);
        lemma_at_index(post, t2, k);
        lemma_at_index(s, t2, k + 1);
    }
}

proof fn lemma_remove_at(pre: Seq<PacketModel>, i: int)
    requires
        sorted_by_version(pre),
        0 <= i < pre.len(),
    ensures
        sorted_by_version(pre.remove(i)),
        forall|t2: u64| #[trigger]
            contains_version(pre.remove(i), t2) <==> contains_version(pre, t2) && t2
                != pre[i].version.timestamp,
        forall|t2: u64|
            contains_version(pre.remove(i), t2) ==> #[trigger] packet_at(pre.remove(i), t2)
                == packet_at(pre, t2),
{
    let post = pre.remove(i);
    let t = pre[i].version.timestamp;
    assert forall|a: int, b: int| 0 <= a < b < post.len() implies (#[trigger] post[a]).version.timestamp
        < (#[trigger] post[b]).version.timestamp by {
        if a < i {
            assert(post[a] == pre[a]);
        } else {
            assert(post[a] == pre[a + 1]);
        }
        if b < i {
            assert(post[b] == pre[b]);
        } else {
            assert(post[b] == pre[b + 1]);
        }
    }
    assert forall|t2: u64| #[trigger]
        contains_version(post, t2) implies contains_version(pre, t2) && t2 != t by {
        let k = choose|k: int| 0 <= k < post.len() && (#[trigger] post[k]).version.timestamp == t2;
        let k0 = if k < i {
            k
        } else {
            k + 1
        };
        assert(post[k] == pre[k0]);
        assert(pre[k0].version.timestamp == t2);
        lemma_at_index(pre, t2, k0);
        if t2 == t {
            lemma_at_index(pre, t, i);
            assert(false);
        }
    }
    assert forall|t2: u64|
        contains_version(pre, t2) && t2 != t implies #[trigger] contains_version(post, t2) by {
        let k = choose|k: int| 0 <= k < pre.len() && (#[trigger] pre[k]).version.timestamp == t2;
        assert(k != i);
        if k < i {
            assert(post[k] == pre[k]);
        } else {
            assert(post[k - 1] == pre[k]);
        }
    }
    assert forall|t2: u64|
        contains_version(post, t2) implies #[trigger] packet_at(post, t2) == packet_at(pre, t2) by {
        let k = choose|k: int| 0 <= k < post.len() && (#[trigger] post[k]).version.timestamp == t2;
        let k0 = if k < i {
            k
        } else {
            k + 1
        };
        assert(post[k] == pre[k0]);
        lemma_at_index(post, t2, k);
        lemma_at_index(pre, t2, k0);
    }
}

/// A single channel's buffer: packets held in strictly ascending version
/// order, holding at most `max_size` entries; on overflow the entry with
/// the smallest version is evicted.
pub struct FixedSizeOrdered {
    items: Vec<UntypedPacket>,
    max_size: usize,
}

impl View for FixedSizeOrdered {
    type V = Seq<PacketModel>;

    closed spec fn view(&self) -> Seq<PacketModel> {
        self.items@.map_values(|p: UntypedPacket| p@)
    }
}

impl FixedSizeOrdered {
    pub closed spec fn capacity(self) -> usize {
        self.max_size
    }

    pub open spec fn wf(self) -> bool {
        &&& sorted_by_version(self@)
        &&& self@.len() <= self.capacity()
        &&& self.capacity() >= 1
    }

    pub fn new(max_size: usize) -> (r: Self)
        requires
            max_size >= 1,
        ensures
            r@ == Seq::<PacketModel>::empty(),
            r.capacity() == max_size,
            r.wf(),
    {
        let r = FixedSizeOrdered { items: Vec::new(), max_size };
        proof {
            assert(r@ =~= Seq::<PacketModel>::empty());
        }
        r
    }

    pub fn len(&self) -> (r: usize)
        ensures
            r == self@.len(),
    {
        self.items.len()
    }

    /// The version of the `i`-th stored packet, in ascending order.
    pub fn version_at(&self, i: usize) -> (r: DataVersion)
        requires
            i < self@.len(),
        ensures
            r == self@[i as int].version,
    {
        self.items[i].version
    }

    fn position_of(&self, t: u64) -> (r: Option<usize>)
        ensures
            match r {
                Some(i) => i < self@.len() && self@[i as int].version.timestamp == t,
                None => !contains_version(self@, t),
            },
    {
        let mut i: usize = 0;
        while i < self.items.len()
            invariant
                i <= self.items.len(),
                forall|j: int| 0 <= j < i ==> (#[trigger] self@[j]).version.timestamp != t,
            decreases self.items.len() - i,
        {
            if self.items[i].version.timestamp == t {
                return Some(i);
            }
            i += 1;
        }
        None
    }

    pub fn contains_key(&self, version: &DataVersion) -> (r: bool)
        ensures
            r == contains_version(self@, version.timestamp),
    {
        match self.position_of(version.timestamp) {
            Some(i) => {
                proof {
                    assert(contains_version(self@, version.timestamp));
                }
                true
            },
            None => false,
        }
    }

    /// Point read; the buffer is not changed.
    pub fn get(&self, version: &DataVersion) -> (r: Option<&UntypedPacket>)
        requires
            self.wf(),
        ensures
            r is Some <==> contains_version(self@, version.timestamp),
            r matches Some(p) ==> p@ == packet_at(self@, version.timestamp),
    {
        match self.position_of(version.timestamp) {
            Some(i) => {
                proof {
                    lemma_at_index(self@, version.timestamp, i as int);
                }
                Some(&self.items[i])
            },
            None => None,
        }
    }

    /// Drops every stored packet; the capacity is kept.
    pub fn clear(&mut self)
        requires
            old(self).wf(),
        ensures
            final(self).wf(),
            final(self).capacity() == old(self).capacity(),
            final(self)@ == Seq::<PacketModel>::empty(),
    {
        self.items.clear();
        proof {
            assert(self@ =~= Seq::<PacketModel>::empty());
        }
    }

    /// Inserts the packet under its own version. A version already stored is
    /// rejected; on overflow the smallest version is evicted silently.
    pub fn insert(&mut self, packet: UntypedPacket) -> (r: Result<(), BufferError>)
        requires
            old(self).wf(),
        ensures
            final(self).wf(),
            final(self).capacity() == old(self).capacity(),
            r is Err <==> contains_version(old(self)@, packet.version.timestamp),
            r matches Err(e) ==> e == BufferError::DuplicateVersion(packet.version) && final(self)@
                == old(self)@,
            r is Ok ==> inserted_model(
                old(self)@,
                packet@,
                old(self).capacity(),
                final(self)@,
            ),
    {
        let ghost pre = self@;
        let t = packet.version.timestamp;
        if self.contains_key(&packet.version) {
            return Err(BufferError::DuplicateVersion(packet.version));
        }
        let mut i: usize = 0;
        while i < self.items.len() && self.items[i].version.timestamp < t
            invariant
                i <= self.items.len(),
                self@ == pre,
                forall|j: int| 0 <= j < i ==> (#[trigger] pre[j]).version.timestamp < t,
            decreases self.items.len() - i,
        {
            i += 1;
        }
        proof {
            if i < pre.len() {
                assert(pre[i as int].version.timestamp != t) by {
                    if pre[i as int].version.timestamp == t {
                        lemma_at_index(pre, t, i as int);
                    }
                }
            }
            assert forall|j: int| i <= j < pre.len() implies (#[trigger] pre[j]).version.timestamp
                > t by {
                if j > i {
                    assert(pre[i as int].version.timestamp < pre[j].version.timestamp);
                }
            }
        }
        let ghost m = packet@;
        self.items.insert(i, packet);
        proof {
            assert(self@ =~= pre.insert(i as int, m));
            lemma_insert_effect(pre, m, i as int);
        }
        if self.items.len() > self.max_size {
            let ghost mid = self@;
            let _ = self.items.remove(0);
            proof {
                assert(self@ =~= mid.drop_first());
                lemma_evict_front(mid);
                assert(pre.len() == self.max_size);
                let dropped = if pre[0].version.timestamp < t {
                    pre[0].version.timestamp
                } else {
                    t
                };
                assert(mid[0].version.timestamp == dropped) by {
                    if i == 0 {
                        assert(mid[0] == m);
                        assert(pre[0] == mid[1]);
                    } else {
                        assert(mid[0] == pre[0]);
                        assert(pre[0].version.timestamp < t);
                    }
                }
                assert forall|t2: u64|
                    contains_version(self@, t2) && t2 != t implies #[trigger] packet_at(self@, t2)
                    == packet_at(pre, t2) by {
                    assert(packet_at(self@, t2) == packet_at(mid, t2));
                    assert(contains_version(mid, t2));
                    assert(contains_version(pre, t2) || t2 == t);
                }
                if t != dropped {
                    assert(contains_version(self@, t));
                    assert(packet_at(self@, t) == packet_at(mid, t));
                }
            }
        }
        Ok(())
    }

    /// Removes and returns the packet stored under `version`, if any.
    pub fn remove(&mut self, version: &DataVersion) -> (r: Option<UntypedPacket>)
        requires
            old(self).wf(),
        ensures
            final(self).wf(),
            final(self).capacity() == old(self).capacity(),
            r is Some <==> contains_version(old(self)@, version.timestamp),
            r matches Some(p) ==> p@ == packet_at(old(self)@, version.timestamp),
            forall|t2: u64| #[trigger]
                contains_version(final(self)@, t2) <==> contains_version(old(self)@, t2) && t2
                    != version.timestamp,
            forall|t2: u64|
                contains_version(final(self)@, t2) ==> #[trigger] packet_at(final(self)@, t2)
                    == packet_at(old(self)@, t2),
    {
        let ghost pre = self@;
        match self.position_of(version.timestamp) {
            Some(i) => {
                proof {
                    lemma_at_index(pre, version.timestamp, i as int);
                }
                let p = self.items.remove(i);
                proof {
                    assert(self@ =~= pre.remove(i as int));
                    lemma_remove_at(pre, i as int);
                }
                Some(p)
            },
            None => None,
        }
    }

    /// Erases every entry with a version strictly below `version`.
    pub fn cleanup_before(&mut self, version: &DataVersion)
        requires
            old(self).wf(),
        ensures
            final(self).wf(),
            final(self).capacity() == old(self).capacity(),
            forall|t2: u64| #[trigger]
                contains_version(final(self)@, t2) <==> contains_version(old(self)@, t2) && t2
                    >= version.timestamp,
            forall|t2: u64|
                contains_version(final(self)@, t2) ==> #[trigger] packet_at(final(self)@, t2)
                    == packet_at(old(self)@, t2),
    {
        let ghost pre = self@;
        let t = version.timestamp;
        while self.items.len() > 0 && self.items[0].version.timestamp < t
            invariant
                self.wf(),
                self.capacity() == old(self).capacity(),
                forall|t2: u64| #[trigger]
                    contains_version(self@, t2) ==> contains_version(pre, t2),
                forall|t2: u64|
                    contains_version(pre, t2) && t2 >= t ==> #[trigger] contains_version(
                        self@,
                        t2,
                    ),
                forall|t2: u64|
                    contains_version(self@, t2) ==> #[trigger] packet_at(self@, t2) == packet_at(
                        pre,
                        t2,
                    ),
            decreases self.items.len(),
        {
            let ghost mid = self@;
            let _ = self.items.remove(0);
            proof {
                assert(self@ =~= mid.drop_first());
                lemma_evict_front(mid);
                assert(mid[0].version.timestamp < t);
            }
        }
        proof {
            assert forall|t2: u64| #[trigger]
                contains_version(self@, t2) implies t2 >= t by {
                let k = choose|k: int|
                    0 <= k < self@.len() && (#[trigger] self@[k]).version.timestamp == t2;
                if k > 0 {
                    assert(self@[0].version.timestamp < self@[k].version.timestamp);
                }
            }
        }
    }
}

} // verus!
