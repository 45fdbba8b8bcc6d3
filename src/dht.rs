//! The Kademlia routing table: 256 buckets of peers binned by XOR log-distance.
use crate::digest::{
    all_zero, distance, lemma_be_value_zero, lemma_distance_injective, lemma_distance_zero,
    lemma_leading_zero_bits_bound, leading_zero_bits, leading_zeroes, same_id, xor_distance,
    xor_seq, closer_to,
};
use vstd::prelude::*;

verus! {

/// Bucket capacity, and the number of peers a closest-peer query returns.
pub const K_VALUE: usize = 20;

/// Number of buckets, one per bit of an identifier.
pub const BUCKET_COUNT: usize = 256;

/// A peer of the overlay: its identifier and the address it is reached at.
#[derive(Clone, Debug)]
pub struct Peer {
    pub node_id: [u8; 32],
    pub address: String,
}

impl Peer {
    /// A copy of this record.
    pub fn duplicate(&self) -> (r: Peer)
        ensures
            r == *self,
    {
        Peer { node_id: self.node_id, address: self.address.clone() }
    }
}

/// The bucket that a remote identifier falls into, seen from `local`.
pub open spec fn bucket_of(local: [u8; 32], id: [u8; 32]) -> int {
    if id == local {
        0
    } else {
        255 - leading_zero_bits(xor_seq(local@, id@))
    }
}

/// Whether some peer of `bucket` has identifier `id`.
pub open spec fn has_id(bucket: Seq<Peer>, id: [u8; 32]) -> bool {
    exists|j: int| 0 <= j < bucket.len() && bucket[j].node_id == id
}

/// The routing table of a node with identifier `local_node_id`.
pub struct RoutingTable {
    pub local_node_id: [u8; 32],
    pub buckets: Vec<Vec<Peer>>,
}

/// What inserting a peer did, or asks the caller to do.
pub enum Insertion {
    /// The peer is the local node: nothing changed.
    Ignored,
    /// The peer was known: it moved to the front of its bucket.
    Refreshed,
    /// The peer is new and its bucket had room: it stands at the front.
    Added,
    /// The bucket is full and unchanged. The least recently seen peer, given here, has to be
    /// pinged; the outcome goes to `settle_full_bucket`.
    BucketFull(Peer),
    /// The least recently seen peer did not answer: it left, and the new peer stands at the front.
    Evicted(Peer),
    /// The least recently seen peer answered: it stays and the new peer is dropped.
    Kept,
}

/// How `add_peer` changed the table `old` into `new` when inserting `peer` returned `r`.
pub open spec fn insertion_effect(old: RoutingTable, new: RoutingTable, peer: Peer, r: Insertion) -> bool {
    let b = bucket_of(old.local_node_id, peer.node_id);
    let old_b = old.bucket(b);
    let new_b = new.bucket(b);
    &&& new.local_node_id == old.local_node_id
    &&& (r is Ignored) <==> peer.node_id == old.local_node_id
    &&& r is Ignored ==> new.buckets@ == old.buckets@
    &&& !(r is Ignored) ==> forall|i: int| 0 <= i < 256 && i != b ==> new.bucket(i) == old.bucket(i)
    &&& !(r is Ignored) ==> ((r is Refreshed) <==> has_id(old_b, peer.node_id))
    &&& r is Refreshed ==> exists|j: int|
        0 <= j < old_b.len() && old_b[j].node_id == peer.node_id && new_b == seq![old_b[j]]
            + old_b.remove(j)
    &&& r is Refreshed ==> new_b.len() == old_b.len()
    &&& !(r is Ignored) && !has_id(old_b, peer.node_id) ==> ((r is Added) <==> old_b.len() < K_VALUE)
    &&& r is Added ==> new_b == seq![peer] + old_b
    &&& r is BucketFull ==> old_b.len() == K_VALUE && new_b == old_b && r->BucketFull_0
        == old_b.last()
    &&& !(r is Evicted) && !(r is Kept)
}

/// How `settle_full_bucket` changed the table `old` into `new` when settling the insertion of
/// `peer` returned `r`, the least recently seen peer having answered its ping or not.
pub open spec fn settlement_effect(
    old: RoutingTable,
    new: RoutingTable,
    peer: Peer,
    incumbent_responded: bool,
    r: Insertion,
) -> bool {
    let b = bucket_of(old.local_node_id, peer.node_id);
    let old_b = old.bucket(b);
    let new_b = new.bucket(b);
    let full = !has_id(old_b, peer.node_id) && old_b.len() >= K_VALUE;
    &&& new.local_node_id == old.local_node_id
    &&& (r is Ignored) <==> peer.node_id == old.local_node_id
    &&& r is Ignored ==> new.buckets@ == old.buckets@
    &&& !(r is Ignored) ==> forall|i: int| 0 <= i < 256 && i != b ==> new.bucket(i) == old.bucket(i)
    &&& !(r is Ignored) ==> ((r is Refreshed) <==> has_id(old_b, peer.node_id))
    &&& r is Refreshed ==> exists|j: int|
        0 <= j < old_b.len() && old_b[j].node_id == peer.node_id && new_b == seq![old_b[j]]
            + old_b.remove(j)
    &&& !(r is Ignored) && !has_id(old_b, peer.node_id) ==> ((r is Added) <==> old_b.len() < K_VALUE)
    &&& r is Added ==> new_b == seq![peer] + old_b
    &&& !(r is Ignored) && full ==> (incumbent_responded <==> r is Kept)
    &&& r is Kept ==> new_b == old_b
    &&& r is Evicted ==> r->Evicted_0 == old_b.last() && new_b == seq![peer] + old_b.drop_last()
    &&& !(r is BucketFull)
}

/// Position `(i2, j2)` comes before position `(i, j)` in bucket order.
pub open spec fn before(i2: int, j2: int, i: int, j: int) -> bool {
    i2 < i || (i2 == i && j2 < j)
}

impl RoutingTable {
    /// The peers of bucket `i`, front (most recently seen) first.
    pub open spec fn bucket(&self, i: int) -> Seq<Peer> {
        self.buckets@[i]@
    }

    /// Whether `p` stands in some bucket.
    pub open spec fn contains(&self, p: Peer) -> bool {
        exists|i: int, j: int|
            0 <= i < self.buckets@.len() && 0 <= j < self.bucket(i).len() && #[trigger] self.bucket(
                i,
            )[j] == p
    }

    /// The table's invariant: 256 buckets of at most `K_VALUE` peers, no identifier twice, the
    /// local node absent, and each peer in the bucket its identifier falls into.
    pub open spec fn wf(&self) -> bool {
        &&& self.buckets@.len() == BUCKET_COUNT
        &&& forall|i: int| 0 <= i < 256 ==> #[trigger] self.bucket(i).len() <= K_VALUE
        &&& forall|i: int, j: int|
            0 <= i < 256 && 0 <= j < self.bucket(i).len() ==> {
                &&& #[trigger] self.bucket(i)[j].node_id != self.local_node_id
                &&& bucket_of(self.local_node_id, self.bucket(i)[j].node_id) == i
            }
        &&& forall|i: int, j1: int, j2: int|
            0 <= i < 256 && 0 <= j1 < self.bucket(i).len() && 0 <= j2 < self.bucket(i).len()
                && j1 != j2 ==> #[trigger] self.bucket(i)[j1].node_id != #[trigger] self.bucket(
                i,
            )[j2].node_id
    }

    /// In a well-formed table every bucket holds at most `K_VALUE` peers, no identifier stands
    /// twice, the local node is absent, and each peer of bucket `i` has bucket index `i`.
    pub proof fn lemma_table_invariant(&self)
        requires
            self.wf(),
        ensures
            forall|i: int| 0 <= i < 256 ==> #[trigger] self.bucket(i).len() <= K_VALUE,
            forall|i1: int, j1: int, i2: int, j2: int|
                0 <= i1 < 256 && 0 <= i2 < 256 && 0 <= j1 < self.bucket(i1).len() && 0 <= j2
                    < self.bucket(i2).len() && (i1 != i2 || j1 != j2) ==> #[trigger] self.bucket(
                    i1,
                )[j1].node_id != #[trigger] self.bucket(i2)[j2].node_id,
            forall|i: int, j: int|
                0 <= i < 256 && 0 <= j < self.bucket(i).len() ==> bucket_of(
                    self.local_node_id,
                    #[trigger] self.bucket(i)[j].node_id,
                ) == i && self.bucket(i)[j].node_id != self.local_node_id,
    {
        assert forall|i1: int, j1: int, i2: int, j2: int|
            0 <= i1 < 256 && 0 <= i2 < 256 && 0 <= j1 < self.bucket(i1).len() && 0 <= j2
                < self.bucket(i2).len() && (i1 != i2 || j1 != j2) implies #[trigger] self.bucket(
                i1,
            )[j1].node_id != #[trigger] self.bucket(i2)[j2].node_id by {
            self.lemma_positions_distinct(i1, j1, i2, j2);
        }
    }

    /// An empty table for the node `local_node_id`.
    pub fn new(local_node_id: [u8; 32]) -> (r: RoutingTable)
        ensures
            r.wf(),
            r.local_node_id == local_node_id,
            forall|i: int| 0 <= i < 256 ==> r.bucket(i).len() == 0,
    {
        let mut buckets: Vec<Vec<Peer>> = Vec::new();
        let mut i: usize = 0;
        while i < BUCKET_COUNT
            invariant
                0 <= i <= 256,
                buckets@.len() == i,
                forall|k: int| 0 <= k < i ==> buckets@[k]@.len() == 0,
            decreases 256 - i,
        {
            buckets.push(Vec::new());
            i = i + 1;
        }
        RoutingTable { local_node_id, buckets }
    }

    /// Peers at two distinct positions of a well-formed table have distinct identifiers.
    pub proof fn lemma_positions_distinct(&self, i1: int, j1: int, i2: int, j2: int)
        requires
            self.wf(),
            0 <= i1 < 256,
            0 <= i2 < 256,
            0 <= j1 < self.bucket(i1).len(),
            0 <= j2 < self.bucket(i2).len(),
            i1 != i2 || j1 != j2,
        ensures
            self.bucket(i1)[j1].node_id != self.bucket(i2)[j2].node_id,
    {
        if i1 == i2 {
            assert(self.bucket(i1)[j1].node_id != self.bucket(i1)[j2].node_id);
        } else {
            assert(bucket_of(self.local_node_id, self.bucket(i1)[j1].node_id) == i1);
            assert(bucket_of(self.local_node_id, self.bucket(i2)[j2].node_id) == i2);
        }
    }

    /// A table that differs from a well-formed one in bucket `b` alone is well formed when that
    /// bucket is.
    proof fn lemma_wf_after_bucket_change(old_t: RoutingTable, new_t: RoutingTable, b: int)
        requires
            old_t.wf(),
            0 <= b < 256,
            new_t.local_node_id == old_t.local_node_id,
            new_t.buckets@.len() == 256,
            forall|i: int| 0 <= i < 256 && i != b ==> new_t.bucket(i) == old_t.bucket(i),
            new_t.bucket(b).len() <= K_VALUE,
            forall|j: int|
                0 <= j < new_t.bucket(b).len() ==> #[trigger] new_t.bucket(b)[j].node_id
                    != new_t.local_node_id && bucket_of(new_t.local_node_id, new_t.bucket(b)[j].node_id)
                    == b,
            forall|j1: int, j2: int|
                0 <= j1 < new_t.bucket(b).len() && 0 <= j2 < new_t.bucket(b).len() && j1 != j2
                    ==> #[trigger] new_t.bucket(b)[j1].node_id != #[trigger] new_t.bucket(b)[j2].node_id,
        ensures
            new_t.wf(),
    {
        assert forall|i: int| 0 <= i < 256 implies #[trigger] new_t.bucket(i).len() <= K_VALUE by {
            if i != b {
                assert(old_t.bucket(i).len() <= K_VALUE);
            }
        }
        assert forall|i: int, j: int| 0 <= i < 256 && 0 <= j < new_t.bucket(i).len() implies {
            &&& #[trigger] new_t.bucket(i)[j].node_id != new_t.local_node_id
            &&& bucket_of(new_t.local_node_id, new_t.bucket(i)[j].node_id) == i
        } by {
            if i != b {
                assert(old_t.bucket(i)[j].node_id != old_t.local_node_id);
            }
        }
        assert forall|i: int, j1: int, j2: int|
            0 <= i < 256 && 0 <= j1 < new_t.bucket(i).len() && 0 <= j2 < new_t.bucket(i).len()
                && j1 != j2 implies #[trigger] new_t.bucket(i)[j1].node_id
            != #[trigger] new_t.bucket(i)[j2].node_id by {
            if i != b {
                assert(old_t.bucket(i)[j1].node_id != old_t.bucket(i)[j2].node_id);
            }
        }
    }

    /// The bucket that `node_id` falls into.
    pub fn bucket_index(&self, node_id: &[u8; 32]) -> (r: usize)
        ensures
            r == bucket_of(self.local_node_id, *node_id),
            r < 256,
    {
        let d = xor_distance(&self.local_node_id, node_id);
        let lz = leading_zeroes(&d);
        proof {
            lemma_leading_zero_bits_bound(d@);
            if all_zero(d@) {
                lemma_be_value_zero(d@);
                lemma_distance_zero(self.local_node_id, *node_id);
            }
            if *node_id == self.local_node_id {
                lemma_distance_zero(self.local_node_id, *node_id);
                if !all_zero(d@) {
                    let k = choose|k: int| 0 <= k < 32 && d@[k] != 0;
                    let x = node_id@[k];
                    assert(x ^ x == 0) by (bit_vector);
                }
            }
        }
        if lz >= 256 {
            0
        } else {
            255 - lz
        }
    }

    /// Position of the peer with identifier `id` in bucket `b`, if it is there.
    fn position_in_bucket(&self, b: usize, id: &[u8; 32]) -> (r: Option<usize>)
        requires
            b < self.buckets@.len(),
        ensures
            match r {
                Some(j) => j < self.bucket(b as int).len() && self.bucket(b as int)[j as int].node_id
                    == *id,
                None => !has_id(self.bucket(b as int), *id),
            },
    {
        let bucket = &self.buckets[b];
        let mut j: usize = 0;
        while j < bucket.len()
            invariant
                bucket@ == self.bucket(b as int),
                0 <= j <= bucket@.len(),
                forall|k: int| 0 <= k < j ==> bucket@[k].node_id != *id,
            decreases bucket@.len() - j,
        {
            if same_id(&bucket[j].node_id, id) {
                return Some(j);
            }
            j = j + 1;
        }
        None
    }

    /// Inserts `peer`: a known peer moves to the front of its bucket, a new one goes to the
    /// front while its bucket has room. On a full bucket nothing changes and the least recently
    /// seen peer is returned, to be pinged.
    pub fn add_peer(&mut self, peer: Peer) -> (r: Insertion)
        requires
            old(self).wf(),
        ensures
            final(self).wf(),
            final(self).local_node_id == old(self).local_node_id,
            insertion_effect(*old(self), *final(self), peer, r),
    {
        if same_id(&self.local_node_id, &peer.node_id) {
            return Insertion::Ignored;
        }
        let b = self.bucket_index(&peer.node_id);
        match self.position_in_bucket(b, &peer.node_id) {
            Some(pos) => {
                self.move_to_front(b, pos);
                Insertion::Refreshed
            },
            None => {
                if self.buckets[b].len() < K_VALUE {
                    self.push_front(b, peer);
                    Insertion::Added
                } else {
                    let last = self.buckets[b].len() - 1;
                    let incumbent = self.buckets[b][last].duplicate();
                    Insertion::BucketFull(incumbent)
                }
            },
        }
    }

    /// Finishes the insertion of `peer` once the least recently seen peer of its full bucket
    /// was pinged: if it answered, it stays and `peer` is dropped; if not, it leaves and `peer`
    /// goes to the front. The bucket is looked at afresh, so a known peer is only refreshed and
    /// a bucket with room takes `peer` as `add_peer` would.
    pub fn settle_full_bucket(&mut self, peer: Peer, incumbent_responded: bool) -> (r: Insertion)
        requires
            old(self).wf(),
        ensures
            final(self).wf(),
            final(self).local_node_id == old(self).local_node_id,
            settlement_effect(*old(self), *final(self), peer, incumbent_responded, r),
    {
        if same_id(&self.local_node_id, &peer.node_id) {
            return Insertion::Ignored;
        }
        let b = self.bucket_index(&peer.node_id);
        match self.position_in_bucket(b, &peer.node_id) {
            Some(pos) => {
                self.move_to_front(b, pos);
                Insertion::Refreshed
            },
            None => {
                if self.buckets[b].len() < K_VALUE {
                    self.push_front(b, peer);
                    Insertion::Added
                } else if incumbent_responded {
                    Insertion::Kept
                } else {
                    let incumbent = self.drop_least_recent(b);
                    self.push_front(b, peer);
                    Insertion::Evicted(incumbent)
                }
            },
        }
    }

    /// Removes and returns the least recently seen peer of the non-empty bucket `b`.
    fn drop_least_recent(&mut self, b: usize) -> (r: Peer)
        requires
            old(self).wf(),
            b < 256,
            old(self).bucket(b as int).len() > 0,
        ensures
            final(self).wf(),
            final(self).local_node_id == old(self).local_node_id,
            r == old(self).bucket(b as int).last(),
            final(self).bucket(b as int) == old(self).bucket(b as int).drop_last(),
            forall|i: int| 0 <= i < 256 && i != b ==> final(self).bucket(i) == old(self).bucket(i),
    {
        let ghost old_t = *self;
        let r = self.buckets[b].pop();
        proof {
            let new_b = self.bucket(b as int);
            assert(new_b =~= old_t.bucket(b as int).drop_last());
            assert forall|j: int| 0 <= j < new_b.len() implies #[trigger] new_b[j].node_id
                != self.local_node_id && bucket_of(self.local_node_id, new_b[j].node_id) == b by {
                assert(new_b[j] == old_t.bucket(b as int)[j]);
                assert(old_t.bucket(b as int)[j].node_id != old_t.local_node_id);
            }
            assert forall|j1: int, j2: int|
                0 <= j1 < new_b.len() && 0 <= j2 < new_b.len() && j1 != j2 implies #[trigger] new_b[j1].node_id
                != #[trigger] new_b[j2].node_id by {
                assert(new_b[j1] == old_t.bucket(b as int)[j1]);
                assert(new_b[j2] == old_t.bucket(b as int)[j2]);
                assert(old_t.bucket(b as int)[j1].node_id != old_t.bucket(b as int)[j2].node_id);
            }
            Self::lemma_wf_after_bucket_change(old_t, *self, b as int);
        }
        match r {
            Some(p) => p,
            None => {
                proof {
                    assert(false);
                }
                Peer { node_id: [0u8; 32], address: String::new() }
            },
        }
    }

    /// Moves the peer at `pos` of bucket `b` to the front.
    fn move_to_front(&mut self, b: usize, pos: usize)
        requires
            old(self).wf(),
            b < 256,
            pos < old(self).bucket(b as int).len(),
        ensures
            final(self).wf(),
            final(self).local_node_id == old(self).local_node_id,
            final(self).bucket(b as int) == seq![old(self).bucket(b as int)[pos as int]] + old(
                self,
            ).bucket(b as int).remove(pos as int),
            forall|i: int| 0 <= i < 256 && i != b ==> final(self).bucket(i) == old(self).bucket(i),
    {
        let ghost old_t = *self;
        let ghost old_b = self.bucket(b as int);
        let p = self.buckets[b].remove(pos);
        self.buckets[b].insert(0, p);
        proof {
            let new_b = self.bucket(b as int);
            assert(new_b =~= seq![old_b[pos as int]] + old_b.remove(pos as int));
            // each new position holds the old peer at `src(j)`
            let src = |j: int| if j == 0 { pos as int } else if j <= pos { j - 1 } else { j };
            assert forall|j: int| 0 <= j < new_b.len() implies #[trigger] new_b[j] == old_b[src(j)]
                && 0 <= src(j) < old_b.len() by {}
            assert forall|j: int| 0 <= j < new_b.len() implies #[trigger] new_b[j].node_id
                != self.local_node_id && bucket_of(self.local_node_id, new_b[j].node_id) == b by {
                assert(new_b[j] == old_t.bucket(b as int)[src(j)]);
                assert(old_t.bucket(b as int)[src(j)].node_id != old_t.local_node_id);
            }
            assert forall|j1: int, j2: int|
                0 <= j1 < new_b.len() && 0 <= j2 < new_b.len() && j1 != j2 implies #[trigger] new_b[j1].node_id
                != #[trigger] new_b[j2].node_id by {
                assert(new_b[j1] == old_t.bucket(b as int)[src(j1)]);
                assert(new_b[j2] == old_t.bucket(b as int)[src(j2)]);
                assert(old_t.bucket(b as int)[src(j1)].node_id != old_t.bucket(b as int)[src(
                    j2,
                )].node_id);
            }
            Self::lemma_wf_after_bucket_change(old_t, *self, b as int);
        }
    }

    /// Puts a peer that bucket `b` lacks at its front; the bucket has room.
    fn push_front(&mut self, b: usize, peer: Peer)
        requires
            old(self).wf(),
            b < 256,
            b == bucket_of(old(self).local_node_id, peer.node_id),
            peer.node_id != old(self).local_node_id,
            !has_id(old(self).bucket(b as int), peer.node_id),
            old(self).bucket(b as int).len() < K_VALUE,
        ensures
            final(self).wf(),
            final(self).local_node_id == old(self).local_node_id,
            final(self).bucket(b as int) == seq![peer] + old(self).bucket(b as int),
            forall|i: int| 0 <= i < 256 && i != b ==> final(self).bucket(i) == old(self).bucket(i),
    {
        let ghost old_t = *self;
        let ghost old_b = self.bucket(b as int);
        self.buckets[b].insert(0, peer);
        proof {
            let new_b = self.bucket(b as int);
            assert(new_b =~= seq![peer] + old_b);
            assert forall|j: int| 0 <= j < new_b.len() implies #[trigger] new_b[j].node_id
                != self.local_node_id && bucket_of(self.local_node_id, new_b[j].node_id) == b by {
                if j > 0 {
                    assert(new_b[j] == old_t.bucket(b as int)[j - 1]);
                    assert(old_t.bucket(b as int)[j - 1].node_id != old_t.local_node_id);
                }
            }
            assert forall|j1: int, j2: int|
                0 <= j1 < new_b.len() && 0 <= j2 < new_b.len() && j1 != j2 implies #[trigger] new_b[j1].node_id
                != #[trigger] new_b[j2].node_id by {
                if j1 == 0 {
                    assert(new_b[j2] == old_b[j2 - 1]);
                } else if j2 == 0 {
                    assert(new_b[j1] == old_b[j1 - 1]);
                } else {
                    assert(new_b[j1] == old_t.bucket(b as int)[j1 - 1]);
                    assert(new_b[j2] == old_t.bucket(b as int)[j2 - 1]);
                    assert(old_t.bucket(b as int)[j1 - 1].node_id != old_t.bucket(b as int)[j2
                        - 1].node_id);
                }
            }
            Self::lemma_wf_after_bucket_change(old_t, *self, b as int);
        }
    }
}

/// Peers in strictly increasing XOR distance from `target`.
pub open spec fn sorted_by_distance(s: Seq<Peer>, target: [u8; 32]) -> bool {
    forall|k1: int, k2: int|
        0 <= k1 < k2 < s.len() ==> distance(#[trigger] s[k1].node_id, target) < distance(
            #[trigger] s[k2].node_id,
            target,
        )
}

/// Every peer of `s` is strictly closer to `target` than `q`.
pub open spec fn all_closer(s: Seq<Peer>, q: Peer, target: [u8; 32]) -> bool {
    forall|k: int| 0 <= k < s.len() ==> distance(#[trigger] s[k].node_id, target) < distance(q.node_id, target)
}

/// Offers `p` to `best`, the at most `count` peers closest to `target` seen so far, kept in
/// increasing distance.
pub fn offer_closest(best: &mut Vec<Peer>, p: &Peer, target: &[u8; 32], count: usize)
    requires
        sorted_by_distance(old(best)@, *target),
        old(best)@.len() <= count,
        forall|k: int| 0 <= k < old(best)@.len() ==> #[trigger] old(best)@[k].node_id != p.node_id,
    ensures
        sorted_by_distance(final(best)@, *target),
        final(best)@.len() == if old(best)@.len() < count {
            old(best)@.len() + 1
        } else {
            count as nat
        },
        forall|q: Peer| #[trigger] final(best)@.contains(q) ==> old(best)@.contains(q) || q == *p,
        forall|q: Peer|
            (old(best)@.contains(q) || q == *p) ==> #[trigger] final(best)@.contains(q) || (
            final(best)@.len() == count && all_closer(final(best)@, q, *target)),
        old(best)@.len() == count && count > 0 ==> forall|k: int|
            0 <= k < final(best)@.len() ==> distance(#[trigger] final(best)@[k].node_id, *target)
                <= distance(old(best)@.last().node_id, *target),
{
    let ghost old_best = best@;
    let mut pos: usize = 0;
    let mut stop = false;
    while !stop && pos < best.len()
        invariant
            best@ == old_best,
            0 <= pos <= best@.len(),
            forall|k: int| 0 <= k < pos ==> distance(#[trigger] best@[k].node_id, *target) < distance(
                p.node_id,
                *target,
            ),
            stop ==> pos < best@.len() && distance(best@[pos as int].node_id, *target) >= distance(
                p.node_id,
                *target,
            ),
        decreases best@.len() - pos + (if stop { 0int } else { 1int }),
    {
        if closer_to(&best[pos].node_id, &p.node_id, target) {
            pos = pos + 1;
        } else {
            stop = true;
        }
    }
    // from `pos` on, every peer is farther than `p`
    proof {
        if pos < best@.len() {
            if distance(best@[pos as int].node_id, *target) == distance(p.node_id, *target) {
                lemma_distance_injective(best@[pos as int].node_id, p.node_id, *target);
            }
            assert forall|k: int| pos <= k < best@.len() implies distance(
                #[trigger] best@[k].node_id,
                *target,
            ) > distance(p.node_id, *target) by {
                if k > pos {
                    assert(distance(best@[pos as int].node_id, *target) < distance(
                        best@[k].node_id,
                        *target,
                    ));
                }
            }
        }
    }
    if pos >= count {
        proof {
            assert(all_closer(best@, *p, *target));
        }
        return;
    }
    best.insert(pos, p.duplicate());
    let ghost inserted = best@;
    proof {
        assert(inserted =~= old_best.subrange(0, pos as int).push(*p) + old_best.subrange(
            pos as int,
            old_best.len() as int,
        ));
        assert forall|k: int| 0 <= k < inserted.len() implies #[trigger] inserted[k] == (if k
            < pos {
            old_best[k]
        } else if k == pos {
            *p
        } else {
            old_best[k - 1]
        }) by {}
    }
    if best.len() > count {
        best.pop();
    }
    proof {
        let fin = best@;
        assert(fin =~= inserted.subrange(0, fin.len() as int));
        assert forall|k1: int, k2: int| 0 <= k1 < k2 < fin.len() implies distance(
            #[trigger] fin[k1].node_id,
            *target,
        ) < distance(#[trigger] fin[k2].node_id, *target) by {
            assert(fin[k1] == inserted[k1]);
            assert(fin[k2] == inserted[k2]);
            if k2 < pos {
                assert(distance(old_best[k1].node_id, *target) < distance(
                    old_best[k2].node_id,
                    *target,
                ));
            } else if k1 > pos {
                assert(distance(old_best[k1 - 1].node_id, *target) < distance(
                    old_best[k2 - 1].node_id,
                    *target,
                ));
            } else if k1 < pos && k2 > pos {
                assert(distance(old_best[k1].node_id, *target) < distance(
                    old_best[k2 - 1].node_id,
                    *target,
                ));
            }
        }
        assert forall|q: Peer| #[trigger] fin.contains(q) implies old_best.contains(q) || q
            == *p by {
            let k = choose|k: int| 0 <= k < fin.len() && fin[k] == q;
            assert(inserted[k] == q);
            if k < pos {
                assert(old_best[k] == q);
            } else if k > pos {
                assert(old_best[k - 1] == q);
            }
        }
        assert forall|q: Peer|
            (old_best.contains(q) || q == *p) implies #[trigger] fin.contains(q) || (fin.len()
                == count && all_closer(fin, q, *target)) by {
            if q == *p {
                assert(fin[pos as int] == q);
            } else {
                let m = choose|m: int| 0 <= m < old_best.len() && old_best[m] == q;
                if m < pos {
                    assert(fin[m] == q);
                } else if m + 1 < fin.len() {
                    assert(fin[m + 1] == q);
                } else {
                    // `q` was the farthest peer and fell off the end
                    assert(m == old_best.len() - 1);
                    assert forall|k: int| 0 <= k < fin.len() implies distance(
                        #[trigger] fin[k].node_id,
                        *target,
                    ) < distance(q.node_id, *target) by {
                        if k < pos {
                            assert(distance(old_best[k].node_id, *target) < distance(
                                old_best[m].node_id,
                                *target,
                            ));
                        } else if k > pos {
                            assert(distance(old_best[k - 1].node_id, *target) < distance(
                                old_best[m].node_id,
                                *target,
                            ));
                        }
                    }
                }
            }
        }
        if old_best.len() == count && count > 0 {
            assert forall|k: int| 0 <= k < fin.len() implies distance(
                #[trigger] fin[k].node_id,
                *target,
            ) <= distance(old_best.last().node_id, *target) by {
                let last = old_best.len() - 1;
                if k < pos && k < last {
                    assert(distance(old_best[k].node_id, *target) < distance(
                        old_best[last].node_id,
                        *target,
                    ));
                } else if k > pos && k - 1 < last {
                    assert(distance(old_best[k - 1].node_id, *target) < distance(
                        old_best[last].node_id,
                        *target,
                    ));
                }
            }
        }
    }
}

impl RoutingTable {
    /// The `count` peers of the table closest to `target`, or all of them when there are fewer,
    /// in increasing XOR distance.
    pub open spec fn closest_ok(&self, target: [u8; 32], count: nat, r: Seq<Peer>) -> bool {
        &&& r.len() <= count
        &&& sorted_by_distance(r, target)
        &&& forall|k: int| 0 <= k < r.len() ==> self.contains(#[trigger] r[k])
        &&& forall|i: int, j: int|
            0 <= i < 256 && 0 <= j < self.bucket(i).len() ==> #[trigger] r.contains(
                self.bucket(i)[j],
            ) || (r.len() == count && all_closer(r, self.bucket(i)[j], target))
    }

    /// Whether `p` stands at a position of the table before `(i, j)`.
    pub open spec fn seen_before(&self, p: Peer, i: int, j: int) -> bool {
        exists|i2: int, j2: int|
            before(i2, j2, i, j) && 0 <= i2 && 0 <= j2 < self.bucket(i2).len() && #[trigger] self.bucket(
                i2,
            )[j2] == p
    }

    /// Whether every peer before position `(i, j)` is in `best`, or `best` holds `count` peers
    /// all closer than it.
    pub open spec fn covered_before(&self, best: Seq<Peer>, target: [u8; 32], count: nat, i: int, j: int) -> bool {
        forall|i2: int, j2: int|
            before(i2, j2, i, j) && 0 <= i2 && 0 <= j2 < self.bucket(i2).len() ==> #[trigger] best.contains(
                self.bucket(i2)[j2],
            ) || (best.len() == count && all_closer(best, self.bucket(i2)[j2], target))
    }

    /// The at most `count` known peers closest to `target`, in increasing XOR distance.
    pub fn find_closest(&self, target: &[u8; 32], count: usize) -> (r: Vec<Peer>)
        requires
            self.wf(),
        ensures
            self.closest_ok(*target, count as nat, r@),
    {
        let mut best: Vec<Peer> = Vec::new();
        let mut i: usize = 0;
        while i < BUCKET_COUNT
            invariant
                self.wf(),
                0 <= i <= 256,
                best@.len() <= count,
                sorted_by_distance(best@, *target),
                forall|k: int| 0 <= k < best@.len() ==> self.seen_before(#[trigger] best@[k], i as int, 0),
                self.covered_before(best@, *target, count as nat, i as int, 0),
            decreases 256 - i,
        {
            let bucket = &self.buckets[i];
            let mut j: usize = 0;
            while j < bucket.len()
                invariant
                    self.wf(),
                    0 <= i < 256,
                    bucket@ == self.bucket(i as int),
                    0 <= j <= bucket@.len(),
                    best@.len() <= count,
                    sorted_by_distance(best@, *target),
                    forall|k: int|
                        0 <= k < best@.len() ==> self.seen_before(#[trigger] best@[k], i as int, j as int),
                    self.covered_before(best@, *target, count as nat, i as int, j as int),
                decreases bucket@.len() - j,
            {
                let ghost old_best = best@;
                proof {
                    assert forall|k: int| 0 <= k < best@.len() implies #[trigger] best@[k].node_id
                        != bucket@[j as int].node_id by {
                        assert(self.seen_before(best@[k], i as int, j as int));
                        let (i2, j2) = choose|i2: int, j2: int|
                            before(i2, j2, i as int, j as int) && 0 <= i2 && 0 <= j2
                                < self.bucket(i2).len() && #[trigger] self.bucket(i2)[j2] == best@[k];
                        self.lemma_positions_distinct(i2, j2, i as int, j as int);
                    }
                }
                offer_closest(&mut best, &bucket[j], target, count);
                proof {
                    let p = bucket@[j as int];
                    assert forall|k: int| 0 <= k < best@.len() implies self.seen_before(
                        #[trigger] best@[k],
                        i as int,
                        j + 1,
                    ) by {
                        assert(best@.contains(best@[k]));
                        if best@[k] != p {
                            let m = choose|m: int| 0 <= m < old_best.len() && old_best[m] == best@[k];
                            assert(self.seen_before(old_best[m], i as int, j as int));
                            let (i2, j2) = choose|i2: int, j2: int|
                                before(i2, j2, i as int, j as int) && 0 <= i2 && 0 <= j2
                                    < self.bucket(i2).len() && #[trigger] self.bucket(i2)[j2]
                                    == old_best[m];
                            assert(before(i2, j2, i as int, j + 1));
                        } else {
                            assert(before(i as int, j as int, i as int, j + 1));
                            assert(self.bucket(i as int)[j as int] == p);
                        }
                    }
                    assert forall|i2: int, j2: int|
                        before(i2, j2, i as int, j + 1) && 0 <= i2 && 0 <= j2 < self.bucket(
                            i2,
                        ).len() implies #[trigger] best@.contains(self.bucket(i2)[j2]) || (
                        best@.len() == count && all_closer(best@, self.bucket(i2)[j2], *target)) by {
                        let q = self.bucket(i2)[j2];
                        if i2 == i && j2 == j {
                            assert(q == p);
                        } else {
                            assert(before(i2, j2, i as int, j as int));
                            if !old_best.contains(q) {
                                assert(old_best.len() == count && all_closer(old_best, q, *target));
                                if count > 0 {
                                    assert(distance(old_best.last().node_id, *target) < distance(
                                        q.node_id,
                                        *target,
                                    ));
                                }
                            }
                        }
                    }
                }
                j = j + 1;
            }
            proof {
                assert forall|k: int| 0 <= k < best@.len() implies self.seen_before(
                    #[trigger] best@[k],
                    i + 1,
                    0,
                ) by {
                    assert(self.seen_before(best@[k], i as int, j as int));
                    let (i2, j2) = choose|i2: int, j2: int|
                        before(i2, j2, i as int, j as int) && 0 <= i2 && 0 <= j2 < self.bucket(
                            i2,
                        ).len() && #[trigger] self.bucket(i2)[j2] == best@[k];
                    assert(before(i2, j2, i + 1, 0));
                }
                assert forall|i2: int, j2: int|
                    before(i2, j2, i + 1, 0) && 0 <= i2 && 0 <= j2 < self.bucket(i2).len() implies #[trigger] best@.contains(
                        self.bucket(i2)[j2],
                    ) || (best@.len() == count && all_closer(best@, self.bucket(i2)[j2], *target)) by {
                    assert(before(i2, j2, i as int, j as int));
                }
            }
            i = i + 1;
        }
        proof {
            assert forall|k: int| 0 <= k < best@.len() implies self.contains(#[trigger] best@[k]) by {
                assert(self.seen_before(best@[k], 256, 0));
                let (i2, j2) = choose|i2: int, j2: int|
                    before(i2, j2, 256, 0) && 0 <= i2 && 0 <= j2 < self.bucket(i2).len()
                        && #[trigger] self.bucket(i2)[j2] == best@[k];
            }
            assert forall|i2: int, j2: int|
                0 <= i2 < 256 && 0 <= j2 < self.bucket(i2).len() implies #[trigger] best@.contains(
                    self.bucket(i2)[j2],
                ) || (best@.len() == count && all_closer(best@, self.bucket(i2)[j2], *target)) by {
                assert(before(i2, j2, 256, 0));
            }
        }
        best
    }

    /// The `K_VALUE` known peers closest to `target`, in increasing XOR distance.
    pub fn find_closest_peers(&self, target_id: &[u8; 32]) -> (r: Vec<Peer>)
        requires
            self.wf(),
        ensures
            self.closest_ok(*target_id, K_VALUE as nat, r@),
    {
        self.find_closest(target_id, K_VALUE)
    }
}

} // verus!
