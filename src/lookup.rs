//! The iterative FIND_NODE / FIND_VALUE lookup as a state machine. The caller sends each wave
//! of queries and hands the replies back; the decisions (whom to ask, when to stop, what the
//! result is) are made here.
use crate::dht::{has_id, offer_closest, sorted_by_distance, Peer, K_VALUE};
use crate::digest::same_id;
use vstd::prelude::*;

verus! {

/// Number of peers queried at once.
pub const ALPHA: usize = 3;

/// The state of one lookup for `target`.
pub struct Lookup {
    pub target: [u8; 32],
    /// The candidates, in strictly increasing XOR distance from the target.
    pub shortlist: Vec<Peer>,
    /// The identifiers of the peers already queried.
    pub queried: Vec<[u8; 32]>,
}

/// The identifiers of a sequence of peers.
pub open spec fn ids(s: Seq<Peer>) -> Seq<[u8; 32]> {
    s.map_values(|p: Peer| p.node_id)
}

/// The number of leading candidates that decide termination.
pub open spec fn horizon(len: int) -> int {
    if len < K_VALUE {
        len
    } else {
        K_VALUE as int
    }
}

impl Lookup {
    /// The lookup's invariant: the shortlist is sorted by distance, hence free of duplicates.
    pub open spec fn wf(&self) -> bool {
        sorted_by_distance(self.shortlist@, self.target)
    }

    /// Whether the `K_VALUE` closest candidates have all been queried.
    pub open spec fn finished(&self) -> bool {
        forall|j: int|
            0 <= j < horizon(self.shortlist@.len() as int) ==> self.queried@.contains(
                #[trigger] self.shortlist@[j].node_id,
            )
    }

    /// A lookup for `target` starting from the peers `initial`; a peer whose identifier was
    /// already taken is skipped.
    pub fn new(target: [u8; 32], initial: &Vec<Peer>) -> (r: Lookup)
        requires
            initial@.len() < usize::MAX,
        ensures
            r.wf(),
            r.target == target,
            r.queried@.len() == 0,
            forall|q: Peer| #[trigger] r.shortlist@.contains(q) ==> initial@.contains(q),
            forall|k: int| 0 <= k < initial@.len() ==> has_id(r.shortlist@, #[trigger] initial@[k].node_id),
    {
        let mut r = Lookup { target, shortlist: Vec::new(), queried: Vec::new() };
        r.absorb(initial);
        r
    }

    /// Whether `id` was queried.
    pub fn was_queried(&self, id: &[u8; 32]) -> (r: bool)
        ensures
            r == self.queried@.contains(*id),
    {
        let mut i: usize = 0;
        while i < self.queried.len()
            invariant
                0 <= i <= self.queried@.len(),
                forall|k: int| 0 <= k < i ==> self.queried@[k] != *id,
            decreases self.queried@.len() - i,
        {
            if same_id(&self.queried[i], id) {
                return true;
            }
            i = i + 1;
        }
        false
    }

    /// Whether some candidate has identifier `id`.
    fn in_shortlist(&self, id: &[u8; 32]) -> (r: bool)
        ensures
            r == has_id(self.shortlist@, *id),
    {
        let mut i: usize = 0;
        while i < self.shortlist.len()
            invariant
                0 <= i <= self.shortlist@.len(),
                forall|k: int| 0 <= k < i ==> self.shortlist@[k].node_id != *id,
            decreases self.shortlist@.len() - i,
        {
            if same_id(&self.shortlist[i].node_id, id) {
                return true;
            }
            i = i + 1;
        }
        false
    }

    /// The next wave: the first at most `ALPHA` candidates among the `K_VALUE` closest that
    /// were not queried yet, now marked as queried. An empty wave means the lookup is over.
    pub fn next_wave(&mut self) -> (r: Vec<Peer>)
        requires
            old(self).wf(),
        ensures
            final(self).wf(),
            final(self).target == old(self).target,
            final(self).shortlist@ == old(self).shortlist@,
            final(self).queried@ == old(self).queried@ + ids(r@),
            r@.len() <= ALPHA,
            forall|k: int|
                0 <= k < r@.len() ==> exists|j: int|
                    0 <= j < horizon(old(self).shortlist@.len() as int) && old(self).shortlist@[j]
                        == #[trigger] r@[k] && !old(self).queried@.contains(r@[k].node_id),
            forall|k1: int, k2: int|
                0 <= k1 < k2 < r@.len() ==> #[trigger] r@[k1].node_id != #[trigger] r@[k2].node_id,
            r@.len() == 0 <==> old(self).finished(),
            r@.len() < ALPHA ==> final(self).finished(),
    {
        let ghost old_q = self.queried@;
        let ghost old_s = self.shortlist@;
        let ghost old_t = self.target;
        let len = self.shortlist.len();
        let limit = if len < K_VALUE {
            len
        } else {
            K_VALUE
        };
        let mut wave: Vec<Peer> = Vec::new();
        let mut j: usize = 0;
        while j < limit && wave.len() < ALPHA
            invariant
                self.wf(),
                self.shortlist@ == old_s,
                self.target == old_t,
                limit == horizon(self.shortlist@.len() as int),
                0 <= j <= limit,
                wave@.len() <= ALPHA,
                self.queried@ == old_q + ids(wave@),
                forall|k: int|
                    0 <= k < wave@.len() ==> exists|j2: int|
                        0 <= j2 < j && self.shortlist@[j2] == #[trigger] wave@[k]
                            && !old_q.contains(wave@[k].node_id),
                forall|k1: int, k2: int|
                    0 <= k1 < k2 < wave@.len() ==> #[trigger] wave@[k1].node_id
                        != #[trigger] wave@[k2].node_id,
                forall|j2: int| 0 <= j2 < j ==> self.queried@.contains(#[trigger] self.shortlist@[j2].node_id),
                wave@.len() == 0 ==> forall|j2: int| 0 <= j2 < j ==> old_q.contains(#[trigger] self.shortlist@[j2].node_id),
            decreases limit - j,
        {
            let p = &self.shortlist[j];
            if !self.was_queried(&p.node_id) {
                let ghost old_wave = wave@;
                let ghost q_before = self.queried@;
                proof {
                    assert forall|k: int| 0 <= k < old_wave.len() implies #[trigger] old_wave[k].node_id
                        != p.node_id by {
                        assert(q_before.contains(old_wave[k].node_id)) by {
                            assert(ids(old_wave)[k] == old_wave[k].node_id);
                            assert(q_before[old_q.len() + k] == old_wave[k].node_id);
                        }
                    }
                }
                wave.push(p.duplicate());
                self.queried.push(p.node_id);
                proof {
                    assert(ids(wave@) =~= ids(old_wave).push(p.node_id));
                    assert(self.queried@ =~= old_q + ids(wave@));
                    assert(self.queried@[self.queried@.len() - 1] == p.node_id);
                    assert forall|j2: int| 0 <= j2 < j + 1 implies self.queried@.contains(
                        #[trigger] self.shortlist@[j2].node_id,
                    ) by {
                        if j2 < j {
                            let w = choose|w: int|
                                0 <= w < q_before.len() && q_before[w] == self.shortlist@[j2].node_id;
                            assert(self.queried@[w] == q_before[w]);
                        }
                    }
                    assert forall|k: int| 0 <= k < wave@.len() implies exists|j2: int|
                        0 <= j2 < j + 1 && self.shortlist@[j2] == #[trigger] wave@[k]
                            && !old_q.contains(wave@[k].node_id) by {
                        if k == old_wave.len() {
                            assert(self.shortlist@[j as int] == wave@[k]);
                            assert(!old_q.contains(wave@[k].node_id) && 0 <= j < j + 1) by {
                                if old_q.contains(p.node_id) {
                                    let w = choose|w: int| 0 <= w < old_q.len() && old_q[w] == p.node_id;
                                    assert(q_before[w] == p.node_id);
                                }
                            }
                        } else {
                            assert(wave@[k] == old_wave[k]);
                            let j2 = choose|j2: int|
                                0 <= j2 < j && self.shortlist@[j2] == #[trigger] old_wave[k]
                                    && !old_q.contains(old_wave[k].node_id);
                            assert(0 <= j2 < j + 1 && self.shortlist@[j2] == wave@[k]
                                && !old_q.contains(wave@[k].node_id));
                        }
                    }
                }
            } else {
                proof {
                    if wave@.len() == 0 {
                        assert(ids(wave@) =~= Seq::<[u8; 32]>::empty());
                        assert(self.queried@ =~= old_q);
                    }
                }
            }
            j = j + 1;
        }
        proof {
            if wave@.len() < ALPHA {
                assert(j == limit);
            }
            if wave@.len() == 0 {
                assert(j == limit);
            } else {
                let k = 0;
                let j2 = choose|j2: int|
                    0 <= j2 < j && self.shortlist@[j2] == #[trigger] wave@[k] && !old_q.contains(
                        wave@[k].node_id,
                    );
                assert(!old_q.contains(self.shortlist@[j2].node_id));
            }
        }
        wave
    }

    /// Takes in the peers of one reply: each peer whose identifier is not a candidate yet joins
    /// the shortlist at its place by distance. Returns whether any joined.
    pub fn absorb(&mut self, peers: &Vec<Peer>) -> (r: bool)
        requires
            old(self).wf(),
            old(self).shortlist@.len() + peers@.len() < usize::MAX,
        ensures
            final(self).wf(),
            final(self).target == old(self).target,
            final(self).queried@ == old(self).queried@,
            forall|q: Peer| #[trigger] old(self).shortlist@.contains(q) ==> final(self).shortlist@.contains(q),
            forall|q: Peer|
                final(self).shortlist@.contains(q) ==> old(self).shortlist@.contains(q)
                    || peers@.contains(q),
            forall|k: int| 0 <= k < peers@.len() ==> has_id(final(self).shortlist@, #[trigger] peers@[k].node_id),
            r <==> exists|k: int| 0 <= k < peers@.len() && !has_id(old(self).shortlist@, #[trigger] peers@[k].node_id),
    {
        let ghost old_s = self.shortlist@;
        let mut found = false;
        let mut i: usize = 0;
        while i < peers.len()
            invariant
                self.wf(),
                self.target == old(self).target,
                self.queried@ == old(self).queried@,
                0 <= i <= peers@.len(),
                self.shortlist@.len() <= old_s.len() + i,
                old_s.len() + peers@.len() < usize::MAX,
                forall|q: Peer| old_s.contains(q) ==> self.shortlist@.contains(q),
                forall|q: Peer|
                    self.shortlist@.contains(q) ==> old_s.contains(q) || peers@.subrange(0, i as int).contains(q),
                forall|k: int| 0 <= k < i ==> has_id(self.shortlist@, #[trigger] peers@[k].node_id),
                forall|id: [u8; 32]| has_id(old_s, id) ==> has_id(self.shortlist@, id),
                found <==> exists|k: int| 0 <= k < i && !has_id(old_s, #[trigger] peers@[k].node_id),
            decreases peers@.len() - i,
        {
            let p = &peers[i];
            let ghost before = self.shortlist@;
            if !self.in_shortlist(&p.node_id) {
                let count = self.shortlist.len() + 2;
                proof {
                    assert forall|k: int| 0 <= k < before.len() implies #[trigger] before[k].node_id
                        != p.node_id by {}
                }
                offer_closest(&mut self.shortlist, p, &self.target, count);
                proof {
                    let after = self.shortlist@;
                    assert(after.contains(*p));
                    assert forall|q: Peer| before.contains(q) implies after.contains(q) by {}
                    assert forall|id: [u8; 32]| has_id(before, id) implies has_id(after, id) by {
                        let j = choose|j: int| 0 <= j < before.len() && before[j].node_id == id;
                        assert(before.contains(before[j]));
                        let m = choose|m: int| 0 <= m < after.len() && after[m] == before[j];
                    }
                    assert forall|q: Peer| after.contains(q) implies old_s.contains(q) || peers@.subrange(
                        0,
                        i + 1,
                    ).contains(q) by {
                        if q == *p {
                            assert(peers@.subrange(0, i + 1)[i as int] == q);
                        } else if !old_s.contains(q) {
                            let k = choose|k: int| 0 <= k < i && peers@.subrange(0, i as int)[k] == q;
                            assert(peers@.subrange(0, i + 1)[k] == q);
                        }
                    }
                    let m = choose|m: int| 0 <= m < after.len() && after[m] == *p;
                    assert(has_id(after, p.node_id));
                    if !has_id(old_s, p.node_id) {
                        assert(!has_id(old_s, peers@[i as int].node_id));
                    } else {
                        assert(has_id(before, p.node_id));
                    }
                }
                found = true;
            } else {
                proof {
                    if !has_id(old_s, p.node_id) {
                        // it joined from an earlier reply peer of this call
                        let k2 = choose|k2: int| 0 <= k2 < before.len() && before[k2].node_id == p.node_id;
                        assert(before.contains(before[k2]));
                        assert(!old_s.contains(before[k2]));
                        assert(peers@.contains(before[k2]));
                        let k3 = choose|k3: int|
                            0 <= k3 < i && peers@.subrange(0, i as int)[k3] == before[k2];
                        assert(peers@[k3] == before[k2]);
                        assert(!has_id(old_s, peers@[k3].node_id));
                    }
                    assert forall|q: Peer| self.shortlist@.contains(q) implies old_s.contains(q)
                        || peers@.subrange(0, i + 1).contains(q) by {
                        if !old_s.contains(q) {
                            let k = choose|k: int| 0 <= k < i && peers@.subrange(0, i as int)[k] == q;
                            assert(peers@.subrange(0, i + 1)[k] == q);
                        }
                    }
                }
            }
            i = i + 1;
        }
        proof {
            assert(peers@.subrange(0, i as int) =~= peers@);
        }
        found
    }

    /// The result: the `K_VALUE` closest candidates, in increasing distance.
    pub fn result(&self) -> (r: Vec<Peer>)
        requires
            self.wf(),
        ensures
            r@ == self.shortlist@.subrange(0, horizon(self.shortlist@.len() as int)),
    {
        let len = self.shortlist.len();
        let limit = if len < K_VALUE {
            len
        } else {
            K_VALUE
        };
        let mut r: Vec<Peer> = Vec::new();
        let mut i: usize = 0;
        while i < limit
            invariant
                limit == horizon(self.shortlist@.len() as int),
                0 <= i <= limit,
                r@ == self.shortlist@.subrange(0, i as int),
            decreases limit - i,
        {
            r.push(self.shortlist[i].duplicate());
            i = i + 1;
            assert(r@ =~= self.shortlist@.subrange(0, i as int));
        }
        r
    }
}

} // verus!
