use kadstore::dht::{Insertion, Peer, RoutingTable, K_VALUE};
use kadstore::digest::{be_less, xor_distance};
use kadstore::lookup::Lookup;

fn peer(id: [u8; 32], addr: &str) -> Peer {
    Peer { node_id: id, address: addr.to_string() }
}

fn id_with_last(b: u8) -> [u8; 32] {
    let mut id = [0u8; 32];
    id[31] = b;
    id
}

#[test]
fn self_insertion_is_ignored() {
    let local = [9u8; 32];
    let mut t = RoutingTable::new(local);
    let r = t.add_peer(peer(local, "me"));
    assert!(matches!(r, Insertion::Ignored));
    assert!(t.buckets.iter().all(|b| b.is_empty()));
}

#[test]
fn bucket_of_all_ones_from_zero_is_255() {
    let t = RoutingTable::new([0u8; 32]);
    assert_eq!(t.bucket_index(&[0xffu8; 32]), 255);
    assert_eq!(t.bucket_index(&[0u8; 32]), 0);
    assert_eq!(t.bucket_index(&id_with_last(1)), 0);
    assert_eq!(t.bucket_index(&id_with_last(2)), 1);
    assert_eq!(t.bucket_index(&id_with_last(200)), 7);
}

#[test]
fn routing_table_fill_bucket_seven() {
    let mut t = RoutingTable::new([0u8; 32]);
    let mut full = 0;
    for k in 0..25u8 {
        let p = peer(id_with_last(128 + k), &format!("p{}", k));
        match t.add_peer(p.clone()) {
            Insertion::Added => {}
            Insertion::BucketFull(incumbent) => {
                full += 1;
                // the least recently seen peer is the first one inserted
                assert_eq!(incumbent.node_id, id_with_last(128));
                let r = t.settle_full_bucket(p, true);
                assert!(matches!(r, Insertion::Kept));
            }
            _ => panic!("unexpected insertion outcome"),
        }
    }
    assert_eq!(full, 5);
    assert_eq!(t.buckets[7].len(), K_VALUE);
    assert_eq!(t.buckets[7].len(), 20);
    for k in 20..25u8 {
        assert!(t.buckets[7].iter().all(|p| p.node_id != id_with_last(128 + k)));
    }
}

#[test]
fn bucket_overflow_evicts_unresponsive() {
    let mut t = RoutingTable::new([0u8; 32]);
    for k in 0..20u8 {
        t.add_peer(peer(id_with_last(128 + k), "x"));
    }
    let newcomer = peer(id_with_last(250), "new");
    let r = t.add_peer(newcomer.clone());
    assert!(matches!(r, Insertion::BucketFull(_)));
    assert_eq!(t.buckets[7].len(), 20);
    let r = t.settle_full_bucket(newcomer, false);
    match r {
        Insertion::Evicted(old) => assert_eq!(old.node_id, id_with_last(128)),
        _ => panic!("expected an eviction"),
    }
    assert_eq!(t.buckets[7].len(), 20);
    assert_eq!(t.buckets[7][0].node_id, id_with_last(250));
    assert!(t.buckets[7].iter().all(|p| p.node_id != id_with_last(128)));
}

#[test]
fn reinsertion_moves_to_front_without_growth() {
    let mut t = RoutingTable::new([0u8; 32]);
    for k in 0..5u8 {
        t.add_peer(peer(id_with_last(128 + k), "x"));
    }
    // the front is the most recent
    assert_eq!(t.buckets[7][0].node_id, id_with_last(132));
    let r = t.add_peer(peer(id_with_last(130), "x"));
    assert!(matches!(r, Insertion::Refreshed));
    assert_eq!(t.buckets[7].len(), 5);
    assert_eq!(t.buckets[7][0].node_id, id_with_last(130));
    let r = t.add_peer(peer(id_with_last(130), "x"));
    assert!(matches!(r, Insertion::Refreshed));
    assert_eq!(t.buckets[7].len(), 5);
}

#[test]
fn find_closest_sorted_and_bounded() {
    let mut t = RoutingTable::new([0u8; 32]);
    let mut ids = Vec::new();
    for k in 1..=40u8 {
        let mut id = [0u8; 32];
        id[0] = k.wrapping_mul(37);
        id[31] = k;
        ids.push(id);
        t.add_peer(peer(id, "x"));
    }
    let mut target = [0u8; 32];
    target[0] = 0x55;
    let r = t.find_closest_peers(&target);
    let stored: usize = t.buckets.iter().map(|b| b.len()).sum();
    assert_eq!(r.len(), std::cmp::min(K_VALUE, stored));
    for w in r.windows(2) {
        let d0 = xor_distance(&w[0].node_id, &target);
        let d1 = xor_distance(&w[1].node_id, &target);
        assert!(be_less(&d0, &d1));
    }
    let last = xor_distance(&r[r.len() - 1].node_id, &target);
    for b in &t.buckets {
        for p in b {
            if !r.iter().any(|q| q.node_id == p.node_id) {
                let d = xor_distance(&p.node_id, &target);
                assert!(be_less(&last, &d));
            }
        }
    }
}

#[test]
fn find_closest_fewer_than_k() {
    let mut t = RoutingTable::new([0u8; 32]);
    t.add_peer(peer(id_with_last(5), "a"));
    t.add_peer(peer(id_with_last(3), "b"));
    t.add_peer(peer([0xffu8; 32], "c"));
    let r = t.find_closest(&[0u8; 32], 2);
    assert_eq!(r.len(), 2);
    assert_eq!(r[0].node_id, id_with_last(3));
    assert_eq!(r[1].node_id, id_with_last(5));
    let all = t.find_closest_peers(&[0u8; 32]);
    assert_eq!(all.len(), 3);
    assert_eq!(all[2].address, "c");
    assert!(t.find_closest(&[0u8; 32], 0).is_empty());
}

#[test]
fn bootstrap_self_lookup_fills_bucket_255() {
    let zeros = [0u8; 32];
    let ones = [0xffu8; 32];
    let mut a = RoutingTable::new(zeros);
    let mut b = RoutingTable::new(ones);
    // A pings B; B learns A on receipt, A learns B from the answer
    b.add_peer(peer(zeros, "A"));
    a.add_peer(peer(ones, "B"));
    // A looks itself up
    let mut lookup = Lookup::new(zeros, &a.find_closest_peers(&zeros));
    loop {
        let wave = lookup.next_wave();
        if wave.is_empty() {
            break;
        }
        for p in &wave {
            // B's answer names A itself, which A can answer from its own table
            let responder = if p.node_id == ones { &b } else { &a };
            lookup.absorb(&responder.find_closest_peers(&zeros));
        }
    }
    for p in lookup.result() {
        a.add_peer(p);
    }
    assert!(a.buckets[255].iter().any(|p| p.node_id == ones));
    assert_eq!(a.bucket_index(&ones), 255);
}

#[test]
fn lookup_waves_take_closest_unqueried() {
    let target = [0u8; 32];
    let initial: Vec<Peer> = (1..=5u8).rev().map(|k| peer(id_with_last(k), "x")).collect();
    let mut l = Lookup::new(target, &initial);
    assert_eq!(l.shortlist.len(), 5);
    assert_eq!(l.shortlist[0].node_id, id_with_last(1));
    let w1 = l.next_wave();
    assert_eq!(w1.len(), 3);
    assert_eq!(w1[0].node_id, id_with_last(1));
    assert_eq!(w1[2].node_id, id_with_last(3));
    let joined = l.absorb(&vec![peer(id_with_last(1), "dup"), peer(id_with_last(9), "y")]);
    assert!(joined);
    assert_eq!(l.shortlist.len(), 6);
    assert!(!l.absorb(&vec![peer(id_with_last(9), "again")]));
    let w2 = l.next_wave();
    assert_eq!(w2.len(), 3);
    assert_eq!(w2[0].node_id, id_with_last(4));
    assert_eq!(w2[2].node_id, id_with_last(9));
    assert!(l.next_wave().is_empty());
    assert_eq!(l.result().len(), 6);
}
