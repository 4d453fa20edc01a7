use kademlia::guid::{Distance, GUID, GUID_LEN};
use kademlia::node::Location;
use kademlia::routing::{Bucket, RoutingTable, BUCKET_LEN, BUCKET_SIZE};
use kademlia::util::leading_zeros;

fn peer(id: [u8; GUID_LEN], port: u16) -> Location {
    Location { id: GUID(id), ip: "127.0.0.1".to_string(), port }
}

#[test]
fn test_bucket_idx() {
    let id1 = GUID([0; GUID_LEN]);
    let mut id2 = GUID([0; GUID_LEN]);
    assert_eq!(Bucket::find_index(&id1, &id2), 255);

    id2 = GUID([1; GUID_LEN]);
    assert_eq!(Bucket::find_index(&id1, &id2), 7);

    id2 = GUID([128; GUID_LEN]);
    assert_eq!(Bucket::find_index(&id1, &id2), 0);

    id2 = GUID([4; GUID_LEN]);
    assert_eq!(Bucket::find_index(&id1, &id2), 5);

    id2 = GUID([8; GUID_LEN]);
    assert_eq!(Bucket::find_index(&id1, &id2), 4);
}

#[test]
fn test_leading_zeros() {
    let mut i = 0;
    let mut bit_leading_zeros = 8;
    while bit_leading_zeros != 0 {
        assert_eq!(leading_zeros(i), bit_leading_zeros);
        if i == 0 || i == 1 {
            i += 1
        } else {
            i *= 2
        }
        bit_leading_zeros -= 1;
    }
    assert_eq!(leading_zeros(i), bit_leading_zeros);
}

#[test]
fn leading_zeros_of_other_bytes() {
    assert_eq!(leading_zeros(0x7f), 1);
    assert_eq!(leading_zeros(0x03), 6);
    assert_eq!(leading_zeros(0xff), 0);
}

#[test]
fn bucket_index_of_later_bytes() {
    let a = GUID([0; GUID_LEN]);
    let mut b = [0u8; GUID_LEN];
    b[1] = 0x01;
    assert_eq!(Bucket::find_index(&a, &GUID(b)), 15);
    let mut c = [0u8; GUID_LEN];
    c[31] = 0x01;
    assert_eq!(Bucket::find_index(&a, &GUID(c)), 255);
    c[31] = 0x02;
    assert_eq!(Bucket::find_index(&a, &GUID(c)), 254);
}

#[test]
fn bucket_index_is_symmetric_and_self_is_last() {
    let a = GUID([0x5a; GUID_LEN]);
    let b = GUID([0x13; GUID_LEN]);
    assert_eq!(Bucket::find_index(&a, &b), Bucket::find_index(&b, &a));
    assert_eq!(Bucket::find_index(&a, &b), Bucket::find_index(&a, &b));
    assert_eq!(Bucket::find_index(&a, &a), 255);
}

#[test]
fn distance_is_symmetric_and_zero_to_self() {
    let a = GUID([0x0f; GUID_LEN]);
    let mut bb = [0x33u8; GUID_LEN];
    bb[0] = 0xf0;
    let b = GUID(bb);
    let d1 = Distance::calc(&a, &b);
    let d2 = Distance::calc(&b, &a);
    assert_eq!(d1.0, d2.0);
    assert_eq!(d1.0[0], 0xff);
    assert_eq!(d1.0[1], 0x3c);
    assert_eq!(Distance::calc(&a, &a).0, [0u8; GUID_LEN]);
}

#[test]
fn new_table_has_empty_buckets() {
    let t = RoutingTable::new();
    assert_eq!(t.0.len(), BUCKET_LEN);
    assert!(t.0.iter().all(|b| b.0.is_empty()));
}

#[test]
fn full_bucket_keeps_first_peers() {
    let me = GUID([0; GUID_LEN]);
    let mut t = RoutingTable::new();
    for k in 0..25u8 {
        let mut id = [0u8; GUID_LEN];
        id[0] = 0x80;
        id[31] = k;
        t.insert(me, peer(id, 9000 + k as u16));
    }
    let b = &t.0[0];
    assert_eq!(b.0.len(), BUCKET_SIZE);
    for (i, loc) in b.0.iter().enumerate() {
        assert_eq!(loc.id.0[31], i as u8);
    }
    for i in 1..BUCKET_LEN {
        assert!(t.0[i].0.is_empty());
    }
}

#[test]
fn insert_same_peer_twice_keeps_one() {
    let me = GUID([0; GUID_LEN]);
    let mut t = RoutingTable::new();
    let p = peer([1; GUID_LEN], 9000);
    t.insert(me, p.clone());
    t.insert(me, p.clone());
    assert_eq!(t.0[7].0.len(), 1);
    // the same identifier at another address replaces the entry
    let mut q = p.clone();
    q.port = 9001;
    t.insert(me, q.clone());
    assert_eq!(t.0[7].0, vec![q]);
}

#[test]
fn remove_drops_only_that_peer() {
    let me = GUID([0; GUID_LEN]);
    let mut t = RoutingTable::new();
    let p = peer([1; GUID_LEN], 9000);
    let mut other = [1u8; GUID_LEN];
    other[31] = 2;
    let q = peer(other, 9001);
    t.insert(me, p.clone());
    t.insert(me, q.clone());
    t.remove(&me, &p.id);
    assert_eq!(t.0[7].0, vec![q.clone()]);
    t.remove(&me, &p.id);
    assert_eq!(t.0[7].0, vec![q]);
}

#[test]
fn nearest_nodes_sorted_and_counted() {
    let me = GUID([0; GUID_LEN]);
    let mut t = RoutingTable::new();
    let ids: [u8; 5] = [0x80, 0x40, 0x20, 0x10, 0x01];
    for (k, b) in ids.iter().enumerate() {
        t.insert(me, peer([*b; GUID_LEN], 9000 + k as u16));
    }
    let target = GUID([0x21; GUID_LEN]);
    let r = t.nearest_nodes_to_id(&me, &target);
    assert_eq!(r.len(), 5);
    let firsts: Vec<u8> = r.iter().map(|l| l.id.0[0]).collect();
    assert_eq!(firsts, vec![0x20, 0x01, 0x10, 0x40, 0x80]);
}

#[test]
fn nearest_nodes_cut_to_a_bucket() {
    let me = GUID([0; GUID_LEN]);
    let mut t = RoutingTable::new();
    for k in 0..30u8 {
        let mut id = [0u8; GUID_LEN];
        id[0] = 1 << (k % 8);
        id[31] = k;
        t.insert(me, peer(id, 9000 + k as u16));
    }
    let total: usize = t.0.iter().map(|b| b.0.len()).sum();
    assert_eq!(total, 30);
    let target = GUID([0; GUID_LEN]);
    let r = t.nearest_nodes_to_id(&me, &target);
    assert_eq!(r.len(), BUCKET_SIZE);
    for w in r.windows(2) {
        let d0 = Distance::calc(&w[0].id, &target).0;
        let d1 = Distance::calc(&w[1].id, &target).0;
        assert!(d0 <= d1);
    }
}

#[test]
fn nearest_nodes_of_empty_table() {
    let me = GUID([0; GUID_LEN]);
    let t = RoutingTable::new();
    assert!(t.nearest_nodes_to_id(&me, &GUID([3; GUID_LEN])).is_empty());
}
