//! Tests for identifiers, buckets, the routing table, and the dispatcher.
use dht_rs::bucket::RangeEnd;
use dht_rs::kademlia::KademliaTable;
use dht_rs::node::{Node, NodeAddr, NodeID};
use dht_rs::DHTTable;

fn id_from(bytes: [u8; 20]) -> NodeID {
    NodeID::wrap(bytes)
}

fn node_with_id(bytes: [u8; 20]) -> Node {
    Node::new(id_from(bytes), NodeAddr::new([0, 0, 0, 0], 6881), 1000)
}

/// Find a key in decoded dictionary entries.
fn dict_lookup<'a>(
    entries: &'a [(Vec<u8>, dht_rs::bencode::BValue)],
    key: &[u8],
) -> &'a dht_rs::bencode::BValue {
    for (k, v) in entries.iter() {
        if k.as_slice() == key {
            return v;
        }
    }
    panic!("missing key");
}

/// Sum of all bucket sizes.
fn total_contacts(table: &KademliaTable) -> usize {
    let mut total = 0;
    for i in 0..table.bucket_count() {
        total += table.bucket_at(i).size();
    }
    total
}

/// The bucket ranges partition the identifier space: the first bucket
/// starts at zero, each bucket ends where the next begins, and the last
/// bucket runs to the end of the space.
fn check_partition(table: &KademliaTable) {
    let n = table.bucket_count();
    assert!(n >= 1);
    assert_eq!(table.bucket_at(0).range_from(), dht_rs::hash::min_hash());
    for i in 0..n {
        match table.bucket_at(i).range_to() {
            RangeEnd::At(h) => {
                assert!(i + 1 < n, "only the last bucket may run to the top");
                assert_eq!(h, table.bucket_at(i + 1).range_from());
            },
            RangeEnd::Top => assert_eq!(i + 1, n),
        }
    }
}

/// Every contact lies in its bucket's range, and no bucket is over K = 8.
fn check_contents(table: &KademliaTable) {
    for i in 0..table.bucket_count() {
        let b = table.bucket_at(i);
        assert!(b.size() <= 8);
        for j in 0..b.size() {
            assert!(b.node_in_range(&b.node_at(j).id));
        }
    }
}

#[test]
fn auto_splite_test() {
    let mut table = KademliaTable::new(NodeID::random());
    let mut v = vec![];
    for _i in 0..9 {
        let n = Node::random();
        v.push(n.id);
        table.insert_node(n);
    }
    // nine contacts force at least one split, and the first split is always
    // at the midpoint of the whole space, 0x80 00...00
    assert!(table.bucket_count() >= 2);
    let mut half = [0u8; 20];
    half[0] = 0x80;
    let expected = id_from(half);
    let mut found = false;
    for i in 0..table.bucket_count() {
        if table.bucket_at(i).range_from() == expected {
            found = true;
        }
    }
    assert!(found);
    check_partition(&table);
    check_contents(&table);
}

#[test]
fn split_with_fixed_ids() {
    // S2: nine fixed identifiers spread over the space
    let mut table = KademliaTable::new(id_from([0u8; 20]));
    let mut tops: Vec<u8> = vec![0x20, 0x40, 0x60, 0x80, 0xA0, 0xC0, 0xE0];
    let mut first = [0u8; 20];
    first[19] = 0x01;
    table.insert_node(node_with_id(first));
    for t in tops.drain(..) {
        let mut id = [0u8; 20];
        id[0] = t;
        table.insert_node(node_with_id(id));
    }
    table.insert_node(node_with_id([0xFF; 20]));
    assert!(table.bucket_count() >= 2);
    assert_eq!(table.bucket_at(0).range_from(), dht_rs::hash::min_hash());
    let mut half = [0u8; 20];
    half[0] = 0x80;
    let expected = id_from(half);
    let found = (0..table.bucket_count()).any(|i| table.bucket_at(i).range_from() == expected);
    assert!(found);
    assert_eq!(total_contacts(&table), 9);
    check_partition(&table);
    check_contents(&table);
}

#[test]
fn midpoint_scenario() {
    // S1: a = 0x00...00FF, b = 0x00...01FF, mid = 0x00...017F
    let mut a = [0u8; 20];
    a[19] = 0xFF;
    let mut b = [0u8; 20];
    b[18] = 0x01;
    b[19] = 0xFF;
    let m = dht_rs::hash::mid(&id_from(a), &id_from(b));
    let mut expected = [0u8; 20];
    expected[18] = 0x01;
    expected[19] = 0x7F;
    assert_eq!(m, id_from(expected));
}

#[test]
fn midpoint_laws() {
    // mid(a, a) = a
    let a = id_from([0x42; 20]);
    assert_eq!(dht_rs::hash::mid(&a, &a), a);
    // mid(MIN, MAX) has top byte 0x7F and remaining bytes 0xFF
    let m = dht_rs::hash::mid(&dht_rs::hash::min_hash(), &dht_rs::hash::max_hash());
    let mut expected = [0xFF; 20];
    expected[0] = 0x7F;
    assert_eq!(m, id_from(expected));
}

#[test]
fn hex_rendering() {
    let mut bytes = [0u8; 20];
    bytes[0] = 0x0F;
    bytes[1] = 0xA0;
    bytes[19] = 0xFF;
    let s = id_from(bytes).to_string();
    assert_eq!(s, "0fa00000000000000000000000000000000000ff");
}

#[test]
fn insert_replaces_same_id() {
    // P4: inserting the same contact twice leaves the same observable state
    let mut table = KademliaTable::new(id_from([0u8; 20]));
    let n = node_with_id([0x11; 20]);
    table.insert_node(n);
    let count1 = table.bucket_count();
    let total1 = total_contacts(&table);
    table.insert_node(n);
    assert_eq!(table.bucket_count(), count1);
    assert_eq!(total_contacts(&table), total1);
    let found = table.find_contact(&id_from([0x11; 20]));
    assert!(found.is_some());
}

#[test]
fn refresh_updates_last_active() {
    let mut table = KademliaTable::new(id_from([0u8; 20]));
    table.insert_node(node_with_id([0x11; 20]));
    let newer = Node::new(id_from([0x11; 20]), NodeAddr::new([9, 9, 9, 9], 1), 2000);
    table.insert_node(newer);
    assert_eq!(total_contacts(&table), 1);
    let found = table.find_contact(&id_from([0x11; 20])).unwrap();
    assert_eq!(found.last_active, 2000);
    assert_eq!(found.addr, NodeAddr::new([9, 9, 9, 9], 1));
}

#[test]
fn closest_orders_by_xor() {
    // P7 on concrete values: target 0x10...; candidates at known distances
    let mut table = KademliaTable::new(id_from([0u8; 20]));
    table.insert_node(node_with_id([0x10; 20]));
    table.insert_node(node_with_id([0x13; 20]));
    table.insert_node(node_with_id([0xF0; 20]));
    let mut target = [0x10u8; 20];
    target[19] = 0x11;
    let r = table.closest(&id_from(target), 2);
    assert_eq!(r.len(), 2);
    // distances: 0x10.. differs only in trailing bytes, 0x13.. next, 0xF0.. far
    assert_eq!(r[0].id, id_from([0x10; 20]));
    assert_eq!(r[1].id, id_from([0x13; 20]));
    let all = table.closest(&id_from(target), 10);
    assert_eq!(all.len(), 3);
    assert_eq!(all[2].id, id_from([0xF0; 20]));
}

#[test]
fn node_liveness() {
    let n = Node::new(id_from([1; 20]), NodeAddr::new([127, 0, 0, 1], 6881), 1000);
    assert!(n.is_good_at(1000));
    assert!(n.is_good_at(1000 + 899));
    assert!(!n.is_good_at(1000 + 900));
    // a contact from the future does not count as good
    assert!(!n.is_good_at(999));
}

#[test]
fn handle_query_ping() {
    let mut table = DHTTable::new();
    let ping = dht_rs::krpc::QPing { id: NodeID::random() };
    let message = dht_rs::krpc::KMessage {
        transaction_id: "tt".as_bytes().to_vec(),
        request: dht_rs::krpc::KRequest::Query(dht_rs::krpc::QueryBody::Ping(ping)),
    };
    let addr = NodeAddr::new([0, 0, 0, 0], 3333);
    let resp = table.handle_message(addr, message, 1000);
    let resp = resp.expect("ping earns a response");
    assert_eq!(resp.transaction_id, "tt".as_bytes().to_vec());
    match resp.request {
        dht_rs::krpc::KRequest::Response(body) => {
            assert_eq!(body.id, table.self_id());
            assert!(body.token.is_none());
            assert!(body.remote.is_none());
        },
        _ => panic!("expected a response body"),
    }
}

#[test]
fn handle_query_find_node() {
    let mut table = DHTTable::new();
    let body = dht_rs::krpc::QFindNode { id: NodeID::random(), target: NodeID::random() };
    let message = dht_rs::krpc::KMessage {
        transaction_id: "tt".as_bytes().to_vec(),
        request: dht_rs::krpc::KRequest::Query(dht_rs::krpc::QueryBody::FindNode(body)),
    };
    let addr = NodeAddr::new([0, 0, 0, 0], 3333);
    let resp = table.handle_message(addr, message, 1000);
    assert!(resp.is_some());
}

#[test]
fn dispatcher_learns_sender() {
    // S5: after an inbound find_node from X at E, the table knows X at E
    let mut table = DHTTable::new();
    let x = id_from([0x77; 20]);
    let e = NodeAddr::new([10, 1, 2, 3], 4567);
    let message = dht_rs::krpc::KMessage {
        transaction_id: b"xy".to_vec(),
        request: dht_rs::krpc::KRequest::Query(dht_rs::krpc::QueryBody::FindNode(
            dht_rs::krpc::QFindNode { id: x, target: id_from([0x09; 20]) },
        )),
    };
    table.handle_message(e, message, 1000);
    let learned = table.find_contact(&x).expect("sender was learned");
    assert_eq!(learned.addr, e);
    assert_eq!(learned.last_active, 1000);
}

#[test]
fn dispatcher_response_shape() {
    // S6: the emitted datagram bdecodes to a dict with y=r, the inbound
    // transaction id under t, and the responder's id under r.id
    let mut table = DHTTable::new();
    let x = id_from([0x77; 20]);
    let e = NodeAddr::new([10, 1, 2, 3], 4567);
    let message = dht_rs::krpc::KMessage {
        transaction_id: b"xy".to_vec(),
        request: dht_rs::krpc::KRequest::Query(dht_rs::krpc::QueryBody::FindNode(
            dht_rs::krpc::QFindNode { id: x, target: id_from([0x09; 20]) },
        )),
    };
    let datagram = dht_rs::krpc::encode_message_bytes(&message);
    let out = table
        .handle_message_bytes(e, datagram.as_slice(), 1000)
        .expect("find_node earns a datagram");
    let decoded = dht_rs::bencode::bdecode(out.as_slice()).expect("response is valid bencode");
    let entries = match decoded {
        dht_rs::bencode::BValue::Dict(entries) => entries,
        _ => panic!("response is a dictionary"),
    };
    match dict_lookup(&entries, b"y") {
        dht_rs::bencode::BValue::BString(y) => assert_eq!(y, &b"r".to_vec()),
        _ => panic!("y is a string"),
    }
    match dict_lookup(&entries, b"t") {
        dht_rs::bencode::BValue::BString(t) => assert_eq!(t, &b"xy".to_vec()),
        _ => panic!("t is a string"),
    }
    match dict_lookup(&entries, b"r") {
        dht_rs::bencode::BValue::Dict(rd) => {
            let mut found = false;
            for (k, v) in rd.iter() {
                if k.as_slice() == b"id" {
                    match v {
                        dht_rs::bencode::BValue::BString(idb) => {
                            assert_eq!(idb.as_slice(), &table.self_id().val[..]);
                            found = true;
                        },
                        _ => panic!("r.id is a string"),
                    }
                }
            }
            assert!(found, "r.id present");
        },
        _ => panic!("r is a dictionary"),
    }
}

#[test]
fn malformed_datagram_is_dropped() {
    let mut table = DHTTable::new();
    let e = NodeAddr::new([10, 1, 2, 3], 4567);
    let out = table.handle_message_bytes(e, b"definitely not bencode", 1000);
    assert!(out.is_none());
}
